//! CBOR item heads in their shortest form.

use vstd::prelude::*;

verus! {

/// `n` as `k` big-endian bytes (modulo 256 to the `k`).
pub open spec fn be(n: nat, k: nat) -> Seq<u8>
    decreases k,
{
    if k == 0 {
        Seq::empty()
    } else {
        be(n / 256, (k - 1) as nat).push((n % 256) as u8)
    }
}

/// The value of big-endian bytes.
pub open spec fn be_value(s: Seq<u8>) -> nat
    decreases s.len(),
{
    if s.len() == 0 {
        0
    } else {
        be_value(s.drop_last()) * 256 + s.last() as nat
    }
}

pub open spec fn pow256(k: nat) -> nat
    decreases k,
{
    if k == 0 {
        1
    } else {
        256 * pow256((k - 1) as nat)
    }
}

/// The width, in bytes, of the argument that follows an initial byte with
/// additional information `info` (24 to 27).
pub open spec fn arg_width(info: nat) -> nat {
    if info == 24 {
        1
    } else if info == 25 {
        2
    } else if info == 26 {
        4
    } else {
        8
    }
}

/// The least argument that takes `arg_width(info)` bytes in the shortest form.
pub open spec fn arg_min(info: nat) -> nat {
    if info == 24 {
        24
    } else if info == 25 {
        256
    } else if info == 26 {
        65536
    } else {
        0x1_0000_0000
    }
}

/// The head of a CBOR item of major type `major` with argument `n`, in its
/// shortest form.
pub open spec fn head(major: nat, n: nat) -> Seq<u8> {
    if n < 24 {
        seq![(major * 32 + n) as u8]
    } else if n < 256 {
        seq![(major * 32 + 24) as u8] + be(n, 1)
    } else if n < 65536 {
        seq![(major * 32 + 25) as u8] + be(n, 2)
    } else if n < 0x1_0000_0000 {
        seq![(major * 32 + 26) as u8] + be(n, 4)
    } else {
        seq![(major * 32 + 27) as u8] + be(n, 8)
    }
}

/// The head at `pos`: major type, argument and the position after it. Only
/// the shortest form of an argument is read.
pub open spec fn head_at(b: Seq<u8>, pos: int) -> Option<(nat, u64, int)> {
    if pos < 0 || pos >= b.len() {
        None
    } else {
        let x = b[pos] as nat;
        let major = x / 32;
        let info = x % 32;
        if info < 24 {
            Some((major, info as u64, pos + 1))
        } else if info <= 27 {
            let w = arg_width(info);
            if pos + 1 + w <= b.len() {
                let v = be_value(b.subrange(pos + 1, pos + 1 + w));
                if v >= arg_min(info) {
                    Some((major, v as u64, pos + 1 + w))
                } else {
                    None
                }
            } else {
                None
            }
        } else {
            None
        }
    }
}

proof fn lemma_pow256_values()
    ensures
        pow256(1) == 256,
        pow256(2) == 65536,
        pow256(4) == 0x1_0000_0000,
        pow256(8) == 0x1_0000_0000_0000_0000,
{
    reveal_with_fuel(pow256, 9);
}

proof fn lemma_be_value(n: nat, k: nat)
    requires
        n < pow256(k),
    ensures
        be_value(be(n, k)) == n,
        be(n, k).len() == k,
    decreases k,
{
    if k > 0 {
        assert(n / 256 < pow256((k - 1) as nat)) by (nonlinear_arith)
            requires n < 256 * pow256((k - 1) as nat);
        lemma_be_value(n / 256, (k - 1) as nat);
        let s = be(n, k);
        assert(s.drop_last() =~= be(n / 256, (k - 1) as nat));
    } else {
        assert(n == 0);
    }
}

proof fn lemma_be_of_value(s: Seq<u8>)
    ensures
        be(be_value(s), s.len()) == s,
        be_value(s) < pow256(s.len()),
    decreases s.len(),
{
    if s.len() > 0 {
        let v = be_value(s);
        let r = be_value(s.drop_last());
        lemma_be_of_value(s.drop_last());
        assert(v / 256 == r) by (nonlinear_arith)
            requires v == r * 256 + s.last() as nat, s.last() < 256;
        assert(v % 256 == s.last() as nat) by (nonlinear_arith)
            requires v == r * 256 + s.last() as nat, s.last() < 256;
        assert(v < pow256(s.len())) by (nonlinear_arith)
            requires v == r * 256 + s.last() as nat, s.last() < 256, r < pow256((s.len() - 1) as nat),
            pow256(s.len()) == 256 * pow256((s.len() - 1) as nat);
        assert(be(v, s.len()) =~= s.drop_last().push(s.last()));
    }
}

/// A head is read back from any bytes that hold it at `pos`.
pub proof fn lemma_head_at(b: Seq<u8>, pos: int, major: nat, n: u64)
    requires
        major < 8,
        0 <= pos,
        pos + head(major, n as nat).len() <= b.len(),
        b.subrange(pos, pos + head(major, n as nat).len()) == head(major, n as nat),
    ensures
        head_at(b, pos) == Some((major, n, pos + head(major, n as nat).len())),
{
    lemma_pow256_values();
    let h = head(major, n as nat);
    assert(b[pos] == h[0]);
    if n >= 24 {
        let info: nat = if n < 256 {
            24
        } else if n < 65536 {
            25
        } else if n < 0x1_0000_0000 {
            26
        } else {
            27
        };
        let w = arg_width(info);
        assert((major * 32 + info) / 32 == major && (major * 32 + info) % 32 == info) by (nonlinear_arith)
            requires info < 32;
        lemma_be_value(n as nat, w);
        assert(b.subrange(pos + 1, pos + 1 + w) =~= h.subrange(1, 1 + w as int));
        assert(h.subrange(1, 1 + w as int) =~= be(n as nat, w));
    } else {
        assert((major * 32 + n) / 32 == major && (major * 32 + n) % 32 == n) by (nonlinear_arith)
            requires n < 24;
    }
}

/// The bytes a head was read from are the shortest head of what was read.
pub proof fn lemma_head_at_inv(b: Seq<u8>, pos: int)
    requires
        head_at(b, pos) is Some,
    ensures
        head_at(b, pos) matches Some((major, n, p)) && major < 8 && pos < p <= b.len() && b.subrange(pos, p) == head(major, n as nat),
{
    lemma_pow256_values();
    let x = b[pos] as nat;
    let major = x / 32;
    let info = x % 32;
    assert(x == major * 32 + info);
    if info >= 24 {
        let w = arg_width(info);
        let s = b.subrange(pos + 1, pos + 1 + w);
        lemma_be_of_value(s);
        let v = be_value(s);
        assert(b.subrange(pos, pos + 1 + w) =~= seq![b[pos]] + s);
        if info == 24 {
            assert(v < 256);
        } else if info == 25 {
            assert(v < 65536);
        } else if info == 26 {
            assert(v < 0x1_0000_0000);
        }
        assert(v <= u64::MAX);
    } else {
        assert(b.subrange(pos, pos + 1) =~= seq![b[pos]]);
    }
}

/// Appends the shortest head of major type `major` with argument `n`.
pub fn write_head(out: &mut Vec<u8>, major: u8, n: u64)
    requires
        major < 8,
    ensures
        final(out)@ == old(out)@ + head(major as nat, n as nat),
{
    let ghost start = out@;
    let w: usize;
    if n < 24 {
        out.push(major * 32 + n as u8);
        assert(out@ =~= start + head(major as nat, n as nat));
        return;
    } else if n < 256 {
        out.push(major * 32 + 24);
        w = 1;
    } else if n < 65536 {
        out.push(major * 32 + 25);
        w = 2;
    } else if n < 0x1_0000_0000 {
        out.push(major * 32 + 26);
        w = 4;
    } else {
        out.push(major * 32 + 27);
        w = 8;
    }
    let ghost first = out@;
    proof {
        lemma_be_len(n as nat, w as nat);
        assert(be(n as nat, w as nat).subrange(0, 0) =~= Seq::<u8>::empty());
    }
    let mut k: usize = w;
    while k > 0
        invariant
            k <= w,
            w <= 8,
            out@ == first + be(n as nat, w as nat).subrange(0, (w - k) as int),
            be(n as nat, w as nat).len() == w,
        decreases k,
    {
        let shift: u64 = 8 * (k as u64 - 1);
        let m = (n >> shift) & 0xff;
        assert(m <= 255) by (bit_vector)
            requires m == (n >> shift) & 0xff;
        let byte = m as u8;
        proof {
            lemma_be_digit(n, w as nat, (w - k) as nat);
        }
        out.push(byte);
        assert(be(n as nat, w as nat).subrange(0, (w - k + 1) as int) =~= be(n as nat, w as nat).subrange(0, (w - k) as int).push(byte));
        k = k - 1;
    }
    assert(be(n as nat, w as nat).subrange(0, w as int) =~= be(n as nat, w as nat));
    assert(out@ =~= start + head(major as nat, n as nat));
}

proof fn lemma_be_len(n: nat, k: nat)
    ensures
        be(n, k).len() == k,
    decreases k,
{
    if k > 0 {
        lemma_be_len(n / 256, (k - 1) as nat);
    }
}

/// Digit `j` (from the most significant) of `n` in `w` big-endian bytes.
proof fn lemma_be_digit(n: u64, w: nat, j: nat)
    requires
        j < w,
        w <= 8,
    ensures
        be(n as nat, w)[j as int] == ((n >> (8 * (w - 1 - j)) as u64) & 0xff) as u8,
        be(n as nat, w).len() == w,
    decreases w,
{
    lemma_be_len(n as nat, w);
    if j == w - 1 {
        assert(((n >> 0u64) & 0xff) as u8 == (n % 256) as u8) by (bit_vector);
    } else {
        lemma_be_digit((n / 256) as u64, (w - 1) as nat, j);
        lemma_be_len((n / 256) as nat, (w - 1) as nat);
        let s: u64 = (8 * (w - 1 - j)) as u64;
        assert(s >= 8 && s <= 56);
        let t: u64 = (s - 8) as u64;
        assert(((n / 256) >> t) == (n >> s)) by (bit_vector)
            requires t == s - 8, s >= 8, s <= 56;
    }
}

/// Reads the head at `pos`.
pub fn read_head(b: &Vec<u8>, pos: usize) -> (r: Option<(u8, u64, usize)>)
    ensures
        match head_at(b@, pos as int) {
            Some((major, n, p)) => r matches Some((m2, n2, p2)) && m2 == major && n2 == n && p2 == p,
            None => r is None,
        },
{
    let len = b.len();
    if pos >= len {
        return None;
    }
    let x = b[pos];
    let major = x / 32;
    let info = x % 32;
    if info < 24 {
        return Some((major, info as u64, pos + 1));
    }
    if info > 27 {
        return None;
    }
    let w: usize = if info == 24 {
        1
    } else if info == 25 {
        2
    } else if info == 26 {
        4
    } else {
        8
    };
    if w > len - pos - 1 {
        return None;
    }
    let mut v: u64 = 0;
    let mut k: usize = 0;
    proof {
        lemma_pow256_values();
        assert(b@.subrange(pos + 1, pos + 1) =~= Seq::<u8>::empty());
    }
    while k < w
        invariant
            k <= w,
            w <= 8,
            pos + 1 + w <= len,
            len == b@.len(),
            v as nat == be_value(b@.subrange(pos + 1, pos + 1 + k)),
            (v as nat) < pow256(k as nat),
        decreases w - k,
    {
        let ghost s = b@.subrange(pos + 1, pos + 1 + k + 1);
        assert(s.drop_last() =~= b@.subrange(pos + 1, pos + 1 + k));
        proof {
            assert(pow256((k + 1) as nat) == 256 * pow256(k as nat));
            assert(pow256(k as nat) <= pow256(7)) by {
                lemma_pow256_mono(k as nat, 7);
            }
            reveal_with_fuel(pow256, 8);
            assert(v * 256 + 255 <= u64::MAX) by (nonlinear_arith)
                requires v < pow256(k as nat), pow256(k as nat) <= 0x100_0000_0000_0000;
        }
        v = v * 256 + b[pos + 1 + k] as u64;
        k = k + 1;
    }
    let min: u64 = if info == 24 {
        24
    } else if info == 25 {
        256
    } else if info == 26 {
        65536
    } else {
        0x1_0000_0000
    };
    if v < min {
        return None;
    }
    Some((major, v, pos + 1 + w))
}

proof fn lemma_pow256_mono(a: nat, b: nat)
    requires
        a <= b,
    ensures
        pow256(a) <= pow256(b),
    decreases b,
{
    if a < b {
        lemma_pow256_mono(a, (b - 1) as nat);
    }
}

} // verus!
