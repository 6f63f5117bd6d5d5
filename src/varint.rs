//! Unsigned LEB128 varints, written and read in their shortest form. A
//! padded varint (a continued byte followed by a last byte of zero), which a
//! lenient reader would take, is refused.

use vstd::prelude::*;

verus! {

/// Unsigned LEB128: seven bits per byte, least significant group first, the
/// high bit set on every byte but the last.
pub open spec fn varint(n: nat) -> Seq<u8>
    decreases n,
{
    if n < 128 {
        seq![n as u8]
    } else {
        seq![(n % 128 + 128) as u8] + varint(n / 128)
    }
}

/// Reads a varint of at most `fuel` bytes from the front of `s`: its value
/// and its length. Only the shortest form of a value is read: a last byte
/// of zero after a continued one is refused.
pub open spec fn parse_varint_n(s: Seq<u8>, fuel: nat) -> Option<(nat, nat)>
    decreases fuel,
{
    if fuel == 0 || s.len() == 0 {
        None
    } else if s[0] < 128 {
        Some((s[0] as nat, 1))
    } else {
        match parse_varint_n(s.drop_first(), (fuel - 1) as nat) {
            Some((v, l)) => if v == 0 {
                None
            } else {
                Some(((s[0] - 128) as nat + 128 * v, l + 1))
            },
            None => None,
        }
    }
}

/// Reads a varint of at most ten bytes, the most a 64-bit value needs.
pub open spec fn parse_varint(s: Seq<u8>) -> Option<(nat, nat)> {
    parse_varint_n(s, 10)
}

/// What `read_varint` gives for the bytes from `pos` on.
pub open spec fn varint_at(b: Seq<u8>, pos: int) -> Option<(u64, usize)> {
    match parse_varint(b.subrange(pos, b.len() as int)) {
        Some((v, l)) => if v <= u64::MAX {
            Some((v as u64, (pos + l) as usize))
        } else {
            None
        },
        None => None,
    }
}

pub proof fn lemma_varint_len(n: nat, k: nat)
    requires
        n < pow128(k),
        k >= 1,
    ensures
        varint(n).len() <= k,
        varint(n).len() >= 1,
    decreases n,
{
    if n >= 128 {
        assert(k >= 2) by {
            if k == 1 {
                assert(pow128(1) == 128 * pow128(0));
            }
        }
        assert(pow128(k) == 128 * pow128((k - 1) as nat));
        assert(n / 128 < pow128((k - 1) as nat));
        lemma_varint_len(n / 128, (k - 1) as nat);
    }
}

pub open spec fn pow128(k: nat) -> nat
    decreases k,
{
    if k == 0 {
        1
    } else {
        128 * pow128((k - 1) as nat)
    }
}

proof fn lemma_pow128_10()
    ensures
        pow128(10) > u64::MAX,
{
    reveal_with_fuel(pow128, 11);
}

proof fn lemma_parse_varint_n(n: nat, rest: Seq<u8>, fuel: nat)
    requires
        varint(n).len() <= fuel,
    ensures
        parse_varint_n(varint(n) + rest, fuel) == Some((n, varint(n).len())),
    decreases n,
{
    let s = varint(n) + rest;
    if n < 128 {
        assert(s[0] == n as u8);
    } else {
        assert(s[0] == (n % 128 + 128) as u8);
        assert(s.drop_first() =~= varint(n / 128) + rest);
        assert(n / 128 != 0);
        lemma_parse_varint_n(n / 128, rest, (fuel - 1) as nat);
    }
}

/// A 64-bit value read back from its varint, whatever follows it.
pub proof fn lemma_parse_varint(n: u64, rest: Seq<u8>)
    ensures
        parse_varint(varint(n as nat) + rest) == Some((n as nat, varint(n as nat).len())),
        1 <= varint(n as nat).len() <= 10,
{
    lemma_pow128_10();
    lemma_varint_len(n as nat, 10);
    lemma_parse_varint_n(n as nat, rest, 10);
}

/// Appends the varint of `n`.
pub fn write_varint(out: &mut Vec<u8>, n: u64)
    ensures
        final(out)@ == old(out)@ + varint(n as nat),
{
    let ghost start = out@;
    let mut m = n;
    while m >= 128
        invariant
            start + varint(n as nat) == out@ + varint(m as nat),
        decreases m,
    {
        assert(varint(m as nat) == seq![(m % 128 + 128) as u8] + varint((m / 128) as nat));
        out.push((m % 128 + 128) as u8);
        assert(out@ + varint((m / 128) as nat) =~= start + varint(n as nat));
        m = m / 128;
    }
    out.push(m as u8);
    assert(out@ =~= start + varint(n as nat));
}

proof fn lemma_parse_varint_n_bounded(s: Seq<u8>, fuel: nat)
    ensures
        match parse_varint_n(s, fuel) {
            Some((v, l)) => 1 <= l <= s.len() && l <= fuel,
            None => true,
        },
    decreases fuel,
{
    if fuel > 0 && s.len() > 0 && s[0] >= 128 {
        lemma_parse_varint_n_bounded(s.drop_first(), (fuel - 1) as nat);
    }
}

fn read_varint_n(b: &Vec<u8>, pos: usize, fuel: usize) -> (r: Option<(u64, usize)>)
    requires
        pos <= b@.len(),
    ensures
        r == match parse_varint_n(b@.subrange(pos as int, b@.len() as int), fuel as nat) {
            Some((v, l)) => if v <= u64::MAX {
                Some((v as u64, (pos + l) as usize))
            } else {
                None::<(u64, usize)>
            },
            None => None,
        },
    decreases fuel,
{
    let ghost s = b@.subrange(pos as int, b@.len() as int);
    proof {
        lemma_parse_varint_n_bounded(s, fuel as nat);
    }
    if fuel == 0 || pos >= b.len() {
        return None;
    }
    let x = b[pos];
    if x < 128 {
        return Some((x as u64, pos + 1));
    }
    assert(s.drop_first() =~= b@.subrange(pos + 1, b@.len() as int));
    match read_varint_n(b, pos + 1, fuel - 1) {
        Some((v, p)) => {
            if v == 0 || v > (u64::MAX - 127) / 128 {
                proof {
                    if v != 0 {
                        assert((x - 128) as nat + 128 * (v as nat) > u64::MAX) by (nonlinear_arith)
                            requires v > (u64::MAX - 127) / 128, x >= 128;
                    }
                }
                None
            } else {
                assert((u64::MAX - 127) / 128 == 144115188075855871u64);
                assert((x - 128) as nat + 128 * (v as nat) <= u64::MAX) by (nonlinear_arith)
                    requires v <= 144115188075855871u64, x < 256, x >= 128;
                Some(((x - 128) as u64 + 128 * v, p))
            }
        },
        None => {
            proof {
                lemma_parse_varint_n_bounded(s.drop_first(), (fuel - 1) as nat);
                match parse_varint_n(s.drop_first(), (fuel - 1) as nat) {
                    Some((v2, l2)) => {
                        assert(v2 > u64::MAX);
                        assert((x - 128) as nat + 128 * v2 > u64::MAX) by (nonlinear_arith)
                            requires v2 > u64::MAX, x >= 128;
                    },
                    None => {},
                }
                assert(s[0] == x);
                assert(parse_varint_n(s, fuel as nat) is None || parse_varint_n(s, fuel as nat)->Some_0.0 > u64::MAX);
            }
            None
        },
    }
}

/// Reads the varint that starts at `pos`: its value and the position after
/// it. None where the bytes end first, or the value does not fit 64 bits.
pub fn read_varint(b: &Vec<u8>, pos: usize) -> (r: Option<(u64, usize)>)
    requires
        pos <= b@.len(),
    ensures
        r == varint_at(b@, pos as int),
        r matches Some((v, p)) ==> pos < p <= b@.len(),
{
    let ghost s = b@.subrange(pos as int, b@.len() as int);
    let len = b.len();
    proof {
        lemma_parse_varint_n_bounded(s, 10);
        assert(s.len() == len - pos);
    }
    let r = read_varint_n(b, pos, 10);
    proof {
        match parse_varint_n(s, 10) {
            Some((v, l)) => {
                assert(pos + l <= b@.len());
            },
            None => {},
        }
    }
    r
}

/// The varint of `n` read back from any bytes that hold it at `pos`.
pub proof fn lemma_varint_at(b: Seq<u8>, pos: int, n: u64)
    requires
        0 <= pos,
        pos + varint(n as nat).len() <= b.len(),
        b.subrange(pos, pos + varint(n as nat).len()) == varint(n as nat),
    ensures
        varint_at(b, pos) == Some((n, (pos + varint(n as nat).len()) as usize)),
{
    let l = varint(n as nat).len() as int;
    let rest = b.subrange(pos + l, b.len() as int);
    assert(b.subrange(pos, b.len() as int) =~= varint(n as nat) + rest);
    lemma_parse_varint(n, rest);
}


proof fn lemma_parse_varint_n_inv(s: Seq<u8>, fuel: nat)
    requires
        parse_varint_n(s, fuel) is Some,
    ensures
        parse_varint_n(s, fuel) matches Some((v, l)) && l <= s.len() && s.subrange(0, l as int) == varint(v),
    decreases fuel,
{
    if s[0] >= 128 {
        let t = s.drop_first();
        lemma_parse_varint_n_inv(t, (fuel - 1) as nat);
        let (v, l) = parse_varint_n(t, (fuel - 1) as nat).unwrap();
        let w = (s[0] - 128) as nat + 128 * v;
        assert(w >= 128);
        assert(w % 128 == (s[0] - 128) as nat) by (nonlinear_arith)
            requires w == (s[0] - 128) as nat + 128 * v, s[0] >= 128, s[0] < 256;
        assert(w / 128 == v) by (nonlinear_arith)
            requires w == (s[0] - 128) as nat + 128 * v, s[0] >= 128, s[0] < 256;
        assert(s.subrange(0, (l + 1) as int) =~= seq![s[0]] + t.subrange(0, l as int));
    } else {
        assert(s.subrange(0, 1) =~= seq![s[0]]);
    }
}

/// The bytes a varint was read from are the varint of the value read.
pub proof fn lemma_varint_at_inv(b: Seq<u8>, pos: int)
    requires
        0 <= pos <= b.len(),
        b.len() <= usize::MAX,
        varint_at(b, pos) is Some,
    ensures
        varint_at(b, pos) matches Some((v, p)) && pos < p <= b.len() && b.subrange(pos, p as int) == varint(v as nat),
{
    let s = b.subrange(pos, b.len() as int);
    lemma_parse_varint_n_inv(s, 10);
    lemma_parse_varint_n_bounded(s, 10);
    let (v, l) = parse_varint(s).unwrap();
    assert(b.subrange(pos, pos + l) =~= s.subrange(0, l as int));
}
} // verus!
