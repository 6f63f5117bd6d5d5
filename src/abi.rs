//! Decoding of ABIv2 event blobs made of `bytes` and `bytes[]` parameters.

use vstd::prelude::*;
use crate::cbor::{be_value, pow256};
use crate::entity::{Entity, EntityView, ValueView, FieldValue, value_views};
use crate::order::lists;
use crate::schema::{Schema, Shape, FieldDesc};

verus! {

/// The 32-byte big-endian word at `off`.
pub open spec fn word_at(s: Seq<u8>, off: int) -> Option<nat> {
    if 0 <= off && off + 32 <= s.len() {
        Some(be_value(s.subrange(off, off + 32)))
    } else {
        None
    }
}

/// A `bytes` parameter at the start of `s`: a length word, then that many
/// bytes.
pub open spec fn abi_bytes(s: Seq<u8>) -> Option<Seq<u8>> {
    match word_at(s, 0) {
        Some(l) => if 32 + l <= s.len() {
            Some(s.subrange(32, 32 + l as int))
        } else {
            None
        },
        None => None,
    }
}

pub open spec fn prepend_opt<T>(p: Seq<T>, o: Option<Seq<T>>) -> Option<Seq<T>> {
    match o {
        Some(r) => Some(p + r),
        None => None,
    }
}

/// Element `k` of a `bytes[]` parameter: the word after the count word
/// holds its offset from the end of the count word.
pub open spec fn abi_element(s: Seq<u8>, k: nat) -> Option<Seq<u8>> {
    match word_at(s, 32 * (k + 1) as int) {
        Some(off) => if 32 + off <= s.len() {
            abi_bytes(s.subrange(32 + off as int, s.len() as int))
        } else {
            None
        },
        None => None,
    }
}

/// Elements `k` up to `count` of a `bytes[]` parameter.
pub open spec fn abi_elements(s: Seq<u8>, k: nat, count: nat) -> Option<Seq<Seq<u8>>>
    decreases count - k,
{
    if k >= count {
        Some(Seq::empty())
    } else {
        match abi_element(s, k) {
            Some(x) => prepend_opt(seq![x], abi_elements(s, k + 1, count)),
            None => None,
        }
    }
}

/// A `bytes[]` parameter at the start of `s`: a count word, one offset word
/// per element, and the elements.
pub open spec fn abi_bytes_array(s: Seq<u8>) -> Option<Seq<Seq<u8>>> {
    match word_at(s, 0) {
        Some(n) => abi_elements(s, 0, n),
        None => None,
    }
}

/// The value of field `i` of `n`: its slot holds the offset of its data,
/// which runs to the next field's offset (or to the end for the last field).
/// An optional field whose bytes are empty is absent.
pub open spec fn abi_field(b: Seq<u8>, i: nat, n: nat, shape: Shape) -> Option<ValueView> {
    match word_at(b, 32 * i as int) {
        None => None,
        Some(start) => {
            let end: Option<nat> = if i + 1 < n {
                word_at(b, 32 * (i + 1) as int)
            } else {
                Some(b.len())
            };
            match end {
                None => None,
                Some(end) => if start <= end && end <= b.len() {
                    let region = b.subrange(start as int, end as int);
                    match shape {
                        Shape::Repeated => match abi_bytes_array(region) {
                            Some(l) => Some(ValueView::Repeated(l)),
                            None => None,
                        },
                        Shape::Required => match abi_bytes(region) {
                            Some(d) => Some(ValueView::Required(d)),
                            None => None,
                        },
                        Shape::Optional => match abi_bytes(region) {
                            Some(d) => Some(
                                ValueView::Optional(
                                    if d.len() == 0 {
                                        None
                                    } else {
                                        Some(d)
                                    },
                                ),
                            ),
                            None => None,
                        },
                    }
                } else {
                    None
                },
            }
        },
    }
}

/// The values of fields `i` up to the last.
pub open spec fn abi_fields(b: Seq<u8>, fields: Seq<FieldDesc>, i: nat) -> Option<Seq<ValueView>>
    decreases fields.len() - i,
{
    if i >= fields.len() {
        Some(Seq::empty())
    } else {
        match abi_field(b, i, fields.len(), fields[i as int].shape) {
            Some(v) => prepend_opt(seq![v], abi_fields(b, fields, i + 1)),
            None => None,
        }
    }
}

/// Why a blob is not an ABI event of the kind: an offset or a length points
/// outside the blob.
#[derive(Clone, Copy, Debug, PartialEq, Eq, Structural)]
pub enum AbiDecodeError {
    OutOfRange { field: usize },
}

proof fn lemma_be_value_concat(a: Seq<u8>, t: Seq<u8>)
    ensures
        be_value(a + t) == be_value(a) * pow256(t.len()) + be_value(t),
    decreases t.len(),
{
    if t.len() == 0 {
        assert(a + t =~= a);
        assert(pow256(0) == 1);
        assert(be_value(t) == 0);
    } else {
        assert((a + t).drop_last() =~= a + t.drop_last());
        lemma_be_value_concat(a, t.drop_last());
        let x = be_value(a);
        let y = be_value(t.drop_last());
        let p = pow256((t.len() - 1) as nat);
        assert((a + t).last() == t.last());
        assert(be_value(a + t) == be_value((a + t).drop_last()) * 256 + (a + t).last() as nat);
        assert(be_value(t) == y * 256 + t.last() as nat);
        assert(pow256(t.len()) == 256 * p);
        assert((x * p + y) * 256 + t.last() as nat == x * (256 * p) + (y * 256 + t.last() as nat)) by (nonlinear_arith);
    }
}

proof fn lemma_pow256_pos(k: nat)
    ensures
        pow256(k) >= 1,
    decreases k,
{
    if k > 0 {
        lemma_pow256_pos((k - 1) as nat);
    }
}

/// The word at `off` of `b[start..end]`, where it fits 64 bits.
fn read_word(b: &Vec<u8>, start: usize, end: usize, off: u64) -> (r: Option<u64>)
    requires
        start <= end <= b@.len(),
    ensures
        match word_at(b@.subrange(start as int, end as int), off as int) {
            Some(v) => if v <= u64::MAX {
                r == Some(v as u64)
            } else {
                r is None
            },
            None => r is None,
        },
{
    let ghost s = b@.subrange(start as int, end as int);
    if off > (end - start) as u64 || (end - start) - (off as usize) < 32 {
        return None;
    }
    let base = start + off as usize;
    let ghost w = s.subrange(off as int, off + 32);
    assert(w =~= b@.subrange(base as int, base + 32));
    let mut v: u64 = 0;
    let mut k: usize = 0;
    let len = b.len();
    assert(w.subrange(0, 0) =~= Seq::<u8>::empty());
    while k < 32
        invariant
            k <= 32,
            len == b@.len(),
            base + 32 <= len,
            s == b@.subrange(start as int, end as int),
            off + 32 <= s.len(),
            w == s.subrange(off as int, off + 32),
            w == b@.subrange(base as int, base + 32),
            v as nat == be_value(w.subrange(0, k as int)),
        decreases 32 - k,
    {
        let x = b[base + k];
        assert(w.subrange(0, k + 1).drop_last() =~= w.subrange(0, k as int));
        assert(w.subrange(0, k + 1).last() == x);
        assert(be_value(w.subrange(0, k + 1)) == v as nat * 256 + x as nat);
        if v > (u64::MAX - x as u64) / 256 {
            proof {
                assert(v as nat * 256 + x as nat > u64::MAX) by (nonlinear_arith)
                    requires v > (u64::MAX - x as u64) / 256, x <= 255;
                assert(w =~= w.subrange(0, k + 1) + w.subrange(k + 1, 32));
                lemma_be_value_concat(w.subrange(0, k + 1), w.subrange(k + 1, 32));
                lemma_pow256_pos((32 - (k + 1)) as nat);
                let a = be_value(w.subrange(0, k + 1));
                let p = pow256((32 - (k + 1)) as nat);
                assert(a * p >= a) by (nonlinear_arith)
                    requires p >= 1;
                assert(be_value(w) == a * p + be_value(w.subrange(k + 1, 32)));
                assert(be_value(w) > u64::MAX);
                assert(word_at(s, off as int) == Some(be_value(w)));
            }
            return None;
        }
        proof {
            assert(v as nat * 256 + x as nat <= u64::MAX) by (nonlinear_arith)
                requires v <= (u64::MAX - x as u64) / 256, x <= 255;
        }
        v = v * 256 + x as u64;
        k = k + 1;
    }
    assert(w.subrange(0, 32) =~= w);
    Some(v)
}

/// Copies `b[from..to]`.
fn copy_range(b: &Vec<u8>, from: usize, to: usize) -> (r: Vec<u8>)
    requires
        from <= to <= b@.len(),
    ensures
        r@ == b@.subrange(from as int, to as int),
{
    let mut d: Vec<u8> = Vec::new();
    let mut i: usize = from;
    while i < to
        invariant
            from <= i <= to,
            to <= b@.len(),
            d@ == b@.subrange(from as int, i as int),
        decreases to - i,
    {
        d.push(b[i]);
        assert(b@.subrange(from as int, i + 1) =~= b@.subrange(from as int, i as int).push(b@[i as int]));
        i = i + 1;
    }
    d
}

/// Decodes the `bytes` parameter at the start of `b[start..end]`.
fn decode_bytes(b: &Vec<u8>, start: usize, end: usize) -> (r: Option<Vec<u8>>)
    requires
        start <= end <= b@.len(),
    ensures
        match abi_bytes(b@.subrange(start as int, end as int)) {
            Some(d) => r matches Some(x) && x@ == d,
            None => r is None,
        },
{
    let ghost s = b@.subrange(start as int, end as int);
    let l = match read_word(b, start, end, 0) {
        Some(l) => l,
        None => {
            return None;
        },
    };
    if l > (end - start) as u64 || (end - start) - (l as usize) < 32 {
        return None;
    }
    let from = start + 32;
    let to = from + l as usize;
    let d = copy_range(b, from, to);
    assert(d@ =~= s.subrange(32, 32 + l as int));
    Some(d)
}

proof fn lemma_elements_none(s: Seq<u8>, k: nat, count: nat)
    requires
        k < count,
        32 * count + 32 > s.len(),
    ensures
        abi_elements(s, k, count) is None,
    decreases count - k,
{
    if abi_element(s, k) is Some {
        assert(32 * (k + 1) + 32 <= s.len());
        lemma_elements_none(s, k + 1, count);
    }
}

/// Decodes the `bytes[]` parameter at the start of `b[start..end]`.
fn decode_bytes_array(b: &Vec<u8>, start: usize, end: usize) -> (r: Option<Vec<Vec<u8>>>)
    requires
        start <= end <= b@.len(),
    ensures
        match abi_bytes_array(b@.subrange(start as int, end as int)) {
            Some(l) => r matches Some(x) && lists(x@) == l,
            None => r is None,
        },
{
    let ghost s = b@.subrange(start as int, end as int);
    let count = match read_word(b, start, end, 0) {
        Some(c) => c,
        None => {
            proof {
                if let Some(c) = word_at(s, 0) {
                    lemma_elements_none(s, 0, c);
                }
            }
            return None;
        },
    };
    let mut out: Vec<Vec<u8>> = Vec::new();
    let mut k: u64 = 0;
    proof {
        assert(lists(out@) =~= Seq::<Seq<u8>>::empty());
        assert(prepend_opt(lists(out@), abi_elements(s, 0, count as nat)) =~= abi_elements(s, 0, count as nat)) by {
            match abi_elements(s, 0, count as nat) {
                Some(x) => {
                    assert(lists(out@) + x =~= x);
                },
                None => {},
            }
        }
    }
    while k < count
        invariant
            k <= count,
            start <= end <= b@.len(),
            s == b@.subrange(start as int, end as int),
            abi_bytes_array(s) == prepend_opt(lists(out@), abi_elements(s, k as nat, count as nat)),
            word_at(s, 0) == Some(count as nat),
        decreases count - k,
    {
        let len = (end - start) as u64;
        if k >= len / 32 {
            proof {
                assert(word_at(s, 32 * (k + 1)) is None);
            }
            return None;
        }
        let off = match read_word(b, start, end, 32 * (k + 1)) {
            Some(o) => o,
            None => {
                return None;
            },
        };
        if off > len || len - off < 32 {
            return None;
        }
        let elem_start = start + 32 + off as usize;
        let x = match decode_bytes(b, elem_start, end) {
            Some(x) => x,
            None => {
                proof {
                    assert(b@.subrange(elem_start as int, end as int) =~= s.subrange(32 + off as int, s.len() as int));
                }
                return None;
            },
        };
        proof {
            assert(b@.subrange(elem_start as int, end as int) =~= s.subrange(32 + off as int, s.len() as int));
            assert(abi_element(s, k as nat) == Some(x@));
            let rest = abi_elements(s, (k + 1) as nat, count as nat);
            match rest {
                Some(r) => {
                    assert(lists(out@) + (seq![x@] + r) =~= lists(out@).push(x@) + r);
                },
                None => {},
            }
        }
        let ghost before = out@;
        let ghost xv = x@;
        out.push(x);
        assert(lists(out@) =~= lists(before).push(xv));
        k = k + 1;
    }
    proof {
        assert(abi_elements(s, count as nat, count as nat) == Some(Seq::<Seq<u8>>::empty()));
        assert(lists(out@) + Seq::<Seq<u8>>::empty() =~= lists(out@));
    }
    Some(out)
}

/// Decodes field `i` of `n` of the blob.
fn decode_field(b: &Vec<u8>, i: usize, n: usize, shape: Shape) -> (r: Option<FieldValue>)
    requires
        i < n,
        n < 0x1_0000_0000,
    ensures
        match abi_field(b@, i as nat, n as nat, shape) {
            Some(v) => r matches Some(x) && x@ == v,
            None => r is None,
        },
{
    let len = b.len();
    assert(b@.subrange(0, len as int) =~= b@);
    let start = match read_word(b, 0, len, 32 * i as u64) {
        Some(s) => s,
        None => {
            return None;
        },
    };
    let end: u64 = if i + 1 < n {
        match read_word(b, 0, len, 32 * (i + 1) as u64) {
            Some(e) => e,
            None => {
                return None;
            },
        }
    } else {
        len as u64
    };
    if start > end || end > len as u64 {
        return None;
    }
    let start = start as usize;
    let end = end as usize;
    match shape {
        Shape::Repeated => match decode_bytes_array(b, start, end) {
            Some(l) => Some(FieldValue::Repeated(l)),
            None => None,
        },
        Shape::Required => match decode_bytes(b, start, end) {
            Some(d) => Some(FieldValue::Required(d)),
            None => None,
        },
        Shape::Optional => match decode_bytes(b, start, end) {
            Some(d) => {
                if d.len() == 0 {
                    Some(FieldValue::Optional(None))
                } else {
                    Some(FieldValue::Optional(Some(d)))
                }
            },
            None => None,
        },
    }
}

/// Decodes an event blob of kind `k`: field by field, in declaration order,
/// a slot of 32 bytes holds the offset of the field's data, which is a
/// `bytes` value, or a `bytes[]` value for a repeated field.
pub fn from_abiv2(schema: &Schema, k: usize, b: &Vec<u8>) -> (r: Result<Entity, AbiDecodeError>)
    requires
        k < schema.kinds@.len(),
        schema.kinds@[k as int].fields@.len() < 0x1_0000_0000,
    ensures
        match abi_fields(b@, schema.kinds@[k as int].fields@, 0) {
            Some(vals) => r matches Ok(d) && d@ == (EntityView { kind: k as nat, values: vals }),
            None => r is Err,
        },
{
    let kind = &schema.kinds[k];
    let n = kind.fields.len();
    let ghost fields = kind.fields@;
    let mut vals: Vec<FieldValue> = Vec::new();
    let mut i: usize = 0;
    proof {
        assert(value_views(vals@) =~= Seq::<ValueView>::empty());
        match abi_fields(b@, fields, 0) {
            Some(x) => {
                assert(value_views(vals@) + x =~= x);
            },
            None => {},
        }
    }
    while i < n
        invariant
            kind == schema.kinds@[k as int],
            fields == kind.fields@,
            n == fields.len(),
            n < 0x1_0000_0000,
            i <= n,
            abi_fields(b@, fields, 0) == prepend_opt(value_views(vals@), abi_fields(b@, fields, i as nat)),
        decreases n - i,
    {
        let v = match decode_field(b, i, n, kind.fields[i].shape) {
            Some(v) => v,
            None => {
                return Err(AbiDecodeError::OutOfRange { field: i });
            },
        };
        proof {
            match abi_fields(b@, fields, (i + 1) as nat) {
                Some(r) => {
                    assert(value_views(vals@) + (seq![v@] + r) =~= value_views(vals@).push(v@) + r);
                },
                None => {},
            }
        }
        let ghost before = vals@;
        let ghost vv = v@;
        vals.push(v);
        assert(value_views(vals@) =~= value_views(before).push(vv));
        i = i + 1;
    }
    proof {
        assert(value_views(vals@) + Seq::<ValueView>::empty() =~= value_views(vals@));
    }
    Ok(Entity { kind: k, values: vals })
}

} // verus!
