//! The compact format: a CBOR map from field number to value, with empty
//! fields left out.
//!
//! The map is keyed by field number (position plus one), as in CBOR's packed
//! form, not by field name; scalar fields are byte strings and repeated
//! fields arrays of byte strings. A reader also takes null for an empty
//! repeated field.

use vstd::prelude::*;
use crate::cbor::{head, head_at, write_head, read_head, lemma_head_at, lemma_head_at_inv};
use crate::entity::{Entity, EntityView, ValueView, FieldValue, fits, fits_shape, value_views};
use crate::order::lists;
use crate::schema::{Schema, Shape};

verus! {

/// A CBOR byte string.
pub open spec fn bstr(d: Seq<u8>) -> Seq<u8> {
    head(2, d.len()) + d
}

/// The byte strings of a list, one after the other.
pub open spec fn bstrs(l: Seq<Seq<u8>>) -> Seq<u8>
    decreases l.len(),
{
    if l.len() == 0 {
        Seq::empty()
    } else {
        bstr(l[0]) + bstrs(l.drop_first())
    }
}

/// Whether a field is written at all: absent optional fields and empty
/// repeated fields are left out.
pub open spec fn is_present(v: ValueView) -> bool {
    match v {
        ValueView::Required(_) => true,
        ValueView::Optional(o) => o is Some,
        ValueView::Repeated(l) => l.len() > 0,
    }
}

/// The CBOR item of a present field: a byte string, or an array of them.
pub open spec fn value_item(v: ValueView) -> Seq<u8> {
    match v {
        ValueView::Required(d) => bstr(d),
        ValueView::Optional(Some(d)) => bstr(d),
        ValueView::Optional(None) => Seq::empty(),
        ValueView::Repeated(l) => head(4, l.len()) + bstrs(l),
    }
}

/// The map entry of a field: its number as key, its item as value.
pub open spec fn entry(tag: nat, v: ValueView) -> Seq<u8> {
    if is_present(v) {
        head(0, tag) + value_item(v)
    } else {
        Seq::empty()
    }
}

/// The entries of fields `i` up to `n`.
pub open spec fn entries_from(vals: Seq<ValueView>, i: nat, n: nat) -> Seq<u8>
    decreases n - i,
{
    if i >= n {
        Seq::empty()
    } else {
        entry(i + 1, vals[i as int]) + entries_from(vals, i + 1, n)
    }
}

/// How many of fields `i` up to `n` are present.
pub open spec fn present_from(vals: Seq<ValueView>, i: nat, n: nat) -> nat
    decreases n - i,
{
    if i >= n {
        0
    } else {
        (if is_present(vals[i as int]) {
            1nat
        } else {
            0nat
        }) + present_from(vals, i + 1, n)
    }
}

/// The compact encoding: a CBOR map from field number (position plus one)
/// to the field's item, holding the present fields in order.
pub open spec fn compact_bytes(e: EntityView) -> Seq<u8> {
    head(5, present_from(e.values, 0, e.values.len())) + entries_from(e.values, 0, e.values.len())
}

/// An empty repeated field written as CBOR null, which a reader also takes
/// for an empty list.
pub open spec fn nulled(v: ValueView, null: bool) -> bool {
    null && v is Repeated && !is_present(v)
}

/// Whether a field has an entry in the map.
pub open spec fn written(v: ValueView, null: bool) -> bool {
    is_present(v) || nulled(v, null)
}

pub open spec fn written_count(v: ValueView, null: bool) -> nat {
    if written(v, null) {
        1
    } else {
        0
    }
}

/// The item of a written field: null for a nulled one.
pub open spec fn item_n(v: ValueView, null: bool) -> Seq<u8> {
    if nulled(v, null) {
        seq![0xf6u8]
    } else {
        value_item(v)
    }
}

/// The map entry of a field, which may be null where the field is an empty
/// repeated field and `null` is set.
pub open spec fn entry_n(tag: nat, v: ValueView, null: bool) -> Seq<u8> {
    if written(v, null) {
        head(0, tag) + item_n(v, null)
    } else {
        Seq::empty()
    }
}

pub open spec fn entries_from_n(vals: Seq<ValueView>, nulls: Seq<bool>, i: nat, n: nat) -> Seq<u8>
    decreases n - i,
{
    if i >= n {
        Seq::empty()
    } else {
        entry_n(i + 1, vals[i as int], nulls[i as int]) + entries_from_n(vals, nulls, i + 1, n)
    }
}

pub open spec fn present_from_n(vals: Seq<ValueView>, nulls: Seq<bool>, i: nat, n: nat) -> nat
    decreases n - i,
{
    if i >= n {
        0
    } else {
        written_count(vals[i as int], nulls[i as int]) + present_from_n(vals, nulls, i + 1, n)
    }
}

/// A compact encoding of `e` in which the empty repeated fields marked in
/// `nulls` are written as null rather than left out.
pub open spec fn compact_bytes_n(e: EntityView, nulls: Seq<bool>) -> Seq<u8> {
    head(5, present_from_n(e.values, nulls, 0, e.values.len())) + entries_from_n(
        e.values,
        nulls,
        0,
        e.values.len(),
    )
}

/// No field written as null: the form `encode_compact` gives.
pub open spec fn no_nulls(n: nat) -> Seq<bool> {
    Seq::new(n, |i: int| false)
}

/// `b` is a compact encoding of `e`, an instance of kind `k`, with the empty
/// repeated fields marked in `nulls` written as null.
pub open spec fn compact_accepts(schema: Schema, k: nat, b: Seq<u8>, e: EntityView, nulls: Seq<bool>) -> bool {
    fits(schema, e) && e.kind == k && nulls.len() == e.values.len() && compact_bytes_n(e, nulls) == b
}

proof fn lemma_no_nulls_from(vals: Seq<ValueView>, i: nat, n: nat)
    ensures
        entries_from_n(vals, no_nulls(n), i, n) == entries_from(vals, i, n),
        present_from_n(vals, no_nulls(n), i, n) == present_from(vals, i, n),
    decreases n - i,
{
    if i < n {
        lemma_no_nulls_from(vals, i + 1, n);
        assert(entry_n(i + 1, vals[i as int], no_nulls(n)[i as int]) == entry(i + 1, vals[i as int]));
    }
}

/// The bytes `encode_compact` writes are a compact encoding with no nulls.
pub proof fn lemma_compact_bytes_no_nulls(e: EntityView)
    ensures
        compact_bytes_n(e, no_nulls(e.values.len())) == compact_bytes(e),
{
    lemma_no_nulls_from(e.values, 0, e.values.len());
}

/// Why bytes are not a compact encoding.
#[derive(Clone, Copy, Debug, PartialEq, Eq, Structural)]
pub enum CompactError {
    NotAMap,
    MissingField { field: usize },
    Malformed { field: usize },
    TrailingBytes,
}

proof fn lemma_bstrs_push(l: Seq<Seq<u8>>, x: Seq<u8>)
    ensures
        bstrs(l.push(x)) == bstrs(l) + bstr(x),
    decreases l.len(),
{
    if l.len() == 0 {
        assert(l.push(x).drop_first() =~= Seq::<Seq<u8>>::empty());
        assert(bstrs(l.push(x).drop_first()) == Seq::<u8>::empty());
        assert(bstrs(l.push(x)) =~= bstr(x));
    } else {
        assert(l.push(x).drop_first() =~= l.drop_first().push(x));
        lemma_bstrs_push(l.drop_first(), x);
        assert(bstrs(l.push(x)) =~= bstrs(l) + bstr(x));
    }
}

proof fn lemma_entries_push(vals: Seq<ValueView>, i: nat, n: nat)
    requires
        i <= n,
    ensures
        entries_from(vals, i, n + 1) == entries_from(vals, i, n) + entry(n + 1, vals[n as int]),
        present_from(vals, i, n + 1) == present_from(vals, i, n) + (if is_present(vals[n as int]) { 1nat } else { 0nat }),
    decreases n - i,
{
    if i < n {
        lemma_entries_push(vals, i + 1, n);
        assert(entries_from(vals, i, n + 1) =~= entries_from(vals, i, n) + entry(n + 1, vals[n as int]));
    } else {
        assert(entries_from(vals, n + 1, n + 1) =~= Seq::<u8>::empty());
        assert(present_from(vals, n + 1, n + 1) == 0);
        assert(entries_from(vals, i, n + 1) =~= entry(n + 1, vals[n as int]));
    }
}

proof fn lemma_split(b: Seq<u8>, pos: int, x: Seq<u8>, rest: Seq<u8>)
    requires
        0 <= pos <= b.len(),
        b.subrange(pos, b.len() as int) == x + rest,
    ensures
        pos + x.len() <= b.len(),
        b.subrange(pos, pos + x.len()) == x,
        b.subrange(pos + x.len(), b.len() as int) == rest,
{
    assert(b.subrange(pos, b.len() as int).len() == b.len() - pos);
    assert(b.subrange(pos, pos + x.len()) =~= (x + rest).subrange(0, x.len() as int));
    assert(b.subrange(pos + x.len(), b.len() as int) =~= (x + rest).subrange(x.len() as int, (x + rest).len() as int));
}

/// The byte string at `pos` and the position after it.
pub open spec fn bstr_at(b: Seq<u8>, pos: int) -> Option<(Seq<u8>, int)> {
    match head_at(b, pos) {
        Some((major, n, p)) => if major == 2 && p + n <= b.len() {
            Some((b.subrange(p, p + n), p + n))
        } else {
            None
        },
        None => None,
    }
}

proof fn lemma_bstr_at(b: Seq<u8>, pos: int, d: Seq<u8>, rest: Seq<u8>)
    requires
        0 <= pos <= b.len(),
        b.subrange(pos, b.len() as int) == bstr(d) + rest,
        d.len() <= u64::MAX,
    ensures
        bstr_at(b, pos) == Some((d, pos + bstr(d).len())),
        b.subrange(pos + bstr(d).len(), b.len() as int) == rest,
{
    lemma_split(b, pos, bstr(d), rest);
    let h = head(2, d.len());
    assert(b.subrange(pos, pos + h.len()) =~= bstr(d).subrange(0, h.len() as int));
    assert(bstr(d).subrange(0, h.len() as int) =~= h);
    assert((d.len() as u64) as nat == d.len());
    lemma_head_at(b, pos, 2, d.len() as u64);
    assert(b.subrange(pos + h.len(), pos + h.len() + d.len()) =~= bstr(d).subrange(h.len() as int, bstr(d).len() as int));
}

proof fn lemma_bstr_at_inv(b: Seq<u8>, pos: int)
    requires
        bstr_at(b, pos) is Some,
    ensures
        bstr_at(b, pos) matches Some((d, p)) && pos < p <= b.len() && b.subrange(pos, p) == bstr(d),
{
    lemma_head_at_inv(b, pos);
    let (major, n, p) = head_at(b, pos).unwrap();
    assert(b.subrange(pos, p + n) =~= b.subrange(pos, p) + b.subrange(p, p + n));
}

/// Reads the byte string at `pos`.
fn read_bstr(b: &Vec<u8>, pos: usize) -> (r: Option<(Vec<u8>, usize)>)
    ensures
        match bstr_at(b@, pos as int) {
            Some((d, p)) => r matches Some((d2, p2)) && d2@ == d && p2 == p,
            None => r is None,
        },
{
    match read_head(b, pos) {
        Some((major, n, p)) => {
            proof {
                lemma_head_at_inv(b@, pos as int);
            }
            if major != 2 || n > (b.len() - p) as u64 {
                return None;
            }
            let end = p + n as usize;
            let mut d: Vec<u8> = Vec::new();
            let mut i: usize = p;
            while i < end
                invariant
                    p <= i <= end,
                    end <= b@.len(),
                    d@ == b@.subrange(p as int, i as int),
                decreases end - i,
            {
                d.push(b[i]);
                assert(b@.subrange(p as int, i + 1) =~= b@.subrange(p as int, i as int).push(b@[i as int]));
                i = i + 1;
            }
            Some((d, end))
        },
        None => None,
    }
}

/// Appends a byte string.
fn write_bstr(out: &mut Vec<u8>, d: &Vec<u8>)
    ensures
        final(out)@ == old(out)@ + bstr(d@),
{
    write_head(out, 2, d.len() as u64);
    let ghost mid = out@;
    let mut i: usize = 0;
    while i < d.len()
        invariant
            i <= d@.len(),
            out@ == mid + d@.subrange(0, i as int),
        decreases d@.len() - i,
    {
        out.push(d[i]);
        assert(d@.subrange(0, i + 1) =~= d@.subrange(0, i as int).push(d@[i as int]));
        i = i + 1;
    }
    assert(d@.subrange(0, d@.len() as int) =~= d@);
    assert(out@ =~= old(out)@ + bstr(d@));
}

fn value_present(v: &FieldValue) -> (r: bool)
    ensures
        r == is_present(v@),
{
    match v {
        FieldValue::Required(_) => true,
        FieldValue::Optional(o) => o.is_some(),
        FieldValue::Repeated(l) => l.len() > 0,
    }
}

/// Appends the entry of one field.
fn write_entry(out: &mut Vec<u8>, tag: u64, v: &FieldValue)
    ensures
        final(out)@ == old(out)@ + entry(tag as nat, v@),
{
    if !value_present(v) {
        assert(out@ =~= out@ + Seq::<u8>::empty());
        return;
    }
    write_head(out, 0, tag);
    match v {
        FieldValue::Required(d) => write_bstr(out, d),
        FieldValue::Optional(o) => match o {
            Some(d) => write_bstr(out, d),
            None => {},
        },
        FieldValue::Repeated(l) => {
            write_head(out, 4, l.len() as u64);
            let ghost mid = out@;
            let mut j: usize = 0;
            assert(lists(l@).subrange(0, 0) =~= Seq::<Seq<u8>>::empty());
            assert(out@ =~= mid + bstrs(lists(l@).subrange(0, 0)));
            while j < l.len()
                invariant
                    j <= l@.len(),
                    out@ == mid + bstrs(lists(l@).subrange(0, j as int)),
                decreases l@.len() - j,
            {
                write_bstr(out, &l[j]);
                proof {
                    assert(lists(l@).subrange(0, j + 1) =~= lists(l@).subrange(0, j as int).push(l@[j as int]@));
                    lemma_bstrs_push(lists(l@).subrange(0, j as int), l@[j as int]@);
                }
                j = j + 1;
            }
            assert(lists(l@).subrange(0, l@.len() as int) =~= lists(l@));
        },
    }
    assert(out@ =~= old(out)@ + entry(tag as nat, v@));
}

/// The compact encoding: a CBOR map keyed by field number, in which absent
/// optional fields and empty repeated fields do not appear.
pub fn encode_compact(e: &Entity) -> (r: Vec<u8>)
    requires
        e.values@.len() < u64::MAX,
    ensures
        r@ == compact_bytes(e@),
{
    let n = e.values.len();
    let ghost vals = e@.values;
    let mut count: u64 = 0;
    let mut i: usize = 0;
    while i < n
        invariant
            n == e.values@.len(),
            n < u64::MAX,
            vals == e@.values,
            i <= n,
            count == present_from(vals, 0, i as nat),
            count <= i,
        decreases n - i,
    {
        proof {
            lemma_entries_push(vals, 0, i as nat);
        }
        if value_present(&e.values[i]) {
            count = count + 1;
        }
        i = i + 1;
    }
    let mut out: Vec<u8> = Vec::new();
    write_head(&mut out, 5, count);
    let ghost first = out@;
    i = 0;
    assert(entries_from(vals, 0, 0) =~= Seq::<u8>::empty());
    assert(out@ =~= first + entries_from(vals, 0, 0));
    while i < n
        invariant
            n == e.values@.len(),
            n < u64::MAX,
            vals == e@.values,
            i <= n,
            out@ == first + entries_from(vals, 0, i as nat),
        decreases n - i,
    {
        write_entry(&mut out, (i + 1) as u64, &e.values[i]);
        proof {
            lemma_entries_push(vals, 0, i as nat);
        }
        i = i + 1;
    }
    out
}


proof fn lemma_bstrs_unfold(l: Seq<Seq<u8>>, j: int)
    requires
        0 <= j < l.len(),
    ensures
        bstrs(l.subrange(j, l.len() as int)) == bstr(l[j]) + bstrs(l.subrange(j + 1, l.len() as int)),
{
    assert(l.subrange(j, l.len() as int).drop_first() =~= l.subrange(j + 1, l.len() as int));
}

/// The first written field from `j` on has a number past `j`, which is the
/// key of the first entry.
proof fn lemma_first_entry(vals: Seq<ValueView>, nulls: Seq<bool>, j: nat, n: nat, b: Seq<u8>, pos: int) -> (t: nat)
    requires
        j < n,
        n < u64::MAX,
        0 <= pos <= b.len(),
        present_from_n(vals, nulls, j, n) > 0,
        b.subrange(pos, b.len() as int) == entries_from_n(vals, nulls, j, n) + b.subrange(
            pos + entries_from_n(vals, nulls, j, n).len(),
            b.len() as int,
        ),
    ensures
        j < t <= n,
        head_at(b, pos) matches Some((major, key, _)) && major == 0 && key == t,
    decreases n - j,
{
    let v = vals[j as int];
    let nl = nulls[j as int];
    let f = entry_n(j + 1, v, nl);
    let rest = entries_from_n(vals, nulls, j + 1, n);
    let tail = b.subrange(pos + entries_from_n(vals, nulls, j, n).len(), b.len() as int);
    if written(v, nl) {
        let h = head(0, (j + 1) as nat);
        assert(b.subrange(pos, b.len() as int) =~= h + (item_n(v, nl) + rest + tail));
        lemma_split(b, pos, h, item_n(v, nl) + rest + tail);
        assert(((j + 1) as u64) as nat == j + 1);
        lemma_head_at(b, pos, 0, (j + 1) as u64);
        j + 1
    } else {
        assert(f =~= Seq::<u8>::empty());
        assert(entries_from_n(vals, nulls, j, n) =~= rest);
        assert(present_from_n(vals, nulls, j, n) == present_from_n(vals, nulls, j + 1, n));
        assert(j + 1 < n);
        lemma_first_entry(vals, nulls, j + 1, n, b, pos)
    }
}

proof fn lemma_entries_push_n(vals: Seq<ValueView>, nulls: Seq<bool>, i: nat, n: nat)
    requires
        i <= n,
    ensures
        entries_from_n(vals, nulls, i, n + 1) == entries_from_n(vals, nulls, i, n) + entry_n(n + 1, vals[n as int], nulls[n as int]),
        present_from_n(vals, nulls, i, n + 1) == present_from_n(vals, nulls, i, n) + written_count(vals[n as int], nulls[n as int]),
    decreases n - i,
{
    if i < n {
        lemma_entries_push_n(vals, nulls, i + 1, n);
        assert(entries_from_n(vals, nulls, i, n + 1) =~= entries_from_n(vals, nulls, i, n) + entry_n(n + 1, vals[n as int], nulls[n as int]));
    } else {
        assert(entries_from_n(vals, nulls, n + 1, n + 1) =~= Seq::<u8>::empty());
        assert(present_from_n(vals, nulls, n + 1, n + 1) == 0);
        assert(entries_from_n(vals, nulls, i, n + 1) =~= entry_n(n + 1, vals[n as int], nulls[n as int]));
    }
}

proof fn lemma_entries_ext_n(v1: Seq<ValueView>, u1: Seq<bool>, v2: Seq<ValueView>, u2: Seq<bool>, a: nat, n: nat)
    requires
        forall|j: int| a <= j < n ==> v1[j] == v2[j] && u1[j] == u2[j],
    ensures
        entries_from_n(v1, u1, a, n) == entries_from_n(v2, u2, a, n),
        present_from_n(v1, u1, a, n) == present_from_n(v2, u2, a, n),
    decreases n - a,
{
    if a < n {
        lemma_entries_ext_n(v1, u1, v2, u2, a + 1, n);
    }
}

proof fn lemma_entries_step_n(pre: Seq<ValueView>, nulls: Seq<bool>, v: ValueView, null: bool, i: nat)
    requires
        pre.len() == i,
        nulls.len() == i,
    ensures
        entries_from_n(pre.push(v), nulls.push(null), 0, i + 1) == entries_from_n(pre, nulls, 0, i) + entry_n(i + 1, v, null),
        present_from_n(pre.push(v), nulls.push(null), 0, i + 1) == present_from_n(pre, nulls, 0, i) + written_count(v, null),
{
    lemma_entries_push_n(pre.push(v), nulls.push(null), 0, i);
    lemma_entries_ext_n(pre.push(v), nulls.push(null), pre, nulls, 0, i);
}

/// Reads the item of a present field of the given shape at `p1`: a byte
/// string, or a non-empty array of them.
fn read_item(b: &Vec<u8>, p1: usize, shape: Shape) -> (r: Option<(FieldValue, usize)>)
    requires
        p1 <= b@.len(),
    ensures
        r matches Some((v, p)) ==> fits_shape(v@, shape) && is_present(v@) && p1 < p <= b@.len()
            && b@.subrange(p1 as int, p as int) == value_item(v@),
        forall|v: ValueView|
            fits_shape(v, shape) && is_present(v) && p1 + #[trigger] value_item(v).len() <= b@.len()
                && b@.subrange(p1 as int, p1 + value_item(v).len()) == value_item(v) ==> (r matches Some((
                v2,
                p,
            )) && v2@ == v && p == p1 + value_item(v).len()),
{
    let len = b.len();
    match shape {
        Shape::Required | Shape::Optional => {
            match read_bstr(b, p1) {
                Some((d, p2)) => {
                    proof {
                        lemma_bstr_at_inv(b@, p1 as int);
                    }
                    let ghost dv = d@;
                    let v = if shape == Shape::Required {
                        FieldValue::Required(d)
                    } else {
                        FieldValue::Optional(Some(d))
                    };
                    proof {
                        assert forall|w: ValueView|
                            fits_shape(w, shape) && is_present(w) && p1 + #[trigger] value_item(w).len() <= b@.len()
                                && b@.subrange(p1 as int, p1 + value_item(w).len()) == value_item(w) implies w == v@ && p2 == p1 + value_item(w).len() by {
                            let d0 = match w {
                                ValueView::Required(x) => x,
                                ValueView::Optional(Some(x)) => x,
                                _ => Seq::empty(),
                            };
                            assert(b@.subrange(p1 as int, len as int) =~= bstr(d0) + b@.subrange(p1 + bstr(d0).len(), len as int));
                            lemma_bstr_at(b@, p1 as int, d0, b@.subrange(p1 + bstr(d0).len(), len as int));
                        }
                    }
                    Some((v, p2))
                },
                None => {
                    proof {
                        assert forall|w: ValueView|
                            fits_shape(w, shape) && is_present(w) && p1 + #[trigger] value_item(w).len() <= b@.len()
                                && b@.subrange(p1 as int, p1 + value_item(w).len()) == value_item(w) implies false by {
                            let d0 = match w {
                                ValueView::Required(x) => x,
                                ValueView::Optional(Some(x)) => x,
                                _ => Seq::empty(),
                            };
                            assert(b@.subrange(p1 as int, len as int) =~= bstr(d0) + b@.subrange(p1 + bstr(d0).len(), len as int));
                            lemma_bstr_at(b@, p1 as int, d0, b@.subrange(p1 + bstr(d0).len(), len as int));
                        }
                    }
                    None
                },
            }
        },
        Shape::Repeated => {
            let hd = read_head(b, p1);
            proof {
                assert forall|w: ValueView|
                    fits_shape(w, shape) && is_present(w) && p1 + #[trigger] value_item(w).len() <= b@.len()
                        && b@.subrange(p1 as int, p1 + value_item(w).len()) == value_item(w) implies (w matches ValueView::Repeated(ll) && (hd matches Some((m, c, pp)) && m == 4 && c as nat == ll.len() && pp == p1 + head(4, ll.len()).len()) && b@.subrange(p1 + head(4, ll.len()).len(), p1 + value_item(w).len()) == bstrs(ll)) by {
                    if let ValueView::Repeated(ll) = w {
                        lemma_bstrs_len(ll);
                        let h4 = head(4, ll.len());
                        let tail = b@.subrange(p1 + value_item(w).len(), len as int);
                        assert(b@.subrange(p1 as int, len as int) =~= h4 + (bstrs(ll) + tail));
                        lemma_split(b@, p1 as int, h4, bstrs(ll) + tail);
                        assert(((ll.len() as u64) as nat) == ll.len());
                        lemma_head_at(b@, p1 as int, 4, ll.len() as u64);
                        assert(b@.subrange(p1 + h4.len(), p1 + value_item(w).len()) =~= value_item(w).subrange(h4.len() as int, value_item(w).len() as int));
                    }
                }
            }
            let (m2, cnt, p2) = match hd {
                Some(x) => x,
                None => {
                    return None;
                },
            };
            proof {
                lemma_head_at_inv(b@, p1 as int);
            }
            if m2 != 4 || cnt == 0 {
                return None;
            }
            let mut l: Vec<Vec<u8>> = Vec::new();
            let mut q: usize = p2;
            let mut j: u64 = 0;
            proof {
                assert(lists(l@) =~= Seq::<Seq<u8>>::empty());
                assert(b@.subrange(p1 as int, q as int) =~= head(4, cnt as nat) + bstrs(lists(l@)));
                assert forall|w: ValueView|
                    fits_shape(w, shape) && is_present(w) && p1 + #[trigger] value_item(w).len() <= b@.len()
                        && b@.subrange(p1 as int, p1 + value_item(w).len()) == value_item(w) implies (w matches ValueView::Repeated(ll) && lists(l@) == ll.subrange(0, 0) && b@.subrange(q as int, p1 + value_item(w).len()) == bstrs(ll.subrange(0, ll.len() as int))) by {
                    if let ValueView::Repeated(ll) = w {
                        assert(ll.subrange(0, ll.len() as int) =~= ll);
                        assert(ll.subrange(0, 0) =~= Seq::<Seq<u8>>::empty());
                    }
                }
            }
            while j < cnt
                invariant
                    j <= cnt,
                    shape == Shape::Repeated,
                    l@.len() == j,
                    p1 < q <= len,
                    len == b@.len(),
                    b@.subrange(p1 as int, q as int) == head(4, cnt as nat) + bstrs(lists(l@)),
                    forall|w: ValueView|
                        fits_shape(w, shape) && is_present(w) && p1 + #[trigger] value_item(w).len() <= b@.len()
                            && b@.subrange(p1 as int, p1 + value_item(w).len()) == value_item(w) ==> (w matches ValueView::Repeated(ll) && cnt == ll.len() && lists(l@) == ll.subrange(0, j as int) && q <= p1 + value_item(w).len() && b@.subrange(q as int, p1 + value_item(w).len()) == bstrs(ll.subrange(j as int, ll.len() as int))),
                decreases cnt - j,
            {
                let rb = read_bstr(b, q);
                proof {
                    assert forall|w: ValueView|
                        fits_shape(w, shape) && is_present(w) && p1 + #[trigger] value_item(w).len() <= b@.len()
                            && b@.subrange(p1 as int, p1 + value_item(w).len()) == value_item(w) implies (w matches ValueView::Repeated(ll) && rb matches Some((d, q2)) && d@ == ll[j as int] && q2 == q + bstr(ll[j as int]).len() && b@.subrange(q2 as int, p1 + value_item(w).len()) == bstrs(ll.subrange(j + 1, ll.len() as int))) by {
                        if let ValueView::Repeated(ll) = w {
                            let end = p1 + value_item(w).len();
                            lemma_bstrs_unfold(ll, j as int);
                            let rest = bstrs(ll.subrange(j + 1, ll.len() as int)) + b@.subrange(end, len as int);
                            assert(b@.subrange(q as int, len as int) =~= b@.subrange(q as int, end) + b@.subrange(end, len as int));
                            assert(b@.subrange(q as int, len as int) =~= bstr(ll[j as int]) + rest);
                            lemma_bstr_at(b@, q as int, ll[j as int], rest);
                            assert(b@.subrange(q + bstr(ll[j as int]).len(), end) =~= rest.subrange(0, bstrs(ll.subrange(j + 1, ll.len() as int)).len() as int));
                        }
                    }
                }
                match rb {
                    Some((d, q2)) => {
                        proof {
                            lemma_bstr_at_inv(b@, q as int);
                            assert(b@.subrange(p1 as int, q2 as int) =~= b@.subrange(p1 as int, q as int) + b@.subrange(q as int, q2 as int));
                            lemma_bstrs_push(lists(l@), d@);
                        }
                        let ghost before = l@;
                        let ghost dv = d@;
                        l.push(d);
                        proof {
                            assert(lists(l@) =~= lists(before).push(dv));
                            assert forall|w: ValueView|
                                fits_shape(w, shape) && is_present(w) && p1 + #[trigger] value_item(w).len() <= b@.len()
                                    && b@.subrange(p1 as int, p1 + value_item(w).len()) == value_item(w) implies (w matches ValueView::Repeated(ll) && lists(l@) == ll.subrange(0, j + 1)) by {
                                if let ValueView::Repeated(ll) = w {
                                    assert(ll.subrange(0, j + 1) =~= ll.subrange(0, j as int).push(dv));
                                }
                            }
                        }
                        q = q2;
                    },
                    None => {
                        return None;
                    },
                }
                j = j + 1;
            }
            let ghost lv = lists(l@);
            let v = FieldValue::Repeated(l);
            proof {
                assert(lv.len() == cnt);
                assert forall|w: ValueView|
                    fits_shape(w, shape) && is_present(w) && p1 + #[trigger] value_item(w).len() <= b@.len()
                        && b@.subrange(p1 as int, p1 + value_item(w).len()) == value_item(w) implies w == v@ && q == p1 + value_item(w).len() by {
                    if let ValueView::Repeated(ll) = w {
                        assert(ll.subrange(0, ll.len() as int) =~= ll);
                        assert(ll.subrange(ll.len() as int, ll.len() as int) =~= Seq::<Seq<u8>>::empty());
                    }
                }
            }
            Some((v, q))
        },
    }
}

/// Reads the entry of field number `tag`, of the given shape, at `pos`,
/// where `remaining` entries of the map are still to come. A field whose
/// entry is not there is absent, unless it is required; a repeated field
/// whose entry is null is empty.
fn decode_field(b: &Vec<u8>, pos: usize, remaining: u64, field: usize, tag: u64, shape: Shape) -> (r: Result<(FieldValue, usize, u64), CompactError>)
    requires
        pos <= b@.len(),
    ensures
        r matches Ok((v, p, rem)) ==> fits_shape(v@, shape) && pos <= p <= b@.len() && (
            (b@.subrange(pos as int, p as int) == entry_n(tag as nat, v@, false) && remaining == rem + written_count(v@, false))
            || (b@.subrange(pos as int, p as int) == entry_n(tag as nat, v@, true) && remaining == rem + written_count(v@, true))),
        forall|v: ValueView, null: bool|
            fits_shape(v, shape) && (written(v, null) ==> remaining > 0 && pos + #[trigger] entry_n(tag as nat, v, null).len() <= b@.len() && b@.subrange(pos as int, pos + entry_n(tag as nat, v, null).len()) == entry_n(tag as nat, v, null))
                && (!written(v, null) ==> remaining == 0 || !(head_at(b@, pos as int) matches Some((m, key, _)) && m == 0 && key == tag))
                ==> (r matches Ok((v2, p, rem)) && v2@ == v && p == pos + entry_n(tag as nat, v, null).len() && remaining == rem + written_count(v, null)),
{
    let len = b.len();
    proof {
        assert forall|v: ValueView, null: bool| written(v, null) && pos + #[trigger] entry_n(tag as nat, v, null).len() <= b@.len() && b@.subrange(pos as int, pos + entry_n(tag as nat, v, null).len()) == entry_n(tag as nat, v, null) implies (head_at(b@, pos as int) == Some((0nat, tag, pos + head(0, tag as nat).len())) && b@.subrange(pos + head(0, tag as nat).len(), pos + entry_n(tag as nat, v, null).len()) == item_n(v, null)) by {
            let h = head(0, tag as nat);
            let x = entry_n(tag as nat, v, null);
            assert(b@.subrange(pos as int, pos + h.len()) =~= x.subrange(0, h.len() as int));
            assert(x.subrange(0, h.len() as int) =~= h);
            lemma_head_at(b@, pos as int, 0, tag);
            assert(b@.subrange(pos + h.len(), pos + x.len()) =~= x.subrange(h.len() as int, x.len() as int));
        }
    }
    if remaining > 0 {
        match read_head(b, pos) {
            Some((m, key, q1)) => {
                if m == 0 && key == tag {
                    proof {
                        lemma_head_at_inv(b@, pos as int);
                    }
                    if shape == Shape::Repeated && q1 < len && b[q1] == 0xf6 {
                        let l: Vec<Vec<u8>> = Vec::new();
                        assert(lists(l@) =~= Seq::<Seq<u8>>::empty());
                        let v = FieldValue::Repeated(l);
                        proof {
                            assert(b@.subrange(pos as int, q1 + 1) =~= b@.subrange(pos as int, q1 as int) + seq![0xf6u8]);
                            assert(b@.subrange(pos as int, q1 + 1) =~= entry_n(tag as nat, v@, true));
                            assert forall|w: ValueView, null: bool|
                                fits_shape(w, shape) && (written(w, null) ==> remaining > 0 && pos + #[trigger] entry_n(tag as nat, w, null).len() <= b@.len() && b@.subrange(pos as int, pos + entry_n(tag as nat, w, null).len()) == entry_n(tag as nat, w, null))
                                    && (!written(w, null) ==> remaining == 0 || !(head_at(b@, pos as int) matches Some((m, key, _)) && m == 0 && key == tag))
                                implies w == v@ && q1 + 1 == pos + entry_n(tag as nat, w, null).len() && remaining == (remaining - 1) as u64 + written_count(w, null) by {
                                if let ValueView::Repeated(ll) = w {
                                    if ll.len() > 0 {
                                        let it = item_n(w, null);
                                        assert(it[0] == b@[q1 as int]);
                                        assert(it[0] == head(4, ll.len())[0]);
                                        assert(head(4, ll.len())[0] != 0xf6u8);
                                    } else {
                                        assert(ll =~= Seq::<Seq<u8>>::empty());
                                    }
                                }
                            }
                        }
                        return Ok((v, q1 + 1, remaining - 1));
                    }
                    let item = read_item(b, q1, shape);
                    proof {
                        assert forall|w: ValueView, null: bool|
                            fits_shape(w, shape) && (written(w, null) ==> remaining > 0 && pos + #[trigger] entry_n(tag as nat, w, null).len() <= b@.len() && b@.subrange(pos as int, pos + entry_n(tag as nat, w, null).len()) == entry_n(tag as nat, w, null))
                                && (!written(w, null) ==> remaining == 0 || !(head_at(b@, pos as int) matches Some((m, key, _)) && m == 0 && key == tag))
                            implies is_present(w) && !nulled(w, null) && q1 + value_item(w).len() <= b@.len() && b@.subrange(q1 as int, q1 + value_item(w).len()) == value_item(w) by {
                            if nulled(w, null) {
                                assert(item_n(w, null)[0] == b@[q1 as int]);
                            }
                        }
                    }
                    match item {
                        Some((v, p)) => {
                            proof {
                                assert(b@.subrange(pos as int, p as int) =~= b@.subrange(pos as int, q1 as int) + b@.subrange(q1 as int, p as int));
                                assert(item_n(v@, false) == value_item(v@));
                            }
                            return Ok((v, p, remaining - 1));
                        },
                        None => {
                            return Err(CompactError::Malformed { field });
                        },
                    }
                }
            },
            None => {},
        }
    }
    match shape {
        Shape::Required => Err(CompactError::MissingField { field }),
        Shape::Optional => {
            let v = FieldValue::Optional(None);
            assert(b@.subrange(pos as int, pos as int) =~= entry_n(tag as nat, v@, false));
            Ok((v, pos, remaining))
        },
        Shape::Repeated => {
            let l: Vec<Vec<u8>> = Vec::new();
            assert(lists(l@) =~= Seq::<Seq<u8>>::empty());
            let v = FieldValue::Repeated(l);
            assert(b@.subrange(pos as int, pos as int) =~= entry_n(tag as nat, v@, false));
            proof {
                assert forall|w: ValueView, null: bool| fits_shape(w, shape) && !written(w, null) implies w == v@ && entry_n(tag as nat, w, null).len() == 0 by {
                    if let ValueView::Repeated(ll) = w {
                        assert(ll =~= Seq::<Seq<u8>>::empty());
                    }
                }
            }
            Ok((v, pos, remaining))
        },
    }
}

/// Reads the compact encoding of an instance of kind `k`. It succeeds
/// exactly on the compact encodings of instances of the kind, in which an
/// empty repeated field is either left out (as `encode_compact` writes it)
/// or written as null, and then gives that instance back.
pub fn decode_compact(schema: &Schema, k: usize, b: &Vec<u8>) -> (r: Result<Entity, CompactError>)
    requires
        k < schema.kinds@.len(),
        schema.kinds@[k as int].fields@.len() < u64::MAX,
    ensures
        r matches Ok(d) ==> exists|nulls: Seq<bool>| #[trigger] compact_accepts(*schema, k as nat, b@, d@, nulls),
        forall|e: EntityView, nulls: Seq<bool>| #[trigger] compact_accepts(*schema, k as nat, b@, e, nulls) ==> (r matches Ok(d) && d@ == e),
{
    let kind = &schema.kinds[k];
    let n = kind.fields.len();
    let len = b.len();
    let hd = read_head(b, 0);
    proof {
        assert forall|e: EntityView, nulls: Seq<bool>| #[trigger] compact_accepts(*schema, k as nat, b@, e, nulls) implies (hd matches Some((m, c, p)) && m == 5 && c as nat == present_from_n(e.values, nulls, 0, n as nat) && p == head(5, present_from_n(e.values, nulls, 0, n as nat)).len()) && b@.subrange(head(5, present_from_n(e.values, nulls, 0, n as nat)).len() as int, len as int) == entries_from_n(e.values, nulls, 0, n as nat) by {
            let c = present_from_n(e.values, nulls, 0, n as nat);
            assert(c <= n) by { lemma_present_bound(e.values, nulls, 0, n as nat); }
            assert(b@.subrange(0, len as int) =~= b@);
            lemma_split(b@, 0, head(5, c), entries_from_n(e.values, nulls, 0, n as nat));
            assert((c as u64) as nat == c);
            lemma_head_at(b@, 0, 5, c as u64);
        }
    }
    let (major, count, p0) = match hd {
        Some(x) => x,
        None => {
            return Err(CompactError::NotAMap);
        },
    };
    proof {
        lemma_head_at_inv(b@, 0);
    }
    if major != 5 {
        return Err(CompactError::NotAMap);
    }
    let mut remaining: u64 = count;
    let mut pos: usize = p0;
    let mut vals: Vec<FieldValue> = Vec::new();
    let ghost mut gn: Seq<bool> = Seq::empty();
    let mut i: usize = 0;
    proof {
        assert(b@.subrange(0, pos as int) =~= head(5, count as nat) + entries_from_n(value_views(vals@), gn, 0, 0));
        assert forall|e: EntityView, nulls: Seq<bool>| #[trigger] compact_accepts(*schema, k as nat, b@, e, nulls) implies value_views(vals@) == e.values.subrange(0, 0) by {
            assert(value_views(vals@) =~= e.values.subrange(0, 0));
        }
    }
    while i < n
        invariant
            k < schema.kinds@.len(),
            kind == schema.kinds@[k as int],
            n == kind.fields@.len(),
            n < u64::MAX,
            len == b@.len(),
            i <= n,
            pos <= len,
            vals@.len() == i,
            gn.len() == i,
            forall|j: int| 0 <= j < i ==> #[trigger] fits_shape(value_views(vals@)[j], kind.fields@[j].shape),
            b@.subrange(0, pos as int) == head(5, count as nat) + entries_from_n(value_views(vals@), gn, 0, i as nat),
            count == present_from_n(value_views(vals@), gn, 0, i as nat) + remaining,
            forall|e: EntityView, nulls: Seq<bool>| #[trigger] compact_accepts(*schema, k as nat, b@, e, nulls) ==> value_views(vals@) == e.values.subrange(0, i as int) && b@.subrange(pos as int, len as int) == entries_from_n(e.values, nulls, i as nat, n as nat) && remaining == present_from_n(e.values, nulls, i as nat, n as nat),
        decreases n - i,
    {
        let tag: u64 = (i + 1) as u64;
        let ghost pre = value_views(vals@);
        let shape = kind.fields[i].shape;
        let res = decode_field(b, pos, remaining, i, tag, shape);
        proof {
            assert forall|e: EntityView, nulls: Seq<bool>| #[trigger] compact_accepts(*schema, k as nat, b@, e, nulls) implies (res matches Ok((v2, p, rem)) && v2@ == e.values[i as int] && p == pos + entry_n(tag as nat, e.values[i as int], nulls[i as int]).len() && rem == present_from_n(e.values, nulls, (i + 1) as nat, n as nat) && b@.subrange(p as int, len as int) == entries_from_n(e.values, nulls, (i + 1) as nat, n as nat)) by {
                let w = e.values[i as int];
                let nl = nulls[i as int];
                let rest = entries_from_n(e.values, nulls, (i + 1) as nat, n as nat);
                assert(fits_shape(w, shape));
                lemma_split(b@, pos as int, entry_n(tag as nat, w, nl), rest);
                if !written(w, nl) && remaining > 0 {
                    assert(b@.subrange(pos as int, len as int) =~= rest + Seq::<u8>::empty());
                    let t = lemma_first_entry(e.values, nulls, (i + 1) as nat, n as nat, b@, pos as int);
                }
                assert(entry_n(tag as nat, w, nl) == entry_n(tag as nat, w, nl));
            }
        }
        match res {
            Ok((v, p, rem)) => {
                let ghost vv = v@;
                let ghost nb = !(b@.subrange(pos as int, p as int) == entry_n(tag as nat, vv, false) && remaining == rem + written_count(vv, false));
                proof {
                    assert(b@.subrange(0, p as int) =~= b@.subrange(0, pos as int) + b@.subrange(pos as int, p as int));
                    lemma_entries_step_n(pre, gn, vv, nb, i as nat);
                }
                vals.push(v);
                assert(value_views(vals@) =~= pre.push(vv));
                proof {
                    gn = gn.push(nb);
                }
                pos = p;
                remaining = rem;
            },
            Err(e) => {
                return Err(e);
            },
        }
        proof {
            assert forall|e: EntityView, nulls: Seq<bool>| #[trigger] compact_accepts(*schema, k as nat, b@, e, nulls) implies value_views(vals@) == e.values.subrange(0, i + 1) by {
                assert(value_views(vals@) =~= e.values.subrange(0, i + 1));
            }
        }
        i = i + 1;
    }
    proof {
        assert forall|e: EntityView, nulls: Seq<bool>| #[trigger] compact_accepts(*schema, k as nat, b@, e, nulls) implies pos == len && remaining == 0 && value_views(vals@) == e.values by {
            assert(e.values.subrange(0, n as int) =~= e.values);
        }
    }
    if remaining != 0 || pos != len {
        return Err(CompactError::TrailingBytes);
    }
    let d = Entity { kind: k, values: vals };
    proof {
        assert(b@.subrange(0, len as int) =~= b@);
        assert(d@.values == value_views(vals@));
        assert(fits(*schema, d@));
        assert(compact_bytes_n(d@, gn) == b@);
        assert(compact_accepts(*schema, k as nat, b@, d@, gn));
        assert(exists|nulls: Seq<bool>| #[trigger] compact_accepts(*schema, k as nat, b@, d@, nulls));
    }
    let r: Result<Entity, CompactError> = Ok(d);
    assert(r->Ok_0@ == d@);
    assert(compact_accepts(*schema, k as nat, b@, r->Ok_0@, gn));
    r
}

proof fn lemma_bstrs_len(l: Seq<Seq<u8>>)
    ensures
        bstrs(l).len() >= l.len(),
    decreases l.len(),
{
    if l.len() > 0 {
        lemma_bstrs_len(l.drop_first());
    }
}

proof fn lemma_present_bound(vals: Seq<ValueView>, nulls: Seq<bool>, i: nat, n: nat)
    ensures
        present_from_n(vals, nulls, i, n) <= if i <= n { n - i } else { 0 },
    decreases n - i,
{
    if i < n {
        lemma_present_bound(vals, nulls, i + 1, n);
    }
}
} // verus!
