//! The canonical encoding (tag/length/value records), the CID hash preimage.

use vstd::prelude::*;
use crate::entity::{Entity, EntityView, ValueView, FieldValue, fits, value_views};
use crate::order::lists;
use crate::schema::{Schema, Shape};
use crate::varint::{varint, write_varint, read_varint, varint_at, lemma_varint_at};

verus! {

/// The key of a record: its tag shifted past the wire type of a
/// length-delimited value (2).
pub open spec fn key_of(tag: nat) -> nat {
    tag * 8 + 2
}

/// One tag/length/value record.
pub open spec fn record(tag: nat, b: Seq<u8>) -> Seq<u8> {
    varint(key_of(tag)) + varint(b.len()) + b
}

/// One record per element, in order.
pub open spec fn records(tag: nat, l: Seq<Seq<u8>>) -> Seq<u8>
    decreases l.len(),
{
    if l.len() == 0 {
        Seq::empty()
    } else {
        record(tag, l[0]) + records(tag, l.drop_first())
    }
}

/// The records of one field: none for an absent optional field.
pub open spec fn field_records(tag: nat, v: ValueView) -> Seq<u8> {
    match v {
        ValueView::Required(b) => record(tag, b),
        ValueView::Optional(Some(b)) => record(tag, b),
        ValueView::Optional(None) => Seq::empty(),
        ValueView::Repeated(l) => records(tag, l),
    }
}

/// The records of fields `i` up to `n`, each tagged with its position plus one.
pub open spec fn fields_from(vals: Seq<ValueView>, i: nat, n: nat) -> Seq<u8>
    decreases n - i,
{
    if i >= n {
        Seq::empty()
    } else {
        field_records(i + 1, vals[i as int]) + fields_from(vals, i + 1, n)
    }
}

/// The canonical encoding of an entity: the hash preimage of its CID.
pub open spec fn canonical_bytes(e: EntityView) -> Seq<u8> {
    fields_from(e.values, 0, e.values.len())
}

proof fn lemma_records_push(tag: nat, l: Seq<Seq<u8>>, x: Seq<u8>)
    ensures
        records(tag, l.push(x)) == records(tag, l) + record(tag, x),
    decreases l.len(),
{
    if l.len() == 0 {
        assert(l.push(x).drop_first() =~= Seq::<Seq<u8>>::empty());
        assert(records(tag, l.push(x).drop_first()) == Seq::<u8>::empty());
        assert(l.push(x)[0] == x);
        assert(records(tag, l.push(x)) =~= record(tag, x));
    } else {
        assert(l.push(x).drop_first() =~= l.drop_first().push(x));
        lemma_records_push(tag, l.drop_first(), x);
        assert(records(tag, l.push(x)) =~= records(tag, l) + record(tag, x));
    }
}

proof fn lemma_fields_push(vals: Seq<ValueView>, i: nat, n: nat)
    requires
        i <= n,
    ensures
        fields_from(vals, i, n + 1) == fields_from(vals, i, n) + field_records(n + 1, vals[n as int]),
    decreases n - i,
{
    if i < n {
        lemma_fields_push(vals, i + 1, n);
        assert(fields_from(vals, i, n + 1) =~= fields_from(vals, i, n) + field_records(
            n + 1,
            vals[n as int],
        ));
    } else {
        assert(fields_from(vals, n + 1, n + 1) =~= Seq::<u8>::empty());
        assert(fields_from(vals, i, n + 1) =~= field_records(n + 1, vals[n as int]));
    }
}

/// Appends one record.
fn write_record(out: &mut Vec<u8>, tag: u64, b: &Vec<u8>)
    requires
        tag <= 0x0fff_ffff_ffff_ffff,
    ensures
        final(out)@ == old(out)@ + record(tag as nat, b@),
{
    write_varint(out, tag * 8 + 2);
    write_varint(out, b.len() as u64);
    let mut i: usize = 0;
    let ghost mid = out@;
    while i < b.len()
        invariant
            i <= b@.len(),
            out@ == mid + b@.subrange(0, i as int),
        decreases b@.len() - i,
    {
        out.push(b[i]);
        assert(b@.subrange(0, i + 1) =~= b@.subrange(0, i as int).push(b@[i as int]));
        i = i + 1;
    }
    assert(b@.subrange(0, b@.len() as int) =~= b@);
    assert(out@ =~= old(out)@ + record(tag as nat, b@));
}

/// Appends the records of one field.
fn write_field(out: &mut Vec<u8>, tag: u64, v: &FieldValue)
    requires
        tag <= 0x0fff_ffff_ffff_ffff,
    ensures
        final(out)@ == old(out)@ + field_records(tag as nat, v@),
{
    match v {
        FieldValue::Required(b) => write_record(out, tag, b),
        FieldValue::Optional(o) => match o {
            Some(b) => write_record(out, tag, b),
            None => {
                assert(out@ =~= out@ + Seq::<u8>::empty());
            },
        },
        FieldValue::Repeated(l) => {
            let ghost start = out@;
            let mut j: usize = 0;
            assert(lists(l@).subrange(0, 0) =~= Seq::<Seq<u8>>::empty());
            assert(out@ =~= start + records(tag as nat, lists(l@).subrange(0, 0)));
            while j < l.len()
                invariant
                    tag <= 0x0fff_ffff_ffff_ffff,
                    j <= l@.len(),
                    out@ == start + records(tag as nat, lists(l@).subrange(0, j as int)),
                decreases l@.len() - j,
            {
                write_record(out, tag, &l[j]);
                proof {
                    assert(lists(l@).subrange(0, j + 1) =~= lists(l@).subrange(0, j as int).push(
                        l@[j as int]@,
                    ));
                    lemma_records_push(tag as nat, lists(l@).subrange(0, j as int), l@[j as int]@);
                }
                j = j + 1;
            }
            assert(lists(l@).subrange(0, l@.len() as int) =~= lists(l@));
        },
    }
}

/// The canonical encoding: for each field in declaration order, one
/// tag/length/value record per byte string it holds, tagged with the
/// field's position plus one; an absent optional field and an empty
/// repeated field leave nothing.
pub fn encode_canonical(e: &Entity) -> (r: Vec<u8>)
    requires
        e.values@.len() < 0x0fff_ffff_ffff_ffff,
    ensures
        r@ == canonical_bytes(e@),
{
    let mut out: Vec<u8> = Vec::new();
    let n = e.values.len();
    let ghost vals = e@.values;
    let mut i: usize = 0;
    assert(out@ =~= fields_from(vals, 0, 0));
    while i < n
        invariant
            n == e.values@.len(),
            n < 0x0fff_ffff_ffff_ffff,
            vals == e@.values,
            i <= n,
            out@ == fields_from(vals, 0, i as nat),
        decreases n - i,
    {
        write_field(&mut out, (i + 1) as u64, &e.values[i]);
        proof {
            lemma_fields_push(vals, 0, i as nat);
        }
        i = i + 1;
    }
    out
}


/// The record that starts at `pos`: its key, its value and the position
/// after it.
pub open spec fn record_at(b: Seq<u8>, pos: int) -> Option<(u64, Seq<u8>, int)> {
    match varint_at(b, pos) {
        Some((key, p1)) => match varint_at(b, p1 as int) {
            Some((l, p2)) => if p2 + l <= b.len() {
                Some((key, b.subrange(p2 as int, p2 + l), p2 + l))
            } else {
                None
            },
            None => None,
        },
        None => None,
    }
}

proof fn lemma_record_at(b: Seq<u8>, pos: int, tag: nat, d: Seq<u8>)
    requires
        0 <= pos,
        pos + record(tag, d).len() <= b.len(),
        b.subrange(pos, pos + record(tag, d).len()) == record(tag, d),
        key_of(tag) <= u64::MAX,
        b.len() <= usize::MAX,
    ensures
        record_at(b, pos) == Some((key_of(tag) as u64, d, pos + record(tag, d).len())),
{
    let k = key_of(tag) as u64;
    let l = d.len() as u64;
    let n1 = varint(k as nat).len() as int;
    let n2 = varint(l as nat).len() as int;
    assert(b.subrange(pos, pos + n1) =~= varint(k as nat));
    lemma_varint_at(b, pos, k);
    let r = record(tag, d);
    let w = b.subrange(pos, pos + r.len());
    assert(b.subrange(pos + n1, pos + n1 + n2) =~= w.subrange(n1, n1 + n2));
    assert(r.subrange(n1, n1 + n2) =~= varint(l as nat));
    lemma_varint_at(b, pos + n1, l);
    assert(b.subrange(pos + n1 + n2, pos + n1 + n2 + d.len()) =~= w.subrange(n1 + n2, r.len() as int));
    assert(r.subrange(n1 + n2, r.len() as int) =~= d);
}

/// The first record of fields `j` on has a tag past `j`.
proof fn lemma_first_key(vals: Seq<ValueView>, j: nat, n: nat, b: Seq<u8>, pos: int) -> (t: nat)
    requires
        j < n,
        n < 0x0fff_ffff_ffff_ffff,
        0 <= pos,
        fields_from(vals, j, n).len() > 0,
        b.subrange(pos, b.len() as int) == fields_from(vals, j, n) + b.subrange(
            pos + fields_from(vals, j, n).len(),
            b.len() as int,
        ),
        pos + fields_from(vals, j, n).len() <= b.len(),
        b.len() <= usize::MAX,
    ensures
        t > j,
        t <= n,
        record_at(b, pos) matches Some((key, _, _)) && key == key_of(t),
    decreases n - j,
{
    let f = field_records(j + 1, vals[j as int]);
    let rest = fields_from(vals, j + 1, n);
    let tail = b.subrange(pos + fields_from(vals, j, n).len(), b.len() as int);
    assert(b.subrange(pos, b.len() as int) =~= f + rest + tail);
    if f.len() > 0 {
        let d: Seq<u8> = match vals[j as int] {
            ValueView::Required(x) => x,
            ValueView::Optional(Some(x)) => x,
            ValueView::Optional(None) => Seq::empty(),
            ValueView::Repeated(l) => l[0],
        };
        assert(f.subrange(0, record(j + 1, d).len() as int) == record(j + 1, d)) by {
            match vals[j as int] {
                ValueView::Repeated(l) => {
                    assert(f =~= record(j + 1, d) + records(j + 1, l.drop_first()));
                },
                _ => {},
            }
        }
        assert(b.subrange(pos, pos + record(j + 1, d).len()) =~= record(j + 1, d)) by {
            assert(b.subrange(pos, b.len() as int).subrange(0, record(j + 1, d).len() as int) =~= f.subrange(0, record(j + 1, d).len() as int));
        }
        lemma_record_at(b, pos, j + 1, d);
        j + 1
    } else {
        let p2 = pos + f.len();
        assert(b.subrange(p2, b.len() as int) =~= rest + b.subrange(p2 + rest.len(), b.len() as int));
        lemma_first_key(vals, j + 1, n, b, p2)
    }
}

/// Why bytes are not a canonical encoding.
#[derive(Clone, Copy, Debug, PartialEq, Eq, Structural)]
pub enum CanonicalError {
    /// No record for the required field at this position.
    MissingField { field: usize },
    /// Bytes left over after the last field.
    TrailingBytes { pos: usize },
}

/// Reads the record at `pos`.
fn read_record(b: &Vec<u8>, pos: usize) -> (r: Option<(u64, Vec<u8>, usize)>)
    requires
        pos <= b@.len(),
    ensures
        match record_at(b@, pos as int) {
            Some((key, d, p)) => r matches Some((k2, d2, p2)) && k2 == key && d2@ == d && p2 == p,
            None => r is None,
        },
        r matches Some((k2, d2, p2)) ==> pos < p2 <= b@.len(),
{
    match read_varint(b, pos) {
        Some((key, p1)) => match read_varint(b, p1) {
            Some((l, p2)) => {
                if l > (b.len() - p2) as u64 {
                    return None;
                }
                let end = p2 + l as usize;
                let mut d: Vec<u8> = Vec::new();
                let mut i: usize = p2;
                while i < end
                    invariant
                        p2 <= i <= end,
                        end <= b@.len(),
                        d@ == b@.subrange(p2 as int, i as int),
                    decreases end - i,
                {
                    d.push(b[i]);
                    assert(b@.subrange(p2 as int, i + 1) =~= b@.subrange(p2 as int, i as int).push(b@[i as int]));
                    i = i + 1;
                }
                Some((key, d, end))
            },
            None => None,
        },
        None => None,
    }
}

/// `e` is an instance of kind `k` whose canonical encoding is `b`.
pub open spec fn encodes(schema: Schema, k: nat, b: Seq<u8>, e: EntityView) -> bool {
    fits(schema, e) && e.kind == k && canonical_bytes(e) == b
}

proof fn lemma_split(b: Seq<u8>, pos: int, x: Seq<u8>, rest: Seq<u8>)
    requires
        0 <= pos <= b.len(),
        b.subrange(pos, b.len() as int) == x + rest,
    ensures
        pos + x.len() <= b.len(),
        b.subrange(pos, pos + x.len()) == x,
        b.subrange(pos + x.len(), b.len() as int) == rest,
{
    assert(b.subrange(pos, b.len() as int).len() == b.len() - pos);
    assert(b.len() - pos == x.len() + rest.len());
    assert(b.subrange(pos, pos + x.len()) =~= (x + rest).subrange(0, x.len() as int));
    assert(b.subrange(pos + x.len(), b.len() as int) =~= (x + rest).subrange(x.len() as int, (x + rest).len() as int));
}

proof fn lemma_fields_ext(v1: Seq<ValueView>, v2: Seq<ValueView>, a: nat, n: nat)
    requires
        forall|j: int| a <= j < n ==> v1[j] == v2[j],
    ensures
        fields_from(v1, a, n) == fields_from(v2, a, n),
    decreases n - a,
{
    if a < n {
        lemma_fields_ext(v1, v2, a + 1, n);
    }
}

proof fn lemma_fields_step(pre: Seq<ValueView>, v: ValueView, i: nat)
    requires
        pre.len() == i,
    ensures
        fields_from(pre.push(v), 0, i + 1) == fields_from(pre, 0, i) + field_records(i + 1, v),
{
    lemma_fields_push(pre.push(v), 0, i);
    lemma_fields_ext(pre.push(v), pre, 0, i);
}

proof fn lemma_record_at_inv(b: Seq<u8>, pos: int)
    requires
        0 <= pos <= b.len(),
        b.len() <= usize::MAX,
        record_at(b, pos) is Some,
    ensures
        record_at(b, pos) matches Some((key, d, p)) && pos < p <= b.len() && b.subrange(pos, p) == varint(key as nat) + varint(d.len()) + d,
{
    crate::varint::lemma_varint_at_inv(b, pos);
    let (key, p1) = varint_at(b, pos).unwrap();
    crate::varint::lemma_varint_at_inv(b, p1 as int);
    let (l, p2) = varint_at(b, p1 as int).unwrap();
    assert(b.subrange(pos, p2 + l) =~= b.subrange(pos, p1 as int) + b.subrange(p1 as int, p2 as int) + b.subrange(p2 as int, p2 + l));
}

proof fn lemma_tail_unfold(vals: Seq<ValueView>, i: nat, n: nat)
    requires
        i < n,
    ensures
        fields_from(vals, i, n) == field_records(i + 1, vals[i as int]) + fields_from(vals, i + 1, n),
{
}

proof fn lemma_records_unfold(tag: nat, l: Seq<Seq<u8>>, j: int)
    requires
        0 <= j < l.len(),
    ensures
        records(tag, l.subrange(j, l.len() as int)) == record(tag, l[j]) + records(tag, l.subrange(j + 1, l.len() as int)),
{
    assert(l.subrange(j, l.len() as int).drop_first() =~= l.subrange(j + 1, l.len() as int));
}

/// Reads the canonical encoding of an instance of kind `k`. It succeeds
/// exactly on the bytes that `encode_canonical` gives for an instance of the
/// kind, and then gives that instance back.
pub fn decode_canonical(schema: &Schema, k: usize, b: &Vec<u8>) -> (r: Result<Entity, CanonicalError>)
    requires
        k < schema.kinds@.len(),
        schema.kinds@[k as int].fields@.len() < 0x0fff_ffff_ffff_ffff,
    ensures
        r matches Ok(d) ==> fits(*schema, d@) && d.kind == k && canonical_bytes(d@) == b@,
        forall|e: EntityView| #[trigger] encodes(*schema, k as nat, b@, e) ==> (r matches Ok(d) && d@ == e),
{
    let kind = &schema.kinds[k];
    let n = kind.fields.len();
    let len = b.len();
    let mut vals: Vec<FieldValue> = Vec::new();
    let mut pos: usize = 0;
    let mut i: usize = 0;
    proof {
        assert(b@.subrange(0, 0) =~= fields_from(value_views(vals@), 0, 0));
        assert forall|e: EntityView| #[trigger] encodes(*schema, k as nat, b@, e) implies value_views(vals@) == e.values.subrange(0, 0) && b@.subrange(0, len as int) == fields_from(e.values, 0, n as nat) by {
            assert(b@.subrange(0, len as int) =~= b@);
            assert(value_views(vals@) =~= e.values.subrange(0, 0));
        }
    }
    while i < n
        invariant
            k < schema.kinds@.len(),
            kind == schema.kinds@[k as int],
            n == kind.fields@.len(),
            n < 0x0fff_ffff_ffff_ffff,
            len == b@.len(),
            i <= n,
            pos <= len,
            vals@.len() == i,
            forall|j: int| 0 <= j < i ==> #[trigger] crate::entity::fits_shape(value_views(vals@)[j], kind.fields@[j].shape),
            b@.subrange(0, pos as int) == fields_from(value_views(vals@), 0, i as nat),
            forall|e: EntityView| #[trigger] encodes(*schema, k as nat, b@, e) ==> value_views(vals@) == e.values.subrange(0, i as int) && b@.subrange(pos as int, len as int) == fields_from(e.values, i as nat, n as nat),
        decreases n - i,
    {
        let tag: u64 = (i + 1) as u64;
        let ghost pre = value_views(vals@);
        let ghost start = pos;
        proof {
            assert forall|e: EntityView| #[trigger] encodes(*schema, k as nat, b@, e) implies b@.subrange(pos as int, len as int) == field_records(tag as nat, e.values[i as int]) + fields_from(e.values, (i + 1) as nat, n as nat) && crate::entity::fits_shape(e.values[i as int], kind.fields@[i as int].shape) by {
                lemma_tail_unfold(e.values, i as nat, n as nat);
            }
        }
        match kind.fields[i].shape {
            Shape::Required => {
                let rr = read_record(b, pos);
                match rr {
                    Some((key, d, p)) => {
                        if key != tag * 8 + 2 {
                            proof {
                                assert forall|e: EntityView| #[trigger] encodes(*schema, k as nat, b@, e) implies false by {
                                    if let ValueView::Required(d0) = e.values[i as int] {
                                        lemma_split(b@, pos as int, record(tag as nat, d0), fields_from(e.values, (i + 1) as nat, n as nat));
                                        lemma_record_at(b@, pos as int, tag as nat, d0);
                                    }
                                }
                            }
                            return Err(CanonicalError::MissingField { field: i });
                        }
                        proof {
                            lemma_record_at_inv(b@, pos as int);
                            assert(b@.subrange(0, p as int) =~= b@.subrange(0, pos as int) + b@.subrange(pos as int, p as int));
                            lemma_fields_step(pre, ValueView::Required(d@), i as nat);
                            assert forall|e: EntityView| #[trigger] encodes(*schema, k as nat, b@, e) implies e.values[i as int] == ValueView::Required(d@) && b@.subrange(p as int, len as int) == fields_from(e.values, (i + 1) as nat, n as nat) by {
                                if let ValueView::Required(d0) = e.values[i as int] {
                                    lemma_split(b@, pos as int, record(tag as nat, d0), fields_from(e.values, (i + 1) as nat, n as nat));
                                    lemma_record_at(b@, pos as int, tag as nat, d0);
                                }
                            }
                        }
                        let ghost dv = d@;
                        vals.push(FieldValue::Required(d));
                        assert(value_views(vals@) =~= pre.push(ValueView::Required(dv)));
                        pos = p;
                    },
                    None => {
                        proof {
                            assert forall|e: EntityView| #[trigger] encodes(*schema, k as nat, b@, e) implies false by {
                                if let ValueView::Required(d0) = e.values[i as int] {
                                    lemma_split(b@, pos as int, record(tag as nat, d0), fields_from(e.values, (i + 1) as nat, n as nat));
                                    lemma_record_at(b@, pos as int, tag as nat, d0);
                                }
                            }
                        }
                        return Err(CanonicalError::MissingField { field: i });
                    },
                }
            },
            Shape::Optional => {
                let rr = read_record(b, pos);
                let mut taken = false;
                match rr {
                    Some((key, d, p)) => {
                        if key == tag * 8 + 2 {
                            proof {
                                lemma_record_at_inv(b@, pos as int);
                                assert(b@.subrange(0, p as int) =~= b@.subrange(0, pos as int) + b@.subrange(pos as int, p as int));
                                lemma_fields_step(pre, ValueView::Optional(Some(d@)), i as nat);
                                assert forall|e: EntityView| #[trigger] encodes(*schema, k as nat, b@, e) implies e.values[i as int] == ValueView::Optional(Some(d@)) && b@.subrange(p as int, len as int) == fields_from(e.values, (i + 1) as nat, n as nat) by {
                                    match e.values[i as int] {
                                        ValueView::Optional(Some(d0)) => {
                                            lemma_split(b@, pos as int, record(tag as nat, d0), fields_from(e.values, (i + 1) as nat, n as nat));
                                            lemma_record_at(b@, pos as int, tag as nat, d0);
                                        },
                                        ValueView::Optional(None) => {
                                            assert(b@.subrange(pos as int, len as int) =~= fields_from(e.values, (i + 1) as nat, n as nat) + Seq::<u8>::empty());
                                            let t = lemma_first_key(e.values, (i + 1) as nat, n as nat, b@, pos as int);
                                        },
                                        _ => {},
                                    }
                                }
                            }
                            let ghost dv = d@;
                            vals.push(FieldValue::Optional(Some(d)));
                            assert(value_views(vals@) =~= pre.push(ValueView::Optional(Some(dv))));
                            pos = p;
                            taken = true;
                        }
                    },
                    None => {},
                }
                if !taken {
                    proof {
                        lemma_fields_step(pre, ValueView::Optional(None), i as nat);
                        assert(field_records(tag as nat, ValueView::Optional(None)) =~= Seq::<u8>::empty());
                        assert(fields_from(pre, 0, i as nat) + Seq::<u8>::empty() =~= fields_from(pre, 0, i as nat));
                        assert forall|e: EntityView| #[trigger] encodes(*schema, k as nat, b@, e) implies e.values[i as int] == ValueView::Optional(None) by {
                            if let ValueView::Optional(Some(d0)) = e.values[i as int] {
                                lemma_split(b@, pos as int, record(tag as nat, d0), fields_from(e.values, (i + 1) as nat, n as nat));
                                lemma_record_at(b@, pos as int, tag as nat, d0);
                            }
                        }
                    }
                    vals.push(FieldValue::Optional(None));
                    assert(value_views(vals@) =~= pre.push(ValueView::Optional(None)));
                }
            },
            Shape::Repeated => {
                let mut l: Vec<Vec<u8>> = Vec::new();
                proof {
                    assert(lists(l@) =~= Seq::<Seq<u8>>::empty());
                    assert(fields_from(pre, 0, i as nat) + records(tag as nat, lists(l@)) =~= fields_from(pre, 0, i as nat));
                    assert forall|e: EntityView| #[trigger] encodes(*schema, k as nat, b@, e) implies (e.values[i as int] matches ValueView::Repeated(ll) && l@.len() <= ll.len() && lists(l@) == ll.subrange(0, l@.len() as int) && b@.subrange(pos as int, len as int) == records(tag as nat, ll.subrange(l@.len() as int, ll.len() as int)) + fields_from(e.values, (i + 1) as nat, n as nat)) by {
                        if let ValueView::Repeated(ll) = e.values[i as int] {
                            assert(ll.subrange(0, ll.len() as int) =~= ll);
                            assert(ll.subrange(0, 0) =~= Seq::<Seq<u8>>::empty());
                        }
                    }
                }
                loop
                    invariant
                        pos <= len,
                        len == b@.len(),
                        n < 0x0fff_ffff_ffff_ffff,
                        i < n,
                        tag == i + 1,
                        b@.subrange(0, pos as int) == fields_from(pre, 0, i as nat) + records(tag as nat, lists(l@)),
                        forall|e: EntityView| #[trigger] encodes(*schema, k as nat, b@, e) ==> (e.values[i as int] matches ValueView::Repeated(ll) && l@.len() <= ll.len() && lists(l@) == ll.subrange(0, l@.len() as int) && b@.subrange(pos as int, len as int) == records(tag as nat, ll.subrange(l@.len() as int, ll.len() as int)) + fields_from(e.values, (i + 1) as nat, n as nat)),
                    ensures
                        pos <= len,
                        b@.subrange(0, pos as int) == fields_from(pre, 0, i as nat) + records(tag as nat, lists(l@)),
                        forall|e: EntityView| #[trigger] encodes(*schema, k as nat, b@, e) ==> (e.values[i as int] matches ValueView::Repeated(ll) && lists(l@) == ll && b@.subrange(pos as int, len as int) == fields_from(e.values, (i + 1) as nat, n as nat)),
                    decreases len - pos,
                {
                    let rr = read_record(b, pos);
                    let mut more = false;
                    match rr {
                        Some((key, d, p)) => {
                            if key == tag * 8 + 2 {
                                proof {
                                    lemma_record_at_inv(b@, pos as int);
                                    assert(b@.subrange(0, p as int) =~= b@.subrange(0, pos as int) + b@.subrange(pos as int, p as int));
                                    lemma_records_push(tag as nat, lists(l@), d@);
                                    assert forall|e: EntityView| #[trigger] encodes(*schema, k as nat, b@, e) implies (e.values[i as int] matches ValueView::Repeated(ll) && l@.len() < ll.len() && ll[l@.len() as int] == d@ && b@.subrange(p as int, len as int) == records(tag as nat, ll.subrange(l@.len() as int + 1, ll.len() as int)) + fields_from(e.values, (i + 1) as nat, n as nat)) by {
                                        if let ValueView::Repeated(ll) = e.values[i as int] {
                                            let j = l@.len() as int;
                                            if j < ll.len() {
                                                lemma_records_unfold(tag as nat, ll, j);
                                                assert(b@.subrange(pos as int, len as int) =~= record(tag as nat, ll[j]) + (records(tag as nat, ll.subrange(j + 1, ll.len() as int)) + fields_from(e.values, (i + 1) as nat, n as nat)));
                                                lemma_split(b@, pos as int, record(tag as nat, ll[j]), records(tag as nat, ll.subrange(j + 1, ll.len() as int)) + fields_from(e.values, (i + 1) as nat, n as nat));
                                                lemma_record_at(b@, pos as int, tag as nat, ll[j]);
                                            } else {
                                                assert(ll.subrange(j, ll.len() as int) =~= Seq::<Seq<u8>>::empty());
                                                assert(b@.subrange(pos as int, len as int) =~= fields_from(e.values, (i + 1) as nat, n as nat) + Seq::<u8>::empty());
                                                let t = lemma_first_key(e.values, (i + 1) as nat, n as nat, b@, pos as int);
                                            }
                                        }
                                    }
                                }
                                let ghost before = l@;
                                l.push(d);
                                proof {
                                    assert(lists(l@) =~= lists(before).push(d@));
                                    assert forall|e: EntityView| #[trigger] encodes(*schema, k as nat, b@, e) implies (e.values[i as int] matches ValueView::Repeated(ll) && lists(l@) == ll.subrange(0, l@.len() as int)) by {
                                        if let ValueView::Repeated(ll) = e.values[i as int] {
                                            assert(ll.subrange(0, l@.len() as int) =~= ll.subrange(0, before.len() as int).push(d@));
                                        }
                                    }
                                }
                                pos = p;
                                more = true;
                            }
                        },
                        None => {},
                    }
                    if !more {
                        proof {
                            assert forall|e: EntityView| #[trigger] encodes(*schema, k as nat, b@, e) implies (e.values[i as int] matches ValueView::Repeated(ll) && lists(l@) == ll && b@.subrange(pos as int, len as int) == fields_from(e.values, (i + 1) as nat, n as nat)) by {
                                if let ValueView::Repeated(ll) = e.values[i as int] {
                                    let j = l@.len() as int;
                                    if j < ll.len() {
                                        lemma_records_unfold(tag as nat, ll, j);
                                        assert(b@.subrange(pos as int, len as int) =~= record(tag as nat, ll[j]) + (records(tag as nat, ll.subrange(j + 1, ll.len() as int)) + fields_from(e.values, (i + 1) as nat, n as nat)));
                                        lemma_split(b@, pos as int, record(tag as nat, ll[j]), records(tag as nat, ll.subrange(j + 1, ll.len() as int)) + fields_from(e.values, (i + 1) as nat, n as nat));
                                        lemma_record_at(b@, pos as int, tag as nat, ll[j]);
                                    } else {
                                        assert(ll.subrange(j, ll.len() as int) =~= Seq::<Seq<u8>>::empty());
                                        assert(ll.subrange(0, j) =~= ll);
                                        assert(b@.subrange(pos as int, len as int) =~= fields_from(e.values, (i + 1) as nat, n as nat));
                                    }
                                }
                            }
                        }
                        break;
                    }
                }
                proof {
                    lemma_fields_step(pre, ValueView::Repeated(lists(l@)), i as nat);
                }
                let ghost lv = lists(l@);
                vals.push(FieldValue::Repeated(l));
                assert(value_views(vals@) =~= pre.push(ValueView::Repeated(lv)));
            },
        }
        proof {
            assert forall|e: EntityView| #[trigger] encodes(*schema, k as nat, b@, e) implies value_views(vals@) == e.values.subrange(0, i + 1) by {
                assert(value_views(vals@) =~= e.values.subrange(0, i + 1));
            }
        }
        i = i + 1;
    }
    proof {
        assert forall|e: EntityView| #[trigger] encodes(*schema, k as nat, b@, e) implies pos == len && value_views(vals@) == e.values by {
            assert(e.values.subrange(0, n as int) =~= e.values);
        }
    }
    if pos != len {
        return Err(CanonicalError::TrailingBytes { pos });
    }
    let d = Entity { kind: k, values: vals };
    proof {
        assert(b@.subrange(0, len as int) =~= b@);
    }
    Ok(d)
}

} // verus!
