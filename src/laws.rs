//! Properties that relate several operations.

use vstd::prelude::*;
use crate::cbor::head;
use crate::cid::entity_cid_bytes;
use crate::compact::{compact_bytes, compact_accepts, no_nulls, lemma_compact_bytes_no_nulls, entries_from, present_from, entry, is_present};
use crate::entity::{EntityView, ValueView, fits, fits_shape, canonical, canonical_value, empty_value};
use crate::hex::{hex_string, lemma_hex_round_trip};
use crate::order::{lemma_sorted_bytes_permutation, lemma_sorted_bytes_idempotent};
use crate::schema::{Schema, Shape};
use crate::web3::{web3_decodes, web3_object, value_web3, parse_value, parse_hex_list, is_reserved, has_key, is_field_name, type_key, cid_key};

verus! {

/// Two field values that are equal but for the order within a repeated
/// field.
pub open spec fn same_up_to_order(a: ValueView, b: ValueView) -> bool {
    match (a, b) {
        (ValueView::Repeated(l1), ValueView::Repeated(l2)) => l1.to_multiset() == l2.to_multiset(),
        _ => a == b,
    }
}

/// Two entities of one kind whose fields are equal but for the order within
/// repeated fields.
pub open spec fn equal_up_to_order(e1: EntityView, e2: EntityView) -> bool {
    &&& e1.kind == e2.kind
    &&& e1.values.len() == e2.values.len()
    &&& forall|i: int| 0 <= i < e1.values.len() ==> #[trigger] same_up_to_order(e1.values[i], e2.values[i])
}

/// CID determinism: entities that differ only in the order of elements
/// within repeated fields are equal once canonicalized, and so have the
/// same CID.
pub proof fn lemma_cid_determinism(schema: Schema, e1: EntityView, e2: EntityView)
    requires
        fits(schema, e1),
        fits(schema, e2),
        equal_up_to_order(e1, e2),
    ensures
        canonical(e1) == canonical(e2),
        entity_cid_bytes(schema, canonical(e1)) == entity_cid_bytes(schema, canonical(e2)),
{
    assert forall|i: int| 0 <= i < e1.values.len() implies canonical_value(e1.values[i]) == canonical_value(e2.values[i]) by {
        assert(same_up_to_order(e1.values[i], e2.values[i]));
        match (e1.values[i], e2.values[i]) {
            (ValueView::Repeated(l1), ValueView::Repeated(l2)) => {
                lemma_sorted_bytes_permutation(l1, l2);
            },
            _ => {},
        }
    }
    assert(canonical(e1).values =~= canonical(e2).values);
}

/// Idempotence: canonicalizing a canonical entity changes nothing.
pub proof fn lemma_canonicalize_idempotent(e: EntityView)
    ensures
        canonical(canonical(e)) == canonical(e),
{
    assert forall|i: int| 0 <= i < e.values.len() implies canonical_value(canonical_value(e.values[i])) == canonical_value(e.values[i]) by {
        match e.values[i] {
            ValueView::Repeated(l) => {
                lemma_sorted_bytes_idempotent(l);
            },
            _ => {},
        }
    }
    assert(canonical(canonical(e)).values =~= canonical(e).values);
}

/// Compact round trip: the compact encoding of an instance is one that
/// `decode_compact` reads back as that instance.
pub proof fn lemma_compact_round_trip(schema: Schema, e: EntityView)
    requires
        fits(schema, e),
    ensures
        compact_accepts(schema, e.kind, compact_bytes(e), e, no_nulls(e.values.len())),
{
    lemma_compact_bytes_no_nulls(e);
}

/// The entries of the required fields among `i` up to `n`.
pub open spec fn required_entries(vals: Seq<ValueView>, i: nat, n: nat) -> Seq<u8>
    decreases n - i,
{
    if i >= n {
        Seq::empty()
    } else {
        (match vals[i as int] {
            ValueView::Required(_) => entry(i + 1, vals[i as int]),
            _ => Seq::empty(),
        }) + required_entries(vals, i + 1, n)
    }
}

/// How many of fields `i` up to `n` are required.
pub open spec fn required_count(vals: Seq<ValueView>, i: nat, n: nat) -> nat
    decreases n - i,
{
    if i >= n {
        0
    } else {
        (if vals[i as int] is Required {
            1nat
        } else {
            0nat
        }) + required_count(vals, i + 1, n)
    }
}

/// All optional and repeated fields are empty.
pub open spec fn only_required(e: EntityView) -> bool {
    forall|i: int| 0 <= i < e.values.len() ==> !(#[trigger] e.values[i] is Required) ==> !is_present(e.values[i])
}

proof fn lemma_omission(vals: Seq<ValueView>, i: nat, n: nat)
    requires
        n <= vals.len(),
        forall|j: int| 0 <= j < vals.len() ==> !(#[trigger] vals[j] is Required) ==> !is_present(vals[j]),
    ensures
        entries_from(vals, i, n) == required_entries(vals, i, n),
        present_from(vals, i, n) == required_count(vals, i, n),
    decreases n - i,
{
    if i < n {
        lemma_omission(vals, i + 1, n);
        if !(vals[i as int] is Required) {
            assert(entry(i + 1, vals[i as int]) =~= Seq::<u8>::empty());
        }
        assert(entries_from(vals, i, n) =~= required_entries(vals, i, n));
    }
}

/// Compact omission: an instance whose optional and repeated fields are all
/// empty is encoded as a map holding its required fields alone.
pub proof fn lemma_compact_omission(schema: Schema, e: EntityView)
    requires
        fits(schema, e),
        only_required(e),
    ensures
        compact_bytes(e) == head(5, required_count(e.values, 0, e.values.len())) + required_entries(
            e.values,
            0,
            e.values.len(),
        ),
{
    lemma_omission(e.values, 0, e.values.len());
}

proof fn lemma_hex_list_round_trip(l: Seq<Seq<u8>>)
    ensures
        parse_hex_list(l.map_values(|b: Seq<u8>| hex_string(b))) == Some(l),
    decreases l.len(),
{
    if l.len() > 0 {
        let m = l.map_values(|b: Seq<u8>| hex_string(b));
        assert(m.drop_first() =~= l.drop_first().map_values(|b: Seq<u8>| hex_string(b)));
        lemma_hex_list_round_trip(l.drop_first());
        lemma_hex_round_trip(l[0]);
        assert(seq![l[0]] + l.drop_first() =~= l);
    }
}

proof fn lemma_value_round_trip(v: ValueView, shape: Shape)
    requires
        fits_shape(v, shape),
    ensures
        parse_value(shape, value_web3(v)) == Some(v),
{
    match v {
        ValueView::Required(b) => {
            lemma_hex_round_trip(b);
        },
        ValueView::Optional(Some(b)) => {
            lemma_hex_round_trip(b);
        },
        ValueView::Optional(None) => {},
        ValueView::Repeated(l) => {
            lemma_hex_list_round_trip(l);
        },
    }
}

/// Web3 round trip: the Web3 form of an instance is one that `from_web3`
/// reads back as that instance.
pub proof fn lemma_web3_round_trip(schema: Schema, e: EntityView)
    requires
        schema.wf(),
        fits(schema, e),
    ensures
        web3_decodes(schema, web3_object(schema, e), e),
{
    let kind = schema.kinds@[e.kind as int];
    let obj = web3_object(schema, e);
    let n = kind.fields@.len();
    assert(kind.wf());
    assert(forall|j: int| 0 <= j < n ==> !is_reserved(#[trigger] kind.fields@[j].name@));
    assert(type_key() != cid_key()) by {
        assert(type_key().len() != cid_key().len());
    }
    assert(obj[0] == (type_key(), crate::web3::Web3View::Str(kind.name@)));
    assert(forall|t: int| 2 <= t < obj.len() ==> #[trigger] obj[t] == (kind.fields@[t - 2].name@, value_web3(e.values[t - 2])));
    assert forall|t1: int, t2: int|
        0 <= t1 < obj.len() && 0 <= t2 < obj.len() && #[trigger] obj[t1].0 == type_key() && #[trigger] obj[t2].0 == type_key() implies t1 == t2 by {
        if t1 >= 2 {
            assert(!is_reserved(kind.fields@[t1 - 2].name@));
        }
        if t2 >= 2 {
            assert(!is_reserved(kind.fields@[t2 - 2].name@));
        }
        if t1 == 1 || t2 == 1 {
            assert(obj[1].0 == cid_key());
        }
    }
    assert forall|t: int| 0 <= t < obj.len() && !is_reserved(#[trigger] obj[t].0) implies is_field_name(kind, obj[t].0) by {
        assert(t >= 2);
        assert(kind.fields@[t - 2].name@ == obj[t].0);
    }
    assert forall|t1: int, t2: int| 0 <= t1 < t2 < obj.len() && !is_reserved(#[trigger] obj[t1].0) implies obj[t1].0 != #[trigger] obj[t2].0 by {
        assert(t1 >= 2);
        assert(kind.fields@[t1 - 2].name@ != kind.fields@[t2 - 2].name@);
    }
    assert forall|t: int, j: int|
        0 <= t < obj.len() && 0 <= j < n && #[trigger] obj[t].0 == #[trigger] kind.fields@[j].name@ && !is_reserved(obj[t].0)
            implies parse_value(kind.fields@[j].shape, obj[t].1) == Some(e.values[j]) by {
        assert(t >= 2);
        if t - 2 != j {
            if t - 2 < j {
                assert(kind.fields@[t - 2].name@ != kind.fields@[j].name@);
            } else {
                assert(kind.fields@[j].name@ != kind.fields@[t - 2].name@);
            }
        }
        assert(fits_shape(e.values[j], kind.fields@[j].shape));
        lemma_value_round_trip(e.values[j], kind.fields@[j].shape);
    }
    assert forall|j: int|
        0 <= j < n && (is_reserved(#[trigger] kind.fields@[j].name@) || !has_key(obj, kind.fields@[j].name@))
            implies kind.fields@[j].shape != Shape::Required && e.values[j] == empty_value(kind.fields@[j].shape) by {
        assert(obj[j + 2].0 == kind.fields@[j].name@);
    }
}

} // verus!
