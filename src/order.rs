//! Lexicographic order on byte strings and a verified sort.

use vstd::prelude::*;
use vstd::relations::*;
use vstd::seq_lib::*;

verus! {

/// Lexicographic order on byte strings: a proper prefix comes first.
pub open spec fn bytes_le(a: Seq<u8>, b: Seq<u8>) -> bool
    decreases a.len(),
{
    if a.len() == 0 {
        true
    } else if b.len() == 0 {
        false
    } else if a[0] != b[0] {
        a[0] < b[0]
    } else {
        bytes_le(a.drop_first(), b.drop_first())
    }
}

pub open spec fn bytes_leq() -> spec_fn(Seq<u8>, Seq<u8>) -> bool {
    |a: Seq<u8>, b: Seq<u8>| bytes_le(a, b)
}

/// The sorted arrangement of a list of byte strings.
pub open spec fn sorted_bytes(s: Seq<Seq<u8>>) -> Seq<Seq<u8>> {
    s.sort_by(bytes_leq())
}

proof fn lemma_le_reflexive(a: Seq<u8>)
    ensures
        bytes_le(a, a),
    decreases a.len(),
{
    if a.len() > 0 {
        lemma_le_reflexive(a.drop_first());
    }
}

proof fn lemma_le_antisymmetric(a: Seq<u8>, b: Seq<u8>)
    requires
        bytes_le(a, b),
        bytes_le(b, a),
    ensures
        a == b,
    decreases a.len(),
{
    if a.len() > 0 && b.len() > 0 {
        lemma_le_antisymmetric(a.drop_first(), b.drop_first());
        assert(a =~= seq![a[0]] + a.drop_first());
        assert(b =~= seq![b[0]] + b.drop_first());
    } else {
        assert(a =~= b);
    }
}

proof fn lemma_le_transitive(a: Seq<u8>, b: Seq<u8>, c: Seq<u8>)
    requires
        bytes_le(a, b),
        bytes_le(b, c),
    ensures
        bytes_le(a, c),
    decreases a.len(),
{
    if a.len() > 0 && b.len() > 0 && c.len() > 0 {
        if a[0] == b[0] && b[0] == c[0] {
            lemma_le_transitive(a.drop_first(), b.drop_first(), c.drop_first());
        }
    }
}

proof fn lemma_le_connected(a: Seq<u8>, b: Seq<u8>)
    ensures
        bytes_le(a, b) || bytes_le(b, a),
    decreases a.len(),
{
    if a.len() > 0 && b.len() > 0 && a[0] == b[0] {
        lemma_le_connected(a.drop_first(), b.drop_first());
    }
}

pub proof fn lemma_bytes_total_ordering()
    ensures
        total_ordering(bytes_leq()),
{
    assert forall|a: Seq<u8>| #[trigger] bytes_leq()(a, a) by {
        lemma_le_reflexive(a);
    }
    assert forall|a: Seq<u8>, b: Seq<u8>|
        #[trigger] bytes_leq()(a, b) && #[trigger] bytes_leq()(b, a) implies a == b by {
        lemma_le_antisymmetric(a, b);
    }
    assert forall|a: Seq<u8>, b: Seq<u8>, c: Seq<u8>|
        #[trigger] bytes_leq()(a, b) && #[trigger] bytes_leq()(b, c) implies bytes_leq()(
        a,
        c,
    ) by {
        lemma_le_transitive(a, b, c);
    }
    assert forall|a: Seq<u8>, b: Seq<u8>|
        #[trigger] bytes_leq()(a, b) || #[trigger] bytes_leq()(b, a) by {
        lemma_le_connected(a, b);
    }
}

/// A sorted arrangement of `s` is the one `sorted_bytes` gives.
pub proof fn lemma_sorted_is_sorted_bytes(s: Seq<Seq<u8>>, t: Seq<Seq<u8>>)
    requires
        sorted_by(t, bytes_leq()),
        t.to_multiset() == s.to_multiset(),
    ensures
        t == sorted_bytes(s),
{
    lemma_bytes_total_ordering();
    s.lemma_sort_by_ensures(bytes_leq());
    lemma_sorted_unique(t, sorted_bytes(s), bytes_leq());
}

/// Sorting is insensitive to the order of its input.
pub proof fn lemma_sorted_bytes_permutation(s: Seq<Seq<u8>>, t: Seq<Seq<u8>>)
    requires
        t.to_multiset() == s.to_multiset(),
    ensures
        sorted_bytes(t) == sorted_bytes(s),
{
    lemma_bytes_total_ordering();
    t.lemma_sort_by_ensures(bytes_leq());
    lemma_sorted_is_sorted_bytes(s, sorted_bytes(t));
}

/// Sorting a sorted list keeps it as it is.
pub proof fn lemma_sorted_bytes_idempotent(s: Seq<Seq<u8>>)
    ensures
        sorted_bytes(sorted_bytes(s)) == sorted_bytes(s),
{
    lemma_bytes_total_ordering();
    s.lemma_sort_by_ensures(bytes_leq());
    lemma_sorted_is_sorted_bytes(sorted_bytes(s), sorted_bytes(s));
}

/// Compares two byte strings lexicographically.
pub fn bytes_less_eq(a: &Vec<u8>, b: &Vec<u8>) -> (r: bool)
    ensures
        r == bytes_le(a@, b@),
{
    let mut i: usize = 0;
    assert(a@.subrange(0, a@.len() as int) =~= a@);
    assert(b@.subrange(0, b@.len() as int) =~= b@);
    while i < a.len() && i < b.len()
        invariant
            i <= a@.len(),
            i <= b@.len(),
            a@.subrange(0, i as int) == b@.subrange(0, i as int),
            bytes_le(a@, b@) == bytes_le(a@.subrange(i as int, a@.len() as int), b@.subrange(i as int, b@.len() as int)),
        decreases a@.len() - i,
    {
        if a[i] != b[i] {
            return a[i] < b[i];
        }
        assert(a@.subrange(i + 1, a@.len() as int) =~= a@.subrange(i as int, a@.len() as int).drop_first());
        assert(b@.subrange(i + 1, b@.len() as int) =~= b@.subrange(i as int, b@.len() as int).drop_first());
        assert(a@.subrange(0, i + 1) =~= a@.subrange(0, i as int).push(a@[i as int]));
        assert(b@.subrange(0, i + 1) =~= b@.subrange(0, i as int).push(b@[i as int]));
        i = i + 1;
    }
    i == a.len()
}

/// The byte strings held by a list of vectors.
pub open spec fn lists(v: Seq<Vec<u8>>) -> Seq<Seq<u8>> {
    v.map_values(|b: Vec<u8>| b@)
}

/// Sorts a list of byte strings by insertion.
pub fn sort_bytes(v: Vec<Vec<u8>>) -> (r: Vec<Vec<u8>>)
    ensures
        lists(r@) == sorted_bytes(lists(v@)),
{
    let mut out: Vec<Vec<u8>> = Vec::new();
    let mut i: usize = 0;
    let ghost leq = bytes_leq();
    proof {
        lemma_bytes_total_ordering();
        assert(lists(out@) =~= lists(v@).subrange(0, 0));
    }
    while i < v.len()
        invariant
            i <= v@.len(),
            leq == bytes_leq(),
            total_ordering(leq),
            sorted_by(lists(out@), leq),
            lists(out@).to_multiset() == lists(v@).subrange(0, i as int).to_multiset(),
        decreases v@.len() - i,
    {
        let x = v[i].clone();
        let mut j: usize = 0;
        while j < out.len() && bytes_less_eq(&out[j], &x)
            invariant
                j <= out@.len(),
                forall|t: int| 0 <= t < j ==> bytes_le(#[trigger] lists(out@)[t], x@),
            decreases out@.len() - j,
        {
            j = j + 1;
        }
        let ghost before = lists(out@);
        proof {
            assert forall|t: int| j <= t < before.len() implies bytes_le(x@, #[trigger] before[t]) by {
                assert(before[j as int] == out@[j as int]@);
                if t > j {
                    assert(leq(before[j as int], before[t]));
                }
                lemma_le_connected(x@, before[j as int]);
                if t > j {
                    lemma_le_transitive(x@, before[j as int], before[t]);
                }
            }
        }
        out.insert(j, x);
        proof {
            assert(lists(out@) =~= before.subrange(0, j as int).push(x@) + before.subrange(j as int, before.len() as int));
            let now = lists(out@);
            assert forall|a: int, b: int| 0 <= a < b < now.len() implies #[trigger] leq(now[a], now[b]) by {
                if b < j {
                    assert(leq(before[a], before[b]));
                } else if b == j {
                } else if a < j {
                    assert(bytes_le(before[a], x@));
                    assert(bytes_le(x@, before[b - 1]));
                    lemma_le_transitive(before[a], x@, before[b - 1]);
                } else if a == j {
                } else {
                    assert(leq(before[a - 1], before[b - 1]));
                }
            }
            assert(lists(v@).subrange(0, i + 1) =~= lists(v@).subrange(0, i as int).push(x@));
            broadcast use group_to_multiset_ensures;
            lemma_multiset_commutative(before.subrange(0, j as int).push(x@), before.subrange(j as int, before.len() as int));
            lemma_multiset_commutative(before.subrange(0, j as int), before.subrange(j as int, before.len() as int));
            assert(before =~= before.subrange(0, j as int) + before.subrange(j as int, before.len() as int));
            assert(now.to_multiset() =~= before.to_multiset().insert(x@));
        }
        i = i + 1;
    }
    proof {
        assert(lists(v@).subrange(0, v@.len() as int) =~= lists(v@));
        lemma_sorted_is_sorted_bytes(lists(v@), lists(out@));
    }
    out
}

} // verus!
