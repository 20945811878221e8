//! Lexicographic order on edge keys, std's unstable sort of key vectors, the
//! facts that make a sorted key list canonical, and the tally of a key list.
use crate::fxmap::{fx_empty, fx_get, fx_insert, fx_keys};
use rustc_hash::FxHashMap;
use vstd::prelude::*;

verus! {

broadcast use vstd::array::group_array_axioms;

/// Lexicographic `<=` on two-vertex keys.
pub open spec fn pair_le<T: Integer>(a: [T; 2], b: [T; 2]) -> bool {
    (a[0] as int) < (b[0] as int) || (a[0] == b[0] && (a[1] == b[1] || (a[1] as int) < (b[1] as int)))
}

/// Lexicographic `<` on two-vertex keys.
pub open spec fn pair_lt<T: Integer>(a: [T; 2], b: [T; 2]) -> bool {
    (a[0] as int) < (b[0] as int) || (a[0] == b[0] && (a[1] as int) < (b[1] as int))
}

/// Keys in ascending lexicographic order, repeats allowed.
pub open spec fn ascending<T: Integer>(s: Seq<[T; 2]>) -> bool {
    forall|i: int, j: int| 0 <= i < j < s.len() ==> pair_le(#[trigger] s[i], #[trigger] s[j])
}

/// Keys in strictly ascending lexicographic order (hence without repeats).
pub open spec fn strictly_ascending<T: Integer>(s: Seq<[T; 2]>) -> bool {
    forall|i: int, j: int| 0 <= i < j < s.len() ==> pair_lt(#[trigger] s[i], #[trigger] s[j])
}

/// `slice::sort_unstable` on a vector of `u32` edge keys. std's `Ord` on
/// arrays is lexicographic, and sorting permutes the elements.
#[verifier::external_body]
pub(crate) fn sort_u32_pairs(v: &mut Vec<[u32; 2]>)
    ensures
        final(v)@.to_multiset() == old(v)@.to_multiset(),
        ascending(final(v)@),
{
    v.sort_unstable();
}

/// `slice::sort_unstable` on a vector of `usize` edge keys. std's `Ord` on
/// arrays is lexicographic, and sorting permutes the elements.
#[verifier::external_body]
pub(crate) fn sort_usize_pairs(v: &mut Vec<[usize; 2]>)
    ensures
        final(v)@.to_multiset() == old(v)@.to_multiset(),
        ascending(final(v)@),
{
    v.sort_unstable();
}

/// Sorting a repeat-free key list yields a strictly ascending list of the
/// same keys.
pub proof fn lemma_sorted_distinct_keys<T: Integer>(before: Seq<[T; 2]>, after: Seq<[T; 2]>)
    requires
        before.no_duplicates(),
        after.to_multiset() == before.to_multiset(),
        ascending(after),
    ensures
        strictly_ascending(after),
        forall|e: [T; 2]| after.contains(e) <==> before.contains(e),
        after.len() == before.len(),
{
    broadcast use vstd::seq_lib::group_to_multiset_ensures;

    before.lemma_multiset_has_no_duplicates();
    after.lemma_multiset_has_no_duplicates_conv();
    assert forall|i: int, j: int| 0 <= i < j < after.len() implies pair_lt(
        #[trigger] after[i],
        #[trigger] after[j],
    ) by {
        assert(pair_le(after[i], after[j]));
        assert(after[i] != after[j]);
        if after[i][0] == after[j][0] && after[i][1] == after[j][1] {
            assert(after[i] =~= after[j]);
        }
    }
    assert(after.len() == after.to_multiset().len());
    assert(before.len() == before.to_multiset().len());
    assert forall|e: [T; 2]| after.contains(e) <==> before.contains(e) by {
        assert(after.contains(e) <==> after.to_multiset().count(e) > 0);
        assert(before.contains(e) <==> before.to_multiset().count(e) > 0);
    }
}

/// A strictly ascending key list is determined by its set of keys.
pub proof fn lemma_strictly_ascending_unique<T: Integer>(s: Seq<[T; 2]>, t: Seq<[T; 2]>)
    requires
        strictly_ascending(s),
        strictly_ascending(t),
        forall|e: [T; 2]| s.contains(e) <==> t.contains(e),
    ensures
        s == t,
    decreases s.len() + t.len(),
{
    if s.len() == 0 {
        if t.len() > 0 {
            assert(t.contains(t[0]));
        }
        assert(s =~= t);
    } else if t.len() == 0 {
        assert(s.contains(s[0]));
    } else {
        assert(s.contains(s[0]));
        assert(t.contains(t[0]));
        let k = choose|k: int| 0 <= k < t.len() && t[k] == s[0];
        let m = choose|m: int| 0 <= m < s.len() && s[m] == t[0];
        if k > 0 {
            assert(pair_lt(t[0], t[k]));
            if m > 0 {
                assert(pair_lt(s[0], s[m]));
            }
            assert(false);
        }
        let s1 = s.drop_first();
        let t1 = t.drop_first();
        assert forall|e: [T; 2]| s1.contains(e) <==> t1.contains(e) by {
            if s1.contains(e) {
                let i = choose|i: int| 0 <= i < s1.len() && s1[i] == e;
                assert(pair_lt(s[0], s[i + 1]));
                assert(t.contains(e));
                let j = choose|j: int| 0 <= j < t.len() && t[j] == e;
                if j == 0 {
                    assert(e == s[0]);
                    assert(false);
                }
                assert(t1[j - 1] == e);
            }
            if t1.contains(e) {
                let i = choose|i: int| 0 <= i < t1.len() && t1[i] == e;
                assert(pair_lt(t[0], t[i + 1]));
                assert(s.contains(e));
                let j = choose|j: int| 0 <= j < s.len() && s[j] == e;
                if j == 0 {
                    assert(false);
                }
                assert(s1[j - 1] == e);
            }
        }
        lemma_strictly_ascending_unique(s1, t1);
        assert(s =~= t) by {
            assert forall|i: int| 0 <= i < s.len() implies s[i] == t[i] by {
                if i > 0 {
                    assert(s[i] == s1[i - 1]);
                }
            }
        }
    }
}


/// The distinct keys of `keys` in ascending order, each with the number of
/// times it occurs.
pub fn tally_usize_pairs(keys: &Vec<[usize; 2]>) -> (r: (Vec<[usize; 2]>, Vec<usize>))
    ensures
        strictly_ascending(r.0@),
        r.1@.len() == r.0@.len(),
        forall|e: [usize; 2]| r.0@.contains(e) <==> keys@.contains(e),
        forall|j: int| 0 <= j < r.0@.len() ==> #[trigger] r.1@[j] == keys@.to_multiset().count(r.0@[j]),
{
    broadcast use vstd::seq_lib::group_to_multiset_ensures;

    let mut counts: FxHashMap<[usize; 2], usize> = fx_empty();
    let mut i: usize = 0;
    while i < keys.len()
        invariant
            i <= keys@.len(),
            forall|e: [usize; 2]| #[trigger] counts@.contains_key(e) <==> keys@.take(i as int).contains(e),
            forall|e: [usize; 2]|
                counts@.contains_key(e) ==> #[trigger] counts@[e] == keys@.take(i as int).to_multiset().count(e),
            forall|e: [usize; 2]| counts@.contains_key(e) ==> #[trigger] counts@[e] <= i,
        decreases keys@.len() - i,
    {
        let e = keys[i];
        let c = match fx_get(&counts, &e) {
            Some(c) => c,
            None => 0,
        };
        fx_insert(&mut counts, e, c + 1);
        proof {
            let before = keys@.take(i as int);
            before.to_multiset_ensures();
            assert(keys@.take(i + 1) =~= before.push(e));
            assert(before.push(e).to_multiset() =~= before.to_multiset().insert(e));
            if !before.contains(e) {
                assert(before.to_multiset().count(e) == 0);
            }
            assert forall|x: [usize; 2]| #[trigger] counts@.contains_key(x) <==> keys@.take(i + 1).contains(x) by {
                if before.push(e).contains(x) && x != e {
                    let k = choose|k: int| 0 <= k < before.push(e).len() && before.push(e)[k] == x;
                    assert(before[k] == x);
                }
                if before.contains(x) {
                    let k = choose|k: int| 0 <= k < before.len() && before[k] == x;
                    assert(before.push(e)[k] == x);
                }
                assert(before.push(e)[i as int] == e);
            }
        }
        i += 1;
    }
    proof {
        assert(keys@.take(keys@.len() as int) =~= keys@);
    }
    let mut ks = fx_keys(&counts);
    let ghost unsorted = ks@;
    sort_usize_pairs(&mut ks);
    proof {
        lemma_sorted_distinct_keys(unsorted, ks@);
        assert forall|e: [usize; 2]| ks@.contains(e) <==> counts@.contains_key(e) by {
            assert(unsorted.to_set().contains(e) <==> unsorted.contains(e));
        }
    }
    let mut cs: Vec<usize> = Vec::new();
    let mut j: usize = 0;
    while j < ks.len()
        invariant
            j <= ks@.len(),
            cs@.len() == j,
            forall|e: [usize; 2]| ks@.contains(e) <==> counts@.contains_key(e),
            forall|e: [usize; 2]|
                counts@.contains_key(e) ==> #[trigger] counts@[e] == keys@.to_multiset().count(e),
            forall|m: int| 0 <= m < j ==> #[trigger] cs@[m] == keys@.to_multiset().count(ks@[m]),
        decreases ks@.len() - j,
    {
        let e = ks[j];
        proof {
            assert(ks@.contains(e));
        }
        let c = match fx_get(&counts, &e) {
            Some(c) => c,
            None => 0,
        };
        cs.push(c);
        j += 1;
    }
    (ks, cs)
}

} // verus!
