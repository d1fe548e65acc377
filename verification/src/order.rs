//! Ordering query results: candidate entries are (distance, id) pairs,
//! compared by ascending distance with ties broken by ascending id so that
//! results are deterministic. The sort rearranges a vector of pairs without
//! adding, dropping or changing any entry.

use vstd::multiset::Multiset;
use vstd::prelude::*;
use vstd::seq_lib::group_to_multiset_ensures;

verus! {

/// The result order: nearer first, equal distances by lower id first.
pub open spec fn le_pair(a: (u128, u64), b: (u128, u64)) -> bool {
    a.0 < b.0 || (a.0 == b.0 && a.1 <= b.1)
}

/// Sorted under `le_pair`.
pub open spec fn sorted_pairs(s: Seq<(u128, u64)>) -> bool {
    forall|i: int, j: int| 0 <= i < j < s.len() ==> le_pair(#[trigger] s[i], #[trigger] s[j])
}

/// The index of a `le_pair`-least element.
fn min_pair(v: &Vec<(u128, u64)>) -> (r: usize)
    requires
        v@.len() > 0,
    ensures
        r < v@.len(),
        forall|j: int| 0 <= j < v@.len() ==> le_pair(v@[r as int], #[trigger] v@[j]),
{
    let n = v.len();
    let mut best: usize = 0;
    let mut j: usize = 1;
    while j < n
        invariant
            n == v@.len(),
            best < n,
            1 <= j <= n,
            forall|t: int| 0 <= t < j ==> le_pair(v@[best as int], #[trigger] v@[t]),
        decreases n - j,
    {
        let (bd, bi) = v[best];
        let (cd, ci) = v[j];
        if cd < bd || (cd == bd && ci < bi) {
            best = j;
        }
        j = j + 1;
    }
    best
}

/// Sorts the pairs by ascending distance, ties by ascending id. The result
/// holds exactly the entries of the input (as a multiset).
pub fn sort_pairs(input: Vec<(u128, u64)>) -> (out: Vec<(u128, u64)>)
    ensures
        out@.len() == input@.len(),
        out@.to_multiset() == input@.to_multiset(),
        sorted_pairs(out@),
{
    let mut rem = input;
    let ghost orig = rem@;
    let mut out: Vec<(u128, u64)> = Vec::new();
    proof {
        broadcast use group_to_multiset_ensures;

        assert(out@.to_multiset().add(rem@.to_multiset()) =~= orig.to_multiset());
    }
    while rem.len() > 0
        invariant
            out@.len() + rem@.len() == orig.len(),
            out@.to_multiset().add(rem@.to_multiset()) == orig.to_multiset(),
            sorted_pairs(out@),
            forall|i: int, j: int|
                0 <= i < out@.len() && 0 <= j < rem@.len() ==> le_pair(
                    #[trigger] out@[i],
                    #[trigger] rem@[j],
                ),
        decreases rem@.len(),
    {
        let mi = min_pair(&rem);
        let p = rem[mi];
        let ghost rem_before = rem@;
        let ghost out_before = out@;
        proof {
            rem@.remove_ensures(mi as int);
        }
        rem.remove(mi);
        out.push(p);
        proof {
            broadcast use group_to_multiset_ensures;

            assert(rem@ == rem_before.remove(mi as int));
            assert(rem@.to_multiset() =~= rem_before.to_multiset().remove(p));
            assert(out@.to_multiset() =~= out_before.to_multiset().insert(p));
            assert(out@.to_multiset().add(rem@.to_multiset()) =~= orig.to_multiset()) by {
                assert(rem_before.to_multiset().count(p) > 0);
                assert(forall|x: (u128, u64)|
                    orig.to_multiset().count(x) == out_before.to_multiset().count(x)
                        + rem_before.to_multiset().count(x));
            }
            assert(sorted_pairs(out@)) by {
                assert(forall|i: int|
                    0 <= i < out_before.len() ==> out@[i] == out_before[i] && le_pair(
                        #[trigger] out@[i],
                        p,
                    ));
            }
        }
    }
    proof {
        broadcast use group_to_multiset_ensures;

        assert(rem@.to_multiset() =~= Multiset::empty());
        assert(out@.to_multiset() =~= out@.to_multiset().add(rem@.to_multiset()));
        assert(out@.to_multiset().len() == orig.to_multiset().len());
    }
    out
}

/// Entries survive the sort: whatever the output holds, the input held.
pub proof fn lemma_multiset_contains_transfer(a: Seq<(u128, u64)>, b: Seq<(u128, u64)>)
    requires
        a.to_multiset() == b.to_multiset(),
    ensures
        forall|x: (u128, u64)| #[trigger] b.contains(x) ==> a.contains(x),
{
    broadcast use group_to_multiset_ensures;

    assert forall|x: (u128, u64)| #[trigger] b.contains(x) implies a.contains(x) by {
        assert(b.to_multiset().count(x) > 0);
        assert(a.to_multiset().count(x) > 0);
    }
}

/// If no two entries of `a` share an id, the same holds after any
/// rearrangement of `a` into `b`, and `b` never repeats an entry.
pub proof fn lemma_distinct_ids_transfer(a: Seq<(u128, u64)>, b: Seq<(u128, u64)>)
    requires
        a.to_multiset() == b.to_multiset(),
        forall|i: int, j: int| 0 <= i < j < a.len() ==> a[i].1 != a[j].1,
    ensures
        forall|i: int, j: int| 0 <= i < j < b.len() ==> b[i].1 != b[j].1,
{
    broadcast use group_to_multiset_ensures;

    assert(a.no_duplicates()) by {
        assert forall|i: int, j: int|
            0 <= i < a.len() && 0 <= j < a.len() && i != j implies a[i] != a[j] by {
            if i < j {
                assert(a[i].1 != a[j].1);
            } else {
                assert(a[j].1 != a[i].1);
            }
        }
    }
    a.lemma_multiset_has_no_duplicates();
    b.lemma_multiset_has_no_duplicates_conv();
    assert forall|i: int, j: int| 0 <= i < j < b.len() implies b[i].1 != b[j].1 by {
        assert(b.no_duplicates());
        assert(b[i] != b[j]);
        if b[i].1 == b[j].1 {
            assert(b.contains(b[i]));
            assert(b.contains(b[j]));
            assert(b.to_multiset().count(b[i]) > 0);
            assert(b.to_multiset().count(b[j]) > 0);
            assert(a.to_multiset().count(b[i]) > 0);
            assert(a.to_multiset().count(b[j]) > 0);
            assert(a.contains(b[i]));
            assert(a.contains(b[j]));
            let ii = choose|t: int| 0 <= t < a.len() && a[t] == b[i];
            let jj = choose|t: int| 0 <= t < a.len() && a[t] == b[j];
            assert(ii != jj);
            if ii < jj {
                assert(a[ii].1 != a[jj].1);
            } else {
                assert(a[jj].1 != a[ii].1);
            }
            assert(false);
        }
    }
}

} // verus!
