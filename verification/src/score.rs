//! Selection of the best class and ranking of all classes by score.
//!
//! Scores arrive as float bit patterns (see `fcmp`). `pick_best` is a
//! left-to-right scan keeping the first maximum: a later score replaces the
//! current best only when strictly greater. `rank_scored` repeatedly
//! extracts that first maximum, so ties (and incomparable NaN scores) keep
//! their earlier class order and the head of the ranking is exactly what
//! `pick_best` selects.

use vstd::prelude::*;
use vstd::multiset::Multiset;
use crate::fcmp::f32_gt_bits;
use crate::fcmp::gt_bits;
use crate::model::Model;

verus! {

/// Index of the first maximal score of `s`: the scan keeps the earlier
/// element unless a later one is strictly greater.
pub open spec fn spec_first_max(s: Seq<u32>) -> int
    recommends
        s.len() > 0,
    decreases s.len(),
{
    if s.len() <= 1 {
        0
    } else {
        let p = spec_first_max(s.drop_last());
        if f32_gt_bits(s.last(), s[p]) {
            s.len() - 1
        } else {
            p
        }
    }
}

/// The class index and score `classify` selects: the first maximum, or
/// nothing when there are no classes.
pub open spec fn spec_pick_best(s: Seq<u32>) -> Option<(int, u32)> {
    if s.len() == 0 {
        None
    } else {
        Some((spec_first_max(s), s[spec_first_max(s)]))
    }
}

/// Each score paired with its class index.
pub open spec fn spec_pairs(s: Seq<u32>) -> Seq<(usize, u32)> {
    Seq::new(s.len(), |i: int| (i as usize, s[i]))
}

/// Index of the first maximal score among index/score pairs.
pub open spec fn spec_first_max_pair(items: Seq<(usize, u32)>) -> int
    recommends
        items.len() > 0,
    decreases items.len(),
{
    if items.len() <= 1 {
        0
    } else {
        let p = spec_first_max_pair(items.drop_last());
        if f32_gt_bits(items.last().1, items[p].1) {
            items.len() - 1
        } else {
            p
        }
    }
}

/// The ranking: repeatedly extract the first maximal pair.
pub open spec fn spec_rank(items: Seq<(usize, u32)>) -> Seq<(usize, u32)>
    decreases items.len(),
{
    if items.len() == 0 {
        Seq::empty()
    } else {
        let m = spec_first_max_pair(items);
        if 0 <= m < items.len() {
            seq![items[m]] + spec_rank(items.remove(m))
        } else {
            Seq::empty()
        }
    }
}

pub proof fn lemma_first_max_in_range(s: Seq<u32>)
    requires
        s.len() > 0,
    ensures
        0 <= spec_first_max(s) < s.len(),
    decreases s.len(),
{
    if s.len() > 1 {
        lemma_first_max_in_range(s.drop_last());
    }
}

pub proof fn lemma_first_max_pair_in_range(items: Seq<(usize, u32)>)
    requires
        items.len() > 0,
    ensures
        0 <= spec_first_max_pair(items) < items.len(),
    decreases items.len(),
{
    if items.len() > 1 {
        lemma_first_max_pair_in_range(items.drop_last());
    }
}

/// Extending the scores by one element either keeps the first maximum or
/// moves it to the new element when that is strictly greater.
pub proof fn lemma_first_max_step(s: Seq<u32>, i: int)
    requires
        1 <= i < s.len(),
    ensures
        0 <= spec_first_max(s.take(i)) < i,
        spec_first_max(s.take(i + 1)) == if f32_gt_bits(s[i], s[spec_first_max(s.take(i))]) {
            i
        } else {
            spec_first_max(s.take(i))
        },
{
    lemma_first_max_in_range(s.take(i));
    assert(s.take(i + 1).drop_last() =~= s.take(i));
    assert(s.take(i + 1).last() == s[i]);
    assert(s.take(i + 1)[spec_first_max(s.take(i))] == s[spec_first_max(s.take(i))]);
}

/// The same step property for index/score pairs.
pub proof fn lemma_first_max_pair_step(items: Seq<(usize, u32)>, i: int)
    requires
        1 <= i < items.len(),
    ensures
        0 <= spec_first_max_pair(items.take(i)) < i,
        spec_first_max_pair(items.take(i + 1)) == if f32_gt_bits(
            items[i].1,
            items[spec_first_max_pair(items.take(i))].1,
        ) {
            i
        } else {
            spec_first_max_pair(items.take(i))
        },
{
    lemma_first_max_pair_in_range(items.take(i));
    assert(items.take(i + 1).drop_last() =~= items.take(i));
    assert(items.take(i + 1).last() == items[i]);
    assert(items.take(i + 1)[spec_first_max_pair(items.take(i))] == items[spec_first_max_pair(
        items.take(i),
    )]);
}

/// The first maximum of the index/score pairs of a score list is the
/// first maximum of the score list itself.
pub proof fn lemma_first_max_pairs_eq(probs: Seq<u32>)
    requires
        probs.len() > 0,
    ensures
        spec_first_max_pair(spec_pairs(probs)) == spec_first_max(probs),
    decreases probs.len(),
{
    if probs.len() > 1 {
        lemma_first_max_pairs_eq(probs.drop_last());
        assert(spec_pairs(probs).drop_last() =~= spec_pairs(probs.drop_last()));
        lemma_first_max_in_range(probs.drop_last());
    }
}

/// Law: the ranking's head is exactly what best-class selection returns.
/// Both are the first maximal score under the same left-to-right scan, so
/// whenever a best class exists it leads the ranking, whatever the
/// scores.
pub proof fn lemma_rank_first_is_best(probs: Seq<u32>)
    requires
        probs.len() > 0,
    ensures
        spec_rank(spec_pairs(probs)).len() == probs.len(),
        spec_pick_best(probs) matches Some(b) && spec_rank(spec_pairs(probs))[0] == (
            b.0 as usize,
            b.1,
        ),
{
    let items = spec_pairs(probs);
    lemma_first_max_pairs_eq(probs);
    lemma_first_max_pair_in_range(items);
    lemma_rank_len(items);
    lemma_first_max_in_range(probs);
}

/// Law: selection and ranking are pure functions of the scores: equal
/// score lists give equal results, so repeated calls on one model and one
/// text return the same answer.
pub proof fn lemma_rank_deterministic(a: Seq<u32>, b: Seq<u32>)
    requires
        a == b,
    ensures
        spec_rank(spec_pairs(a)) == spec_rank(spec_pairs(b)),
        spec_pick_best(a) == spec_pick_best(b),
{
}

/// A ranking lists as many entries as there are classes.
pub proof fn lemma_rank_len(items: Seq<(usize, u32)>)
    ensures
        spec_rank(items).len() == items.len(),
    decreases items.len(),
{
    if items.len() > 0 {
        lemma_first_max_pair_in_range(items);
        lemma_rank_len(items.remove(spec_first_max_pair(items)));
    }
}

/// Law (candidate set): the ranking is a permutation of its input; it
/// lists exactly the index/score pairs handed in, no more and no fewer.
pub proof fn lemma_rank_permutation(items: Seq<(usize, u32)>)
    ensures
        spec_rank(items).to_multiset() =~= items.to_multiset(),
    decreases items.len(),
{
    broadcast use vstd::seq_lib::group_to_multiset_ensures;
    broadcast use vstd::multiset::group_multiset_axioms;

    if items.len() > 0 {
        let m = spec_first_max_pair(items);
        lemma_first_max_pair_in_range(items);
        let rest = items.remove(m);
        lemma_rank_permutation(rest);
        vstd::seq_lib::lemma_multiset_commutative(seq![items[m]], spec_rank(rest));
        assert(seq![items[m]] =~= Seq::<(usize, u32)>::empty().push(items[m]));
        assert(Seq::<(usize, u32)>::empty().push(items[m]).to_multiset() =~= Seq::<
            (usize, u32),
        >::empty().to_multiset().insert(items[m]));
        assert forall|y: (usize, u32)|
            Seq::<(usize, u32)>::empty().to_multiset().count(y) == 0 by {
            assert(!Seq::<(usize, u32)>::empty().contains(y));
        }
        assert(Seq::<(usize, u32)>::empty().to_multiset() =~= Multiset::<(usize, u32)>::empty());
        assert(items.contains(items[m]));
        assert(items.to_multiset().count(items[m]) > 0);
        assert(rest.to_multiset() =~= items.to_multiset().remove(items[m]));
        assert(spec_rank(items).to_multiset() =~= items.to_multiset());
    }
}

/// The first maximum is maximal: no score in the list strictly exceeds
/// the selected one.
pub proof fn lemma_first_max_pair_is_max(items: Seq<(usize, u32)>, k: int)
    requires
        items.len() > 0,
        0 <= k < items.len(),
    ensures
        !f32_gt_bits(items[k].1, items[spec_first_max_pair(items)].1),
    decreases items.len(),
{
    lemma_first_max_pair_in_range(items);
    if items.len() > 1 {
        let s = items.drop_last();
        lemma_first_max_pair_in_range(s);
        if k < items.len() - 1 {
            lemma_first_max_pair_is_max(s, k);
        }
    }
}

/// Law (order): the ranking is sorted by descending score: no entry
/// strictly exceeds an earlier one.
pub proof fn lemma_rank_sorted(items: Seq<(usize, u32)>, a: int, b: int)
    requires
        0 <= a < b < spec_rank(items).len(),
    ensures
        !f32_gt_bits(spec_rank(items)[b].1, spec_rank(items)[a].1),
    decreases items.len(),
{
    broadcast use vstd::seq_lib::group_to_multiset_ensures;

    lemma_rank_len(items);
    let m = spec_first_max_pair(items);
    lemma_first_max_pair_in_range(items);
    let rest = items.remove(m);
    lemma_rank_len(rest);
    let out = spec_rank(items);
    if a == 0 {
        let y = out[b];
        assert(spec_rank(rest)[b - 1] == y);
        assert(spec_rank(rest).contains(y));
        lemma_rank_permutation(rest);
        assert(rest.to_multiset().count(y) > 0);
        assert(rest.contains(y));
        let j = choose|j: int| 0 <= j < rest.len() && rest[j] == y;
        if j < m {
            assert(items[j] == y);
            lemma_first_max_pair_is_max(items, j);
        } else {
            assert(items[j + 1] == y);
            lemma_first_max_pair_is_max(items, j + 1);
        }
    } else {
        lemma_rank_sorted(rest, a - 1, b - 1);
    }
}

/// True when no score pattern in the list is a NaN.
pub open spec fn no_nan_scores(items: Seq<(usize, u32)>) -> bool {
    forall|i: int| 0 <= i < items.len() ==> !crate::fcmp::f32_is_nan_bits((#[trigger] items[i]).1)
}

/// True when no two entries are equal (class indices are unique, so this
/// holds of every score list the scorer builds).
pub open spec fn distinct_pairs(items: Seq<(usize, u32)>) -> bool {
    forall|i: int, j: int| 0 <= i < j < items.len() ==> items[i] != items[j]
}

/// With comparable scores, the first maximum strictly exceeds everything
/// before it: that is what makes it the first.
pub proof fn lemma_first_max_pair_strictly_first(items: Seq<(usize, u32)>, k: int)
    requires
        items.len() > 0,
        no_nan_scores(items),
        0 <= k < spec_first_max_pair(items),
    ensures
        f32_gt_bits(items[spec_first_max_pair(items)].1, items[k].1),
    decreases items.len(),
{
    lemma_first_max_pair_in_range(items);
    let s = items.drop_last();
    lemma_first_max_pair_in_range(s);
    assert(no_nan_scores(s));
    if f32_gt_bits(items.last().1, items[spec_first_max_pair(s)].1) {
        lemma_first_max_pair_is_max(s, k);
    } else {
        lemma_first_max_pair_strictly_first(s, k);
    }
}

/// Law (stability): with comparable scores and distinct entries, two
/// entries where the later one does not strictly exceed the earlier one
/// keep their relative order in the ranking. Together with the sortedness
/// law this fixes the relative order of every pair of classes, tied or
/// not; and since a filtered class list keeps the canonical order and a
/// restriction keeps each class's score, restriction cannot reorder the
/// classes it keeps.
pub proof fn lemma_rank_stable(items: Seq<(usize, u32)>, a: int, b: int)
    requires
        no_nan_scores(items),
        distinct_pairs(items),
        0 <= a < b < items.len(),
        !f32_gt_bits(items[b].1, items[a].1),
    ensures
        forall|ia: int, ib: int|
            0 <= ia < spec_rank(items).len() && 0 <= ib < spec_rank(items).len() && spec_rank(
                items,
            )[ia] == items[a] && spec_rank(items)[ib] == items[b] ==> ia < ib,
    decreases items.len(),
{
    broadcast use vstd::seq_lib::group_to_multiset_ensures;

    lemma_rank_len(items);
    let m = spec_first_max_pair(items);
    lemma_first_max_pair_in_range(items);
    let rest = items.remove(m);
    items.remove_ensures(m);
    lemma_rank_len(rest);
    let out = spec_rank(items);
    if m == b {
        lemma_first_max_pair_strictly_first(items, a);
        assert(false);
    }
    assert(no_nan_scores(rest));
    assert(distinct_pairs(rest));
    if a == m {
        assert forall|ia: int, ib: int|
            0 <= ia < out.len() && 0 <= ib < out.len() && out[ia] == items[a] && out[ib]
                == items[b] implies ia < ib by {
            if ia != 0 {
                assert(spec_rank(rest)[ia - 1] == items[a]);
                assert(spec_rank(rest).contains(items[a]));
                lemma_rank_permutation(rest);
                assert(rest.to_multiset().count(items[a]) > 0);
                assert(rest.contains(items[a]));
                let j = choose|j: int| 0 <= j < rest.len() && rest[j] == items[a];
                if j < m {
                    assert(items[j] == items[a] && j != a);
                } else {
                    assert(items[j + 1] == items[a] && j + 1 != a);
                }
                assert(false);
            }
            assert(out[0] == items[m]);
            assert(items[b] != items[a]);
        }
    } else {
        let a2 = if a < m {
            a
        } else {
            a - 1
        };
        let b2 = if b < m {
            b
        } else {
            b - 1
        };
        assert(rest[a2] == items[a]);
        assert(rest[b2] == items[b]);
        lemma_rank_stable(rest, a2, b2);
        assert forall|ia: int, ib: int|
            0 <= ia < out.len() && 0 <= ib < out.len() && out[ia] == items[a] && out[ib]
                == items[b] implies ia < ib by {
            assert(out[0] == items[m]);
            assert(items[a] != items[m]);
            assert(items[b] != items[m]);
            assert(ia != 0 && ib != 0);
            assert(spec_rank(rest)[ia - 1] == items[a]);
            assert(spec_rank(rest)[ib - 1] == items[b]);
        }
    }
}

/// Law (restriction keeps relative order): in any ranking, an entry with
/// the strictly greater score stands before one with a smaller score.
/// A successful restriction replaces the tables with the same columns for
/// the kept classes, so two kept classes with distinct scores appear in
/// the restricted ranking in the same relative order as in the canonical
/// one.
pub proof fn lemma_rank_strict_order(items: Seq<(usize, u32)>, a: int, b: int)
    requires
        0 <= a < spec_rank(items).len(),
        0 <= b < spec_rank(items).len(),
        f32_gt_bits(spec_rank(items)[a].1, spec_rank(items)[b].1),
    ensures
        a < b,
{
    if b < a {
        lemma_rank_sorted(items, b, a);
    }
}

impl Model {
    /// The class index of maximum score, with its score, selected by a
    /// stable left-to-right scan; nothing exactly when the active class
    /// list is empty. Scores are float bit patterns, one per active class.
    pub fn pick_best(&self, probs: &Vec<u32>) -> (r: Option<(usize, u32)>)
        requires
            probs@.len() == self@.active_data().classes.len(),
        ensures
            r is None <==> self@.active_data().classes.len() == 0,
            match r {
                Some((i, p)) => spec_pick_best(probs@) == Some((i as int, p)) && i
                    < probs@.len(),
                None => probs@.len() == 0,
            },
    {
        if probs.len() == 0 {
            return None;
        }
        let mut best: usize = 0;
        let mut i: usize = 1;
        while i < probs.len()
            invariant
                1 <= i <= probs@.len(),
                best < i,
                best == spec_first_max(probs@.take(i as int)),
            decreases probs@.len() - i,
        {
            proof {
                lemma_first_max_step(probs@, i as int);
            }
            if gt_bits(probs[i], probs[best]) {
                best = i;
            }
            i = i + 1;
        }
        proof {
            assert(probs@.take(probs@.len() as int) =~= probs@);
        }
        Some((best, probs[best]))
    }

    /// All class indices with their scores, ordered by descending score;
    /// ties and incomparable scores keep the class order. Scores are float
    /// bit patterns, one per active class.
    pub fn rank_scored(&self, probs: &Vec<u32>) -> (r: Vec<(usize, u32)>)
        requires
            probs@.len() == self@.active_data().classes.len(),
        ensures
            r@ == spec_rank(spec_pairs(probs@)),
            r@.len() == probs@.len(),
    {
        let ghost all_pairs = spec_pairs(probs@);
        let mut remaining: Vec<(usize, u32)> = Vec::new();
        let mut i: usize = 0;
        while i < probs.len()
            invariant
                i <= probs@.len(),
                remaining@.len() == i,
                forall|j: int| 0 <= j < i ==> remaining@[j] == (j as usize, probs@[j]),
            decreases probs@.len() - i,
        {
            remaining.push((i, probs[i]));
            i = i + 1;
        }
        proof {
            assert(remaining@ =~= all_pairs);
        }
        let mut out: Vec<(usize, u32)> = Vec::new();
        while remaining.len() > 0
            invariant
                out@ + spec_rank(remaining@) == spec_rank(all_pairs),
            decreases remaining@.len(),
        {
            let ghost before = remaining@;
            let ghost out_before = out@;
            let mut best: usize = 0;
            let mut k: usize = 1;
            while k < remaining.len()
                invariant
                    remaining@.len() > 0,
                    1 <= k <= remaining@.len(),
                    best < k,
                    best == spec_first_max_pair(remaining@.take(k as int)),
                decreases remaining@.len() - k,
            {
                proof {
                    lemma_first_max_pair_step(remaining@, k as int);
                }
                if gt_bits(remaining[k].1, remaining[best].1) {
                    best = k;
                }
                k = k + 1;
            }
            proof {
                assert(remaining@.take(remaining@.len() as int) =~= remaining@);
            }
            proof {
                lemma_first_max_pair_in_range(before);
            }
            let item = remaining.remove(best);
            out.push(item);
            proof {
                assert(spec_rank(before) == seq![item] + spec_rank(remaining@));
                assert(out@ =~= out_before + seq![item]);
                assert((out_before + seq![item]) + spec_rank(remaining@) =~= out_before + (
                seq![item] + spec_rank(remaining@)));
            }
        }
        proof {
            assert(out@ + Seq::<(usize, u32)>::empty() =~= out@);
            lemma_rank_len(all_pairs);
        }
        out
    }
}

} // verus!
