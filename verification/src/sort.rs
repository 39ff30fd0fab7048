//! Sorting entries by score: a merge sort. Where two runs are merged, the
//! last entry of the earlier run goes behind the last entry of the later run
//! only where its score compares as greater; where the two are equal or cannot
//! be compared, the earlier one sorts first. With lawful scores that can all
//! be compared this sorts ascending and keeps entries of equal score in the
//! order they came in.

use crate::order::{
    ascending, at_most, greater, lawful_on, lemma_at_most_excludes, lemma_greater_excludes,
    lemma_less_chain, lemma_not_greater, lemma_part_is_comparable, lemma_part_is_within, less,
    mutually_comparable, within,
    obeys_order, same_rank, sorts_after,
};
use crate::seqs::lemma_empty_holds_nothing;
use vstd::prelude::*;
use vstd::seq_lib::{lemma_multiset_commutative, to_multiset_build};

verus! {

/// Two runs merged into one. The last entry of the result is the last of
/// `left` where its score is greater than that of the last of `right`, and the
/// last of `right` otherwise; the entries before it are the merge of what is
/// left of the two runs.
pub open spec fn merged<S: PartialOrd, T>(left: Seq<(S, T)>, right: Seq<(S, T)>) -> Seq<(S, T)>
    decreases left.len() + right.len(),
{
    if left.len() == 0 {
        right
    } else if right.len() == 0 {
        left
    } else if greater(left.last().0, right.last().0) {
        merged(left.drop_last(), right).push(left.last())
    } else {
        merged(left, right.drop_last()).push(right.last())
    }
}

/// The entries of `s` sorted by score: `s` is halved, each half is sorted,
/// and the two are merged.
pub open spec fn sorted_by_score<S: PartialOrd, T>(s: Seq<(S, T)>) -> Seq<(S, T)>
    decreases s.len(),
{
    if s.len() <= 1 {
        s
    } else {
        let mid = (s.len() / 2) as int;
        merged(sorted_by_score(s.take(mid)), sorted_by_score(s.skip(mid)))
    }
}

/// Merging keeps every entry of both runs, and no other.
pub proof fn lemma_merged_permutes<S: PartialOrd, T>(left: Seq<(S, T)>, right: Seq<(S, T)>)
    ensures
        merged(left, right).len() == left.len() + right.len(),
        merged(left, right).to_multiset() == left.to_multiset().add(right.to_multiset()),
    decreases left.len() + right.len(),
{
    broadcast use vstd::multiset::group_multiset_axioms;

    if left.len() == 0 {
        lemma_empty_holds_nothing(left);
        assert(left.to_multiset().add(right.to_multiset()) =~= right.to_multiset());
    } else if right.len() == 0 {
        lemma_empty_holds_nothing(right);
        assert(left.to_multiset().add(right.to_multiset()) =~= left.to_multiset());
    } else if greater(left.last().0, right.last().0) {
        lemma_merged_permutes(left.drop_last(), right);
        to_multiset_build(merged(left.drop_last(), right), left.last());
        to_multiset_build(left.drop_last(), left.last());
        assert(left.drop_last().push(left.last()) =~= left);
        assert(merged(left, right).to_multiset() =~= left.to_multiset().add(right.to_multiset()));
    } else {
        lemma_merged_permutes(left, right.drop_last());
        to_multiset_build(merged(left, right.drop_last()), right.last());
        to_multiset_build(right.drop_last(), right.last());
        assert(right.drop_last().push(right.last()) =~= right);
        assert(merged(left, right).to_multiset() =~= left.to_multiset().add(right.to_multiset()));
    }
}

/// Sorting keeps every entry, and no other.
pub proof fn lemma_sorted_permutes<S: PartialOrd, T>(s: Seq<(S, T)>)
    ensures
        sorted_by_score(s).len() == s.len(),
        sorted_by_score(s).to_multiset() == s.to_multiset(),
    decreases s.len(),
{
    if s.len() > 1 {
        let mid = (s.len() / 2) as int;
        lemma_sorted_permutes(s.take(mid));
        lemma_sorted_permutes(s.skip(mid));
        lemma_merged_permutes(sorted_by_score(s.take(mid)), sorted_by_score(s.skip(mid)));
        lemma_multiset_commutative(s.take(mid), s.skip(mid));
        assert(s.take(mid) + s.skip(mid) =~= s);
    }
}

/// Merging two ascending runs gives an ascending run, where the scores are
/// lawful and can all be compared.
pub proof fn lemma_merged_ascending<S: PartialOrd, T>(
    scores: Set<S>,
    left: Seq<(S, T)>,
    right: Seq<(S, T)>,
)
    requires
        lawful_on(scores),
        within(left, scores),
        within(right, scores),
        mutually_comparable(left + right),
        ascending(left),
        ascending(right),
    ensures
        ascending(merged(left, right)),
        forall|a: (S, T)| #[trigger]
            merged(left, right).contains(a) ==> left.contains(a) || right.contains(a),
    decreases left.len() + right.len(),
{
    let out = merged(left, right);
    if left.len() > 0 && right.len() > 0 {
        let from_left = greater(left.last().0, right.last().0);
        let l = if from_left {
            left.drop_last()
        } else {
            left
        };
        let r = if from_left {
            right
        } else {
            right.drop_last()
        };
        let top = if from_left {
            left.last()
        } else {
            right.last()
        };
        let rest = merged(l, r);
        assert forall|a: (S, T)| (l + r).contains(a) implies (left + right).contains(a) by {
            let i = choose|i: int| 0 <= i < (l + r).len() && (l + r)[i] == a;
            if i < l.len() {
                assert((left + right)[i] == a);
            } else {
                assert((left + right)[left.len() + (i - l.len())] == a);
            }
        }
        assert(mutually_comparable(l + r));
        lemma_merged_ascending(scores, l, r);
        lemma_merged_permutes(l, r);
        assert((left + right).contains(left.last())) by {
            assert((left + right)[left.len() - 1] == left.last());
        }
        assert((left + right).contains(right.last())) by {
            assert((left + right)[left.len() + right.len() - 1] == right.last());
        }
        assert forall|i: int| 0 <= i < rest.len() implies !greater(
            (#[trigger] rest[i]).0,
            top.0,
        ) by {
            let a = rest[i];
            assert(rest.contains(a));
            if l.contains(a) {
                let k = choose|k: int| 0 <= k < l.len() && l[k] == a;
                assert(left[k] == a);
                assert((left + right)[k] == a);
                assert((left + right).contains(a));
                if from_left {
                    assert(!greater(left[k].0, left[left.len() - 1].0));
                } else {
                    if k < left.len() - 1 {
                        assert(!greater(left[k].0, left[left.len() - 1].0));
                    } else {
                        crate::order::lemma_never_above_itself(scores, left.last().0);
                    }
                    lemma_not_greater(a.0, left.last().0);
                    lemma_not_greater(left.last().0, right.last().0);
                    assert(at_most(a.0, left.last().0) && at_most(left.last().0, right.last().0));
                    lemma_at_most_excludes(a.0, right.last().0);
                }
            } else {
                let k = choose|k: int| 0 <= k < r.len() && r[k] == a;
                assert(right[k] == a);
                assert((left + right)[left.len() + k] == a);
                assert((left + right).contains(a));
                if from_left {
                    if k < right.len() - 1 {
                        assert(!greater(right[k].0, right[right.len() - 1].0));
                    } else {
                        crate::order::lemma_never_above_itself(scores, right.last().0);
                    }
                    lemma_not_greater(a.0, right.last().0);
                    lemma_greater_excludes(scores, left.last().0, right.last().0);
                    lemma_less_chain(scores, a.0, right.last().0, left.last().0);
                    lemma_at_most_excludes(a.0, left.last().0);
                } else {
                    assert(!greater(right[k].0, right[right.len() - 1].0));
                }
            }
        }
        assert(out == rest.push(top));
        assert forall|a: (S, T)| #[trigger] out.contains(a) implies left.contains(a)
            || right.contains(a) by {
            let i = choose|i: int| 0 <= i < out.len() && out[i] == a;
            if i < rest.len() {
                assert(rest.contains(rest[i]));
                if l.contains(a) {
                    let k = choose|k: int| 0 <= k < l.len() && l[k] == a;
                    assert(left[k] == a);
                } else {
                    let k = choose|k: int| 0 <= k < r.len() && r[k] == a;
                    assert(right[k] == a);
                }
            } else {
                if from_left {
                    assert(left[left.len() - 1] == a);
                } else {
                    assert(right[right.len() - 1] == a);
                }
            }
        }
    }
}

/// Sorting gives an ascending sequence, where the scores are lawful and can
/// all be compared.
pub proof fn lemma_sorted_ascending<S: PartialOrd, T>(scores: Set<S>, s: Seq<(S, T)>)
    requires
        lawful_on(scores),
        within(s, scores),
        mutually_comparable(s),
    ensures
        ascending(sorted_by_score(s)),
    decreases s.len(),
{
    if s.len() > 1 {
        let mid = (s.len() / 2) as int;
        let a = s.take(mid);
        let b = s.skip(mid);
        lemma_multiset_commutative(a, b);
        assert(a + b =~= s);
        lemma_part_is_comparable(a, s);
        lemma_part_is_comparable(b, s);
        lemma_sorted_ascending(scores, a);
        lemma_sorted_ascending(scores, b);
        lemma_sorted_permutes(a);
        lemma_sorted_permutes(b);
        let sa = sorted_by_score(a);
        let sb = sorted_by_score(b);
        lemma_part_is_within(sa, a, scores);
        lemma_part_is_within(sb, b, scores);
        lemma_multiset_commutative(sa, sb);
        lemma_part_is_comparable(sa + sb, s);
        lemma_merged_ascending(scores, sa, sb);
    }
}

/// The entries of `s` whose score has the rank of `x`, in their order.
pub open spec fn ranked_like<S: PartialOrd, T>(s: Seq<(S, T)>, x: S) -> Seq<(S, T)> {
    s.filter(|entry: (S, T)| same_rank(entry.0, x))
}

proof fn lemma_ranked_like_push<S: PartialOrd, T>(s: Seq<(S, T)>, entry: (S, T), x: S)
    ensures
        ranked_like(s.push(entry), x) == if same_rank(entry.0, x) {
            ranked_like(s, x).push(entry)
        } else {
            ranked_like(s, x)
        },
{
    reveal(Seq::filter);
    assert(s.push(entry).drop_last() =~= s);
}

proof fn lemma_none_ranked_like<S: PartialOrd, T>(s: Seq<(S, T)>, x: S)
    requires
        forall|i: int| 0 <= i < s.len() ==> !same_rank((#[trigger] s[i]).0, x),
    ensures
        ranked_like(s, x) == Seq::<(S, T)>::empty(),
    decreases s.len(),
{
    reveal(Seq::filter);
    if s.len() > 0 {
        lemma_none_ranked_like(s.drop_last(), x);
        assert(!same_rank(s[s.len() - 1].0, x));
    }
}

/// Merging two ascending runs keeps entries of equal rank in their order,
/// those of the left run before those of the right, where the scores are
/// lawful and can all be compared.
pub proof fn lemma_merged_stable<S: PartialOrd, T>(
    scores: Set<S>,
    left: Seq<(S, T)>,
    right: Seq<(S, T)>,
    x: S,
)
    requires
        lawful_on(scores),
        within(left, scores),
        within(right, scores),
        scores.contains(x),
        mutually_comparable(left + right),
        ascending(left),
        ascending(right),
    ensures
        ranked_like(merged(left, right), x) == ranked_like(left, x) + ranked_like(right, x),
    decreases left.len() + right.len(),
{
    if left.len() == 0 {
        lemma_none_ranked_like(left, x);
        assert(ranked_like(left, x) + ranked_like(right, x) =~= ranked_like(right, x));
    } else if right.len() == 0 {
        lemma_none_ranked_like(right, x);
        assert(ranked_like(left, x) + ranked_like(right, x) =~= ranked_like(left, x));
    } else {
        let from_left = greater(left.last().0, right.last().0);
        let l = if from_left {
            left.drop_last()
        } else {
            left
        };
        let r = if from_left {
            right
        } else {
            right.drop_last()
        };
        let top = if from_left {
            left.last()
        } else {
            right.last()
        };
        assert forall|a: (S, T)| (l + r).contains(a) implies (left + right).contains(a) by {
            let i = choose|i: int| 0 <= i < (l + r).len() && (l + r)[i] == a;
            if i < l.len() {
                assert((left + right)[i] == a);
            } else {
                assert((left + right)[left.len() + (i - l.len())] == a);
            }
        }
        assert(mutually_comparable(l + r));
        lemma_merged_stable(scores, l, r, x);
        lemma_ranked_like_push(merged(l, r), top, x);
        assert(left.drop_last().push(left.last()) =~= left);
        assert(right.drop_last().push(right.last()) =~= right);
        if from_left {
            lemma_ranked_like_push(left.drop_last(), top, x);
            if same_rank(top.0, x) {
                assert forall|i: int| 0 <= i < right.len() implies !same_rank(
                    (#[trigger] right[i]).0,
                    x,
                ) by {
                    let e = right[i].0;
                    assert((left + right)[left.len() + i] == right[i]);
                    assert((left + right)[left.len() + right.len() - 1] == right.last());
                    assert((left + right).contains(right[i]));
                    assert((left + right).contains(right.last()));
                    if same_rank(e, x) {
                        if i < right.len() - 1 {
                            assert(!greater(right[i].0, right[right.len() - 1].0));
                        } else {
                            crate::order::lemma_never_above_itself(scores, right.last().0);
                        }
                        lemma_not_greater(e, right.last().0);
                        lemma_greater_excludes(scores, top.0, right.last().0);
                        lemma_less_chain(scores, e, right.last().0, top.0);
                        assert(same_rank(x, e));
                        assert(at_most(top.0, x) && at_most(x, e));
                        lemma_at_most_excludes(top.0, e);
                        assert(less(e, top.0) <==> greater(top.0, e));
                    }
                }
                lemma_none_ranked_like(right, x);
                assert(ranked_like(l, x).push(top) + ranked_like(right, x) =~= (ranked_like(l, x)
                    + ranked_like(right, x)).push(top));
            }
        } else {
            lemma_ranked_like_push(right.drop_last(), top, x);
            if same_rank(top.0, x) {
                assert(ranked_like(left, x) + ranked_like(r, x).push(top) =~= (ranked_like(left, x)
                    + ranked_like(r, x)).push(top));
            }
        }
    }
}

/// Sorting is stable: entries of equal rank come out in the order they went
/// in, where the scores are lawful and can all be compared.
pub proof fn lemma_sorted_stable<S: PartialOrd, T>(scores: Set<S>, s: Seq<(S, T)>, x: S)
    requires
        lawful_on(scores),
        within(s, scores),
        scores.contains(x),
        mutually_comparable(s),
    ensures
        ranked_like(sorted_by_score(s), x) == ranked_like(s, x),
    decreases s.len(),
{
    if s.len() > 1 {
        let mid = (s.len() / 2) as int;
        let a = s.take(mid);
        let b = s.skip(mid);
        lemma_multiset_commutative(a, b);
        assert(a + b =~= s);
        lemma_part_is_comparable(a, s);
        lemma_part_is_comparable(b, s);
        lemma_sorted_stable(scores, a, x);
        lemma_sorted_stable(scores, b, x);
        lemma_sorted_ascending(scores, a);
        lemma_sorted_ascending(scores, b);
        lemma_sorted_permutes(a);
        lemma_sorted_permutes(b);
        let sa = sorted_by_score(a);
        let sb = sorted_by_score(b);
        lemma_part_is_within(sa, a, scores);
        lemma_part_is_within(sb, b, scores);
        lemma_multiset_commutative(sa, sb);
        lemma_part_is_comparable(sa + sb, s);
        lemma_merged_stable(scores, sa, sb, x);
        Seq::filter_distributes_over_add(a, b, |entry: (S, T)| same_rank(entry.0, x));
    }
}

/// Merges two runs into one.
fn merge_runs<S: PartialOrd, T>(left: Vec<(S, T)>, right: Vec<(S, T)>) -> (out: Vec<(S, T)>)
    ensures
        out@.len() == left@.len() + right@.len(),
        out@.to_multiset() == left@.to_multiset().add(right@.to_multiset()),
        obeys_order::<S>() ==> out@ == merged(left@, right@),
{
    let ghost whole = left@.to_multiset().add(right@.to_multiset());
    let ghost goal = merged(left@, right@);
    let ghost total = left@.len() + right@.len();
    let mut left = left;
    let mut right = right;
    // the greatest entries, greatest first
    let mut tail: Vec<(S, T)> = Vec::new();
    proof {
        lemma_empty_holds_nothing(tail@);
        assert(whole.add(tail@.to_multiset()) =~= whole);
        assert(goal + tail@.reverse() =~= goal);
    }
    while left.len() > 0 && right.len() > 0
        invariant
            left@.len() + right@.len() + tail@.len() == total,
            left@.to_multiset().add(right@.to_multiset()).add(tail@.to_multiset()) == whole,
            obeys_order::<S>() ==> merged(left@, right@) + tail@.reverse() == goal,
        decreases left@.len() + right@.len(),
    {
        broadcast use vstd::multiset::group_multiset_axioms;

        let ghost l = left@;
        let ghost r = right@;
        let ghost t = tail@;
        let from_left = sorts_after(&left[left.len() - 1].0, &right[right.len() - 1].0);
        let taken = if from_left {
            left.pop()
        } else {
            right.pop()
        };
        match taken {
            Some(entry) => {
                tail.push(entry);
                proof {
                    to_multiset_build(t, entry);
                    if from_left {
                        to_multiset_build(l.drop_last(), entry);
                        assert(l.drop_last().push(entry) =~= l);
                        assert(left@ =~= l.drop_last());
                    } else {
                        to_multiset_build(r.drop_last(), entry);
                        assert(r.drop_last().push(entry) =~= r);
                        assert(right@ =~= r.drop_last());
                    }
                    assert(left@.to_multiset().add(right@.to_multiset()).add(tail@.to_multiset())
                        =~= whole);
                    if obeys_order::<S>() {
                        assert(merged(l, r) == merged(left@, right@).push(entry));
                        assert(tail@.reverse() =~= seq![entry] + t.reverse());
                        assert(merged(left@, right@) + tail@.reverse() =~= merged(l, r)
                            + t.reverse());
                    }
                }
            },
            None => {},
        }
    }
    let ghost low = merged(left@, right@);
    let ghost high = tail@.reverse();
    let mut out = if left.len() > 0 {
        left
    } else {
        right
    };
    proof {
        broadcast use vstd::multiset::group_multiset_axioms;

        if left@.len() == 0 {
            lemma_empty_holds_nothing(left@);
        } else {
            lemma_empty_holds_nothing(right@);
        }
        assert(out@.to_multiset().add(tail@.to_multiset()) =~= whole);
        assert(out@ == low);
    }
    while tail.len() > 0
        invariant
            out@.len() + tail@.len() == total,
            out@.to_multiset().add(tail@.to_multiset()) == whole,
            out@ + tail@.reverse() == low + high,
        decreases tail@.len(),
    {
        broadcast use vstd::multiset::group_multiset_axioms;

        let ghost o = out@;
        let ghost t = tail@;
        match tail.pop() {
            Some(entry) => {
                out.push(entry);
                proof {
                    to_multiset_build(o, entry);
                    to_multiset_build(t.drop_last(), entry);
                    assert(t.drop_last().push(entry) =~= t);
                    assert(out@.to_multiset().add(tail@.to_multiset()) =~= whole);
                    assert(t.reverse() =~= seq![entry] + t.drop_last().reverse());
                    assert(out@ + tail@.reverse() =~= o + t.reverse());
                }
            },
            None => {},
        }
    }
    proof {
        broadcast use vstd::multiset::group_multiset_axioms;

        lemma_empty_holds_nothing(tail@);
        assert(out@.to_multiset().add(tail@.to_multiset()) =~= out@.to_multiset());
        assert(out@ + tail@.reverse() =~= out@);
    }
    out
}

/// Sorts entries by score, ascending: the entries are halved, each half is
/// sorted, and the two are merged.
pub fn sort_entries<S: PartialOrd, T>(entries: Vec<(S, T)>) -> (out: Vec<(S, T)>)
    ensures
        out@.len() == entries@.len(),
        out@.to_multiset() == entries@.to_multiset(),
        obeys_order::<S>() ==> out@ == sorted_by_score(entries@),
    decreases entries@.len(),
{
    let mut left = entries;
    if left.len() <= 1 {
        return left;
    }
    let mid = left.len() / 2;
    let right = left.split_off(mid);
    proof {
        lemma_multiset_commutative(entries@.take(mid as int), entries@.skip(mid as int));
        assert(entries@.take(mid as int) + entries@.skip(mid as int) =~= entries@);
        assert(left@ =~= entries@.take(mid as int));
        assert(right@ =~= entries@.skip(mid as int));
    }
    let left = sort_entries(left);
    let right = sort_entries(right);
    merge_runs(left, right)
}

} // verus!
