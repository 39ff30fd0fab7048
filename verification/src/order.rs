//! The order on scores.
//!
//! A score type brings its own `PartialOrd`. Everything the queue decides, it
//! decides from three questions about a pair of scores: is the first less, is
//! it greater, can the two be compared at all. This module names those
//! questions for contracts and states the laws that well-behaved scores obey
//! among themselves.

use core::cmp::Ordering;
use vstd::prelude::*;
use vstd::std_specs::cmp::PartialOrdSpec;

verus! {

/// Comparisons on `S` at run time return what `partial_cmp_spec` says.
///
/// Where this fails (floating point, for one) the queue still keeps every
/// entry and every count right, but where an entry lands is not foretold.
pub open spec fn obeys_order<S: PartialOrd>() -> bool {
    S::obeys_partial_cmp_spec()
}

/// `a` compares as strictly less than `b`.
pub open spec fn less<S: PartialOrd>(a: S, b: S) -> bool {
    a.partial_cmp_spec(&b) == Some(Ordering::Less)
}

/// `a` compares as strictly greater than `b`.
pub open spec fn greater<S: PartialOrd>(a: S, b: S) -> bool {
    a.partial_cmp_spec(&b) == Some(Ordering::Greater)
}

/// `a` and `b` compare as equal.
pub open spec fn same_rank<S: PartialOrd>(a: S, b: S) -> bool {
    a.partial_cmp_spec(&b) == Some(Ordering::Equal)
}

/// `a` and `b` can be compared: the comparison has an answer.
pub open spec fn comparable<S: PartialOrd>(a: S, b: S) -> bool {
    a.partial_cmp_spec(&b) is Some
}

/// `a` compares as less than or equal to `b`.
pub open spec fn at_most<S: PartialOrd>(a: S, b: S) -> bool {
    less(a, b) || same_rank(a, b)
}

/// The laws that the scores in `scores` obey among themselves where what
/// can be compared falls into classes, each of them totally preordered:
/// swapping the operands mirrors the answer, `at_most` is transitive, and two
/// scores comparable with a third are comparable with each other.
///
/// Integers obey them, and so do scores of which some, as NaN among the
/// floating-point numbers, can be compared with nothing. Scores ordered by
/// components, of which `(0, 3)` and `(2, 2)` cannot be compared although
/// each is greater than `(0, 0)`, do not.
pub open spec fn lawful_on<S: PartialOrd>(scores: Set<S>) -> bool {
    &&& forall|a: S, b: S|
        scores.contains(a) && scores.contains(b) ==> (#[trigger] less(a, b) <==> greater(b, a))
    &&& forall|a: S, b: S|
        scores.contains(a) && scores.contains(b) ==> (#[trigger] same_rank(a, b) <==> same_rank(
            b,
            a,
        ))
    &&& forall|a: S, b: S, c: S|
        scores.contains(a) && scores.contains(b) && scores.contains(c) && #[trigger] at_most(a, b)
            && #[trigger] at_most(b, c) ==> at_most(a, c)
    &&& forall|a: S, b: S, c: S|
        scores.contains(a) && scores.contains(b) && scores.contains(c) && #[trigger] comparable(
            a,
            b,
        ) && #[trigger] comparable(b, c) ==> comparable(a, c)
}

/// The scores that `s` holds.
pub open spec fn scores_of<S, T>(s: Seq<(S, T)>) -> Set<S> {
    Set::new(|score: S| exists|i: int| 0 <= i < s.len() && (#[trigger] s[i]).0 == score)
}

/// The scores that `s` holds obey the laws among themselves.
pub open spec fn lawful_among<S: PartialOrd, T>(s: Seq<(S, T)>) -> bool {
    lawful_on(scores_of(s))
}

/// Every score that `s` holds is one of `scores`.
pub open spec fn within<S, T>(s: Seq<(S, T)>, scores: Set<S>) -> bool {
    forall|i: int| 0 <= i < s.len() ==> scores.contains((#[trigger] s[i]).0)
}

/// Every two entries that `s` holds have scores that can be compared, and
/// each score can be compared with itself.
pub open spec fn mutually_comparable<S: PartialOrd, T>(s: Seq<(S, T)>) -> bool {
    forall|a: (S, T), b: (S, T)| #[trigger]
        s.contains(a) && #[trigger] s.contains(b) ==> comparable(a.0, b.0)
}

/// No entry of `s` stands before one of lesser score: of any two entries the
/// earlier has the lesser or an equal score, or the two cannot be compared.
pub open spec fn ascending<S: PartialOrd, T>(s: Seq<(S, T)>) -> bool {
    forall|i: int, j: int| 0 <= i < j < s.len() ==> !greater(#[trigger] s[i].0, #[trigger] s[j].0)
}

/// A sequence holds none but its own scores.
pub proof fn lemma_within_own_scores<S, T>(s: Seq<(S, T)>)
    ensures
        within(s, scores_of(s)),
{
}

/// Laws that hold among some scores hold among fewer.
pub proof fn lemma_lawful_on_fewer<S: PartialOrd>(fewer: Set<S>, scores: Set<S>)
    requires
        lawful_on(scores),
        fewer.subset_of(scores),
    ensures
        lawful_on(fewer),
{
}

/// What holds no more than `whole` holds none but scores of `whole`, and
/// the laws that hold among the scores of `whole` hold among its own.
pub proof fn lemma_part_is_within<S: PartialOrd, T>(
    part: Seq<(S, T)>,
    whole: Seq<(S, T)>,
    scores: Set<S>,
)
    requires
        part.to_multiset().subset_of(whole.to_multiset()),
        within(whole, scores),
    ensures
        within(part, scores),
        scores_of(part).subset_of(scores_of(whole)),
        lawful_among(whole) ==> lawful_among(part),
{
    assert forall|i: int| 0 <= i < part.len() implies scores.contains((#[trigger] part[i]).0)
        && scores_of(whole).contains(part[i].0) by {
        let a = part[i];
        assert(part.contains(a));
        vstd::seq_lib::to_multiset_contains(part, a);
        vstd::seq_lib::to_multiset_contains(whole, a);
        assert(part.to_multiset().count(a) <= whole.to_multiset().count(a));
        assert(whole.contains(a));
        let k = choose|k: int| 0 <= k < whole.len() && whole[k] == a;
        assert(whole[k].0 == a.0);
    }
    assert forall|score: S| scores_of(part).contains(score) implies scores_of(whole).contains(
        score,
    ) by {
        let i = choose|i: int| 0 <= i < part.len() && (#[trigger] part[i]).0 == score;
        assert(scores_of(whole).contains(part[i].0));
    }
    if lawful_among(whole) {
        lemma_lawful_on_fewer(scores_of(part), scores_of(whole));
    }
}

/// Under the laws a comparison never answers both ways.
pub proof fn lemma_greater_excludes<S: PartialOrd>(scores: Set<S>, a: S, b: S)
    requires
        lawful_on(scores),
        scores.contains(a),
        scores.contains(b),
        greater(a, b),
    ensures
        !greater(b, a),
        !less(a, b),
        less(b, a),
        comparable(a, b),
        comparable(b, a),
{
    assert(less(b, a) <==> greater(a, b));
}

/// A pair that can be compared and is not `greater` is `at_most`.
pub proof fn lemma_not_greater<S: PartialOrd>(a: S, b: S)
    requires
        comparable(a, b),
        !greater(a, b),
    ensures
        at_most(a, b),
{
    match a.partial_cmp_spec(&b) {
        Some(Ordering::Less) => {},
        Some(Ordering::Equal) => {},
        Some(Ordering::Greater) => {},
        None => {},
    }
}

/// Under the laws `at_most` followed by `less`, or `less` followed by
/// `at_most`, gives `less`.
pub proof fn lemma_less_chain<S: PartialOrd>(scores: Set<S>, a: S, b: S, c: S)
    requires
        lawful_on(scores),
        scores.contains(a),
        scores.contains(b),
        scores.contains(c),
        (less(a, b) && at_most(b, c)) || (at_most(a, b) && less(b, c)),
    ensures
        less(a, c),
{
    assert(at_most(a, b) && at_most(b, c));
    assert(at_most(a, c));
    if same_rank(a, c) {
        assert(same_rank(c, a));
        assert(at_most(c, a));
        if less(a, b) {
            // b <= c <= a, against a < b
            assert(at_most(b, c) && at_most(c, a));
            assert(at_most(b, a));
            assert(less(a, b) <==> greater(b, a));
        } else {
            // c <= a <= b, against b < c
            assert(at_most(c, a) && at_most(a, b));
            assert(at_most(c, b));
            assert(less(b, c) <==> greater(c, b));
        }
    }
}

/// `at_most` rules out `greater`: a comparison has one answer.
pub proof fn lemma_at_most_excludes<S: PartialOrd>(a: S, b: S)
    requires
        at_most(a, b),
    ensures
        !greater(a, b),
        comparable(a, b),
{
}

/// Under the laws no score is greater than itself.
pub proof fn lemma_never_above_itself<S: PartialOrd>(scores: Set<S>, a: S)
    requires
        lawful_on(scores),
        scores.contains(a),
    ensures
        !greater(a, a),
{
    assert(less(a, a) <==> greater(a, a));
}

/// What holds no more than a sequence of mutually comparable entries is
/// itself mutually comparable.
pub proof fn lemma_part_is_comparable<S: PartialOrd, T>(part: Seq<(S, T)>, whole: Seq<(S, T)>)
    requires
        mutually_comparable(whole),
        part.to_multiset().subset_of(whole.to_multiset()),
    ensures
        mutually_comparable(part),
        forall|a: (S, T)| part.contains(a) ==> whole.contains(a),
{
    assert forall|a: (S, T)| part.contains(a) implies whole.contains(a) by {
        vstd::seq_lib::to_multiset_contains(part, a);
        vstd::seq_lib::to_multiset_contains(whole, a);
        assert(part.to_multiset().count(a) <= whole.to_multiset().count(a));
    }
    assert forall|a: (S, T), b: (S, T)| #[trigger]
        part.contains(a) && #[trigger] part.contains(b) implies comparable(a.0, b.0) by {
        assert(whole.contains(a) && whole.contains(b));
    }
}

/// Whether a score cannot be compared even with itself, as NaN cannot.
pub fn incomparable_to_itself<S: PartialOrd>(score: &S) -> (r: bool)
    ensures
        obeys_order::<S>() ==> r == !comparable(*score, *score),
{
    score.partial_cmp(score).is_none()
}

/// Whether `a`, the earlier of two entries' scores, sorts after `b`: only
/// where it compares as greater. Where the two cannot be compared the
/// earlier one sorts first.
pub fn sorts_after<S: PartialOrd>(a: &S, b: &S) -> (r: bool)
    ensures
        obeys_order::<S>() ==> r == greater(*a, *b),
{
    match a.partial_cmp(b) {
        Some(Ordering::Greater) => true,
        _ => false,
    }
}

} // verus!
