//! The mathematical model of a join: which records match, how a sorted
//! right-hand side is arranged, and what each join yields.
use core::cmp::Ordering;
use vstd::prelude::*;

verus! {

/// The predicate may be called on any pair and gives one answer per pair.
pub open spec fn predicate_ok<L, R, P: Fn(&L, &R) -> Ordering>(p: P) -> bool {
    &&& forall|l: &L, r: &R| #[trigger] p.requires((l, r))
    &&& forall|l: &L, r: &R, a: Ordering, b: Ordering|
        #![trigger p.ensures((l, r), a), p.ensures((l, r), b)]
        p.ensures((l, r), a) && p.ensures((l, r), b) ==> a == b
}

/// `l` and `r` match when the predicate compares them as `Equal`.
pub open spec fn matched<L, R, P: Fn(&L, &R) -> Ordering>(p: P, l: L, r: R) -> bool {
    p.ensures((&l, &r), Ordering::Equal)
}

/// The records that a sequence of references points to.
pub open spec fn deref_all<R>(rs: Seq<&R>) -> Seq<R> {
    rs.map_values(|r: &R| *r)
}

/// Whether a record matches `l`, as a spec closure.
pub open spec fn match_pred<L, R, P: Fn(&L, &R) -> Ordering>(p: P, l: L) -> spec_fn(R) -> bool {
    |r: R| matched(p, l, r)
}

/// The records of `rs` that match `l`, in their order in `rs`.
pub open spec fn matches_in<L, R, P: Fn(&L, &R) -> Ordering>(p: P, l: L, rs: Seq<R>) -> Seq<R> {
    rs.filter(match_pred(p, l))
}

/// A half-open window `[lo, hi)` of `rs` lies inside `rs` unless it is empty.
pub open spec fn window_ok<R>(rs: Seq<R>, w: (usize, usize)) -> bool {
    w.0 < w.1 ==> w.1 <= rs.len()
}

/// The records of the window `w` of `rs` that match `l`.
pub open spec fn window_matches<L, R, P: Fn(&L, &R) -> Ordering>(
    p: P,
    l: L,
    rs: Seq<R>,
    w: (usize, usize),
) -> Seq<R> {
    if w.0 < w.1 {
        matches_in(p, l, rs.subrange(w.0 as int, w.1 as int))
    } else {
        Seq::empty()
    }
}

/// Position of an ordering in a sorted arrangement that starts with `first`:
/// first the records comparing as `first`, then the `Equal` ones, then the rest.
pub open spec fn rank(o: Ordering, first: Ordering) -> int {
    if o == first {
        0
    } else if o == Ordering::Equal {
        1
    } else {
        2
    }
}

/// Compared with `l`, the records of `rs` form a run of `first`, then a run of
/// `Equal`, then a run of the opposite ordering (each run possibly empty).
pub open spec fn arranged_from<L, R, P: Fn(&L, &R) -> Ordering>(
    p: P,
    l: L,
    rs: Seq<R>,
    first: Ordering,
) -> bool {
    forall|i: int, j: int, a: Ordering, b: Ordering|
        #![trigger p.ensures((&l, &rs[i]), a), p.ensures((&l, &rs[j]), b)]
        0 <= i < j < rs.len() && p.ensures((&l, &rs[i]), a) && p.ensures((&l, &rs[j]), b)
            ==> rank(a, first) <= rank(b, first)
}

/// `rs` can be bisected for `l`: it is arranged with `Greater` first (records
/// below `l` first), or with `Less` first.
pub open spec fn arranged_for<L, R, P: Fn(&L, &R) -> Ordering>(p: P, l: L, rs: Seq<R>) -> bool {
    arranged_from(p, l, rs, Ordering::Greater) || arranged_from(p, l, rs, Ordering::Less)
}

/// The pairs that an inner per-match join yields for one LHS record.
pub open spec fn inner_pairs<L, R, P: Fn(&L, &R) -> Ordering>(p: P, l: L, rs: Seq<R>) -> Seq<(L, R)> {
    matches_in(p, l, rs).map_values(|r: R| (l, r))
}

/// The output of an inner per-match join: for each LHS record in order, one
/// pair per match, the matches in RHS order.
pub open spec fn inner_join_seq<L, R, P: Fn(&L, &R) -> Ordering>(
    p: P,
    ls: Seq<L>,
    rs: Seq<R>,
) -> Seq<(L, R)>
    decreases ls.len(),
{
    if ls.len() == 0 {
        Seq::empty()
    } else {
        inner_pairs(p, ls[0], rs) + inner_join_seq(p, ls.drop_first(), rs)
    }
}

/// The pairs that an outer per-match join yields for one LHS record: one per
/// match, or a single pair with no RHS record when nothing matches.
pub open spec fn outer_pairs<L, R, P: Fn(&L, &R) -> Ordering>(p: P, l: L, rs: Seq<R>) -> Seq<
    (L, Option<R>),
> {
    let m = matches_in(p, l, rs);
    if m.len() == 0 {
        seq![(l, None)]
    } else {
        m.map_values(|r: R| (l, Some(r)))
    }
}

/// The output of an outer per-match join.
pub open spec fn outer_join_seq<L, R, P: Fn(&L, &R) -> Ordering>(
    p: P,
    ls: Seq<L>,
    rs: Seq<R>,
) -> Seq<(L, Option<R>)>
    decreases ls.len(),
{
    if ls.len() == 0 {
        Seq::empty()
    } else {
        outer_pairs(p, ls[0], rs) + outer_join_seq(p, ls.drop_first(), rs)
    }
}

/// The output of a grouped join: each LHS record in order with all of its
/// matches; records without a match are kept only when `keep_unmatched`.
pub open spec fn grouped_join_seq<L, R, P: Fn(&L, &R) -> Ordering>(
    p: P,
    ls: Seq<L>,
    rs: Seq<R>,
    keep_unmatched: bool,
) -> Seq<(L, Seq<R>)>
    decreases ls.len(),
{
    if ls.len() == 0 {
        Seq::empty()
    } else {
        let m = matches_in(p, ls[0], rs);
        (if keep_unmatched || m.len() > 0 {
            seq![(ls[0], m)]
        } else {
            Seq::empty()
        }) + grouped_join_seq(p, ls.drop_first(), rs, keep_unmatched)
    }
}

/// The output of a semi-join (`with_match`) or an anti-join (`!with_match`):
/// the LHS records, in order, that have a match, or that have none.
pub open spec fn left_join_seq<L, R, P: Fn(&L, &R) -> Ordering>(
    p: P,
    ls: Seq<L>,
    rs: Seq<R>,
    with_match: bool,
) -> Seq<L>
    decreases ls.len(),
{
    if ls.len() == 0 {
        Seq::empty()
    } else {
        (if (matches_in(p, ls[0], rs).len() > 0) == with_match {
            seq![ls[0]]
        } else {
            Seq::empty()
        }) + left_join_seq(p, ls.drop_first(), rs, with_match)
    }
}

/// Matching the first record of a sequence, then the rest.
pub proof fn lemma_matches_first<L, R, P: Fn(&L, &R) -> Ordering>(p: P, l: L, rs: Seq<R>)
    requires
        rs.len() > 0,
    ensures
        matches_in(p, l, rs) == (if matched(p, l, rs[0]) {
            seq![rs[0]]
        } else {
            Seq::<R>::empty()
        }) + matches_in(p, l, rs.drop_first()),
{
    assert(rs =~= seq![rs[0]] + rs.drop_first());
    rs.drop_first().lemma_filter_prepend(rs[0], match_pred(p, l));
}

/// A sequence whose records all match is its own match sequence.
pub proof fn lemma_matches_all<L, R, P: Fn(&L, &R) -> Ordering>(p: P, l: L, rs: Seq<R>)
    requires
        forall|k: int| 0 <= k < rs.len() ==> matched(p, l, #[trigger] rs[k]),
    ensures
        matches_in(p, l, rs) == rs,
    decreases rs.len(),
{
    reveal(Seq::filter);
    if rs.len() > 0 {
        lemma_matches_all(p, l, rs.drop_last());
        assert(rs.drop_last().push(rs.last()) =~= rs);
    }
}

/// A sequence none of whose records match has no matches.
pub proof fn lemma_matches_none<L, R, P: Fn(&L, &R) -> Ordering>(p: P, l: L, rs: Seq<R>)
    requires
        forall|k: int| 0 <= k < rs.len() ==> !matched(p, l, #[trigger] rs[k]),
    ensures
        matches_in(p, l, rs) == Seq::<R>::empty(),
    decreases rs.len(),
{
    reveal(Seq::filter);
    if rs.len() > 0 {
        lemma_matches_none(p, l, rs.drop_last());
    }
}

/// When exactly the records of `[lo, hi)` match, the matches are that window.
pub proof fn lemma_matches_window<L, R, P: Fn(&L, &R) -> Ordering>(
    p: P,
    l: L,
    rs: Seq<R>,
    lo: int,
    hi: int,
)
    requires
        0 <= lo <= hi <= rs.len(),
        forall|k: int| 0 <= k < rs.len() ==> (matched(p, l, #[trigger] rs[k]) <==> lo <= k < hi),
    ensures
        matches_in(p, l, rs) == rs.subrange(lo, hi),
        matches_in(p, l, rs.subrange(lo, hi)) == rs.subrange(lo, hi),
{
    let a = rs.subrange(0, lo);
    let b = rs.subrange(lo, hi);
    let c = rs.subrange(hi, rs.len() as int);
    assert(rs =~= a + b + c);
    Seq::filter_distributes_over_add(a + b, c, match_pred(p, l));
    Seq::filter_distributes_over_add(a, b, match_pred(p, l));
    lemma_matches_none(p, l, a);
    lemma_matches_all(p, l, b);
    lemma_matches_none(p, l, c);
    assert(Seq::<R>::empty() + b + Seq::<R>::empty() =~= b);
}

} // verus!
