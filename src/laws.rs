//! Laws that relate the joins to one another.
use crate::joined::{pair_some_with, pair_with};
use crate::model::{
    arranged_for, grouped_join_seq, inner_join_seq, inner_pairs, left_join_seq, match_pred,
    matched, matches_in, outer_join_seq, outer_pairs,
};
use crate::rhs::RHS;
use core::cmp::Ordering;
use vstd::multiset::Multiset;
use vstd::prelude::*;

verus! {

broadcast use {
    vstd::seq_lib::lemma_multiset_commutative,
    vstd::seq_lib::to_multiset_contains,
    vstd::multiset::group_multiset_axioms,
    vstd::multiset::lemma_intersection_count,
};

/// Every record that a semi-join yields has a match; every record that an
/// anti-join yields has none.
proof fn lemma_left_join_members<L, R, P: Fn(&L, &R) -> Ordering>(
    p: P,
    ls: Seq<L>,
    rs: Seq<R>,
    with_match: bool,
)
    ensures
        forall|i: int|
            0 <= i < left_join_seq(p, ls, rs, with_match).len() ==> ((matches_in(
                p,
                #[trigger] left_join_seq(p, ls, rs, with_match)[i],
                rs,
            ).len() > 0) == with_match),
    decreases ls.len(),
{
    if ls.len() > 0 {
        lemma_left_join_members(p, ls.drop_first(), rs, with_match);
        let head = if (matches_in(p, ls[0], rs).len() > 0) == with_match {
            seq![ls[0]]
        } else {
            Seq::empty()
        };
        let rest = left_join_seq(p, ls.drop_first(), rs, with_match);
        assert forall|i: int| 0 <= i < (head + rest).len() implies ((matches_in(
            p,
            #[trigger] (head + rest)[i],
            rs,
        ).len() > 0) == with_match) by {
            if i >= head.len() {
                assert((head + rest)[i] == rest[i - head.len()]);
            }
        }
    }
}

/// Semi- and anti-join split the LHS: together they hold each LHS record as
/// often as the LHS does, and no record is yielded by both.
pub proof fn semi_anti_partition<L, R, P: Fn(&L, &R) -> Ordering>(p: P, ls: Seq<L>, rs: Seq<R>)
    ensures
        (left_join_seq(p, ls, rs, true) + left_join_seq(p, ls, rs, false)).to_multiset()
            =~= ls.to_multiset(),
        left_join_seq(p, ls, rs, true).to_multiset().intersection_with(
            left_join_seq(p, ls, rs, false).to_multiset(),
        ) =~= Multiset::empty(),
    decreases ls.len(),
{
    let semi = left_join_seq(p, ls, rs, true);
    let anti = left_join_seq(p, ls, rs, false);
    if ls.len() > 0 {
        semi_anti_partition(p, ls.drop_first(), rs);
        assert(ls =~= seq![ls[0]] + ls.drop_first());
        let s1 = left_join_seq(p, ls.drop_first(), rs, true);
        let a1 = left_join_seq(p, ls.drop_first(), rs, false);
        if matches_in(p, ls[0], rs).len() > 0 {
            assert(semi == seq![ls[0]] + s1);
            assert(anti == Seq::<L>::empty() + a1);
            assert(Seq::<L>::empty() + a1 =~= a1);
        } else {
            assert(semi == Seq::<L>::empty() + s1);
            assert(Seq::<L>::empty() + s1 =~= s1);
            assert(anti == seq![ls[0]] + a1);
        }
        assert((semi + anti).to_multiset() =~= semi.to_multiset().add(anti.to_multiset()));
    } else {
        assert(semi + anti =~= ls);
    }
    lemma_left_join_members(p, ls, rs, true);
    lemma_left_join_members(p, ls, rs, false);
    assert forall|x: L| #[trigger]
        semi.to_multiset().intersection_with(anti.to_multiset()).count(x) == 0 by {
        if semi.to_multiset().count(x) > 0 && anti.to_multiset().count(x) > 0 {
            assert(semi.contains(x));
            assert(anti.contains(x));
            let i = choose|i: int| 0 <= i < semi.len() && semi[i] == x;
            let j = choose|j: int| 0 <= j < anti.len() && anti[j] == x;
            assert(matches_in(p, semi[i], rs).len() > 0);
            assert(matches_in(p, anti[j], rs).len() == 0);
        }
    }
}

/// The pairs of an outer per-match output that hold an RHS record.
pub open spec fn present_pairs<L, R>(s: Seq<(L, Option<R>)>) -> Seq<(L, R)>
    decreases s.len(),
{
    if s.len() == 0 {
        Seq::empty()
    } else {
        (match s[0].1 {
            Some(r) => seq![(s[0].0, r)],
            None => Seq::empty(),
        }) + present_pairs(s.drop_first())
    }
}

/// The LHS records of an outer per-match output that come without an RHS record.
pub open spec fn absent_lefts<L, R>(s: Seq<(L, Option<R>)>) -> Seq<L>
    decreases s.len(),
{
    if s.len() == 0 {
        Seq::empty()
    } else {
        (match s[0].1 {
            Some(_) => Seq::empty(),
            None => seq![s[0].0],
        }) + absent_lefts(s.drop_first())
    }
}

proof fn lemma_present_absent_add<L, R>(a: Seq<(L, Option<R>)>, b: Seq<(L, Option<R>)>)
    ensures
        present_pairs(a + b) == present_pairs(a) + present_pairs(b),
        absent_lefts(a + b) == absent_lefts(a) + absent_lefts(b),
    decreases a.len(),
{
    if a.len() == 0 {
        assert(a + b =~= b);
        assert(present_pairs(a) + present_pairs(b) =~= present_pairs(b));
        assert(absent_lefts(a) + absent_lefts(b) =~= absent_lefts(b));
    } else {
        assert((a + b).drop_first() =~= a.drop_first() + b);
        assert((a + b)[0] == a[0]);
        lemma_present_absent_add(a.drop_first(), b);
        let hp: Seq<(L, R)> = match a[0].1 {
            Some(r) => seq![(a[0].0, r)],
            None => Seq::empty(),
        };
        let ha: Seq<L> = match a[0].1 {
            Some(_) => Seq::empty(),
            None => seq![a[0].0],
        };
        assert(hp + (present_pairs(a.drop_first()) + present_pairs(b)) =~= (hp + present_pairs(
            a.drop_first(),
        )) + present_pairs(b));
        assert(ha + (absent_lefts(a.drop_first()) + absent_lefts(b)) =~= (ha + absent_lefts(
            a.drop_first(),
        )) + absent_lefts(b));
    }
}

proof fn lemma_present_absent_matches<L, R>(l: L, m: Seq<R>)
    ensures
        present_pairs(pair_some_with(l, m)) == pair_with(l, m),
        absent_lefts(pair_some_with(l, m)) == Seq::<L>::empty(),
    decreases m.len(),
{
    if m.len() == 0 {
        assert(pair_some_with(l, m) =~= Seq::empty());
        assert(pair_with(l, m) =~= Seq::empty());
    } else {
        lemma_present_absent_matches(l, m.drop_first());
        assert(pair_some_with(l, m).drop_first() =~= pair_some_with(l, m.drop_first()));
        assert(pair_with(l, m) =~= seq![(l, m[0])] + pair_with(l, m.drop_first()));
        assert(Seq::<L>::empty() + Seq::<L>::empty() =~= Seq::<L>::empty());
    }
}

/// The outer per-match join is the inner one with, for each LHS record that
/// has no match, one pair without an RHS record: dropping those pairs leaves
/// exactly the inner join, and their LHS records are exactly the anti-join.
pub proof fn outer_is_inner_plus_unmatched<L, R, P: Fn(&L, &R) -> Ordering>(
    p: P,
    ls: Seq<L>,
    rs: Seq<R>,
)
    ensures
        present_pairs(outer_join_seq(p, ls, rs)) == inner_join_seq(p, ls, rs),
        absent_lefts(outer_join_seq(p, ls, rs)) == left_join_seq(p, ls, rs, false),
        outer_join_seq(p, ls, rs).len() == inner_join_seq(p, ls, rs).len() + left_join_seq(
            p,
            ls,
            rs,
            false,
        ).len(),
    decreases ls.len(),
{
    if ls.len() == 0 {
        assert(present_pairs(Seq::<(L, Option<R>)>::empty()) == Seq::<(L, R)>::empty());
    } else {
        let l = ls[0];
        let m = matches_in(p, l, rs);
        outer_is_inner_plus_unmatched(p, ls.drop_first(), rs);
        lemma_present_absent_add(outer_pairs(p, l, rs), outer_join_seq(p, ls.drop_first(), rs));
        lemma_present_absent_matches(l, m);
        let rest_i = inner_join_seq(p, ls.drop_first(), rs);
        let rest_a = left_join_seq(p, ls.drop_first(), rs, false);
        if m.len() == 0 {
            let o = seq![(l, None::<R>)];
            assert(o.drop_first() =~= Seq::empty());
            assert(present_pairs(o) =~= Seq::empty() + present_pairs(o.drop_first()));
            assert(absent_lefts(o) =~= seq![l] + absent_lefts(o.drop_first()));
            assert(inner_pairs(p, l, rs) =~= Seq::empty());
            assert(Seq::<(L, R)>::empty() + rest_i =~= rest_i);
        } else {
            assert(Seq::<L>::empty() + rest_a =~= rest_a);
        }
    }
}

/// Each LHS record comes out of the outer grouped join once, in LHS order,
/// with exactly the RHS records that match it, in RHS order.
pub proof fn outer_grouped_holds_all_matches<L, R, P: Fn(&L, &R) -> Ordering>(
    p: P,
    ls: Seq<L>,
    rs: Seq<R>,
)
    ensures
        grouped_join_seq(p, ls, rs, true).len() == ls.len(),
        forall|k: int|
            0 <= k < ls.len() ==> (#[trigger] grouped_join_seq(p, ls, rs, true)[k]).0 == ls[k]
                && grouped_join_seq(p, ls, rs, true)[k].1 == rs.filter(match_pred(p, ls[k])),
    decreases ls.len(),
{
    if ls.len() > 0 {
        outer_grouped_holds_all_matches(p, ls.drop_first(), rs);
        let g = grouped_join_seq(p, ls, rs, true);
        let rest = grouped_join_seq(p, ls.drop_first(), rs, true);
        assert forall|k: int| 0 <= k < ls.len() implies (#[trigger] g[k]).0 == ls[k] && g[k].1
            == rs.filter(match_pred(p, ls[k])) by {
            if k > 0 {
                assert(g[k] == rest[k - 1]);
                assert(ls.drop_first()[k - 1] == ls[k]);
            }
        }
    }
}

/// Whether a slice is wrapped as sorted or as unsorted makes no difference to
/// what any join yields, when it is arranged for every LHS record.
pub proof fn sorted_same_as_unsorted<L, R, P: Fn(&L, &R) -> Ordering>(
    p: P,
    ls: Seq<L>,
    rs: &[R],
)
    requires
        forall|i: int| 0 <= i < ls.len() ==> arranged_for(p, #[trigger] ls[i], rs@),
    ensures
        inner_join_seq(p, ls, RHS::Sorted(rs)@) == inner_join_seq(p, ls, RHS::Unsorted(rs)@),
        outer_join_seq(p, ls, RHS::Sorted(rs)@) == outer_join_seq(p, ls, RHS::Unsorted(rs)@),
        forall|keep_unmatched: bool|
            #[trigger] grouped_join_seq(p, ls, RHS::Sorted(rs)@, keep_unmatched)
                == grouped_join_seq(p, ls, RHS::Unsorted(rs)@, keep_unmatched),
        forall|with_match: bool|
            #[trigger] left_join_seq(p, ls, RHS::Sorted(rs)@, with_match) == left_join_seq(
                p,
                ls,
                RHS::Unsorted(rs)@,
                with_match,
            ),
{
    assert(RHS::Sorted(rs)@ == RHS::Unsorted(rs)@);
}

/// The positions in `rs` of the records that match `l`.
pub open spec fn match_positions<L, R, P: Fn(&L, &R) -> Ordering>(
    p: P,
    l: L,
    rs: Seq<R>,
) -> Seq<int>
    decreases rs.len(),
{
    if rs.len() == 0 {
        Seq::empty()
    } else {
        let before = match_positions(p, l, rs.drop_last());
        if matched(p, l, rs.last()) {
            before.push(rs.len() - 1)
        } else {
            before
        }
    }
}

/// The matches of an LHS record come in RHS order: the `k`-th match is the
/// record at the `k`-th matching position of `rs`, the positions increase,
/// and every matching position is among them.
pub proof fn matches_keep_rhs_order<L, R, P: Fn(&L, &R) -> Ordering>(p: P, l: L, rs: Seq<R>)
    ensures
        matches_in(p, l, rs).len() == match_positions(p, l, rs).len(),
        forall|k: int|
            0 <= k < match_positions(p, l, rs).len() ==> {
                let j = #[trigger] match_positions(p, l, rs)[k];
                &&& 0 <= j < rs.len()
                &&& matches_in(p, l, rs)[k] == rs[j]
            },
        forall|a: int, b: int|
            0 <= a < b < match_positions(p, l, rs).len() ==> #[trigger] match_positions(
                p,
                l,
                rs,
            )[a] < #[trigger] match_positions(p, l, rs)[b],
        forall|j: int|
            0 <= j < rs.len() && matched(p, l, #[trigger] rs[j]) ==> match_positions(
                p,
                l,
                rs,
            ).contains(j),
    decreases rs.len(),
{
    reveal(Seq::filter);
    if rs.len() > 0 {
        let init = rs.drop_last();
        matches_keep_rhs_order(p, l, init);
        let pos = match_positions(p, l, rs);
        let pos0 = match_positions(p, l, init);
        assert forall|j: int| 0 <= j < rs.len() && matched(p, l, #[trigger] rs[j]) implies pos.contains(
            j,
        ) by {
            if j < rs.len() - 1 {
                assert(init[j] == rs[j]);
                let i = choose|i: int| 0 <= i < pos0.len() && pos0[i] == j;
                assert(pos[i] == j);
            } else {
                assert(pos[pos.len() - 1] == j);
            }
        }
    }
}

/// For each element of a per-match join's output (outer when `outer`), the
/// position in `ls` of its LHS record.
pub open spec fn lhs_positions<L, R, P: Fn(&L, &R) -> Ordering>(
    p: P,
    ls: Seq<L>,
    rs: Seq<R>,
    outer: bool,
) -> Seq<int>
    decreases ls.len(),
{
    if ls.len() == 0 {
        Seq::empty()
    } else {
        let n = if outer {
            outer_pairs(p, ls[0], rs).len()
        } else {
            inner_pairs(p, ls[0], rs).len()
        };
        Seq::new(n, |i: int| 0int) + lhs_positions(p, ls.drop_first(), rs, outer).map_values(
            |k: int| k + 1,
        )
    }
}

proof fn lemma_inner_lhs_positions<L, R, P: Fn(&L, &R) -> Ordering>(p: P, ls: Seq<L>, rs: Seq<R>)
    ensures
        lhs_positions(p, ls, rs, false).len() == inner_join_seq(p, ls, rs).len(),
        forall|k: int|
            0 <= k < lhs_positions(p, ls, rs, false).len() ==> {
                let j = #[trigger] lhs_positions(p, ls, rs, false)[k];
                &&& 0 <= j < ls.len()
                &&& inner_join_seq(p, ls, rs)[k].0 == ls[j]
            },
        forall|a: int, b: int|
            0 <= a < b < lhs_positions(p, ls, rs, false).len() ==> #[trigger] lhs_positions(
                p,
                ls,
                rs,
                false,
            )[a] <= #[trigger] lhs_positions(p, ls, rs, false)[b],
    decreases ls.len(),
{
    if ls.len() > 0 {
        lemma_inner_lhs_positions(p, ls.drop_first(), rs);
        let out = inner_join_seq(p, ls, rs);
        let head = inner_pairs(p, ls[0], rs);
        let rest = inner_join_seq(p, ls.drop_first(), rs);
        let pos = lhs_positions(p, ls, rs, false);
        let rpos = lhs_positions(p, ls.drop_first(), rs, false);
        let n = head.len() as int;
        assert forall|k: int| 0 <= k < pos.len() implies {
            let j = #[trigger] pos[k];
            &&& 0 <= j < ls.len()
            &&& out[k].0 == ls[j]
        } by {
            if k < n {
                assert(pos[k] == 0);
                assert(out[k] == head[k]);
            } else {
                assert(pos[k] == rpos[k - n] + 1);
                assert(out[k] == rest[k - n]);
                assert(ls.drop_first()[rpos[k - n]] == ls[rpos[k - n] + 1]);
            }
        }
        assert forall|a: int, b: int| 0 <= a < b < pos.len() implies #[trigger] pos[a]
            <= #[trigger] pos[b] by {
            if b >= n {
                assert(pos[b] == rpos[b - n] + 1);
                if a >= n {
                    assert(pos[a] == rpos[a - n] + 1);
                    assert(rpos[a - n] <= rpos[b - n]);
                }
            }
        }
    }
}

proof fn lemma_outer_lhs_positions<L, R, P: Fn(&L, &R) -> Ordering>(p: P, ls: Seq<L>, rs: Seq<R>)
    ensures
        lhs_positions(p, ls, rs, true).len() == outer_join_seq(p, ls, rs).len(),
        forall|k: int|
            0 <= k < lhs_positions(p, ls, rs, true).len() ==> {
                let j = #[trigger] lhs_positions(p, ls, rs, true)[k];
                &&& 0 <= j < ls.len()
                &&& outer_join_seq(p, ls, rs)[k].0 == ls[j]
            },
        forall|a: int, b: int|
            0 <= a < b < lhs_positions(p, ls, rs, true).len() ==> #[trigger] lhs_positions(
                p,
                ls,
                rs,
                true,
            )[a] <= #[trigger] lhs_positions(p, ls, rs, true)[b],
    decreases ls.len(),
{
    if ls.len() > 0 {
        lemma_outer_lhs_positions(p, ls.drop_first(), rs);
        let out = outer_join_seq(p, ls, rs);
        let head = outer_pairs(p, ls[0], rs);
        let rest = outer_join_seq(p, ls.drop_first(), rs);
        let pos = lhs_positions(p, ls, rs, true);
        let rpos = lhs_positions(p, ls.drop_first(), rs, true);
        let n = head.len() as int;
        assert forall|k: int| 0 <= k < pos.len() implies {
            let j = #[trigger] pos[k];
            &&& 0 <= j < ls.len()
            &&& out[k].0 == ls[j]
        } by {
            if k < n {
                assert(pos[k] == 0);
                assert(out[k] == head[k]);
            } else {
                assert(pos[k] == rpos[k - n] + 1);
                assert(out[k] == rest[k - n]);
                assert(ls.drop_first()[rpos[k - n]] == ls[rpos[k - n] + 1]);
            }
        }
        assert forall|a: int, b: int| 0 <= a < b < pos.len() implies #[trigger] pos[a]
            <= #[trigger] pos[b] by {
            if b >= n {
                assert(pos[b] == rpos[b - n] + 1);
                if a >= n {
                    assert(pos[a] == rpos[a - n] + 1);
                    assert(rpos[a - n] <= rpos[b - n]);
                }
            }
        }
    }
}

/// Per-match joins keep LHS order: the `k`-th element of the output comes from
/// the LHS record at `lhs_positions(..)[k]`, and these positions never decrease.
pub proof fn per_match_keeps_lhs_order<L, R, P: Fn(&L, &R) -> Ordering>(
    p: P,
    ls: Seq<L>,
    rs: Seq<R>,
)
    ensures
        lhs_positions(p, ls, rs, false).len() == inner_join_seq(p, ls, rs).len(),
        forall|k: int|
            0 <= k < inner_join_seq(p, ls, rs).len() ==> {
                let j = #[trigger] lhs_positions(p, ls, rs, false)[k];
                &&& 0 <= j < ls.len()
                &&& inner_join_seq(p, ls, rs)[k].0 == ls[j]
            },
        forall|a: int, b: int|
            0 <= a < b < inner_join_seq(p, ls, rs).len() ==> #[trigger] lhs_positions(
                p,
                ls,
                rs,
                false,
            )[a] <= #[trigger] lhs_positions(p, ls, rs, false)[b],
        lhs_positions(p, ls, rs, true).len() == outer_join_seq(p, ls, rs).len(),
        forall|k: int|
            0 <= k < outer_join_seq(p, ls, rs).len() ==> {
                let j = #[trigger] lhs_positions(p, ls, rs, true)[k];
                &&& 0 <= j < ls.len()
                &&& outer_join_seq(p, ls, rs)[k].0 == ls[j]
            },
        forall|a: int, b: int|
            0 <= a < b < outer_join_seq(p, ls, rs).len() ==> #[trigger] lhs_positions(
                p,
                ls,
                rs,
                true,
            )[a] <= #[trigger] lhs_positions(p, ls, rs, true)[b],
{
    lemma_inner_lhs_positions(p, ls, rs);
    lemma_outer_lhs_positions(p, ls, rs);
}

/// Whether an LHS record has a match, or has none.
pub open spec fn has_match_pred<L, R, P: Fn(&L, &R) -> Ordering>(
    p: P,
    rs: Seq<R>,
    with_match: bool,
) -> spec_fn(L) -> bool {
    |l: L| (matches_in(p, l, rs).len() > 0) == with_match
}

/// Semi-, anti- and grouped joins keep LHS order: the LHS records they yield
/// are the LHS filtered by whether a record has a match.
pub proof fn left_only_keeps_lhs_order<L, R, P: Fn(&L, &R) -> Ordering>(
    p: P,
    ls: Seq<L>,
    rs: Seq<R>,
)
    ensures
        left_join_seq(p, ls, rs, true) == ls.filter(has_match_pred(p, rs, true)),
        left_join_seq(p, ls, rs, false) == ls.filter(has_match_pred(p, rs, false)),
        grouped_join_seq(p, ls, rs, false).map_values(|g: (L, Seq<R>)| g.0) == ls.filter(
            has_match_pred(p, rs, true),
        ),
        grouped_join_seq(p, ls, rs, true).map_values(|g: (L, Seq<R>)| g.0) == ls,
    decreases ls.len(),
{
    if ls.len() == 0 {
        reveal(Seq::filter);
        assert(grouped_join_seq(p, ls, rs, true).map_values(|g: (L, Seq<R>)| g.0) =~= ls);
        assert(grouped_join_seq(p, ls, rs, false).map_values(|g: (L, Seq<R>)| g.0) =~= ls);
    } else {
        left_only_keeps_lhs_order(p, ls.drop_first(), rs);
        let t = ls.drop_first();
        assert(ls =~= seq![ls[0]] + t);
        t.lemma_filter_prepend(ls[0], has_match_pred(p, rs, true));
        t.lemma_filter_prepend(ls[0], has_match_pred(p, rs, false));
        let gi = grouped_join_seq(p, ls, rs, false);
        let go = grouped_join_seq(p, ls, rs, true);
        let ri = grouped_join_seq(p, t, rs, false);
        let ro = grouped_join_seq(p, t, rs, true);
        let m = matches_in(p, ls[0], rs);
        assert(go.map_values(|g: (L, Seq<R>)| g.0) =~= seq![ls[0]] + ro.map_values(
            |g: (L, Seq<R>)| g.0,
        ));
        if m.len() > 0 {
            assert(gi.map_values(|g: (L, Seq<R>)| g.0) =~= seq![ls[0]] + ri.map_values(
                |g: (L, Seq<R>)| g.0,
            ));
            assert(Seq::<L>::empty() + t.filter(has_match_pred(p, rs, false)) =~= t.filter(
                has_match_pred(p, rs, false),
            ));
            assert(Seq::<L>::empty() + left_join_seq(p, t, rs, false) =~= left_join_seq(p, t, rs, false));
        } else {
            assert(gi =~= ri);
            assert(Seq::<L>::empty() + t.filter(has_match_pred(p, rs, true)) =~= t.filter(
                has_match_pred(p, rs, true),
            ));
            assert(Seq::<L>::empty() + left_join_seq(p, t, rs, true) =~= left_join_seq(p, t, rs, true));
        }
    }
}

} // verus!
