//! Per-match joins: one element for each pair of an LHS record and a matching
//! RHS record, and for outer joins one more for each LHS record without a match.
use crate::model::{
    inner_join_seq, inner_pairs, matched, matches_in, outer_join_seq, outer_pairs, predicate_ok,
    window_matches, window_ok,
};
use crate::rhs::RHS;
use core::cmp::Ordering;
use vstd::prelude::*;

verus! {

/// Every record of `ls` can be searched for in `rhs`.
pub open spec fn searchable_all<L, R, P: Fn(&L, &R) -> Ordering>(
    rhs: RHS<'_, R>,
    p: P,
    ls: Seq<L>,
) -> bool {
    forall|i: int| 0 <= i < ls.len() ==> rhs.searchable_for(p, #[trigger] ls[i])
}

/// Pairs each record of `m` with `l`.
pub open spec fn pair_with<L, R>(l: L, m: Seq<R>) -> Seq<(L, R)> {
    m.map_values(|r: R| (l, r))
}

/// Pairs each record of `m` with `l`, as a present RHS record.
pub open spec fn pair_some_with<L, R>(l: L, m: Seq<R>) -> Seq<(L, Option<R>)> {
    m.map_values(|r: R| (l, Some(r)))
}

/// The inner per-match join of an LHS slice with an [RHS]: yields `(&L, &R)`
/// for every match, LHS records in order, and each one's matches in RHS order.
pub struct JoinedEachInner<'a, L, R, P> {
    /// Compares an LHS record with an RHS record.
    predicate: P,
    /// The LHS records.
    lhs: &'a [L],
    /// How many LHS records have been taken.
    next_left: usize,
    /// The LHS record whose matches are being yielded, if any.
    current_left: Option<&'a L>,
    /// The RHS records.
    rhs: RHS<'a, R>,
    /// The window of RHS that may still hold matches of the current record.
    rhs_range: (usize, usize),
}

impl<'a, L, R, P: Fn(&L, &R) -> Ordering> JoinedEachInner<'a, L, R, P> {
    /// The join's predicate.
    pub closed spec fn predicate(&self) -> P {
        self.predicate
    }

    /// All LHS records, taken or not.
    pub closed spec fn left(&self) -> Seq<L> {
        self.lhs@
    }

    /// How many LHS records have been taken.
    pub closed spec fn taken(&self) -> int {
        self.next_left as int
    }

    /// The RHS records.
    pub closed spec fn right(&self) -> Seq<R> {
        self.rhs@
    }

    /// The state is consistent.
    pub closed spec fn wf(&self) -> bool {
        &&& predicate_ok(self.predicate)
        &&& self.next_left <= self.lhs@.len()
        &&& searchable_all(self.rhs, self.predicate, self.lhs@)
        &&& window_ok(self.rhs@, self.rhs_range)
        &&& match self.current_left {
            Some(l) => {
                &&& self.next_left > 0
                &&& *l == self.lhs@[self.next_left - 1]
                &&& self.rhs.is_sorted() ==> forall|k: int|
                    self.rhs_range.0 <= k < self.rhs_range.1 ==> matched(
                        self.predicate,
                        *l,
                        #[trigger] self.rhs@[k],
                    )
            },
            None => true,
        }
    }

    /// What the join has still to yield.
    pub closed spec fn remaining(&self) -> Seq<(L, R)> {
        let rest = inner_join_seq(
            self.predicate,
            self.lhs@.subrange(self.next_left as int, self.lhs@.len() as int),
            self.rhs@,
        );
        match self.current_left {
            Some(l) => pair_with(*l, window_matches(self.predicate, *l, self.rhs@, self.rhs_range))
                + rest,
            None => rest,
        }
    }

    /// Starts the inner per-match join of `lhs` with `rhs`.
    pub fn new(lhs: &'a [L], rhs: RHS<'a, R>, predicate: P) -> (r: Self)
        requires
            predicate_ok(predicate),
            searchable_all(rhs, predicate, lhs@),
        ensures
            r.wf(),
            r.predicate() == predicate,
            r.left() == lhs@,
            r.right() == rhs@,
            r.taken() == 0,
            r.remaining() == inner_join_seq(predicate, lhs@, rhs@),
    {
        let r = JoinedEachInner {
            predicate,
            lhs,
            next_left: 0,
            current_left: None,
            rhs,
            rhs_range: (1, 0),
        };
        assert(lhs@.subrange(0, lhs@.len() as int) =~= lhs@);
        r
    }

    /// Yields the next pair, or `None` once the join is exhausted. LHS records
    /// are taken one at a time: those passed over have no match, and none past
    /// the one in the pair yielded is taken.
    pub fn next(&mut self) -> (r: Option<(&'a L, &'a R)>)
        requires
            old(self).wf(),
        ensures
            final(self).wf(),
            final(self).predicate() == old(self).predicate(),
            final(self).left() == old(self).left(),
            final(self).right() == old(self).right(),
            old(self).taken() <= final(self).taken(),
            match r {
                None => {
                    &&& old(self).remaining().len() == 0
                    &&& final(self).remaining().len() == 0
                    &&& final(self).taken() == final(self).left().len()
                },
                Some(x) => {
                    &&& old(self).remaining().len() > 0
                    &&& (*x.0, *x.1) == old(self).remaining()[0]
                    &&& final(self).remaining() == old(self).remaining().drop_first()
                    &&& final(self).taken() > 0
                    &&& *x.0 == final(self).left()[final(self).taken() - 1]
                },
            },
            forall|j: int|
                old(self).taken() <= j < final(self).taken() && (r is None || j
                    < final(self).taken() - 1) ==> matches_in(
                    old(self).predicate(),
                    #[trigger] old(self).left()[j],
                    old(self).right(),
                ).len() == 0,
    {
        loop
            invariant
                self.wf(),
                self.predicate == old(self).predicate,
                self.lhs == old(self).lhs,
                self.rhs == old(self).rhs,
                old(self).next_left <= self.next_left,
                self.current_left is Some ==> self.next_left == old(self).next_left,
                forall|j: int|
                    old(self).next_left <= j < self.next_left ==> matches_in(
                        self.predicate,
                        #[trigger] self.lhs@[j],
                        self.rhs@,
                    ).len() == 0,
                self.remaining() == old(self).remaining(),
            decreases self.lhs@.len() - self.next_left + (if self.current_left is Some {
                1int
            } else {
                0int
            }),
        {
            let ghost before = self.remaining();
            let left: &'a L = match self.current_left {
                Some(l) => l,
                None => {
                    if self.next_left >= self.lhs.len() {
                        self.rhs_range = (1, 0);
                        assert(self.lhs@.subrange(self.next_left as int, self.lhs@.len() as int)
                            =~= Seq::<L>::empty());
                        return None;
                    }
                    let l = &self.lhs[self.next_left];
                    let ghost k = self.next_left as int;
                    let ghost n = self.lhs@.len() as int;
                    assert(self.lhs@.subrange(k, n).drop_first() =~= self.lhs@.subrange(k + 1, n));
                    self.rhs_range = self.rhs.get_range(l, &self.predicate);
                    self.next_left = self.next_left + 1;
                    self.current_left = Some(l);
                    l
                },
            };
            let mut range = self.rhs_range;
            let ghost w = window_matches(self.predicate, *left, self.rhs@, range);
            let ghost rest = inner_join_seq(
                self.predicate,
                self.lhs@.subrange(self.next_left as int, self.lhs@.len() as int),
                self.rhs@,
            );
            assert(self.remaining() == pair_with(*left, w) + rest);
            let found = self.rhs.take_match(left, &self.predicate, &mut range);
            self.rhs_range = range;
            match found {
                Some(i) => {
                    let rs = self.rhs.records();
                    assert((pair_with(*left, w) + rest).drop_first() =~= pair_with(
                        *left,
                        w.drop_first(),
                    ) + rest);
                    return Some((left, &rs[i]));
                },
                None => {
                    assert(pair_with(*left, w) + rest =~= rest);
                    self.current_left = None;
                },
            }
        }
    }

    /// Yields everything that remains, in order.
    pub fn collect(self) -> (r: Vec<(&'a L, &'a R)>)
        requires
            self.wf(),
        ensures
            r@.len() == self.remaining().len(),
            forall|i: int| 0 <= i < r@.len() ==> (*(#[trigger] r@[i]).0, *r@[i].1) == self.remaining()[i],
    {
        let mut it = self;
        let mut out: Vec<(&'a L, &'a R)> = Vec::new();
        loop
            invariant
                it.wf(),
                out@.len() + it.remaining().len() == self.remaining().len(),
                forall|i: int| 0 <= i < out@.len() ==> (*(#[trigger] out@[i]).0, *out@[i].1) == self.remaining()[i],
                forall|i: int|
                    0 <= i < it.remaining().len() ==> #[trigger] it.remaining()[i]
                        == self.remaining()[out@.len() + i],
            decreases it.remaining().len(),
        {
            match it.next() {
                Some(x) => {
                    out.push(x);
                },
                None => {
                    return out;
                },
            }
        }
    }
}

/// The outer per-match join of an LHS slice with an [RHS]: yields
/// `(&L, Some(&R))` for every match and `(&L, None)` for each LHS record that
/// has none, LHS records in order, and each one's matches in RHS order.
pub struct JoinedEachOuter<'a, L, R, P> {
    /// The LHS records.
    lhs: &'a [L],
    /// How many LHS records have been taken.
    next_left: usize,
    /// The LHS record whose further matches are being yielded, if any.
    current_left: Option<&'a L>,
    /// The RHS records.
    rhs: RHS<'a, R>,
    /// The window of RHS that may still hold matches of the current record.
    rhs_range: (usize, usize),
    /// Compares an LHS record with an RHS record.
    predicate: P,
}

impl<'a, L, R, P: Fn(&L, &R) -> Ordering> JoinedEachOuter<'a, L, R, P> {
    /// The join's predicate.
    pub closed spec fn predicate(&self) -> P {
        self.predicate
    }

    /// All LHS records, taken or not.
    pub closed spec fn left(&self) -> Seq<L> {
        self.lhs@
    }

    /// How many LHS records have been taken.
    pub closed spec fn taken(&self) -> int {
        self.next_left as int
    }

    /// The RHS records.
    pub closed spec fn right(&self) -> Seq<R> {
        self.rhs@
    }

    /// The state is consistent.
    pub closed spec fn wf(&self) -> bool {
        &&& predicate_ok(self.predicate)
        &&& self.next_left <= self.lhs@.len()
        &&& searchable_all(self.rhs, self.predicate, self.lhs@)
        &&& window_ok(self.rhs@, self.rhs_range)
        &&& match self.current_left {
            Some(l) => {
                &&& self.next_left > 0
                &&& *l == self.lhs@[self.next_left - 1]
                &&& self.rhs.is_sorted() ==> forall|k: int|
                    self.rhs_range.0 <= k < self.rhs_range.1 ==> matched(
                        self.predicate,
                        *l,
                        #[trigger] self.rhs@[k],
                    )
            },
            None => true,
        }
    }

    /// What the join has still to yield.
    pub closed spec fn remaining(&self) -> Seq<(L, Option<R>)> {
        let rest = outer_join_seq(
            self.predicate,
            self.lhs@.subrange(self.next_left as int, self.lhs@.len() as int),
            self.rhs@,
        );
        match self.current_left {
            Some(l) => pair_some_with(
                *l,
                window_matches(self.predicate, *l, self.rhs@, self.rhs_range),
            ) + rest,
            None => rest,
        }
    }

    /// Starts the outer per-match join of `lhs` with `rhs`.
    pub fn new(lhs: &'a [L], rhs: RHS<'a, R>, predicate: P) -> (r: Self)
        requires
            predicate_ok(predicate),
            searchable_all(rhs, predicate, lhs@),
        ensures
            r.wf(),
            r.predicate() == predicate,
            r.left() == lhs@,
            r.right() == rhs@,
            r.taken() == 0,
            r.remaining() == outer_join_seq(predicate, lhs@, rhs@),
    {
        let r = JoinedEachOuter {
            lhs,
            next_left: 0,
            current_left: None,
            rhs,
            rhs_range: (1, 0),
            predicate,
        };
        assert(lhs@.subrange(0, lhs@.len() as int) =~= lhs@);
        r
    }

    /// Yields the next pair, or `None` once the join is exhausted. Each call
    /// takes at most one new LHS record, the one in the pair yielded.
    pub fn next(&mut self) -> (r: Option<(&'a L, Option<&'a R>)>)
        requires
            old(self).wf(),
        ensures
            final(self).wf(),
            final(self).predicate() == old(self).predicate(),
            final(self).left() == old(self).left(),
            final(self).right() == old(self).right(),
            old(self).taken() <= final(self).taken() <= old(self).taken() + 1,
            match r {
                None => {
                    &&& old(self).remaining().len() == 0
                    &&& final(self).remaining().len() == 0
                    &&& final(self).taken() == final(self).left().len()
                },
                Some(x) => {
                    &&& old(self).remaining().len() > 0
                    &&& (*x.0, match x.1 {
                        Some(r) => Some(*r),
                        None => None,
                    }) == old(self).remaining()[0]
                    &&& final(self).remaining() == old(self).remaining().drop_first()
                    &&& final(self).taken() > 0
                    &&& *x.0 == final(self).left()[final(self).taken() - 1]
                },
            },
    {
        if let Some(l) = self.current_left {
            let mut range = self.rhs_range;
            let ghost w = window_matches(self.predicate, *l, self.rhs@, range);
            let ghost rest = outer_join_seq(
                self.predicate,
                self.lhs@.subrange(self.next_left as int, self.lhs@.len() as int),
                self.rhs@,
            );
            let found = self.rhs.take_match(l, &self.predicate, &mut range);
            self.rhs_range = range;
            if let Some(i) = found {
                let rs = self.rhs.records();
                assert((pair_some_with(*l, w) + rest).drop_first() =~= pair_some_with(
                    *l,
                    w.drop_first(),
                ) + rest);
                return Some((l, Some(&rs[i])));
            }
            assert(pair_some_with(*l, w) + rest =~= rest);
            self.current_left = None;
        }
        if self.next_left >= self.lhs.len() {
            self.rhs_range = (1, 0);
            assert(self.lhs@.subrange(self.next_left as int, self.lhs@.len() as int)
                =~= Seq::<L>::empty());
            return None;
        }
        let l = &self.lhs[self.next_left];
        let ghost k = self.next_left as int;
        let ghost n = self.lhs@.len() as int;
        assert(self.lhs@.subrange(k, n).drop_first() =~= self.lhs@.subrange(k + 1, n));
        let ghost rest = outer_join_seq(self.predicate, self.lhs@.subrange(k + 1, n), self.rhs@);
        let ghost m = matches_in(self.predicate, *l, self.rhs@);
        let mut range = self.rhs.get_range(l, &self.predicate);
        self.next_left = self.next_left + 1;
        let found = self.rhs.take_match(l, &self.predicate, &mut range);
        match found {
            Some(i) => {
                self.rhs_range = range;
                self.current_left = Some(l);
                let rs = self.rhs.records();
                assert((pair_some_with(*l, m) + rest).drop_first() =~= pair_some_with(
                    *l,
                    m.drop_first(),
                ) + rest);
                Some((l, Some(&rs[i])))
            },
            None => {
                self.rhs_range = (1, 0);
                assert((seq![(*l, None::<R>)] + rest).drop_first() =~= rest);
                Some((l, None))
            },
        }
    }

    /// Yields everything that remains, in order.
    pub fn collect(self) -> (r: Vec<(&'a L, Option<&'a R>)>)
        requires
            self.wf(),
        ensures
            r@.len() == self.remaining().len(),
            forall|i: int| 0 <= i < r@.len() ==> (*(#[trigger] r@[i]).0, match r@[i].1 {
                Some(r) => Some(*r),
                None => None,
            }) == self.remaining()[i],
    {
        let mut it = self;
        let mut out: Vec<(&'a L, Option<&'a R>)> = Vec::new();
        loop
            invariant
                it.wf(),
                out@.len() + it.remaining().len() == self.remaining().len(),
                forall|i: int| 0 <= i < out@.len() ==> (*(#[trigger] out@[i]).0, match out@[i].1 {
                Some(r) => Some(*r),
                None => None,
            }) == self.remaining()[i],
                forall|i: int|
                    0 <= i < it.remaining().len() ==> #[trigger] it.remaining()[i]
                        == self.remaining()[out@.len() + i],
            decreases it.remaining().len(),
        {
            match it.next() {
                Some(x) => {
                    out.push(x);
                },
                None => {
                    return out;
                },
            }
        }
    }
}

/// Per-match joins of a slice of LHS records with an [RHS].
pub trait Joinable<'a, L, R, P: Fn(&L, &R) -> Ordering> {
    /// The LHS records.
    spec fn left_records(&self) -> Seq<L>;

    /// Joins LHS and RHS, keeping only LHS records that have one or more
    /// matches: one `(&L, &R)` per match, so an LHS record with several matches
    /// is yielded several times, and an RHS record may be yielded for several
    /// LHS records.
    fn inner_join(self, rhs: RHS<'a, R>, predicate: P) -> (r: JoinedEachInner<'a, L, R, P>)
        requires
            predicate_ok(predicate),
            searchable_all(rhs, predicate, self.left_records()),
        ensures
            r.wf(),
            r.predicate() == predicate,
            r.left() == self.left_records(),
            r.right() == rhs@,
            r.taken() == 0,
            r.remaining() == inner_join_seq(predicate, self.left_records(), rhs@),
    ;

    /// Joins LHS and RHS, keeping all LHS records: one `(&L, Some(&R))` per
    /// match, and `(&L, None)` for an LHS record without any.
    fn outer_join(self, rhs: RHS<'a, R>, predicate: P) -> (r: JoinedEachOuter<'a, L, R, P>)
        requires
            predicate_ok(predicate),
            searchable_all(rhs, predicate, self.left_records()),
        ensures
            r.wf(),
            r.predicate() == predicate,
            r.left() == self.left_records(),
            r.right() == rhs@,
            r.taken() == 0,
            r.remaining() == outer_join_seq(predicate, self.left_records(), rhs@),
    ;
}

impl<'a, L, R, P: Fn(&L, &R) -> Ordering> Joinable<'a, L, R, P> for &'a [L] {
    open spec fn left_records(&self) -> Seq<L> {
        self@
    }

    fn inner_join(self, rhs: RHS<'a, R>, predicate: P) -> (r: JoinedEachInner<'a, L, R, P>) {
        JoinedEachInner::new(self, rhs, predicate)
    }

    fn outer_join(self, rhs: RHS<'a, R>, predicate: P) -> (r: JoinedEachOuter<'a, L, R, P>) {
        JoinedEachOuter::new(self, rhs, predicate)
    }
}

} // verus!
