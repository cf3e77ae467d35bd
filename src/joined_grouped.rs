//! Grouped joins, which yield each LHS record with all of its matches, and
//! semi- and anti-joins, which yield bare LHS records.
use crate::joined::searchable_all;
use crate::model::{deref_all, grouped_join_seq, left_join_seq, matches_in, predicate_ok};
use crate::rhs::RHS;
use core::cmp::Ordering;
use vstd::prelude::*;

verus! {

/// An inner or outer grouped join of an LHS slice with an [RHS]: yields
/// `(&L, Vec<&R>)` per LHS record, in order, the matches in RHS order. The inner
/// join skips LHS records without a match; the outer one yields them with an
/// empty `Vec`.
pub struct JoinedGrouped<'a, L, R, P> {
    /// The LHS records.
    lhs: &'a [L],
    /// How many LHS records have been taken.
    next_left: usize,
    /// The RHS records.
    rhs: RHS<'a, R>,
    /// Compares an LHS record with an RHS record.
    predicate: P,
    /// Whether LHS records without a match are yielded (outer join).
    keep_unmatched: bool,
}

impl<'a, L, R, P: Fn(&L, &R) -> Ordering> JoinedGrouped<'a, L, R, P> {
    /// The join's predicate.
    pub closed spec fn predicate(&self) -> P {
        self.predicate
    }

    /// All LHS records, taken or not.
    pub closed spec fn left(&self) -> Seq<L> {
        self.lhs@
    }

    /// How many LHS records have been taken.
    pub closed spec fn taken(&self) -> int {
        self.next_left as int
    }

    /// The RHS records.
    pub closed spec fn right(&self) -> Seq<R> {
        self.rhs@
    }

    /// Whether this is the outer join.
    pub closed spec fn is_outer(&self) -> bool {
        self.keep_unmatched
    }

    /// The state is consistent.
    pub closed spec fn wf(&self) -> bool {
        &&& predicate_ok(self.predicate)
        &&& self.next_left <= self.lhs@.len()
        &&& searchable_all(self.rhs, self.predicate, self.lhs@)
    }

    /// What the join has still to yield.
    pub closed spec fn remaining(&self) -> Seq<(L, Seq<R>)> {
        grouped_join_seq(
            self.predicate,
            self.lhs@.subrange(self.next_left as int, self.lhs@.len() as int),
            self.rhs@,
            self.keep_unmatched,
        )
    }

    /// Starts a grouped join of `lhs` with `rhs`.
    fn start(lhs: &'a [L], rhs: RHS<'a, R>, predicate: P, keep_unmatched: bool) -> (r: Self)
        requires
            predicate_ok(predicate),
            searchable_all(rhs, predicate, lhs@),
        ensures
            r.wf(),
            r.predicate() == predicate,
            r.left() == lhs@,
            r.right() == rhs@,
            r.taken() == 0,
            r.is_outer() == keep_unmatched,
            r.remaining() == grouped_join_seq(predicate, lhs@, rhs@, keep_unmatched),
    {
        assert(lhs@.subrange(0, lhs@.len() as int) =~= lhs@);
        JoinedGrouped { lhs, next_left: 0, rhs, predicate, keep_unmatched }
    }

    /// Starts the inner grouped join of `lhs` with `rhs`.
    pub fn inner(lhs: &'a [L], rhs: RHS<'a, R>, predicate: P) -> (r: Self)
        requires
            predicate_ok(predicate),
            searchable_all(rhs, predicate, lhs@),
        ensures
            r.wf(),
            r.predicate() == predicate,
            r.left() == lhs@,
            r.right() == rhs@,
            r.taken() == 0,
            !r.is_outer(),
            r.remaining() == grouped_join_seq(predicate, lhs@, rhs@, false),
    {
        Self::start(lhs, rhs, predicate, false)
    }

    /// Starts the outer grouped join of `lhs` with `rhs`.
    pub fn outer(lhs: &'a [L], rhs: RHS<'a, R>, predicate: P) -> (r: Self)
        requires
            predicate_ok(predicate),
            searchable_all(rhs, predicate, lhs@),
        ensures
            r.wf(),
            r.predicate() == predicate,
            r.left() == lhs@,
            r.right() == rhs@,
            r.taken() == 0,
            r.is_outer(),
            r.remaining() == grouped_join_seq(predicate, lhs@, rhs@, true),
    {
        Self::start(lhs, rhs, predicate, true)
    }

    /// Yields the next LHS record with its matches, or `None` once the join is
    /// exhausted. The LHS records passed over have no match, none past the one
    /// yielded is taken, and the outer join takes exactly one per call.
    pub fn next(&mut self) -> (r: Option<(&'a L, Vec<&'a R>)>)
        requires
            old(self).wf(),
        ensures
            final(self).wf(),
            final(self).predicate() == old(self).predicate(),
            final(self).left() == old(self).left(),
            final(self).right() == old(self).right(),
            final(self).is_outer() == old(self).is_outer(),
            old(self).taken() <= final(self).taken(),
            match r {
                None => {
                    &&& old(self).remaining().len() == 0
                    &&& final(self).remaining().len() == 0
                    &&& final(self).taken() == final(self).left().len()
                },
                Some(x) => {
                    &&& old(self).remaining().len() > 0
                    &&& (*x.0, deref_all(x.1@)) == old(self).remaining()[0]
                    &&& final(self).remaining() == old(self).remaining().drop_first()
                    &&& final(self).taken() > 0
                    &&& *x.0 == final(self).left()[final(self).taken() - 1]
                    &&& old(self).is_outer() ==> final(self).taken() == old(self).taken() + 1
                },
            },
            forall|j: int|
                old(self).taken() <= j < final(self).taken() && (r is None || j
                    < final(self).taken() - 1) ==> matches_in(
                    old(self).predicate(),
                    #[trigger] old(self).left()[j],
                    old(self).right(),
                ).len() == 0,
    {
        loop
            invariant
                self.wf(),
                self.predicate == old(self).predicate,
                self.lhs == old(self).lhs,
                self.rhs == old(self).rhs,
                self.keep_unmatched == old(self).keep_unmatched,
                old(self).next_left <= self.next_left,
                self.keep_unmatched ==> self.next_left == old(self).next_left,
                forall|j: int|
                    old(self).next_left <= j < self.next_left ==> matches_in(
                        self.predicate,
                        #[trigger] self.lhs@[j],
                        self.rhs@,
                    ).len() == 0,
                self.remaining() == old(self).remaining(),
            decreases self.lhs@.len() - self.next_left,
        {
            let ghost k = self.next_left as int;
            let ghost n = self.lhs@.len() as int;
            if self.next_left >= self.lhs.len() {
                assert(self.lhs@.subrange(k, n) =~= Seq::<L>::empty());
                return None;
            }
            assert(self.lhs@.subrange(k, n).drop_first() =~= self.lhs@.subrange(k + 1, n));
            let l = &self.lhs[self.next_left];
            self.next_left = self.next_left + 1;
            let rs = self.rhs.gather(l, &self.predicate);
            let ghost rest = grouped_join_seq(
                self.predicate,
                self.lhs@.subrange(k + 1, n),
                self.rhs@,
                self.keep_unmatched,
            );
            if self.keep_unmatched || rs.len() > 0 {
                assert((seq![(*l, deref_all(rs@))] + rest).drop_first() =~= rest);
                return Some((l, rs));
            }
            assert(Seq::<(L, Seq<R>)>::empty() + rest =~= rest);
        }
    }

    /// Yields everything that remains, in order.
    pub fn collect(self) -> (r: Vec<(&'a L, Vec<&'a R>)>)
        requires
            self.wf(),
        ensures
            r@.len() == self.remaining().len(),
            forall|i: int|
                0 <= i < r@.len() ==> (*(#[trigger] r@[i]).0, deref_all(r@[i].1@))
                    == self.remaining()[i],
    {
        let mut it = self;
        let mut out: Vec<(&'a L, Vec<&'a R>)> = Vec::new();
        loop
            invariant
                it.wf(),
                out@.len() + it.remaining().len() == self.remaining().len(),
                forall|i: int|
                    0 <= i < out@.len() ==> (*(#[trigger] out@[i]).0, deref_all(out@[i].1@))
                        == self.remaining()[i],
                forall|i: int|
                    0 <= i < it.remaining().len() ==> #[trigger] it.remaining()[i]
                        == self.remaining()[out@.len() + i],
            decreases it.remaining().len(),
        {
            match it.next() {
                Some(x) => {
                    out.push(x);
                },
                None => {
                    return out;
                },
            }
        }
    }
}

/// A semi- or anti-join of an LHS slice with an [RHS]: yields, in order, the
/// LHS records that have a match (semi) or that have none (anti).
pub struct JoinedLeft<'a, L, R, P> {
    /// The LHS records.
    lhs: &'a [L],
    /// How many LHS records have been taken.
    next_left: usize,
    /// The RHS records.
    rhs: RHS<'a, R>,
    /// Compares an LHS record with an RHS record.
    predicate: P,
    /// Whether records with a match are yielded (semi) or those without (anti).
    with_match: bool,
}

impl<'a, L, R, P: Fn(&L, &R) -> Ordering> JoinedLeft<'a, L, R, P> {
    /// The join's predicate.
    pub closed spec fn predicate(&self) -> P {
        self.predicate
    }

    /// All LHS records, taken or not.
    pub closed spec fn left(&self) -> Seq<L> {
        self.lhs@
    }

    /// How many LHS records have been taken.
    pub closed spec fn taken(&self) -> int {
        self.next_left as int
    }

    /// The RHS records.
    pub closed spec fn right(&self) -> Seq<R> {
        self.rhs@
    }

    /// Whether this is the semi-join.
    pub closed spec fn is_semi(&self) -> bool {
        self.with_match
    }

    /// The state is consistent.
    pub closed spec fn wf(&self) -> bool {
        &&& predicate_ok(self.predicate)
        &&& self.next_left <= self.lhs@.len()
        &&& searchable_all(self.rhs, self.predicate, self.lhs@)
    }

    /// What the join has still to yield.
    pub closed spec fn remaining(&self) -> Seq<L> {
        left_join_seq(
            self.predicate,
            self.lhs@.subrange(self.next_left as int, self.lhs@.len() as int),
            self.rhs@,
            self.with_match,
        )
    }

    /// Starts a semi- or anti-join of `lhs` with `rhs`.
    fn start(lhs: &'a [L], rhs: RHS<'a, R>, predicate: P, with_match: bool) -> (r: Self)
        requires
            predicate_ok(predicate),
            searchable_all(rhs, predicate, lhs@),
        ensures
            r.wf(),
            r.predicate() == predicate,
            r.left() == lhs@,
            r.right() == rhs@,
            r.taken() == 0,
            r.is_semi() == with_match,
            r.remaining() == left_join_seq(predicate, lhs@, rhs@, with_match),
    {
        assert(lhs@.subrange(0, lhs@.len() as int) =~= lhs@);
        JoinedLeft { lhs, next_left: 0, rhs, predicate, with_match }
    }

    /// Starts the semi-join of `lhs` with `rhs`.
    pub fn semi(lhs: &'a [L], rhs: RHS<'a, R>, predicate: P) -> (r: Self)
        requires
            predicate_ok(predicate),
            searchable_all(rhs, predicate, lhs@),
        ensures
            r.wf(),
            r.predicate() == predicate,
            r.left() == lhs@,
            r.right() == rhs@,
            r.taken() == 0,
            r.is_semi(),
            r.remaining() == left_join_seq(predicate, lhs@, rhs@, true),
    {
        Self::start(lhs, rhs, predicate, true)
    }

    /// Starts the anti-join of `lhs` with `rhs`.
    pub fn anti(lhs: &'a [L], rhs: RHS<'a, R>, predicate: P) -> (r: Self)
        requires
            predicate_ok(predicate),
            searchable_all(rhs, predicate, lhs@),
        ensures
            r.wf(),
            r.predicate() == predicate,
            r.left() == lhs@,
            r.right() == rhs@,
            r.taken() == 0,
            !r.is_semi(),
            r.remaining() == left_join_seq(predicate, lhs@, rhs@, false),
    {
        Self::start(lhs, rhs, predicate, false)
    }

    /// Yields the next LHS record kept by the join, or `None` once the join is
    /// exhausted. The LHS records passed over are those the join drops, and
    /// none past the one yielded is taken.
    pub fn next(&mut self) -> (r: Option<&'a L>)
        requires
            old(self).wf(),
        ensures
            final(self).wf(),
            final(self).predicate() == old(self).predicate(),
            final(self).left() == old(self).left(),
            final(self).right() == old(self).right(),
            final(self).is_semi() == old(self).is_semi(),
            old(self).taken() <= final(self).taken(),
            match r {
                None => {
                    &&& old(self).remaining().len() == 0
                    &&& final(self).remaining().len() == 0
                    &&& final(self).taken() == final(self).left().len()
                },
                Some(x) => {
                    &&& old(self).remaining().len() > 0
                    &&& *x == old(self).remaining()[0]
                    &&& final(self).remaining() == old(self).remaining().drop_first()
                    &&& final(self).taken() > 0
                    &&& *x == final(self).left()[final(self).taken() - 1]
                },
            },
            forall|j: int|
                old(self).taken() <= j < final(self).taken() && (r is None || j
                    < final(self).taken() - 1) ==> (matches_in(
                    old(self).predicate(),
                    #[trigger] old(self).left()[j],
                    old(self).right(),
                ).len() > 0) != old(self).is_semi(),
    {
        loop
            invariant
                self.wf(),
                self.predicate == old(self).predicate,
                self.lhs == old(self).lhs,
                self.rhs == old(self).rhs,
                self.with_match == old(self).with_match,
                old(self).next_left <= self.next_left,
                forall|j: int|
                    old(self).next_left <= j < self.next_left ==> (matches_in(
                        self.predicate,
                        #[trigger] self.lhs@[j],
                        self.rhs@,
                    ).len() > 0) != self.with_match,
                self.remaining() == old(self).remaining(),
            decreases self.lhs@.len() - self.next_left,
        {
            let ghost k = self.next_left as int;
            let ghost n = self.lhs@.len() as int;
            if self.next_left >= self.lhs.len() {
                assert(self.lhs@.subrange(k, n) =~= Seq::<L>::empty());
                return None;
            }
            assert(self.lhs@.subrange(k, n).drop_first() =~= self.lhs@.subrange(k + 1, n));
            let l = &self.lhs[self.next_left];
            self.next_left = self.next_left + 1;
            let has_right = self.rhs.has_value(l, &self.predicate);
            let ghost rest = left_join_seq(
                self.predicate,
                self.lhs@.subrange(k + 1, n),
                self.rhs@,
                self.with_match,
            );
            if has_right == self.with_match {
                assert((seq![*l] + rest).drop_first() =~= rest);
                return Some(l);
            }
            assert(Seq::<L>::empty() + rest =~= rest);
        }
    }

    /// Yields everything that remains, in order.
    pub fn collect(self) -> (r: Vec<&'a L>)
        requires
            self.wf(),
        ensures
            r@.len() == self.remaining().len(),
            forall|i: int| 0 <= i < r@.len() ==> *(#[trigger] r@[i]) == self.remaining()[i],
    {
        let mut it = self;
        let mut out: Vec<&'a L> = Vec::new();
        loop
            invariant
                it.wf(),
                out@.len() + it.remaining().len() == self.remaining().len(),
                forall|i: int| 0 <= i < out@.len() ==> *(#[trigger] out@[i]) == self.remaining()[i],
                forall|i: int|
                    0 <= i < it.remaining().len() ==> #[trigger] it.remaining()[i]
                        == self.remaining()[out@.len() + i],
            decreases it.remaining().len(),
        {
            match it.next() {
                Some(x) => {
                    out.push(x);
                },
                None => {
                    return out;
                },
            }
        }
    }
}

/// Grouped, semi- and anti-joins of a slice of LHS records with an [RHS].
pub trait JoinableGrouped<'a, L, R, P: Fn(&L, &R) -> Ordering> {
    /// The LHS records.
    spec fn left_records(&self) -> Seq<L>;

    /// Joins LHS and RHS, keeping only LHS records that have one or more
    /// matches, each with the `Vec` of its matches. An RHS record may be
    /// yielded for several LHS records.
    fn inner_join_grouped(self, rhs: RHS<'a, R>, predicate: P) -> (r: JoinedGrouped<'a, L, R, P>)
        requires
            predicate_ok(predicate),
            searchable_all(rhs, predicate, self.left_records()),
        ensures
            r.wf(),
            r.predicate() == predicate,
            r.left() == self.left_records(),
            r.right() == rhs@,
            r.taken() == 0,
            r.remaining() == grouped_join_seq(predicate, self.left_records(), rhs@, false),
    ;

    /// Joins LHS and RHS, keeping all LHS records, each with the `Vec` of its
    /// matches, which is empty where there is none.
    fn outer_join_grouped(self, rhs: RHS<'a, R>, predicate: P) -> (r: JoinedGrouped<'a, L, R, P>)
        requires
            predicate_ok(predicate),
            searchable_all(rhs, predicate, self.left_records()),
        ensures
            r.wf(),
            r.predicate() == predicate,
            r.left() == self.left_records(),
            r.right() == rhs@,
            r.taken() == 0,
            r.remaining() == grouped_join_seq(predicate, self.left_records(), rhs@, true),
    ;

    /// Joins LHS and RHS, keeping the LHS records that have one or more matches.
    fn semi_join(self, rhs: RHS<'a, R>, predicate: P) -> (r: JoinedLeft<'a, L, R, P>)
        requires
            predicate_ok(predicate),
            searchable_all(rhs, predicate, self.left_records()),
        ensures
            r.wf(),
            r.predicate() == predicate,
            r.left() == self.left_records(),
            r.right() == rhs@,
            r.taken() == 0,
            r.remaining() == left_join_seq(predicate, self.left_records(), rhs@, true),
    ;

    /// Joins LHS and RHS, keeping the LHS records that have no match.
    fn anti_join(self, rhs: RHS<'a, R>, predicate: P) -> (r: JoinedLeft<'a, L, R, P>)
        requires
            predicate_ok(predicate),
            searchable_all(rhs, predicate, self.left_records()),
        ensures
            r.wf(),
            r.predicate() == predicate,
            r.left() == self.left_records(),
            r.right() == rhs@,
            r.taken() == 0,
            r.remaining() == left_join_seq(predicate, self.left_records(), rhs@, false),
    ;
}

impl<'a, L, R, P: Fn(&L, &R) -> Ordering> JoinableGrouped<'a, L, R, P> for &'a [L] {
    open spec fn left_records(&self) -> Seq<L> {
        self@
    }

    fn inner_join_grouped(self, rhs: RHS<'a, R>, predicate: P) -> (r: JoinedGrouped<'a, L, R, P>) {
        JoinedGrouped::inner(self, rhs, predicate)
    }

    fn outer_join_grouped(self, rhs: RHS<'a, R>, predicate: P) -> (r: JoinedGrouped<'a, L, R, P>) {
        JoinedGrouped::outer(self, rhs, predicate)
    }

    fn semi_join(self, rhs: RHS<'a, R>, predicate: P) -> (r: JoinedLeft<'a, L, R, P>) {
        JoinedLeft::semi(self, rhs, predicate)
    }

    fn anti_join(self, rhs: RHS<'a, R>, predicate: P) -> (r: JoinedLeft<'a, L, R, P>) {
        JoinedLeft::anti(self, rhs, predicate)
    }
}

} // verus!
