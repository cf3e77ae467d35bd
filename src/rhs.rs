//! The right-hand side of a join: a borrowed slice, searched linearly or by
//! bisection.
use crate::model::{
    arranged_for, arranged_from, deref_all, lemma_matches_all, lemma_matches_first, lemma_matches_window,
    matched, matches_in, predicate_ok, rank, window_matches, window_ok,
};
use core::cmp::Ordering;
use vstd::prelude::*;

verus! {

/// A wrapper around the right-hand side of a join.
pub enum RHS<'a, R> {
    /// Records in no particular order: searches are linear.
    Unsorted(&'a [R]),
    /// Records arranged for bisection against every LHS record that will be
    /// joined (see [crate::model::arranged_for]): searches take logarithmic time.
    Sorted(&'a [R]),
}

impl<'a, R> View for RHS<'a, R> {
    type V = Seq<R>;

    open spec fn view(&self) -> Seq<R> {
        match self {
            RHS::Unsorted(rs) => rs@,
            RHS::Sorted(rs) => rs@,
        }
    }
}

/// A bare slice is an unsorted right-hand side.
impl<'a, R> From<&'a [R]> for RHS<'a, R> {
    fn from(rhs: &'a [R]) -> (r: Self) {
        RHS::Unsorted(rhs)
    }
}

impl<'a, R> vstd::std_specs::convert::FromSpecImpl<&'a [R]> for RHS<'a, R> {
    open spec fn obeys_from_spec() -> bool {
        true
    }

    open spec fn from_spec(rhs: &'a [R]) -> Self {
        RHS::Unsorted(rhs)
    }
}

/// Whether two orderings are the same.
fn same_ordering(a: Ordering, b: Ordering) -> (r: bool)
    ensures
        r == (a == b),
{
    match (a, b) {
        (Ordering::Less, Ordering::Less) => true,
        (Ordering::Equal, Ordering::Equal) => true,
        (Ordering::Greater, Ordering::Greater) => true,
        _ => false,
    }
}

/// Bisects `rs` for a record that matches `l`. Whatever `rs` holds, a returned
/// position matches; when `rs` is arranged for `l`, `None` means no record does.
fn find_equal<L, R, P: Fn(&L, &R) -> Ordering>(rs: &[R], l: &L, p: &P) -> (r: Option<usize>)
    requires
        predicate_ok(*p),
    ensures
        r matches Some(i) ==> i < rs@.len() && matched(*p, *l, rs@[i as int]),
        r is None && arranged_for(*p, *l, rs@) ==> forall|k: int|
            0 <= k < rs@.len() ==> !matched(*p, *l, #[trigger] rs@[k]),
{
    let n = rs.len();
    if n == 0 {
        return None;
    }
    let c0 = p(l, &rs[0]);
    if same_ordering(c0, Ordering::Equal) {
        return Some(0);
    }
    let cn = p(l, &rs[n - 1]);
    if same_ordering(cn, Ordering::Equal) {
        return Some(n - 1);
    }
    if same_ordering(c0, cn) {
        proof {
            if arranged_for(*p, *l, rs@) {
                assert forall|k: int| 0 <= k < rs@.len() implies !matched(*p, *l, #[trigger] rs@[k]) by {
                    if matched(*p, *l, rs@[k]) {
                        assert(p.ensures((l, &rs@[k]), Ordering::Equal));
                        if 0 < k && k < n - 1 {
                            if arranged_from(*p, *l, rs@, Ordering::Greater) {
                                if c0 == Ordering::Greater {
                                    assert(rank(Ordering::Equal, Ordering::Greater) <= rank(cn, Ordering::Greater));
                                } else {
                                    assert(rank(c0, Ordering::Greater) <= rank(Ordering::Equal, Ordering::Greater));
                                }
                            } else {
                                if c0 == Ordering::Less {
                                    assert(rank(Ordering::Equal, Ordering::Less) <= rank(cn, Ordering::Less));
                                } else {
                                    assert(rank(c0, Ordering::Less) <= rank(Ordering::Equal, Ordering::Less));
                                }
                            }
                        }
                    }
                }
            }
        }
        return None;
    }
    let mut lo: usize = 1;
    let mut hi: usize = n - 1;
    while lo < hi
        invariant
            predicate_ok(*p),
            n == rs@.len(),
            1 <= lo <= hi <= n - 1,
            c0 != cn,
            c0 != Ordering::Equal,
            cn != Ordering::Equal,
            p.ensures((l, &rs@[lo - 1]), c0),
            p.ensures((l, &rs@[hi as int]), cn),
            p.ensures((l, &rs@[0]), c0),
            p.ensures((l, &rs@[n - 1]), cn),
        decreases hi - lo,
    {
        let mid = lo + (hi - lo) / 2;
        let c = p(l, &rs[mid]);
        if same_ordering(c, Ordering::Equal) {
            return Some(mid);
        }
        if same_ordering(c, c0) {
            lo = mid + 1;
        } else {
            hi = mid;
        }
    }
    proof {
        if arranged_for(*p, *l, rs@) {
            let d = if arranged_from(*p, *l, rs@, Ordering::Greater) {
                Ordering::Greater
            } else {
                Ordering::Less
            };
            assert(arranged_from(*p, *l, rs@, d));
            if d != c0 {
                assert(rank(c0, d) <= rank(cn, d));
            }
            assert forall|k: int| 0 <= k < rs@.len() implies !matched(*p, *l, #[trigger] rs@[k]) by {
                if matched(*p, *l, rs@[k]) {
                    assert(p.ensures((l, &rs@[k]), Ordering::Equal));
                    if k < lo - 1 {
                        assert(rank(Ordering::Equal, d) <= rank(c0, d));
                    } else if k > lo {
                        assert(rank(cn, d) <= rank(Ordering::Equal, d));
                    }
                }
            }
        }
    }
    None
}

impl<'a, R> RHS<'a, R> {
    /// Whether the records are searched by bisection.
    pub open spec fn is_sorted(&self) -> bool {
        self is Sorted
    }

    /// A search for `l` finds every match: always for unsorted records, and for
    /// sorted ones when they are arranged for `l`.
    pub open spec fn searchable_for<L, P: Fn(&L, &R) -> Ordering>(&self, p: P, l: L) -> bool {
        match self {
            RHS::Unsorted(_) => true,
            RHS::Sorted(rs) => arranged_for(p, l, rs@),
        }
    }

    /// Wraps `rhs`, whose records will be searched linearly.
    pub fn new_unsorted(rhs: &'a [R]) -> (r: Self)
        ensures
            r@ == rhs@,
            !r.is_sorted(),
    {
        RHS::Unsorted(rhs)
    }

    /// Wraps `rhs`, whose records are arranged for bisection against the LHS
    /// records that will be joined.
    pub fn new_sorted(rhs: &'a [R]) -> (r: Self)
        ensures
            r@ == rhs@,
            r.is_sorted(),
    {
        RHS::Sorted(rhs)
    }

    /// The borrowed records.
    pub fn records(&self) -> (r: &'a [R])
        ensures
            r@ == self@,
    {
        match self {
            RHS::Unsorted(rs) => rs,
            RHS::Sorted(rs) => rs,
        }
    }

    /// Whether any record matches `l`: a linear scan, or a bisection.
    pub fn has_value<L, P: Fn(&L, &R) -> Ordering>(&self, l: &L, predicate: &P) -> (r: bool)
        requires
            predicate_ok(*predicate),
            self.searchable_for(*predicate, *l),
        ensures
            r == (matches_in(*predicate, *l, self@).len() > 0),
    {
        match self {
            RHS::Unsorted(rs) => {
                let n = rs.len();
                let mut i: usize = 0;
                assert(rs@.subrange(0, n as int) =~= rs@);
                while i < n
                    invariant
                        predicate_ok(*predicate),
                        n == rs@.len(),
                        self@ == rs@,
                        i <= n,
                        matches_in(*predicate, *l, rs@) == matches_in(
                            *predicate,
                            *l,
                            rs@.subrange(i as int, n as int),
                        ),
                    decreases n - i,
                {
                    proof {
                        lemma_matches_first(*predicate, *l, rs@.subrange(i as int, n as int));
                        assert(rs@.subrange(i as int, n as int).drop_first() =~= rs@.subrange(
                            i + 1,
                            n as int,
                        ));
                    }
                    let c = predicate(l, &rs[i]);
                    if same_ordering(c, Ordering::Equal) {
                        let ghost sub = rs@.subrange(i as int, n as int);
                        assert(matched(*predicate, *l, sub[0]));
                        assert(matches_in(*predicate, *l, sub) == seq![sub[0]] + matches_in(
                            *predicate,
                            *l,
                            sub.drop_first(),
                        ));
                        assert(matches_in(*predicate, *l, sub).len() > 0);
                        return true;
                    }
                    i = i + 1;
                }
                proof {
                    assert(rs@.subrange(n as int, n as int) =~= Seq::<R>::empty());
                    reveal(Seq::filter);
                }
                false
            }
            RHS::Sorted(rs) => {
                let found = find_equal(rs, l, predicate);
                proof {
                    if let Some(i) = found {
                        rs@.lemma_filter_contains(crate::model::match_pred(*predicate, *l), i as int);
                    } else {
                        crate::model::lemma_matches_none(*predicate, *l, rs@);
                    }
                }
                found.is_some()
            }
        }
    }

    /// A window of the records that holds every match of `l` in their order:
    /// all records when unsorted; when sorted, exactly the run of matches,
    /// or an empty window where there is none.
    pub fn get_range<L, P: Fn(&L, &R) -> Ordering>(&self, left: &L, predicate: &P) -> (r: (
        usize,
        usize,
    ))
        requires
            predicate_ok(*predicate),
            self.searchable_for(*predicate, *left),
        ensures
            window_ok(self@, r),
            !self.is_sorted() ==> r == (0usize, self@.len() as usize),
            self.is_sorted() ==> forall|k: int|
                r.0 <= k < r.1 ==> matched(*predicate, *left, #[trigger] self@[k]),
            window_matches(*predicate, *left, self@, r) == matches_in(*predicate, *left, self@),
    {
        match self {
            RHS::Unsorted(rs) => {
                proof {
                    if rs@.len() == 0 {
                        crate::model::lemma_matches_none(*predicate, *left, rs@);
                    } else {
                        assert(rs@.subrange(0, rs@.len() as int) =~= rs@);
                    }
                }
                (0, rs.len())
            }
            RHS::Sorted(rs) => {
                match find_equal(rs, left, predicate) {
                    Some(pos) => {
                        let n = rs.len();
                        let ghost mut below = Ordering::Equal;
                        let ghost mut above = Ordering::Equal;
                        let mut start = pos;
                        let mut done = false;
                        while !done
                            invariant
                                predicate_ok(*predicate),
                                n == rs@.len(),
                                start <= pos < n,
                                matched(*predicate, *left, rs@[pos as int]),
                                forall|k: int|
                                    start <= k <= pos ==> matched(*predicate, *left, #[trigger] rs@[k]),
                                done ==> start == 0 || (below != Ordering::Equal
                                    && predicate.ensures((left, &rs@[start - 1]), below)),
                            decreases start + (if done { 0int } else { 1int }),
                        {
                            if start == 0 {
                                done = true;
                            } else {
                                let c = predicate(left, &rs[start - 1]);
                                if same_ordering(c, Ordering::Equal) {
                                    start = start - 1;
                                } else {
                                    proof {
                                        below = c;
                                    }
                                    done = true;
                                }
                            }
                        }
                        let mut end = pos + 1;
                        done = false;
                        while !done
                            invariant
                                predicate_ok(*predicate),
                                n == rs@.len(),
                                start <= pos < end <= n,
                                forall|k: int|
                                    start <= k < end ==> matched(*predicate, *left, #[trigger] rs@[k]),
                                done ==> end == n || (above != Ordering::Equal
                                    && predicate.ensures((left, &rs@[end as int]), above)),
                            decreases n - end + (if done { 0int } else { 1int }),
                        {
                            if end == n {
                                done = true;
                            } else {
                                let c = predicate(left, &rs[end]);
                                if same_ordering(c, Ordering::Equal) {
                                    end = end + 1;
                                } else {
                                    proof {
                                        above = c;
                                    }
                                    done = true;
                                }
                            }
                        }
                        proof {
                            let d = if arranged_from(*predicate, *left, rs@, Ordering::Greater) {
                                Ordering::Greater
                            } else {
                                Ordering::Less
                            };
                            assert(arranged_from(*predicate, *left, rs@, d));
                            assert(predicate.ensures((left, &rs@[pos as int]), Ordering::Equal));
                            assert forall|k: int| 0 <= k < rs@.len() implies (matched(
                                *predicate,
                                *left,
                                #[trigger] rs@[k],
                            ) <==> start <= k < end) by {
                                if matched(*predicate, *left, rs@[k]) {
                                    assert(predicate.ensures((left, &rs@[k]), Ordering::Equal));
                                    if k < start - 1 {
                                        assert(rank(Ordering::Equal, d) <= rank(below, d));
                                        assert(rank(below, d) <= rank(Ordering::Equal, d));
                                    } else if k > end {
                                        assert(rank(above, d) <= rank(Ordering::Equal, d));
                                        assert(rank(Ordering::Equal, d) <= rank(above, d));
                                    }
                                }
                            }
                            lemma_matches_window(*predicate, *left, rs@, start as int, end as int);
                        }
                        (start, end)
                    }
                    None => {
                        proof {
                            crate::model::lemma_matches_none(*predicate, *left, rs@);
                        }
                        (1, 0)
                    }
                }
            }
        }
    }

    /// Takes the first match of `left` out of the window `range`: returns its
    /// position and narrows the window to start after it. The window never
    /// grows, and the predicate is called only on records inside it.
    pub fn take_match<L, P: Fn(&L, &R) -> Ordering>(
        &self,
        left: &L,
        predicate: &P,
        range: &mut (usize, usize),
    ) -> (r: Option<usize>)
        requires
            predicate_ok(*predicate),
            window_ok(self@, *old(range)),
            self.is_sorted() ==> forall|k: int|
                old(range).0 <= k < old(range).1 ==> matched(*predicate, *left, #[trigger] self@[k]),
        ensures
            window_ok(self@, *final(range)),
            self.is_sorted() ==> forall|k: int|
                final(range).0 <= k < final(range).1 ==> matched(
                    *predicate,
                    *left,
                    #[trigger] self@[k],
                ),
            old(range).0 <= final(range).0,
            final(range).1 == old(range).1,
            match r {
                Some(i) => {
                    &&& i < self@.len()
                    &&& window_matches(*predicate, *left, self@, *old(range)).len() > 0
                    &&& self@[i as int] == window_matches(*predicate, *left, self@, *old(range))[0]
                    &&& window_matches(*predicate, *left, self@, *final(range)) == window_matches(
                        *predicate,
                        *left,
                        self@,
                        *old(range),
                    ).drop_first()
                },
                None => window_matches(*predicate, *left, self@, *old(range)).len() == 0,
            },
    {
        let lo = range.0;
        let hi = range.1;
        match self {
            RHS::Unsorted(rs) => {
                if lo >= hi {
                    return None;
                }
                let mut i = lo;
                assert(rs@.subrange(lo as int, hi as int) =~= rs@.subrange(i as int, hi as int));
                while i < hi
                    invariant
                        predicate_ok(*predicate),
                        self@ == rs@,
                        lo <= i <= hi <= rs@.len(),
                        *range == (lo, hi),
                        *old(range) == (lo, hi),
                        !self.is_sorted(),
                        window_matches(*predicate, *left, self@, (lo, hi)) == matches_in(
                            *predicate,
                            *left,
                            rs@.subrange(i as int, hi as int),
                        ),
                    decreases hi - i,
                {
                    let ghost sub = rs@.subrange(i as int, hi as int);
                    proof {
                        lemma_matches_first(*predicate, *left, sub);
                        assert(sub.drop_first() =~= rs@.subrange(i + 1, hi as int));
                    }
                    let c = predicate(left, &rs[i]);
                    if same_ordering(c, Ordering::Equal) {
                        assert(matched(*predicate, *left, sub[0]));
                        range.0 = i + 1;
                        proof {
                            if i + 1 == hi {
                                assert(rs@.subrange(i + 1, hi as int) =~= Seq::<R>::empty());
                                reveal(Seq::filter);
                            }
                            assert(matches_in(*predicate, *left, sub) == seq![sub[0]] + matches_in(
                                *predicate,
                                *left,
                                sub.drop_first(),
                            ));
                            assert((seq![sub[0]] + matches_in(*predicate, *left, sub.drop_first())).drop_first()
                                =~= matches_in(*predicate, *left, sub.drop_first()));
                        }
                        return Some(i);
                    }
                    i = i + 1;
                }
                proof {
                    assert(rs@.subrange(hi as int, hi as int) =~= Seq::<R>::empty());
                    reveal(Seq::filter);
                }
                None
            }
            RHS::Sorted(rs) => {
                if lo < hi {
                    proof {
                        lemma_matches_all(*predicate, *left, rs@.subrange(lo as int, hi as int));
                        if lo + 1 < hi {
                            lemma_matches_all(*predicate, *left, rs@.subrange(lo + 1, hi as int));
                        }
                        assert(rs@.subrange(lo as int, hi as int).drop_first() =~= rs@.subrange(
                            lo + 1,
                            hi as int,
                        ));
                    }
                    range.0 = lo + 1;
                    Some(lo)
                } else {
                    None
                }
            }
        }
    }

    /// Collects every record that matches `left`, in RHS order: a filter of
    /// all records when unsorted; when sorted, the run of matches that a
    /// bisection finds.
    pub fn gather<L, P: Fn(&L, &R) -> Ordering>(&self, left: &L, predicate: &P) -> (r: Vec<&'a R>)
        requires
            predicate_ok(*predicate),
            self.searchable_for(*predicate, *left),
        ensures
            deref_all(r@) == matches_in(*predicate, *left, self@),
    {
        let range = self.get_range(left, predicate);
        let rs = self.records();
        let sorted = matches!(self, RHS::Sorted(_));
        let mut out: Vec<&'a R> = Vec::new();
        if range.0 >= range.1 {
            assert(deref_all(out@) =~= Seq::<R>::empty());
            return out;
        }
        let hi = range.1;
        let mut i = range.0;
        assert(rs@.subrange(i as int, hi as int) =~= rs@.subrange(range.0 as int, range.1 as int));
        while i < hi
            invariant
                predicate_ok(*predicate),
                rs@ == self@,
                sorted == self.is_sorted(),
                range.0 <= i <= hi == range.1 <= rs@.len(),
                sorted ==> forall|k: int| range.0 <= k < range.1 ==> matched(*predicate, *left, #[trigger] rs@[k]),
                deref_all(out@) + matches_in(*predicate, *left, rs@.subrange(i as int, hi as int))
                    == matches_in(*predicate, *left, self@),
            decreases hi - i,
        {
            let ghost sub = rs@.subrange(i as int, hi as int);
            proof {
                lemma_matches_first(*predicate, *left, sub);
                assert(sub.drop_first() =~= rs@.subrange(i + 1, hi as int));
            }
            let keep = sorted || same_ordering(predicate(left, &rs[i]), Ordering::Equal);
            if keep {
                assert(matched(*predicate, *left, sub[0]));
                let ghost prior = out@;
                out.push(&rs[i]);
                assert(deref_all(out@) =~= deref_all(prior).push(rs@[i as int]));
                assert(deref_all(out@) + matches_in(*predicate, *left, sub.drop_first())
                    =~= deref_all(prior) + (seq![sub[0]] + matches_in(*predicate, *left, sub.drop_first())));
            } else {
                assert(!matched(*predicate, *left, sub[0]));
                assert(seq![] + matches_in(*predicate, *left, sub.drop_first())
                    =~= matches_in(*predicate, *left, sub.drop_first()));
            }
            i = i + 1;
        }
        proof {
            assert(rs@.subrange(hi as int, hi as int) =~= Seq::<R>::empty());
            reveal(Seq::filter);
            assert(deref_all(out@) + Seq::<R>::empty() =~= deref_all(out@));
        }
        out
    }
}

} // verus!
