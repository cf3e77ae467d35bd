use joinable::{Joinable, RHS};
use std::cmp::Ordering;

type Rec = (usize, &'static str);

const LEFT_ITEMS: [Rec; 12] = [
    (0, "zero"),
    (0, "nil"),
    (1, "one"),
    (2, "two"),
    (3, "three"),
    (4, "four"),
    (5, "five"),
    (6, "six"),
    (7, "seven"),
    (8, "eight"),
    (9, "nine"),
    (10, "ten"),
];

const RIGHT_ITEMS: [Rec; 8] = [
    (0, "zéro"),
    (1, "un"),
    (1, "uno"),
    (1, "ichi"),
    (2, "dos"),
    (2, "deux"),
    (3, "trois"),
    (4, "quatre"),
];

fn by_key(l: &Rec, r: &Rec) -> Ordering {
    l.0.cmp(&r.0)
}

#[test]
fn test_inner() {
    let left = LEFT_ITEMS;
    let right = RIGHT_ITEMS;
    let mut joined = left[..].inner_join(RHS::from(&right[..]), |l: &Rec, r: &Rec| l.0.cmp(&r.0));

    assert_eq!(joined.next(), Some((&(0, "zero"), &(0, "zéro"))));
    assert_eq!(joined.next(), Some((&(0, "nil"), &(0, "zéro"))));

    assert_eq!(joined.next(), Some((&(1, "one"), &(1, "un"))));
    assert_eq!(joined.next(), Some((&(1, "one"), &(1, "uno"))));
    assert_eq!(joined.next(), Some((&(1, "one"), &(1, "ichi"))));

    assert_eq!(joined.next(), Some((&(2, "two"), &(2, "dos"))));
    assert_eq!(joined.next(), Some((&(2, "two"), &(2, "deux"))));

    assert_eq!(joined.next(), Some((&(3, "three"), &(3, "trois"))));

    assert_eq!(joined.next(), Some((&(4, "four"), &(4, "quatre"))));

    assert_eq!(joined.next(), None);
}

#[test]
fn test_inner_sorted() {
    let left = LEFT_ITEMS;
    let right = RIGHT_ITEMS;
    let rhs = RHS::Sorted(&right[..]);
    let mut joined = left[..].inner_join(rhs, |l: &Rec, r: &Rec| l.0.cmp(&r.0));

    assert_eq!(joined.next(), Some((&(0, "zero"), &(0, "zéro"))));
    assert_eq!(joined.next(), Some((&(0, "nil"), &(0, "zéro"))));

    assert_eq!(joined.next(), Some((&(1, "one"), &(1, "un"))));
    assert_eq!(joined.next(), Some((&(1, "one"), &(1, "uno"))));
    assert_eq!(joined.next(), Some((&(1, "one"), &(1, "ichi"))));

    assert_eq!(joined.next(), Some((&(2, "two"), &(2, "dos"))));
    assert_eq!(joined.next(), Some((&(2, "two"), &(2, "deux"))));

    assert_eq!(joined.next(), Some((&(3, "three"), &(3, "trois"))));

    assert_eq!(joined.next(), Some((&(4, "four"), &(4, "quatre"))));

    assert_eq!(joined.next(), None);
}

#[test]
fn test_outer() {
    let left = LEFT_ITEMS;
    let right = RIGHT_ITEMS;
    let mut joined = left[..].outer_join(RHS::from(&right[..]), |l: &Rec, r: &Rec| l.0.cmp(&r.0));

    assert_eq!(joined.next(), Some((&(0, "zero"), Some(&(0, "zéro")))));
    assert_eq!(joined.next(), Some((&(0, "nil"), Some(&(0, "zéro")))));

    assert_eq!(joined.next(), Some((&(1, "one"), Some(&(1, "un")))));
    assert_eq!(joined.next(), Some((&(1, "one"), Some(&(1, "uno")))));
    assert_eq!(joined.next(), Some((&(1, "one"), Some(&(1, "ichi")))));

    assert_eq!(joined.next(), Some((&(2, "two"), Some(&(2, "dos")))));
    assert_eq!(joined.next(), Some((&(2, "two"), Some(&(2, "deux")))));

    assert_eq!(joined.next(), Some((&(3, "three"), Some(&(3, "trois")))));

    assert_eq!(joined.next(), Some((&(4, "four"), Some(&(4, "quatre")))));

    // The remaining LHS values have no RHS match, so they come with None

    assert_eq!(joined.next(), Some((&(5, "five"), None)));
    assert_eq!(joined.next(), Some((&(6, "six"), None)));
    assert_eq!(joined.next(), Some((&(7, "seven"), None)));
    assert_eq!(joined.next(), Some((&(8, "eight"), None)));
    assert_eq!(joined.next(), Some((&(9, "nine"), None)));
    assert_eq!(joined.next(), Some((&(10, "ten"), None)));

    assert_eq!(joined.next(), None);
}

#[test]
fn test_outer_sorted() {
    let left = LEFT_ITEMS;
    let right = RIGHT_ITEMS;
    let rhs = RHS::Sorted(&right[..]);
    let mut joined = left[..].outer_join(rhs, |l: &Rec, r: &Rec| l.0.cmp(&r.0));

    assert_eq!(joined.next(), Some((&(0, "zero"), Some(&(0, "zéro")))));
    assert_eq!(joined.next(), Some((&(0, "nil"), Some(&(0, "zéro")))));

    assert_eq!(joined.next(), Some((&(1, "one"), Some(&(1, "un")))));
    assert_eq!(joined.next(), Some((&(1, "one"), Some(&(1, "uno")))));
    assert_eq!(joined.next(), Some((&(1, "one"), Some(&(1, "ichi")))));

    assert_eq!(joined.next(), Some((&(2, "two"), Some(&(2, "dos")))));
    assert_eq!(joined.next(), Some((&(2, "two"), Some(&(2, "deux")))));

    assert_eq!(joined.next(), Some((&(3, "three"), Some(&(3, "trois")))));

    assert_eq!(joined.next(), Some((&(4, "four"), Some(&(4, "quatre")))));

    // The remaining LHS values have no RHS match, so they come with None

    assert_eq!(joined.next(), Some((&(5, "five"), None)));
    assert_eq!(joined.next(), Some((&(6, "six"), None)));
    assert_eq!(joined.next(), Some((&(7, "seven"), None)));
    assert_eq!(joined.next(), Some((&(8, "eight"), None)));
    assert_eq!(joined.next(), Some((&(9, "nine"), None)));
    assert_eq!(joined.next(), Some((&(10, "ten"), None)));

    assert_eq!(joined.next(), None);
}

#[test]
fn inner_collect_sorted_matches_unsorted() {
    let left = LEFT_ITEMS;
    let right = RIGHT_ITEMS;
    let a = left[..].inner_join(RHS::new_sorted(&right[..]), by_key).collect();
    let b = left[..].inner_join(RHS::new_unsorted(&right[..]), by_key).collect();
    assert_eq!(a.len(), 9);
    assert_eq!(a, b);
}

#[test]
fn outer_is_inner_plus_unmatched() {
    let left = LEFT_ITEMS;
    let right = RIGHT_ITEMS;
    let outer = left[..].outer_join(RHS::new_unsorted(&right[..]), by_key).collect();
    let inner = left[..].inner_join(RHS::new_unsorted(&right[..]), by_key).collect();
    assert_eq!(outer.len(), 15);
    let present: Vec<(&Rec, &Rec)> = outer
        .iter()
        .filter_map(|(l, r)| r.map(|r| (*l, r)))
        .collect();
    assert_eq!(present, inner);
    let absent: Vec<&Rec> = outer
        .iter()
        .filter(|(_, r)| r.is_none())
        .map(|(l, _)| *l)
        .collect();
    assert_eq!(absent, vec![&(5, "five"), &(6, "six"), &(7, "seven"), &(8, "eight"), &(9, "nine"), &(10, "ten")]);
}

#[test]
fn outer_collect_sorted_matches_unsorted() {
    let left = LEFT_ITEMS;
    let right = RIGHT_ITEMS;
    let a = left[..].outer_join(RHS::new_sorted(&right[..]), by_key).collect();
    let b = left[..].outer_join(RHS::new_unsorted(&right[..]), by_key).collect();
    assert_eq!(a, b);
}

#[test]
fn empty_sides() {
    let none: [Rec; 0] = [];
    let right = RIGHT_ITEMS;
    let left = LEFT_ITEMS;
    let mut a = none[..].inner_join(RHS::new_sorted(&right[..]), by_key);
    assert_eq!(a.next(), None);
    assert_eq!(a.next(), None);
    let mut b = none[..].outer_join(RHS::new_unsorted(&right[..]), by_key);
    assert_eq!(b.next(), None);
    let mut c = left[..2].inner_join(RHS::new_sorted(&none[..]), by_key);
    assert_eq!(c.next(), None);
    let d = left[..2].outer_join(RHS::new_sorted(&none[..]), by_key).collect();
    assert_eq!(d, vec![(&(0, "zero"), None), (&(0, "nil"), None)]);
}

#[test]
fn sorted_in_descending_order() {
    // Records arranged with Less first: the bisection still finds the run.
    let left = [3usize, 7, 1];
    let right = [9usize, 7, 7, 5, 3, 1, 1];
    let pairs = left[..]
        .inner_join(RHS::new_sorted(&right[..]), |l: &usize, r: &usize| l.cmp(r))
        .collect();
    assert_eq!(pairs, vec![(&3, &3), (&7, &7), (&7, &7), (&1, &1), (&1, &1)]);
}

#[test]
fn same_rhs_record_for_several_lhs() {
    let left = [2usize, 2, 2];
    let right = [1usize, 2, 3];
    let pairs = left[..]
        .inner_join(RHS::new_unsorted(&right[..]), |l: &usize, r: &usize| l.cmp(r))
        .collect();
    assert_eq!(pairs.len(), 3);
    assert!(pairs.iter().all(|(_, r)| std::ptr::eq(*r, &right[1])));
}

#[test]
fn outer_draining_does_not_read_ahead() {
    let left = [1usize, 5];
    let right = [1usize, 1];
    let mut j = left[..].outer_join(RHS::new_sorted(&right[..]), |l: &usize, r: &usize| l.cmp(r));
    assert_eq!(j.next(), Some((&1, Some(&1))));
    assert_eq!(j.next(), Some((&1, Some(&1))));
    assert_eq!(j.next(), Some((&5, None)));
    assert_eq!(j.next(), None);
}

#[test]
fn per_match_keeps_lhs_and_rhs_order() {
    let left = [(3usize, 'x'), (1, 'y'), (3, 'z'), (2, 'w')];
    let right = [(3usize, 'a'), (1, 'b'), (3, 'c')];
    let cmp = |l: &(usize, char), r: &(usize, char)| l.0.cmp(&r.0);
    let pairs: Vec<(char, char)> = left[..]
        .inner_join(RHS::new_unsorted(&right[..]), cmp)
        .collect()
        .into_iter()
        .map(|(l, r)| (l.1, r.1))
        .collect();
    assert_eq!(pairs, vec![('x', 'a'), ('x', 'c'), ('y', 'b'), ('z', 'a'), ('z', 'c')]);
    let outer: Vec<(char, Option<char>)> = left[..]
        .outer_join(RHS::new_unsorted(&right[..]), cmp)
        .collect()
        .into_iter()
        .map(|(l, r)| (l.1, r.map(|r| r.1)))
        .collect();
    assert_eq!(
        outer,
        vec![('x', Some('a')), ('x', Some('c')), ('y', Some('b')), ('z', Some('a')), ('z', Some('c')), ('w', None)]
    );
}
