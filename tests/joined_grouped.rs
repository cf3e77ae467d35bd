use joinable::{JoinableGrouped, RHS};
use std::cmp::Ordering;

type Rec = (usize, &'static str);

const LEFT_ITEMS: [Rec; 12] = [
    (0, "zero"),
    (0, "nil"),
    (1, "one"),
    (2, "two"),
    (3, "three"),
    (4, "four"),
    (5, "five"),
    (6, "six"),
    (7, "seven"),
    (8, "eight"),
    (9, "nine"),
    (10, "ten"),
];

const RIGHT_ITEMS: [Rec; 8] = [
    (0, "zéro"),
    (1, "un"),
    (1, "uno"),
    (1, "ichi"),
    (2, "dos"),
    (2, "deux"),
    (3, "trois"),
    (4, "quatre"),
];

fn by_key(l: &Rec, r: &Rec) -> Ordering {
    l.0.cmp(&r.0)
}

#[test]
fn test_left_semi() {
    let left = LEFT_ITEMS;
    let right = RIGHT_ITEMS;
    let joined = left[..]
        .semi_join(RHS::from(&right[..]), |l: &Rec, r: &Rec| l.0.cmp(&r.0))
        .collect();

    assert_eq!(joined.len(), 6);

    assert_eq!(joined[0], &(0, "zero"));
    assert_eq!(joined[1], &(0, "nil"));
    assert_eq!(joined[2], &(1, "one"));
    assert_eq!(joined[3], &(2, "two"));
    assert_eq!(joined[4], &(3, "three"));
    assert_eq!(joined[5], &(4, "four"));
}

#[test]
fn test_left_anti() {
    let left = LEFT_ITEMS;
    let right = RIGHT_ITEMS;
    let joined = left[..]
        .anti_join(RHS::from(&right[..]), |l: &Rec, r: &Rec| l.0.cmp(&r.0))
        .collect();

    assert_eq!(joined.len(), 6);

    assert_eq!(joined[0], &(5, "five"));
    assert_eq!(joined[1], &(6, "six"));
    assert_eq!(joined[2], &(7, "seven"));
    assert_eq!(joined[3], &(8, "eight"));
    assert_eq!(joined[4], &(9, "nine"));
    assert_eq!(joined[5], &(10, "ten"));
}

#[test]
fn test_left_inner_grouped() {
    let left = LEFT_ITEMS;
    let right = RIGHT_ITEMS;
    let joined = left[..]
        .inner_join_grouped(RHS::from(&right[..]), |l: &Rec, r: &Rec| l.0.cmp(&r.0))
        .collect();

    assert_eq!(joined.len(), 6);

    let mut it = joined.into_iter();

    assert_eq!(it.next(), Some((&(0, "zero"), vec![&(0, "zéro")])));
    assert_eq!(it.next(), Some((&(0, "nil"), vec![&(0, "zéro")])));
    assert_eq!(
        it.next(),
        Some((&(1, "one"), vec![&(1, "un"), &(1, "uno"), &(1, "ichi")]))
    );
    assert_eq!(
        it.next(),
        Some((&(2, "two"), vec![&(2, "dos"), &(2, "deux")]))
    );
    assert_eq!(it.next(), Some((&(3, "three"), vec![&(3, "trois")])));
    assert_eq!(it.next(), Some((&(4, "four"), vec![&(4, "quatre")])));
}

#[test]
fn test_left_outer_grouped() {
    let left = LEFT_ITEMS;
    let right = RIGHT_ITEMS;
    let joined = left[..]
        .outer_join_grouped(RHS::from(&right[..]), |l: &Rec, r: &Rec| l.0.cmp(&r.0))
        .collect();

    assert_eq!(joined.len(), 12);

    let mut it = joined.into_iter();

    assert_eq!(it.next(), Some((&(0, "zero"), vec![&(0, "zéro")])));
    assert_eq!(it.next(), Some((&(0, "nil"), vec![&(0, "zéro")])));
    assert_eq!(
        it.next(),
        Some((&(1, "one"), vec![&(1, "un"), &(1, "uno"), &(1, "ichi")]))
    );
    assert_eq!(
        it.next(),
        Some((&(2, "two"), vec![&(2, "dos"), &(2, "deux")]))
    );
    assert_eq!(it.next(), Some((&(3, "three"), vec![&(3, "trois")])));
    assert_eq!(it.next(), Some((&(4, "four"), vec![&(4, "quatre")])));

    // No matches here
    assert_eq!(it.next(), Some((&(5, "five"), vec![])));
    assert_eq!(it.next(), Some((&(6, "six"), vec![])));
    assert_eq!(it.next(), Some((&(7, "seven"), vec![])));
    assert_eq!(it.next(), Some((&(8, "eight"), vec![])));
    assert_eq!(it.next(), Some((&(9, "nine"), vec![])));
    assert_eq!(it.next(), Some((&(10, "ten"), vec![])));
}

#[test]
fn grouped_sorted_matches_unsorted() {
    let left = LEFT_ITEMS;
    let right = RIGHT_ITEMS;
    let a = left[..].inner_join_grouped(RHS::new_sorted(&right[..]), by_key).collect();
    let b = left[..].inner_join_grouped(RHS::new_unsorted(&right[..]), by_key).collect();
    assert_eq!(a.len(), 6);
    assert_eq!(a, b);
    let c = left[..].outer_join_grouped(RHS::new_sorted(&right[..]), by_key).collect();
    let d = left[..].outer_join_grouped(RHS::new_unsorted(&right[..]), by_key).collect();
    assert_eq!(c.len(), 12);
    assert_eq!(c, d);
}

#[test]
fn semi_anti_sorted_match_unsorted() {
    let left = LEFT_ITEMS;
    let right = RIGHT_ITEMS;
    let a = left[..].semi_join(RHS::new_sorted(&right[..]), by_key).collect();
    let b = left[..].semi_join(RHS::new_unsorted(&right[..]), by_key).collect();
    assert_eq!(a, b);
    assert_eq!(a, vec![&(0, "zero"), &(0, "nil"), &(1, "one"), &(2, "two"), &(3, "three"), &(4, "four")]);
    let c = left[..].anti_join(RHS::new_sorted(&right[..]), by_key).collect();
    let d = left[..].anti_join(RHS::new_unsorted(&right[..]), by_key).collect();
    assert_eq!(c, d);
    assert_eq!(c, vec![&(5, "five"), &(6, "six"), &(7, "seven"), &(8, "eight"), &(9, "nine"), &(10, "ten")]);
}

#[test]
fn semi_and_anti_partition_lhs() {
    let left = [4usize, 1, 4, 9, 2, 9];
    let right = [2usize, 4];
    let cmp = |l: &usize, r: &usize| l.cmp(r);
    let semi = left[..].semi_join(RHS::new_unsorted(&right[..]), cmp).collect();
    let anti = left[..].anti_join(RHS::new_unsorted(&right[..]), cmp).collect();
    assert_eq!(semi, vec![&4, &4, &2]);
    assert_eq!(anti, vec![&1, &9, &9]);
    let mut all: Vec<usize> = semi.iter().chain(anti.iter()).map(|x| **x).collect();
    all.sort();
    let mut expected = left.to_vec();
    expected.sort();
    assert_eq!(all, expected);
}

#[test]
fn outer_grouped_holds_every_match() {
    let left = [1usize, 3];
    let right = [(3usize, 'a'), (1, 'b'), (3, 'c'), (2, 'd')];
    let groups = left[..]
        .outer_join_grouped(RHS::new_unsorted(&right[..]), |l: &usize, r: &(usize, char)| l.cmp(&r.0))
        .collect();
    assert_eq!(groups, vec![(&1, vec![&(1, 'b')]), (&3, vec![&(3, 'a'), &(3, 'c')])]);
}

#[test]
fn grouped_step_by_step() {
    let left = [5usize, 1, 6];
    let right = [1usize];
    let cmp = |l: &usize, r: &usize| l.cmp(r);
    let mut inner = left[..].inner_join_grouped(RHS::new_sorted(&right[..]), cmp);
    assert_eq!(inner.next(), Some((&1, vec![&1])));
    assert_eq!(inner.next(), None);
    let mut outer = left[..].outer_join_grouped(RHS::new_sorted(&right[..]), cmp);
    assert_eq!(outer.next(), Some((&5, vec![])));
    assert_eq!(outer.next(), Some((&1, vec![&1])));
    assert_eq!(outer.next(), Some((&6, vec![])));
    assert_eq!(outer.next(), None);
    let mut semi = left[..].semi_join(RHS::new_sorted(&right[..]), cmp);
    assert_eq!(semi.next(), Some(&1));
    assert_eq!(semi.next(), None);
    let mut anti = left[..].anti_join(RHS::new_sorted(&right[..]), cmp);
    assert_eq!(anti.next(), Some(&5));
    assert_eq!(anti.next(), Some(&6));
    assert_eq!(anti.next(), None);
}
