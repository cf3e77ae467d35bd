use joinable::{JoinableGrouped, RHS};

#[test]
fn test_has_value_sorted() {
    let left = [1, 2, 3];

    let right = vec![(1, "hello"), (2, "world"), (2, "!")];
    let right = RHS::new_sorted(&right);

    let groups = left[..]
        .inner_join_grouped(right, |l: &i32, r: &(i32, &str)| r.0.cmp(l))
        .collect();
    let mut joined = groups.into_iter().flat_map(|x| x.1);

    assert_eq!(joined.next(), Some(&(1, "hello")));
    assert_eq!(joined.next(), Some(&(2, "world")));
    assert_eq!(joined.next(), Some(&(2, "!")));
}

#[test]
fn test_has_value_unsorted() {
    let left = [1, 2, 3];

    let right = vec![(1, "hello"), (2, "world")];
    let right = RHS::new_unsorted(&right);

    let groups = left[..]
        .inner_join_grouped(right, |l: &i32, r: &(i32, &str)| (*l).cmp(&r.0))
        .collect();
    let mut joined = groups.into_iter().flat_map(|x| x.1);

    assert_eq!(joined.next(), Some(&(1, "hello")));
    assert_eq!(joined.next(), Some(&(2, "world")));
}

fn cmp(l: &u32, r: &u32) -> std::cmp::Ordering {
    l.cmp(r)
}

#[test]
fn has_value_both_searches() {
    let rs = [1u32, 3, 3, 5, 8];
    let sorted = RHS::new_sorted(&rs[..]);
    let unsorted = RHS::new_unsorted(&rs[..]);
    for l in 0u32..10 {
        let expected = rs.contains(&l);
        assert_eq!(sorted.has_value(&l, &cmp), expected);
        assert_eq!(unsorted.has_value(&l, &cmp), expected);
    }
    let empty: [u32; 0] = [];
    assert!(!RHS::new_sorted(&empty[..]).has_value(&1, &cmp));
}

#[test]
fn get_range_sorted_is_exact_run() {
    let rs = [1u32, 3, 3, 3, 5, 8];
    let sorted = RHS::new_sorted(&rs[..]);
    assert_eq!(sorted.get_range(&3, &cmp), (1, 4));
    assert_eq!(sorted.get_range(&1, &cmp), (0, 1));
    assert_eq!(sorted.get_range(&8, &cmp), (5, 6));
    let (lo, hi) = sorted.get_range(&4, &cmp);
    assert!(lo >= hi);
    let unsorted = RHS::new_unsorted(&rs[..]);
    assert_eq!(unsorted.get_range(&3, &cmp), (0, 6));
}

#[test]
fn take_match_narrows_window() {
    let rs = [2u32, 7, 2, 9, 2];
    let unsorted = RHS::new_unsorted(&rs[..]);
    let mut range = (0usize, 5usize);
    assert_eq!(unsorted.take_match(&2, &cmp, &mut range), Some(0));
    assert_eq!(range, (1, 5));
    assert_eq!(unsorted.take_match(&2, &cmp, &mut range), Some(2));
    assert_eq!(unsorted.take_match(&2, &cmp, &mut range), Some(4));
    assert_eq!(unsorted.take_match(&2, &cmp, &mut range), None);
}

#[test]
fn gather_collects_in_order() {
    let rs = [(1u32, 'a'), (2, 'b'), (1, 'c')];
    let by_key = |l: &u32, r: &(u32, char)| l.cmp(&r.0);
    let got = RHS::new_unsorted(&rs[..]).gather(&1, &by_key);
    assert_eq!(got, vec![&(1, 'a'), &(1, 'c')]);
    let srt = [(1u32, 'a'), (1, 'c'), (2, 'b')];
    let got = RHS::new_sorted(&srt[..]).gather(&1, &by_key);
    assert_eq!(got, vec![&(1, 'a'), &(1, 'c')]);
    assert!(RHS::new_sorted(&srt[..]).gather(&3, &by_key).is_empty());
}

#[test]
fn records_and_from() {
    let rs = [4u8, 5];
    let r: RHS<u8> = RHS::from(&rs[..]);
    assert!(matches!(r, RHS::Unsorted(_)));
    assert_eq!(r.records(), &rs[..]);
}
