use flatten::{
    collect, count, count_from, flatten, map_items, once, rev, span, BackCursor, Cursor,
    IntoCursor,
};

#[test]
fn test_new_flatten() {
    let _ = flatten(vec![vec![1, 2, 3], vec![4, 5, 6]]);
}

#[test]
fn test_into_iter() {
    let mut f = flatten(vec![vec![1, 2, 3], vec![4]]).into_cursor();
    assert_eq!(f.next(), Some(1));
    assert_eq!(f.next(), Some(2));
    assert_eq!(f.next(), Some(3));
    assert_eq!(f.next(), Some(4));
    assert_eq!(f.next(), None);
}

#[test]
fn test_empty_vec() {
    let mut f = flatten(vec![vec![1], vec![]]).into_cursor();
    assert_eq!(f.next(), Some(1));
    assert_eq!(f.next(), None);

    let mut f = flatten(vec![vec![], vec![]]).into_cursor();
    assert_eq!(f.next(), None::<i32>);
}

#[test]
fn test_one() {
    assert_eq!(count(flatten(once(vec!["a"]))), 1);
}

#[test]
fn test_two() {
    assert_eq!(count(flatten(once(vec!["a", "b"]))), 2);
}

#[test]
fn two_wide() {
    assert_eq!(count(flatten(vec![vec!["a"], vec!["b"]])), 2);
}

#[test]
fn both_ends() {
    let mut iter = flatten(vec![vec!["a1", "a2", "a3"], vec!["b1", "b2", "b3"]]);
    assert_eq!(iter.next(), Some("a1"));
    assert_eq!(iter.next_back(), Some("b3"));
    assert_eq!(iter.next(), Some("a2"));
    assert_eq!(iter.next_back(), Some("b2"));
    assert_eq!(iter.next(), Some("a3"));
    assert_eq!(iter.next_back(), Some("b1"));
    assert_eq!(iter.next(), None);
    assert_eq!(iter.next_back(), None);
}

#[test]
fn inf() {
    let mut iter = flatten(map_items(count_from(0), |i| span(0, i)));
    // 0 => 0..0 => empty
    // 1 => 0..1 => [0]
    // 2 => 0..2 => [0, 1]
    assert_eq!(iter.next(), Some(0));
    assert_eq!(iter.next(), Some(0));
    assert_eq!(iter.next(), Some(1));
}

#[test]
fn deep() {
    assert_eq!(count(flatten(flatten(vec![vec![vec![0, 1]]]))), 2);
}

#[test]
fn reverse() {
    assert_eq!(collect(rev(flatten(once(vec!["a", "b"])))), vec!["b", "a"]);
}

#[test]
fn reverse_wide() {
    assert_eq!(collect(rev(flatten(vec![vec!["a"], vec!["b"]]))), vec!["b", "a"]);
}
