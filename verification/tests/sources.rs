use flatten::{
    collect, count, count_from, map_items, once, rev, span, BackCursor, Cursor, IntoCursor,
};

#[test]
fn vector_from_both_ends() {
    let mut c = vec![1, 2, 3].into_cursor();
    assert_eq!(c.next(), Some(1));
    assert_eq!(c.next_back(), Some(3));
    assert_eq!(c.next_back(), Some(2));
    assert_eq!(c.next_back(), None);
    assert_eq!(c.next(), None);
}

#[test]
fn vector_keeps_its_order() {
    assert_eq!(collect(vec!["x", "y", "z"].into_cursor()), vec!["x", "y", "z"]);
}

#[test]
fn once_from_the_front() {
    let mut c = once(9);
    assert_eq!(c.next(), Some(9));
    assert_eq!(c.next(), None);
    assert_eq!(c.next_back(), None);
}

#[test]
fn once_from_the_back() {
    let mut c = once(9);
    assert_eq!(c.next_back(), Some(9));
    assert_eq!(c.next_back(), None);
    assert_eq!(c.next(), None);
}

#[test]
fn span_is_half_open() {
    assert_eq!(collect(span(3, 6)), vec![3, 4, 5]);
    assert_eq!(count(span(3, 6)), 3);
    assert_eq!(collect(span(6, 6)), Vec::<u64>::new());
    assert_eq!(collect(span(6, 3)), Vec::<u64>::new());
    assert_eq!(collect(span(u64::MAX - 1, u64::MAX)), vec![u64::MAX - 1]);
}

#[test]
fn span_from_both_ends() {
    let mut c = span(0, 4);
    assert_eq!(c.next_back(), Some(3));
    assert_eq!(c.next(), Some(0));
    assert_eq!(c.next_back(), Some(2));
    assert_eq!(c.next(), Some(1));
    assert_eq!(c.next(), None);
    assert_eq!(c.next_back(), None);
}

#[test]
fn counter_goes_on_after_the_largest() {
    let mut c = count_from(u64::MAX - 1);
    assert_eq!(c.next(), Some(u64::MAX - 1));
    assert_eq!(c.next(), Some(u64::MAX));
    assert_eq!(c.next(), Some(0));
    assert_eq!(c.next(), Some(1));
}

#[test]
fn reversal_exchanges_the_ends() {
    let mut c = rev(span(0, 4));
    assert_eq!(c.next(), Some(3));
    assert_eq!(c.next_back(), Some(0));
    assert_eq!(collect(c), vec![2, 1]);
    assert_eq!(collect(rev(rev(span(0, 3)))), vec![0, 1, 2]);
}

#[test]
fn mapping_keeps_the_order() {
    assert_eq!(collect(map_items(span(1, 4), |i| i * 10)), vec![10, 20, 30]);
    let mut c = map_items(span(1, 4), |i| i * 10);
    assert_eq!(c.next_back(), Some(30));
    assert_eq!(c.next(), Some(10));
    assert_eq!(c.next(), Some(20));
    assert_eq!(c.next(), None);
}

#[test]
fn count_of_nothing() {
    assert_eq!(count(Vec::<u8>::new().into_cursor()), 0);
}
