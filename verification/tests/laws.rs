use flatten::{
    collect, count, count_from, flatten, map_items, rev, span, BackCursor, Cursor, Flatten,
    VecCursor,
};

fn nested() -> Vec<Vec<u32>> {
    vec![vec![1, 2], vec![3], vec![], vec![4, 5, 6]]
}

#[test]
fn forward_gives_the_concatenation() {
    assert_eq!(collect(flatten(nested())), vec![1, 2, 3, 4, 5, 6]);
    assert_eq!(collect(flatten(Vec::<Vec<u32>>::new())), Vec::<u32>::new());
}

#[test]
fn backward_gives_the_reverse() {
    assert_eq!(collect(rev(flatten(nested()))), vec![6, 5, 4, 3, 2, 1]);
}

#[test]
fn six_then_one_more() {
    let mut f = flatten(vec![vec![1, 2, 3], vec![4, 5, 6]]);
    let mut got = Vec::new();
    for _ in 0..7 {
        got.push(f.next());
    }
    assert_eq!(got, vec![Some(1), Some(2), Some(3), Some(4), Some(5), Some(6), None]);
}

fn drive(moves: &[bool]) -> (Vec<u32>, Vec<u32>, Flatten<VecCursor<Vec<u32>>>) {
    let mut f = flatten(nested());
    let mut fronts = Vec::new();
    let mut backs = Vec::new();
    for front in moves {
        if *front {
            if let Some(x) = f.next() {
                fronts.push(x);
            }
        } else if let Some(x) = f.next_back() {
            backs.push(x);
        }
    }
    (fronts, backs, f)
}

#[test]
fn every_interleaving_of_six_pulls_meets() {
    for bits in 0u32..64 {
        let moves: Vec<bool> = (0..6).map(|i| bits & (1 << i) != 0).collect();
        let (fronts, mut backs, mut f) = drive(&moves);
        assert_eq!(fronts.len() + backs.len(), 6);
        assert_eq!(f.next(), None);
        assert_eq!(f.next_back(), None);
        backs.reverse();
        let mut all = fronts;
        all.extend(backs);
        assert_eq!(all, vec![1, 2, 3, 4, 5, 6]);
    }
}

#[test]
fn partial_interleaving_leaves_the_middle() {
    let (fronts, backs, f) = drive(&[true, false, false, true]);
    assert_eq!(fronts, vec![1, 2]);
    assert_eq!(backs, vec![6, 5]);
    assert_eq!(collect(f), vec![3, 4]);
}

#[test]
fn more_pulls_than_items() {
    let (fronts, backs, _) = drive(&[false, true, true, true, true, true, true, false, true]);
    assert_eq!(fronts, vec![1, 2, 3, 4, 5]);
    assert_eq!(backs, vec![6]);
}

#[test]
fn back_sub_sequence_is_drained_from_the_front() {
    let mut f = flatten(vec![vec![1, 2, 3]]);
    assert_eq!(f.next_back(), Some(3));
    assert_eq!(f.next(), Some(1));
    assert_eq!(f.next(), Some(2));
    assert_eq!(f.next(), None);
    assert_eq!(f.next_back(), None);
}

#[test]
fn front_sub_sequence_is_drained_from_the_back() {
    let mut f = flatten(vec![vec![1, 2, 3]]);
    assert_eq!(f.next(), Some(1));
    assert_eq!(f.next_back(), Some(3));
    assert_eq!(f.next_back(), Some(2));
    assert_eq!(f.next_back(), None);
    assert_eq!(f.next(), None);
}

#[test]
fn empty_sub_sequences_give_nothing() {
    let mut f = flatten(vec![Vec::<u8>::new(), vec![], vec![]]);
    assert_eq!(f.next(), None);
    let mut f = flatten(vec![Vec::<u8>::new(), vec![], vec![]]);
    assert_eq!(f.next_back(), None);
    let mut f = flatten(Vec::<Vec<u8>>::new());
    assert_eq!(f.next(), None);
    assert_eq!(f.next_back(), None);
}

#[test]
fn empty_sub_sequences_are_passed_over() {
    let mut f = flatten(vec![vec![], vec![], vec![7], vec![], vec![8], vec![]]);
    assert_eq!(f.next(), Some(7));
    assert_eq!(f.next_back(), Some(8));
    assert_eq!(f.next_back(), None);
    assert_eq!(f.next(), None);
}

#[test]
fn exhaustion_is_reported_again_and_again() {
    let mut f = flatten(vec![vec![1]]);
    assert_eq!(f.next(), Some(1));
    for _ in 0..5 {
        assert_eq!(f.next(), None);
        assert_eq!(f.next_back(), None);
    }
}

#[test]
fn endless_outer_sequence_is_pulled_as_far_as_needed() {
    let mut f = flatten(map_items(count_from(0), |i| span(0, i)));
    let mut got = Vec::new();
    for _ in 0..10 {
        got.push(f.next());
    }
    let want: Vec<Option<u64>> = vec![0, 0, 1, 0, 1, 2, 0, 1, 2, 3].into_iter().map(Some).collect();
    assert_eq!(got, want);
}

#[test]
fn endless_sub_sequence_hides_what_follows() {
    let mut f = flatten(vec![count_from(5), count_from(100)]);
    assert_eq!(f.next(), Some(5));
    assert_eq!(f.next(), Some(6));
    assert_eq!(f.next(), Some(7));
}

#[test]
fn flattening_twice() {
    let deep = vec![vec![vec![1, 2], vec![]], vec![], vec![vec![3], vec![4, 5]]];
    assert_eq!(collect(flatten(flatten(deep.clone()))), vec![1, 2, 3, 4, 5]);
    let inner_first: Vec<Vec<i32>> = deep.into_iter().map(|subs| collect(flatten(subs))).collect();
    assert_eq!(collect(flatten(inner_first)), vec![1, 2, 3, 4, 5]);
}

#[test]
fn flattening_twice_from_both_ends() {
    let deep = vec![vec![vec![1, 2], vec![]], vec![], vec![vec![3], vec![4, 5]]];
    let mut f = flatten(flatten(deep));
    assert_eq!(f.next_back(), Some(5));
    assert_eq!(f.next(), Some(1));
    assert_eq!(f.next_back(), Some(4));
    assert_eq!(f.next_back(), Some(3));
    assert_eq!(f.next_back(), Some(2));
    assert_eq!(f.next(), None);
}

#[test]
fn ranges_as_sub_sequences() {
    assert_eq!(collect(flatten(vec![span(0, 2), span(5, 5), span(7, 9)])), vec![0, 1, 7, 8]);
    assert_eq!(count(flatten(vec![span(0, 2), span(5, 5), span(7, 9)])), 4);
}
