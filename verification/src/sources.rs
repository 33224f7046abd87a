//! Producers to start from: a vector, a single item, a range of integers.

use vstd::prelude::*;
use std::collections::VecDeque;
use crate::cursor::{BackCursor, Cursor, IntoCursor};
use crate::stream::Stream;

verus! {

/// The items of a vector, owned, pulled from either end.
pub struct VecCursor<T> {
    items: VecDeque<T>,
}

/// `VecDeque::from` on a vector: the deque holds the vector's items in the
/// vector's order.
#[verifier::external_body]
fn deque_of<T>(v: Vec<T>) -> (d: VecDeque<T>)
    ensures
        d@ == v@,
{
    VecDeque::from(v)
}

impl<T> Cursor for VecCursor<T> {
    type Item = T;

    closed spec fn stream(&self) -> Stream<T> {
        Stream::Finite(self.items@)
    }

    fn next(&mut self) -> (r: Option<T>) {
        self.items.pop_front()
    }
}

impl<T> BackCursor for VecCursor<T> {
    fn next_back(&mut self) -> (r: Option<T>) {
        self.items.pop_back()
    }
}

impl<T> IntoCursor for Vec<T> {
    type Item = T;

    type Cursor = VecCursor<T>;

    open spec fn contents(&self) -> Stream<T> {
        Stream::Finite(self@)
    }

    fn into_cursor(self) -> (c: VecCursor<T>) {
        VecCursor { items: deque_of(self) }
    }
}

/// A producer of one item.
pub struct Once<T> {
    slot: Option<T>,
}

impl<T> Cursor for Once<T> {
    type Item = T;

    closed spec fn stream(&self) -> Stream<T> {
        match self.slot {
            Some(x) => Stream::Finite(seq![x]),
            None => Stream::done(),
        }
    }

    fn next(&mut self) -> (r: Option<T>) {
        let r = self.slot.take();
        proof {
            if r is Some {
                assert(seq![r->0].drop_first() =~= Seq::<T>::empty());
            }
        }
        r
    }
}

impl<T> BackCursor for Once<T> {
    fn next_back(&mut self) -> (r: Option<T>) {
        let r = self.slot.take();
        proof {
            if r is Some {
                assert(seq![r->0].drop_last() =~= Seq::<T>::empty());
            }
        }
        r
    }
}

/// The producer of `item` alone.
pub fn once<T>(item: T) -> (c: Once<T>)
    ensures
        c.stream() == Stream::Finite(seq![item]),
{
    Once { slot: Some(item) }
}

/// The integers from `lo` up to, not including, `hi`.
#[derive(Clone, Copy, Debug)]
pub struct Span {
    /// The next integer from the low end.
    pub lo: u64,
    /// The integer after the next one from the high end.
    pub hi: u64,
}

/// The integers `lo`, `lo + 1`, ... below `hi`, in rising order.
pub open spec fn span_items(lo: u64, hi: u64) -> Seq<u64> {
    Seq::new(if lo < hi { (hi - lo) as nat } else { 0 }, |i: int| (lo + i) as u64)
}

impl Cursor for Span {
    type Item = u64;

    open spec fn stream(&self) -> Stream<u64> {
        Stream::Finite(span_items(self.lo, self.hi))
    }

    fn next(&mut self) -> (r: Option<u64>) {
        if self.lo < self.hi {
            let v: u64 = self.lo;
            self.lo = v + 1;
            proof {
                assert(span_items(v, self.hi).drop_first() =~= span_items(self.lo, self.hi));
            }
            Some(v)
        } else {
            None
        }
    }
}

impl BackCursor for Span {
    fn next_back(&mut self) -> (r: Option<u64>) {
        if self.lo < self.hi {
            let ghost before = span_items(self.lo, self.hi);
            self.hi = self.hi - 1;
            proof {
                assert(before.drop_last() =~= span_items(self.lo, self.hi));
            }
            Some(self.hi)
        } else {
            None
        }
    }
}

/// The half-open range from `lo` to `hi`; empty where `hi <= lo`.
pub fn span(lo: u64, hi: u64) -> (c: Span)
    ensures
        c == (Span { lo, hi }),
{
    Span { lo, hi }
}

/// The integers from a first one upwards, without end: after the largest
/// integer comes zero.
pub struct Counter {
    next: u64,
}

/// The integer that comes `i` places after `first`.
pub open spec fn counted(first: u64, i: nat) -> u64 {
    ((first + i) % 0x1_0000_0000_0000_0000) as u64
}

impl Cursor for Counter {
    type Item = u64;

    closed spec fn stream(&self) -> Stream<u64> {
        Stream::Endless(|i: nat| counted(self.next, i))
    }

    fn next(&mut self) -> (r: Option<u64>) {
        let v: u64 = self.next;
        self.next = if v == u64::MAX {
            0
        } else {
            v + 1
        };
        proof {
            assert(self.stream() =~~= old(self).stream().rest());
        }
        Some(v)
    }
}

/// The producer of `first`, `first + 1`, and so on.
pub fn count_from(first: u64) -> (c: Counter)
    ensures
        c.stream() == Stream::Endless(|i: nat| counted(first, i)),
{
    Counter { next: first }
}

} // verus!
