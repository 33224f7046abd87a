//! The pull protocol: producers that give one item per call.

use vstd::prelude::*;
use crate::stream::Stream;

verus! {

/// A one-pass producer that is pulled from its low end.
pub trait Cursor {
    type Item;

    /// What the producer has still to give.
    spec fn stream(&self) -> Stream<Self::Item>;

    /// Pulls the lowest item that was not yet visited, or reports exhaustion.
    fn next(&mut self) -> (r: Option<Self::Item>)
        requires
            !old(self).stream().blocked(),
        ensures
            r == old(self).stream().first(),
            final(self).stream() == old(self).stream().rest(),
    ;
}

/// A producer that can also be pulled from its high end.
pub trait BackCursor: Cursor {
    /// Pulls the highest item that was not yet visited, or reports exhaustion.
    fn next_back(&mut self) -> (r: Option<Self::Item>)
        requires
            old(self).stream() is Finite,
        ensures
            r == old(self).stream().last(),
            final(self).stream() == old(self).stream().rest_back(),
    ;
}

/// A value that can be turned into a producer of items.
pub trait IntoCursor {
    type Item;

    type Cursor: Cursor<Item = Self::Item>;

    /// What the producer made from this value will give.
    spec fn contents(&self) -> Stream<Self::Item>;

    fn into_cursor(self) -> (c: Self::Cursor)
        ensures
            c.stream() == self.contents(),
    ;
}

impl<C: Cursor> IntoCursor for C {
    type Item = C::Item;

    type Cursor = C;

    open spec fn contents(&self) -> Stream<C::Item> {
        self.stream()
    }

    fn into_cursor(self) -> (c: C) {
        self
    }
}

} // verus!
