//! Producers made from other producers: reversal and mapping.

use vstd::prelude::*;
use core::marker::PhantomData;
use crate::cursor::{BackCursor, Cursor};
use crate::stream::{lemma_map, lemma_map_back, Stream};

verus! {

/// A finite stream read from its high end. A stream that does not end, or
/// that stalls, has no last item: read from there it gives nothing, no
/// exhaustion either.
pub open spec fn reversed<T>(s: Stream<T>) -> Stream<T> {
    match s {
        Stream::Finite(q) => Stream::Finite(q.reverse()),
        _ => Stream::Stalled(Seq::empty()),
    }
}

/// A producer with its two ends exchanged.
pub struct Rev<C> {
    inner: C,
}

impl<C: BackCursor> Cursor for Rev<C> {
    type Item = C::Item;

    closed spec fn stream(&self) -> Stream<C::Item> {
        reversed(self.inner.stream())
    }

    fn next(&mut self) -> (r: Option<C::Item>) {
        let ghost q = self.inner.stream().items();
        let r = self.inner.next_back();
        proof {
            if q.len() > 0 {
                assert(q.drop_last().reverse() =~= q.reverse().drop_first());
            }
        }
        r
    }
}

impl<C: BackCursor> BackCursor for Rev<C> {
    fn next_back(&mut self) -> (r: Option<C::Item>) {
        let ghost q = self.inner.stream().items();
        let r = self.inner.next();
        proof {
            if q.len() > 0 {
                assert(q.drop_first().reverse() =~= q.reverse().drop_last());
            }
        }
        r
    }
}

/// The producer `c` with its two ends exchanged.
pub fn rev<C: BackCursor>(c: C) -> (r: Rev<C>)
    ensures
        r.stream() == reversed(c.stream()),
{
    Rev { inner: c }
}

/// `f` can be called on every argument, and what it returns depends on the
/// argument alone.
pub open spec fn faithful<A, B, F: Fn(A) -> B>(f: F) -> bool {
    &&& forall|a: A| #[trigger] f.requires((a,))
    &&& forall|a: A, b1: B, b2: B|
        #[trigger] f.ensures((a,), b1) && #[trigger] f.ensures((a,), b2) ==> b1 == b2
}

/// What `f` returns on `a`.
pub open spec fn image<A, B, F: Fn(A) -> B>(f: F, a: A) -> B {
    choose|b: B| f.ensures((a,), b)
}

/// The stream of what `f` returns on the items of `s`. Where `f` is not
/// faithful nothing is known of it, and the stream cannot be pulled.
pub open spec fn mapped<A, B, F: Fn(A) -> B>(s: Stream<A>, f: F) -> Stream<B> {
    if faithful::<A, B, F>(f) {
        s.map(|a: A| image::<A, B, F>(f, a))
    } else {
        Stream::Stalled(Seq::empty())
    }
}

/// A producer of what a function returns on the items of another producer.
pub struct Mapped<C, B, F> {
    inner: C,
    f: F,
    out: PhantomData<B>,
}

impl<C: Cursor, B, F: Fn(C::Item) -> B> Mapped<C, B, F> {
    /// What the producer below has still to give.
    pub closed spec fn source(&self) -> Stream<C::Item> {
        self.inner.stream()
    }

    /// The function that is called on each item.
    pub closed spec fn func(&self) -> F {
        self.f
    }
}

impl<C: Cursor, B, F: Fn(C::Item) -> B> Cursor for Mapped<C, B, F> {
    type Item = B;

    open spec fn stream(&self) -> Stream<B> {
        mapped::<C::Item, B, F>(self.source(), self.func())
    }

    fn next(&mut self) -> (r: Option<B>)
        ensures
            final(self).func() == old(self).func(),
            final(self).source() == old(self).source().rest(),
            r matches Some(b) ==> old(self).func().ensures((old(self).source().at(0),), b),
    {
        proof {
            lemma_map(self.inner.stream(), |a: C::Item| image::<C::Item, B, F>(self.f, a));
        }
        match self.inner.next() {
            Some(a) => Some((self.f)(a)),
            None => None,
        }
    }
}

impl<C: BackCursor, B, F: Fn(C::Item) -> B> BackCursor for Mapped<C, B, F> {
    fn next_back(&mut self) -> (r: Option<B>)
        ensures
            final(self).func() == old(self).func(),
            final(self).source() == old(self).source().rest_back(),
            r matches Some(b) ==> old(self).func().ensures((old(self).source().items().last(),), b),
    {
        proof {
            lemma_map(self.inner.stream(), |a: C::Item| image::<C::Item, B, F>(self.f, a));
            lemma_map_back(self.inner.stream(), |a: C::Item| image::<C::Item, B, F>(self.f, a));
        }
        match self.inner.next_back() {
            Some(a) => Some((self.f)(a)),
            None => None,
        }
    }
}

/// The producer of what `f` returns on the items of `c`, in their order.
pub fn map_items<C: Cursor, B, F: Fn(C::Item) -> B>(c: C, f: F) -> (r: Mapped<C, B, F>)
    ensures
        r.source() == c.stream(),
        r.func() == f,
{
    Mapped { inner: c, f, out: PhantomData }
}

} // verus!
