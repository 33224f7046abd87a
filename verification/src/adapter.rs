//! The flattening adapter.

use vstd::prelude::*;
use crate::cursor::{BackCursor, Cursor, IntoCursor};
use crate::flat::{
    advance, closed, covers, flat, joined, lemma_flat_advance, lemma_flat_blocked,
    lemma_flat_end, lemma_flat_live, lemma_flat_skip, lemma_joined_drop_last,
    lemma_joined_retreat, lemma_skip_covers, lemma_skip_locate, locate, retreat,
};
use crate::stream::{
    lemma_cons, lemma_map, lemma_map_at, lemma_map_back, lemma_none_is_done, lemma_skip,
    lemma_skip_back, lemma_uncons, Stream,
};

verus! {

/// The streams that the items of `s` turn into.
pub open spec fn nested<I: IntoCursor>(s: Stream<I>) -> Stream<Stream<I::Item>> {
    s.map(|it: I| it.contents())
}

/// The pieces `mid` with the piece `back` behind them, where `mid` ends.
/// Behind pieces that never end, or that stall, nothing is reached.
pub open spec fn with_back<T>(mid: Stream<Stream<T>>, back: Option<Stream<T>>) -> Stream<
    Stream<T>,
> {
    match (mid, back) {
        (Stream::Finite(ps), Some(b)) => Stream::Finite(ps.push(b)),
        _ => mid,
    }
}

/// The pieces `tail` with the piece `front` before them.
pub open spec fn with_front<T>(front: Option<Stream<T>>, tail: Stream<Stream<T>>) -> Stream<
    Stream<T>,
> {
    match front {
        Some(f) => tail.cons(f),
        None => tail,
    }
}

/// A pull from the low end of the middle pieces leaves the back piece where
/// it is.
pub proof fn lemma_with_back_rest<T>(mid: Stream<Stream<T>>, back: Option<Stream<T>>)
    requires
        mid.reaches(0),
    ensures
        with_back(mid, back).reaches(0),
        with_back(mid, back).at(0) == mid.at(0),
        with_back(mid, back).rest() == with_back(mid.rest(), back),
{
    if let (Stream::Finite(ps), Some(b)) = (mid, back) {
        assert(ps.push(b).drop_first() =~= ps.drop_first().push(b));
    }
}

/// A lazy sequence that visits every item of every sub-sequence of an outer
/// lazy sequence, in order, from both ends.
pub struct Flatten<O> where O: Cursor, O::Item: IntoCursor {
    outer: O,
    front: Option<<O::Item as IntoCursor>::Cursor>,
    back: Option<<O::Item as IntoCursor>::Cursor>,
}

impl<O> Flatten<O> where O: Cursor, O::Item: IntoCursor {
    /// The sub-sequences that were not yet taken out of the outer sequence.
    pub closed spec fn outer_stream(&self) -> Stream<O::Item> {
        self.outer.stream()
    }

    /// What is left of the sub-sequence that is drained from the low end.
    pub closed spec fn front_stream(&self) -> Option<Stream<<O::Item as IntoCursor>::Item>> {
        match self.front {
            Some(c) => Some(c.stream()),
            None => None,
        }
    }

    /// What is left of the sub-sequence that is drained from the high end.
    pub closed spec fn back_stream(&self) -> Option<Stream<<O::Item as IntoCursor>::Item>> {
        match self.back {
            Some(c) => Some(c.stream()),
            None => None,
        }
    }

    /// The sub-sequences of which the remaining output is made: the front
    /// one, those still in the outer sequence, and the back one.
    pub open spec fn pieces(&self) -> Stream<Stream<<O::Item as IntoCursor>::Item>> {
        with_front(
            self.front_stream(),
            with_back(nested(self.outer_stream()), self.back_stream()),
        )
    }

    /// The front sub-sequence is held and has an item.
    pub open spec fn holds_front(&self) -> bool {
        self.front_stream() matches Some(f) && f.reaches(0)
    }

    /// The back sub-sequence is held, is finite and has an item.
    pub open spec fn holds_back(&self) -> bool {
        self.back_stream() matches Some(b) && b.last() is Some
    }

    /// This is the state after a pull from the low end in the state `before`,
    /// in which the front sub-sequence gave nothing and the outer sequence
    /// had `n` exhausted sub-sequences at its low end. They were taken out,
    /// and the one after them too: it is the front sub-sequence now, less
    /// its first item. Where none came after them the outer sequence is
    /// exhausted, and the pull went to the back sub-sequence.
    pub open spec fn refilled(&self, before: Self, n: nat) -> bool {
        let o = before.outer_stream();
        let mid = nested(o);
        &&& forall|i: nat|
            i < n ==> o.reaches(i) && (#[trigger] mid.at(i)) == Stream::<
                <O::Item as IntoCursor>::Item,
            >::done()
        &&& if o.reaches(n) {
            &&& mid.at(n) != Stream::<<O::Item as IntoCursor>::Item>::done()
            &&& self.outer_stream() == o.skip(n + 1)
            &&& self.front_stream() == Some(mid.at(n).rest())
            &&& self.back_stream() == before.back_stream()
        } else {
            &&& self.outer_stream() == o.skip(n)
            &&& self.front_stream() is None
            &&& self.back_stream() == (match before.back_stream() {
                Some(b) => Some(b.rest()),
                None => None,
            })
        }
    }

    /// This is the state after a pull from the high end in the state
    /// `before`, in which the back sub-sequence gave nothing and the outer
    /// sequence had `n` exhausted sub-sequences at its high end. They were
    /// taken out, and the one before them too: it is the back sub-sequence
    /// now, less its last item. Where none came before them the outer
    /// sequence is exhausted, and the pull went to the front sub-sequence.
    pub open spec fn refilled_back(&self, before: Self, n: nat) -> bool {
        let o = before.outer_stream();
        let ps = nested(o).items();
        &&& o is Finite
        &&& n <= ps.len()
        &&& forall|i: int|
            ps.len() - n <= i < ps.len() ==> (#[trigger] ps[i]) == Stream::<
                <O::Item as IntoCursor>::Item,
            >::done()
        &&& if n < ps.len() {
            &&& ps[ps.len() - 1 - n] != Stream::<<O::Item as IntoCursor>::Item>::done()
            &&& self.outer_stream() == o.skip_back(n + 1)
            &&& self.back_stream() == Some(ps[ps.len() - 1 - n].rest_back())
            &&& self.front_stream() == before.front_stream()
        } else {
            &&& self.outer_stream() == o.skip_back(n)
            &&& self.back_stream() is None
            &&& self.front_stream() == (match before.front_stream() {
                Some(f) => Some(f.rest_back()),
                None => None,
            })
        }
    }

    /// Wraps an outer sequence. No item of it is pulled.
    pub fn new(iter: O) -> (r: Self)
        ensures
            r.outer_stream() == iter.stream(),
            r.front_stream() is None,
            r.back_stream() is None,
            r.stream() == flat(nested(iter.stream())),
    {
        Flatten { outer: iter, front: None, back: None }
    }
}

impl<O> Cursor for Flatten<O> where O: Cursor, O::Item: IntoCursor {
    type Item = <O::Item as IntoCursor>::Item;

    open spec fn stream(&self) -> Stream<<O::Item as IntoCursor>::Item> {
        flat(self.pieces())
    }

    /// Pulls the lowest item that was not yet visited: from the front
    /// sub-sequence while it has one, else from the next sub-sequence of the
    /// outer sequence that is not empty, else from the back sub-sequence.
    /// The outer sequence is pulled no further than to the sub-sequence
    /// that gives the item.
    fn next(&mut self) -> (r: Option<<O::Item as IntoCursor>::Item>)
        ensures
            old(self).holds_front() ==> {
                &&& final(self).front_stream() == Some(old(self).front_stream()->0.rest())
                &&& final(self).outer_stream() == old(self).outer_stream()
                &&& final(self).back_stream() == old(self).back_stream()
            },
            !old(self).holds_front() ==> exists|n: nat| final(self).refilled(*old(self), n),
    {
        let ghost start = self.pieces();
        let ghost o0 = self.outer_stream();
        let ghost mid0 = nested(o0);
        let ghost mut m: nat = 0;
        let ghost mut fuel: nat = 0;
        proof {
            lemma_flat_live(start);
            if covers(start, 0) {
                fuel = choose|k: nat| (#[trigger] locate(start, k, 0)) is Some;
            } else {
                fuel = start.items().len();
            }
        }
        loop
            invariant
                start == old(self).pieces(),
                o0 == old(self).outer_stream(),
                mid0 == nested(o0),
                flat(self.pieces()) == flat(start),
                !flat(start).blocked(),
                covers(self.pieces(), 0) ==> locate(self.pieces(), fuel, 0) is Some,
                !covers(self.pieces(), 0) ==> closed(self.pieces()) && fuel
                    == self.pieces().items().len(),
                self.back_stream() == old(self).back_stream(),
                self.outer_stream() == o0.skip(m),
                m == 0 ==> self.front_stream() == old(self).front_stream(),
                m > 0 ==> {
                    &&& !old(self).holds_front()
                    &&& o0.reaches((m - 1) as nat)
                    &&& self.front_stream() == Some(mid0.at((m - 1) as nat))
                    &&& forall|i: nat|
                        i < m - 1 ==> o0.reaches(i) && (#[trigger] mid0.at(i)) == Stream::<
                            <O::Item as IntoCursor>::Item,
                        >::done()
                },
            decreases fuel, (if self.front is None { 1nat } else { 0nat }),
        {
            let ghost p = self.pieces();
            let ghost tail = with_back(nested(self.outer_stream()), self.back_stream());
            match self.front.take() {
                Some(mut it) => {
                    let ghost before = it.stream();
                    proof {
                        lemma_cons(tail, before);
                        if before.blocked() {
                            lemma_flat_blocked(p);
                        }
                    }
                    let v = it.next();
                    self.front = Some(it);
                    if v.is_some() {
                        proof {
                            lemma_flat_advance(p);
                            assert(self.pieces() == advance(p));
                            if m > 0 {
                                assert(self.refilled(*old(self), (m - 1) as nat));
                            }
                        }
                        return v;
                    }
                    proof {
                        lemma_none_is_done(before);
                        assert(self.pieces() == p);
                    }
                },
                None => {},
            }
            let ghost o = self.outer_stream();
            let ghost had_front = self.front is Some;
            proof {
                assert(!old(self).holds_front());
                assert forall|i: nat| i < m implies o0.reaches(i) && (#[trigger] mid0.at(i))
                    == Stream::<<O::Item as IntoCursor>::Item>::done() by {}
                lemma_skip(o0, m);
                lemma_map_at(o0, |it: O::Item| it.contents(), m);
                lemma_map(o, |it: O::Item| it.contents());
                if had_front {
                    lemma_cons(tail, Stream::done());
                    lemma_flat_skip(p);
                    lemma_skip_covers(p, 0);
                }
                if o.blocked() {
                    lemma_flat_end(tail);
                }
            }
            match self.outer.next() {
                Some(x) => {
                    let c = x.into_cursor();
                    self.front = Some(c);
                    proof {
                        lemma_with_back_rest(nested(o), self.back_stream());
                        lemma_uncons(tail);
                        assert(self.pieces() == tail);
                        if had_front {
                            if covers(p, 0) {
                                lemma_skip_locate(p, (fuel - 1) as nat, 0);
                            }
                            fuel = (fuel - 1) as nat;
                        }
                        m = m + 1;
                    }
                },
                None => {
                    self.front = None;
                    proof {
                        lemma_none_is_done(o);
                        assert(self.pieces() == tail);
                        assert(!o0.reaches(m));
                    }
                    match self.back.take() {
                        Some(mut b) => {
                            let ghost bs = b.stream();
                            proof {
                                assert(nested(o).items() =~= Seq::empty());
                                assert(tail.items() =~= seq![bs]);
                                if bs.blocked() {
                                    lemma_flat_blocked(tail);
                                }
                            }
                            let v = b.next();
                            self.back = Some(b);
                            proof {
                                if bs.reaches(0) {
                                    lemma_flat_advance(tail);
                                    assert(advance(tail).items() =~= seq![bs.rest()]);
                                    assert(self.pieces().items() =~= seq![bs.rest()]);
                                    assert(self.pieces() == advance(tail));
                                } else {
                                    lemma_none_is_done(bs);
                                    assert(self.pieces().items() =~= seq![bs]);
                                    assert(self.pieces() == tail);
                                    lemma_flat_skip(tail);
                                    lemma_flat_end(tail.rest());
                                }
                                assert(self.refilled(*old(self), m));
                            }
                            return v;
                        },
                        None => {
                            proof {
                                lemma_flat_end(tail);
                                assert(self.refilled(*old(self), m));
                            }
                            return None;
                        },
                    }
                },
            }
        }
    }
}

impl<O> BackCursor for Flatten<O> where
    O: BackCursor,
    O::Item: IntoCursor,
    <O::Item as IntoCursor>::Cursor: BackCursor,
 {
    /// Pulls the highest item that was not yet visited: from the back
    /// sub-sequence while it has one, else from the last sub-sequence of the
    /// outer sequence that is not empty, else from the front sub-sequence.
    fn next_back(&mut self) -> (r: Option<<O::Item as IntoCursor>::Item>)
        ensures
            old(self).holds_back() ==> {
                &&& final(self).back_stream() == Some(old(self).back_stream()->0.rest_back())
                &&& final(self).outer_stream() == old(self).outer_stream()
                &&& final(self).front_stream() == old(self).front_stream()
            },
            !old(self).holds_back() ==> exists|n: nat| final(self).refilled_back(*old(self), n),
    {
        let ghost start = self.pieces();
        let ghost o0 = self.outer_stream();
        let ghost ps0 = nested(o0).items();
        let ghost mut m: nat = 0;
        proof {
            lemma_map(o0, |it: O::Item| it.contents());
            lemma_cons(
                with_back(nested(o0), self.back_stream()),
                self.front_stream().unwrap_or(Stream::done()),
            );
        }
        loop
            invariant
                start == old(self).pieces(),
                o0 == old(self).outer_stream(),
                ps0 == nested(o0).items(),
                o0 is Finite,
                closed(start),
                closed(self.pieces()),
                joined(self.pieces()) == joined(start),
                self.front_stream() == old(self).front_stream(),
                self.outer_stream() == o0.skip_back(m),
                m <= ps0.len(),
                m == 0 ==> self.back_stream() == old(self).back_stream(),
                m > 0 ==> {
                    &&& !old(self).holds_back()
                    &&& self.back_stream() == Some(ps0[ps0.len() - m])
                    &&& forall|i: int|
                        ps0.len() - m < i < ps0.len() ==> (#[trigger] ps0[i]) == Stream::<
                            <O::Item as IntoCursor>::Item,
                        >::done()
                },
            decreases self.pieces().items().len(), (if self.back is None { 1nat } else { 0nat }),
        {
            let ghost p = self.pieces();
            let ghost o = self.outer_stream();
            let ghost mid = nested(o);
            let ghost front = self.front_stream();
            proof {
                lemma_map(o, |it: O::Item| it.contents());
                lemma_map_back(o, |it: O::Item| it.contents());
                lemma_cons(with_back(mid, self.back_stream()), front.unwrap_or(Stream::done()));
                lemma_cons(with_back(mid, None), front.unwrap_or(Stream::done()));
            }
            match self.back.take() {
                Some(mut b) => {
                    let ghost bs = b.stream();
                    proof {
                        assert(p.items().last() == bs);
                    }
                    let v = b.next_back();
                    self.back = Some(b);
                    if v.is_some() {
                        proof {
                            lemma_cons(
                                with_back(mid, Some(bs.rest_back())),
                                front.unwrap_or(Stream::done()),
                            );
                            lemma_joined_retreat(p);
                            assert(self.pieces().items() =~= retreat(p).items());
                            if m > 0 {
                                assert(self.refilled_back(*old(self), (m - 1) as nat));
                            }
                        }
                        return v;
                    }
                    proof {
                        assert(bs.items() =~= Seq::empty());
                        assert(self.pieces() == p);
                    }
                },
                None => {},
            }
            let ghost had_back = self.back is Some;
            proof {
                assert(!old(self).holds_back());
                assert forall|i: int| ps0.len() - m <= i < ps0.len() implies (#[trigger] ps0[i])
                    == Stream::<<O::Item as IntoCursor>::Item>::done() by {}
                lemma_skip_back(o0, m);
                if had_back {
                    lemma_joined_drop_last(p);
                    assert(p.rest_back().items() =~= with_front(
                        front,
                        with_back(mid, None),
                    ).items());
                }
            }
            match self.outer.next_back() {
                Some(x) => {
                    let c = x.into_cursor();
                    self.back = Some(c);
                    proof {
                        lemma_cons(
                            with_back(nested(self.outer_stream()), self.back_stream()),
                            front.unwrap_or(Stream::done()),
                        );
                        assert(with_back(nested(self.outer_stream()), self.back_stream()).items()
                            =~= mid.items());
                        assert(self.pieces().items() =~= with_front(
                            front,
                            with_back(mid, None),
                        ).items());
                        assert(m < ps0.len());
                        assert(o.items().last() == o0.items()[ps0.len() - m - 1]);
                        m = m + 1;
                    }
                },
                None => {
                    self.back = None;
                    proof {
                        assert(o.items() =~= Seq::empty());
                        assert(mid.items() =~= Seq::empty());
                        assert(m == ps0.len());
                    }
                    match self.front.take() {
                        Some(mut f) => {
                            let ghost fs = f.stream();
                            let ghost single = self.pieces().cons(fs);
                            proof {
                                assert(single.items() =~= seq![fs]);
                                assert(single.items() =~= with_front(
                                    front,
                                    with_back(mid, None),
                                ).items());
                                assert(fs is Finite);
                            }
                            let v = f.next_back();
                            self.front = Some(f);
                            proof {
                                assert(self.pieces().items() =~= seq![fs.rest_back()]);
                                if fs.items().len() > 0 {
                                    lemma_joined_retreat(single);
                                    assert(self.pieces().items() =~= retreat(single).items());
                                } else {
                                    assert(fs.items() =~= Seq::empty());
                                    lemma_joined_drop_last(single);
                                    lemma_flat_end(single.rest_back());
                                    assert(self.pieces() == single);
                                }
                                assert(self.refilled_back(*old(self), m));
                            }
                            return v;
                        },
                        None => {
                            proof {
                                lemma_flat_end(self.pieces());
                                assert(self.refilled_back(*old(self), m));
                            }
                            return None;
                        },
                    }
                },
            }
        }
    }
}

/// The adapter over the producer that `iter` turns into.
pub fn flatten<O>(iter: O) -> (r: Flatten<O::Cursor>) where O: IntoCursor, O::Item: IntoCursor
    ensures
        r.outer_stream() == iter.contents(),
        r.front_stream() is None,
        r.back_stream() is None,
        r.stream() == flat(nested(iter.contents())),
{
    Flatten::new(iter.into_cursor())
}

} // verus!
