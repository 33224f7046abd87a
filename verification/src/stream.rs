//! The mathematical model of a lazy sequence.

use vstd::prelude::*;

verus! {

/// What a producer has still to give, seen from its low end.
#[verifier::ext_equal]
pub enum Stream<T> {
    /// These items, then exhaustion, reported for ever after.
    Finite(Seq<T>),
    /// One item for every index: exhaustion is never reported.
    Endless(spec_fn(nat) -> T),
    /// These items; a pull after the last of them never returns.
    Stalled(Seq<T>),
}

impl<T> Stream<T> {
    /// The stream that is exhausted.
    pub open spec fn done() -> Stream<T> {
        Stream::Finite(Seq::empty())
    }

    /// The next pull would never return.
    pub open spec fn blocked(self) -> bool {
        self matches Stream::Stalled(q) && q.len() == 0
    }

    /// There is an item at index `i`, counted from the low end.
    pub open spec fn reaches(self, i: nat) -> bool {
        match self {
            Stream::Finite(q) => i < q.len(),
            Stream::Endless(_) => true,
            Stream::Stalled(q) => i < q.len(),
        }
    }

    /// The item at index `i`, counted from the low end.
    pub open spec fn at(self, i: nat) -> T {
        match self {
            Stream::Finite(q) => q[i as int],
            Stream::Endless(f) => f(i),
            Stream::Stalled(q) => q[i as int],
        }
    }

    /// What a pull from the low end returns.
    pub open spec fn first(self) -> Option<T> {
        if self.reaches(0) {
            Some(self.at(0))
        } else {
            None
        }
    }

    /// What is left after a pull from the low end.
    pub open spec fn rest(self) -> Stream<T> {
        match self {
            Stream::Finite(q) => if q.len() > 0 {
                Stream::Finite(q.drop_first())
            } else {
                self
            },
            Stream::Endless(f) => Stream::Endless(|i: nat| f(i + 1)),
            Stream::Stalled(q) => if q.len() > 0 {
                Stream::Stalled(q.drop_first())
            } else {
                self
            },
        }
    }

    /// The items of a finite stream; of any other, the items before it stalls.
    pub open spec fn items(self) -> Seq<T> {
        match self {
            Stream::Finite(q) => q,
            Stream::Endless(_) => Seq::empty(),
            Stream::Stalled(q) => q,
        }
    }

    /// What a pull from the high end of a finite stream returns.
    pub open spec fn last(self) -> Option<T> {
        if self is Finite && self.items().len() > 0 {
            Some(self.items().last())
        } else {
            None
        }
    }

    /// What is left of a finite stream after a pull from the high end.
    pub open spec fn rest_back(self) -> Stream<T> {
        if self is Finite && self.items().len() > 0 {
            Stream::Finite(self.items().drop_last())
        } else {
            self
        }
    }

    /// What is left after `n` pulls from the low end.
    pub open spec fn skip(self, n: nat) -> Stream<T>
        decreases n,
    {
        if n == 0 {
            self
        } else {
            self.rest().skip((n - 1) as nat)
        }
    }

    /// What is left of a finite stream after `n` pulls from the high end.
    pub open spec fn skip_back(self, n: nat) -> Stream<T>
        decreases n,
    {
        if n == 0 {
            self
        } else {
            self.rest_back().skip_back((n - 1) as nat)
        }
    }

    /// The stream with `x` put before its first item.
    pub open spec fn cons(self, x: T) -> Stream<T> {
        match self {
            Stream::Finite(q) => Stream::Finite(seq![x] + q),
            Stream::Endless(f) => Stream::Endless(
                |i: nat| if i == 0 { x } else { f((i - 1) as nat) },
            ),
            Stream::Stalled(q) => Stream::Stalled(seq![x] + q),
        }
    }

    /// The stream of the images of the items under `f`.
    pub open spec fn map<U>(self, f: spec_fn(T) -> U) -> Stream<U> {
        match self {
            Stream::Finite(q) => Stream::Finite(q.map_values(f)),
            Stream::Endless(g) => Stream::Endless(|i: nat| f(g(i))),
            Stream::Stalled(q) => Stream::Stalled(q.map_values(f)),
        }
    }
}

/// Putting an item before a stream and pulling it again gives the stream.
pub proof fn lemma_cons<T>(s: Stream<T>, x: T)
    ensures
        s.cons(x).reaches(0),
        s.cons(x).at(0) == x,
        s.cons(x).rest() == s,
        s.cons(x) is Finite <==> s is Finite,
        s.cons(x) is Endless <==> s is Endless,
        s is Finite ==> s.cons(x).items() == seq![x] + s.items(),
{
    match s {
        Stream::Finite(q) => {
            assert((seq![x] + q).drop_first() =~= q);
        },
        Stream::Endless(f) => {
            assert(s.cons(x).rest() =~~= s);
        },
        Stream::Stalled(q) => {
            assert((seq![x] + q).drop_first() =~= q);
        },
    }
}

/// Pulling the first item and putting it back gives the stream.
pub proof fn lemma_uncons<T>(s: Stream<T>)
    requires
        s.reaches(0),
    ensures
        s.rest().cons(s.at(0)) == s,
{
    match s {
        Stream::Finite(q) => {
            assert(seq![q[0]] + q.drop_first() =~= q);
        },
        Stream::Endless(f) => {
            assert(s.rest().cons(s.at(0)) =~~= s);
        },
        Stream::Stalled(q) => {
            assert(seq![q[0]] + q.drop_first() =~= q);
        },
    }
}

/// A stream that is neither stalled at once nor has a first item is
/// exhausted.
pub proof fn lemma_none_is_done<T>(s: Stream<T>)
    requires
        !s.blocked(),
        s.first() is None,
    ensures
        s == Stream::<T>::done(),
        s.rest() == s,
{
    assert(s.items() =~= Seq::<T>::empty());
}

/// After `n` pulls from the low end the item at index `n` comes next.
pub proof fn lemma_skip<T>(s: Stream<T>, n: nat)
    ensures
        s.skip(n).rest() == s.skip(n + 1),
        s.skip(n).reaches(0) == s.reaches(n),
        s.reaches(n) ==> s.skip(n).at(0) == s.at(n),
    decreases n,
{
    if n == 0 {
        assert(s.skip(1) == s.rest().skip(0));
    } else {
        lemma_skip(s.rest(), (n - 1) as nat);
        assert(s.skip(n + 1) == s.rest().skip(n));
    }
}

/// After `n` pulls from the high end of a finite stream its items but the
/// last `n` are left.
pub proof fn lemma_skip_back<T>(s: Stream<T>, n: nat)
    requires
        s is Finite,
    ensures
        s.skip_back(n).rest_back() == s.skip_back(n + 1),
        s.skip_back(n) == Stream::Finite(
            s.items().take(if n <= s.items().len() { s.items().len() - n } else { 0 }),
        ),
    decreases n,
{
    let q = s.items();
    if n == 0 {
        assert(s.skip_back(1) == s.rest_back().skip_back(0));
        assert(q.take(q.len() as int) =~= q);
    } else {
        lemma_skip_back(s.rest_back(), (n - 1) as nat);
        assert(s.skip_back(n + 1) == s.rest_back().skip_back(n));
        if q.len() > 0 {
            let k = if n <= q.len() { q.len() - n } else { 0 };
            assert(q.drop_last().take(k) =~= q.take(k));
        }
    }
}

/// Mapping goes through a pull from the low end.
pub proof fn lemma_map<T, U>(s: Stream<T>, f: spec_fn(T) -> U)
    ensures
        s.map(f).rest() == s.rest().map(f),
        s.map(f).first() == (if s.reaches(0) { Some(f(s.at(0))) } else { None }),
        s.map(f).reaches(0) == s.reaches(0),
        s.map(f).blocked() == s.blocked(),
        s.map(f) is Finite <==> s is Finite,
        s.map(f) is Endless <==> s is Endless,
{
    match s {
        Stream::Finite(q) => {
            if q.len() > 0 {
                assert(q.map_values(f).drop_first() =~= q.drop_first().map_values(f));
            }
        },
        Stream::Endless(g) => {
            assert(s.map(f).rest() =~~= s.rest().map(f));
        },
        Stream::Stalled(q) => {
            if q.len() > 0 {
                assert(q.map_values(f).drop_first() =~= q.drop_first().map_values(f));
            }
        },
    }
}

/// Mapping keeps the places of the items.
pub proof fn lemma_map_at<T, U>(s: Stream<T>, f: spec_fn(T) -> U, i: nat)
    ensures
        s.map(f).reaches(i) == s.reaches(i),
        s.reaches(i) ==> s.map(f).at(i) == f(s.at(i)),
{
}

/// Mapping goes through a pull from the high end.
pub proof fn lemma_map_back<T, U>(s: Stream<T>, f: spec_fn(T) -> U)
    requires
        s is Finite,
    ensures
        s.map(f).rest_back() == s.rest_back().map(f),
        s.map(f).last() == (if s.items().len() > 0 { Some(f(s.items().last())) } else { None }),
{
    let q = s.items();
    if q.len() > 0 {
        assert(q.map_values(f).drop_last() =~= q.drop_last().map_values(f));
    }
}

} // verus!
