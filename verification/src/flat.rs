//! What flattening means on the model: a stream of streams read as one
//! stream.

use vstd::prelude::*;
use crate::stream::Stream;

verus! {

/// Item `i` of the flattening of `p`, looked for in the first `k` pieces.
/// A piece that never ends, or that stalls, hides every piece behind it.
pub open spec fn locate<T>(p: Stream<Stream<T>>, k: nat, i: nat) -> Option<T>
    decreases k,
{
    if k == 0 || !p.reaches(0) {
        None
    } else {
        match p.at(0) {
            Stream::Finite(q) => if i < q.len() {
                Some(q[i as int])
            } else {
                locate(p.rest(), (k - 1) as nat, (i - q.len()) as nat)
            },
            Stream::Endless(f) => Some(f(i)),
            Stream::Stalled(q) => if i < q.len() {
                Some(q[i as int])
            } else {
                None
            },
        }
    }
}

/// The flattening of `p` has an item at index `i`.
pub open spec fn covers<T>(p: Stream<Stream<T>>, i: nat) -> bool {
    exists|k: nat| (#[trigger] locate(p, k, i)) is Some
}

/// Item `i` of the flattening of `p`.
pub open spec fn get<T>(p: Stream<Stream<T>>, i: nat) -> T {
    locate(p, choose|k: nat| (#[trigger] locate(p, k, i)) is Some, i)->0
}

/// The number of items of a flattening that has not an item at every index.
pub open spec fn size<T>(p: Stream<Stream<T>>) -> nat {
    choose|n: nat| !covers(p, n) && forall|i: nat| i < n ==> covers(p, i)
}

/// `p` has finitely many pieces, each of them finite.
pub open spec fn closed<T>(p: Stream<Stream<T>>) -> bool {
    &&& p is Finite
    &&& forall|j: int| 0 <= j < p.items().len() ==> (#[trigger] p.items()[j]) is Finite
}

/// The items of the pieces of `p`, piece after piece.
pub open spec fn joined<T>(p: Stream<Stream<T>>) -> Seq<T> {
    piece_items(p).flatten()
}

/// The items of each piece of `p`.
pub open spec fn piece_items<T>(p: Stream<Stream<T>>) -> Seq<Seq<T>> {
    Seq::new(p.items().len(), |j: int| p.items()[j].items())
}

/// The pieces of `p` read as one stream.
///
/// Finitely many finite pieces give their concatenation. Otherwise the
/// flattening never ends if it has an item at every index, and else stalls
/// behind its last item: in a piece that stalls, or in an outer stream that
/// goes on for ever, or stalls, with nothing more to give.
pub open spec fn flat<T>(p: Stream<Stream<T>>) -> Stream<T> {
    if closed(p) {
        Stream::Finite(joined(p))
    } else if forall|i: nat| covers(p, i) {
        Stream::Endless(|i: nat| get(p, i))
    } else {
        Stream::Stalled(Seq::new(size(p), |i: int| get(p, i as nat)))
    }
}

/// Looking in more pieces does not change an item that was found.
pub proof fn lemma_locate_more<T>(p: Stream<Stream<T>>, k: nat, k2: nat, i: nat)
    requires
        k <= k2,
        locate(p, k, i) is Some,
    ensures
        locate(p, k2, i) == locate(p, k, i),
    decreases k,
{
    if let Stream::Finite(q) = p.at(0) {
        if i >= q.len() {
            lemma_locate_more(p.rest(), (k - 1) as nat, (k2 - 1) as nat, (i - q.len()) as nat);
        }
    }
}

/// An item found in some number of pieces is the item of the flattening.
pub proof fn lemma_get<T>(p: Stream<Stream<T>>, k: nat, i: nat)
    requires
        locate(p, k, i) is Some,
    ensures
        covers(p, i),
        get(p, i) == locate(p, k, i)->0,
{
    let c = choose|c: nat| (#[trigger] locate(p, c, i)) is Some;
    if c <= k {
        lemma_locate_more(p, c, k, i);
    } else {
        lemma_locate_more(p, k, c, i);
    }
}

/// The first index without an item is the size.
pub proof fn lemma_size<T>(p: Stream<Stream<T>>, n: nat)
    requires
        !covers(p, n),
        forall|i: nat| i < n ==> covers(p, i),
    ensures
        size(p) == n,
{
    let m = size(p);
    if m < n {
        assert(covers(p, m));
    } else if n < m {
        assert(covers(p, n));
    }
}

/// A flattening that lacks an item has a first index without one.
pub proof fn lemma_size_exists<T>(p: Stream<Stream<T>>, i: nat)
    requires
        !covers(p, i),
    ensures
        size(p) <= i,
        !covers(p, size(p)),
        forall|j: nat| j < size(p) ==> covers(p, j),
    decreases i,
{
    if forall|j: nat| j < i ==> covers(p, j) {
        lemma_size(p, i);
    } else {
        let j = choose|j: nat| j < i && !covers(p, j);
        lemma_size_exists(p, j);
    }
}

/// A first piece that is exhausted adds nothing to what is found.
pub proof fn lemma_skip_locate<T>(p: Stream<Stream<T>>, k: nat, i: nat)
    requires
        p.reaches(0),
        p.at(0) == Stream::<T>::done(),
    ensures
        locate(p, k + 1, i) == locate(p.rest(), k, i),
{
    assert((k + 1 - 1) as nat == k);
    assert((i - 0) as nat == i);
}

/// A first piece that is exhausted changes no item of the flattening.
pub proof fn lemma_skip_covers<T>(p: Stream<Stream<T>>, i: nat)
    requires
        p.reaches(0),
        p.at(0) == Stream::<T>::done(),
    ensures
        covers(p, i) == covers(p.rest(), i),
        covers(p, i) ==> get(p, i) == get(p.rest(), i),
{
    let r = p.rest();
    if covers(p, i) {
        let k = choose|k: nat| (#[trigger] locate(p, k, i)) is Some;
        lemma_skip_locate(p, (k - 1) as nat, i);
        lemma_get(r, (k - 1) as nat, i);
        lemma_get(p, k, i);
    }
    if covers(r, i) {
        let k = choose|k: nat| (#[trigger] locate(r, k, i)) is Some;
        lemma_skip_locate(p, k, i);
        lemma_get(p, k + 1, i);
        lemma_get(r, k, i);
    }
}

/// A first piece that is exhausted adds nothing to the concatenation.
pub proof fn lemma_skip_joined<T>(p: Stream<Stream<T>>)
    requires
        p.reaches(0),
        p.at(0) == Stream::<T>::done(),
    ensures
        closed(p.rest()) == closed(p),
        joined(p.rest()) == joined(p),
{
    let r = p.rest();
    if p is Endless {
        assert(piece_items(r) =~= piece_items(p));
    } else {
        let ps = p.items();
        assert(r.items() =~= ps.drop_first());
        if closed(p) {
            assert forall|j: int| 0 <= j < r.items().len() implies (#[trigger] r.items()[j]) is Finite by {
                assert(ps[j + 1] is Finite);
            }
        }
        if closed(r) {
            assert forall|j: int| 0 <= j < ps.len() implies (#[trigger] ps[j]) is Finite by {
                if j > 0 {
                    assert(r.items()[j - 1] is Finite);
                }
            }
        }
        assert(piece_items(r) =~= piece_items(p).drop_first());
        assert(piece_items(p).first() =~= Seq::<T>::empty());
        assert(joined(p) =~= joined(r));
    }
}

/// A first piece that is exhausted can be left out.
pub proof fn lemma_flat_skip<T>(p: Stream<Stream<T>>)
    requires
        p.reaches(0),
        p.at(0) == Stream::<T>::done(),
    ensures
        flat(p.rest()) == flat(p),
        closed(p.rest()) == closed(p),
        joined(p.rest()) == joined(p),
{
    let r = p.rest();
    lemma_skip_joined(p);
    assert forall|i: nat| covers(p, i) == covers(r, i) && (covers(p, i) ==> get(p, i) == get(r, i)) by {
        lemma_skip_covers(p, i);
    }
    if closed(p) {
    } else if forall|i: nat| covers(p, i) {
        assert(flat(r) =~~= flat(p));
    } else {
        let i0 = choose|i: nat| !covers(p, i);
        lemma_size_exists(p, i0);
        lemma_size(r, size(p));
        assert(flat(r) =~~= flat(p));
    }
}

/// The pieces of `p` after a pull from the first of them.
pub open spec fn advance<T>(p: Stream<Stream<T>>) -> Stream<Stream<T>> {
    p.rest().cons(p.at(0).rest())
}

/// After a pull from the first piece every item is found one index lower.
pub proof fn lemma_advance_locate<T>(p: Stream<Stream<T>>, k: nat, i: nat)
    requires
        p.reaches(0),
        p.at(0).reaches(0),
        k >= 1,
    ensures
        locate(advance(p), k, i) == locate(p, k, i + 1),
        locate(p, k, 0) == Some(p.at(0).at(0)),
{
    let h = p.at(0);
    crate::stream::lemma_cons(p.rest(), h.rest());
    match h {
        Stream::Finite(q) => {
            assert((i - (q.len() - 1)) as nat == (i + 1 - q.len()) as nat);
        },
        Stream::Endless(f) => {},
        Stream::Stalled(q) => {},
    }
}

/// After a pull from the first piece the flattening has its items one
/// index lower.
pub proof fn lemma_advance_covers<T>(p: Stream<Stream<T>>, i: nat)
    requires
        p.reaches(0),
        p.at(0).reaches(0),
    ensures
        covers(advance(p), i) == covers(p, i + 1),
        covers(advance(p), i) ==> get(advance(p), i) == get(p, i + 1),
{
    let a = advance(p);
    if covers(a, i) {
        let k = choose|k: nat| (#[trigger] locate(a, k, i)) is Some;
        lemma_advance_locate(p, k, i);
        lemma_get(p, k, i + 1);
        lemma_get(a, k, i);
    }
    if covers(p, i + 1) {
        let k = choose|k: nat| (#[trigger] locate(p, k, i + 1)) is Some;
        lemma_advance_locate(p, k, i);
        lemma_get(p, k, i + 1);
        lemma_get(a, k, i);
    }
}

/// A pull from the first of finitely many finite pieces takes the first
/// item of their concatenation.
pub proof fn lemma_advance_joined<T>(p: Stream<Stream<T>>)
    requires
        p.reaches(0),
        p.at(0).reaches(0),
    ensures
        closed(advance(p)) == closed(p),
        closed(p) ==> joined(p).len() > 0 && joined(p)[0] == p.at(0).at(0) && joined(advance(p))
            == joined(p).drop_first(),
{
    let a = advance(p);
    let h = p.at(0);
    crate::stream::lemma_cons(p.rest(), h.rest());
    if p is Finite {
        let ps = p.items();
        assert(a.items() =~= seq![h.rest()] + ps.drop_first());
        if closed(p) {
            assert(ps[0] is Finite);
            assert forall|j: int| 0 <= j < a.items().len() implies (#[trigger] a.items()[j]) is Finite by {
                if j > 0 {
                    assert(ps[j] is Finite);
                }
            }
            let q = h.items();
            assert(piece_items(p).first() =~= q);
            assert(piece_items(a).first() =~= q.drop_first());
            assert(piece_items(a).drop_first() =~= piece_items(p).drop_first());
            assert(joined(a) =~= joined(p).drop_first());
        }
        if closed(a) {
            assert forall|j: int| 0 <= j < ps.len() implies (#[trigger] ps[j]) is Finite by {
                assert(a.items()[j] is Finite);
            }
        }
    }
}

/// A pull from a first piece that has an item is a pull from the flattening.
pub proof fn lemma_flat_advance<T>(p: Stream<Stream<T>>)
    requires
        p.reaches(0),
        p.at(0).reaches(0),
    ensures
        flat(p).first() == Some(p.at(0).at(0)),
        flat(advance(p)) == flat(p).rest(),
{
    let a = advance(p);
    lemma_advance_joined(p);
    lemma_advance_locate(p, 1, 0);
    lemma_get(p, 1, 0);
    assert forall|i: nat| covers(a, i) == covers(p, i + 1) && (covers(a, i) ==> get(a, i) == get(p, i + 1)) by {
        lemma_advance_covers(p, i);
    }
    if closed(p) {
    } else if forall|i: nat| covers(p, i) {
        assert forall|i: nat| covers(a, i) by {
            assert(covers(p, i + 1));
        }
        assert(flat(a) =~~= flat(p).rest());
    } else {
        let i0 = choose|i: nat| !covers(p, i);
        lemma_size_exists(p, i0);
        let n = size(p);
        assert(n > 0);
        assert(!covers(a, (n - 1) as nat)) by {
            assert(covers(a, (n - 1) as nat) == covers(p, (n - 1) as nat + 1));
        }
        lemma_size(a, (n - 1) as nat);
        assert(flat(a) =~~= flat(p).rest());
    }
}

/// The pieces of `p` after a pull from the last of them.
pub open spec fn retreat<T>(p: Stream<Stream<T>>) -> Stream<Stream<T>> {
    Stream::Finite(p.items().drop_last().push(p.items().last().rest_back()))
}

/// A last piece that is exhausted can be left out.
pub proof fn lemma_joined_drop_last<T>(p: Stream<Stream<T>>)
    requires
        closed(p),
        p.items().len() > 0,
        p.items().last() == Stream::<T>::done(),
    ensures
        closed(p.rest_back()),
        joined(p.rest_back()) == joined(p),
{
    let ps = p.items();
    let r = p.rest_back();
    assert forall|j: int| 0 <= j < r.items().len() implies (#[trigger] r.items()[j]) is Finite by {
        assert(ps[j] is Finite);
    }
    assert(piece_items(p) =~= piece_items(r).push(Seq::<T>::empty()));
    piece_items(r).lemma_flatten_push(Seq::<T>::empty());
    assert(joined(p) =~= joined(r));
}

/// A pull from the last of finitely many finite pieces takes the last item
/// of their concatenation.
pub proof fn lemma_joined_retreat<T>(p: Stream<Stream<T>>)
    requires
        closed(p),
        p.items().len() > 0,
        p.items().last().items().len() > 0,
    ensures
        closed(retreat(p)),
        joined(p).len() > 0,
        joined(p).last() == p.items().last().items().last(),
        joined(retreat(p)) == joined(p).drop_last(),
{
    let ps = p.items();
    let a = retreat(p);
    let q = ps.last().items();
    assert(ps.last() is Finite);
    assert forall|j: int| 0 <= j < a.items().len() implies (#[trigger] a.items()[j]) is Finite by {
        if j < ps.len() - 1 {
            assert(ps[j] is Finite);
        }
    }
    let x = piece_items(p).drop_last();
    assert(piece_items(p) =~= x.push(q));
    assert(piece_items(a) =~= x.push(q.drop_last()));
    x.lemma_flatten_push(q);
    x.lemma_flatten_push(q.drop_last());
    assert(joined(a) =~= joined(p).drop_last());
}

/// Behind a first piece that is stalled nothing is reached.
pub proof fn lemma_flat_blocked<T>(p: Stream<Stream<T>>)
    requires
        p.reaches(0),
        p.at(0).blocked(),
    ensures
        flat(p).blocked(),
{
    if p is Finite {
        assert(!(p.items()[0] is Finite));
    }
    assert forall|k: nat| (#[trigger] locate(p, k, 0)) is None by {}
    lemma_size(p, 0);
}

/// With no piece left the flattening is exhausted where the pieces are, and
/// stalled where they are stalled.
pub proof fn lemma_flat_end<T>(p: Stream<Stream<T>>)
    requires
        !p.reaches(0),
    ensures
        p is Finite ==> flat(p) == Stream::<T>::done(),
        !(p is Finite) ==> flat(p).blocked(),
{
    if p is Finite {
        assert(piece_items(p) =~= Seq::<Seq<T>>::empty());
        assert(joined(p) =~= Seq::<T>::empty());
    } else {
        assert forall|k: nat| (#[trigger] locate(p, k, 0)) is None by {}
        lemma_size(p, 0);
    }
}

/// A flattening that is not stalled at once has a first item, or consists
/// of finitely many finite pieces.
pub proof fn lemma_flat_live<T>(p: Stream<Stream<T>>)
    requires
        !flat(p).blocked(),
    ensures
        covers(p, 0) || closed(p),
{
    if !covers(p, 0) && !closed(p) {
        lemma_size(p, 0);
    }
}

} // verus!
