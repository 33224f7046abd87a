//! What holds of every flattening, whatever the order of the pulls.

use vstd::prelude::*;
use vstd::seq_lib::{lemma_flatten_concat, lemma_multiset_commutative};
use crate::flat::{
    closed, flat, joined, lemma_flat_advance, lemma_flat_end, lemma_flat_skip, lemma_size,
    locate, piece_items,
};
use crate::stream::Stream;

verus! {

/// The pieces that hold the items of `subs`, one finite piece for each.
pub open spec fn pieces_of<T>(subs: Seq<Seq<T>>) -> Stream<Stream<T>> {
    Stream::Finite(Seq::new(subs.len(), |j: int| Stream::Finite(subs[j])))
}

/// What pulls from the low end of a finite stream return, one after the
/// other, until exhaustion is reported.
pub open spec fn front_run<T>(s: Stream<T>) -> Seq<T>
    decreases s.items().len(),
{
    if s is Finite && s.first() is Some {
        seq![s.first()->0] + front_run(s.rest())
    } else {
        Seq::empty()
    }
}

/// What pulls from the high end of a finite stream return, one after the
/// other, until exhaustion is reported.
pub open spec fn back_run<T>(s: Stream<T>) -> Seq<T>
    decreases s.items().len(),
{
    if s is Finite && s.last() is Some {
        seq![s.last()->0] + back_run(s.rest_back())
    } else {
        Seq::empty()
    }
}

/// What a series of pulls returned, and what it left.
pub struct Trace<T> {
    /// The items that the pulls from the low end returned, in their order.
    pub fronts: Seq<T>,
    /// The items that the pulls from the high end returned, in their order.
    pub backs: Seq<T>,
    /// What no pull has returned yet.
    pub left: Stream<T>,
}

/// The trace of the pulls `moves` on `s`: `true` is a pull from the low end,
/// `false` one from the high end.
pub open spec fn run<T>(s: Stream<T>, moves: Seq<bool>) -> Trace<T>
    decreases moves.len(),
{
    if moves.len() == 0 {
        Trace { fronts: Seq::empty(), backs: Seq::empty(), left: s }
    } else {
        let t = run(s, moves.drop_last());
        if moves.last() {
            Trace {
                fronts: match t.left.first() {
                    Some(x) => t.fronts.push(x),
                    None => t.fronts,
                },
                backs: t.backs,
                left: t.left.rest(),
            }
        } else {
            Trace {
                fronts: t.fronts,
                backs: match t.left.last() {
                    Some(x) => t.backs.push(x),
                    None => t.backs,
                },
                left: t.left.rest_back(),
            }
        }
    }
}

/// Pulled from the low end until exhaustion, a finite stream gives its items
/// in their order.
pub proof fn lemma_front_run<T>(q: Seq<T>)
    ensures
        front_run(Stream::Finite(q)) == q,
    decreases q.len(),
{
    if q.len() > 0 {
        lemma_front_run(q.drop_first());
        assert(seq![q[0]] + q.drop_first() =~= q);
    } else {
        assert(q =~= Seq::<T>::empty());
    }
}

/// Pulled from the high end until exhaustion, a finite stream gives its
/// items in reverse order.
pub proof fn lemma_back_run<T>(q: Seq<T>)
    ensures
        back_run(Stream::Finite(q)) == q.reverse(),
    decreases q.len(),
{
    if q.len() > 0 {
        lemma_back_run(q.drop_last());
        assert(seq![q.last()] + q.drop_last().reverse() =~= q.reverse());
    } else {
        assert(q.reverse() =~= Seq::<T>::empty());
    }
}

/// The concatenation of finite pieces is the concatenation of their items.
pub proof fn lemma_pieces_of<T>(subs: Seq<Seq<T>>)
    ensures
        closed(pieces_of(subs)),
        joined(pieces_of(subs)) == subs.flatten(),
        flat(pieces_of(subs)) == Stream::Finite(subs.flatten()),
{
    assert(piece_items(pieces_of(subs)) =~= subs);
}

/// Forward equivalence: pulling the flattening of finitely many finite
/// sub-sequences from its low end until exhaustion gives the concatenation
/// of the sub-sequences, in order.
pub proof fn law_forward<T>(p: Stream<Stream<T>>)
    requires
        closed(p),
    ensures
        front_run(flat(p)) == joined(p),
{
    lemma_front_run(joined(p));
}

/// Backward equivalence: pulling the flattening of finitely many finite
/// sub-sequences from its high end until exhaustion gives the reverse of
/// the concatenation of the sub-sequences.
pub proof fn law_backward<T>(p: Stream<Stream<T>>)
    requires
        closed(p),
    ensures
        back_run(flat(p)) == joined(p).reverse(),
{
    lemma_back_run(joined(p));
}

/// Meet completeness: whatever the order of the pulls from the two ends of
/// the flattening of finitely many finite sub-sequences, the items returned
/// from the low end, the items not yet returned, and the items returned from
/// the high end read backwards make up the concatenation. So the pulls from
/// the low end go in forward order, those from the high end in reverse
/// order, every pull returns an item while one is left, and no item comes
/// twice; once nothing is left, the items returned are those of the
/// concatenation, each as often as it occurs there.
pub proof fn law_meet<T>(p: Stream<Stream<T>>, moves: Seq<bool>)
    requires
        closed(p),
    ensures
        run(flat(p), moves).left is Finite,
        run(flat(p), moves).fronts + run(flat(p), moves).left.items() + run(
            flat(p),
            moves,
        ).backs.reverse() == joined(p),
        run(flat(p), moves).fronts.len() + run(flat(p), moves).backs.len() == (if moves.len()
            <= joined(p).len() {
            moves.len()
        } else {
            joined(p).len()
        }),
        moves.len() >= joined(p).len() ==> run(flat(p), moves).fronts.to_multiset().add(
            run(flat(p), moves).backs.to_multiset(),
        ) == joined(p).to_multiset(),
    decreases moves.len(),
{
    let all = joined(p);
    let t = run(flat(p), moves);
    if moves.len() == 0 {
        assert(t.fronts + t.left.items() + t.backs.reverse() =~= all);
    } else {
        law_meet(p, moves.drop_last());
        let u = run(flat(p), moves.drop_last());
        let m = u.left.items();
        assert(u.fronts + m + u.backs.reverse() == all);
        if m.len() == 0 {
            assert(t.left.items() =~= m);
        } else if moves.last() {
            assert(t.fronts + t.left.items() =~= u.fronts + m);
        } else {
            assert(t.left.items() + t.backs.reverse() =~= m + u.backs.reverse());
            assert(t.fronts + t.left.items() + t.backs.reverse() =~= t.fronts + (t.left.items()
                + t.backs.reverse()));
            assert(u.fronts + m + u.backs.reverse() =~= u.fronts + (m + u.backs.reverse()));
        }
    }
    if moves.len() >= all.len() {
        assert(t.left.items() =~= Seq::<T>::empty());
        assert(t.fronts + t.left.items() =~= t.fronts);
        lemma_multiset_commutative(t.fronts, t.backs.reverse());
        t.backs.lemma_reverse_to_multiset();
    }
}

/// Empty tolerance: of finitely many sub-sequences that are all empty the
/// flattening is exhausted, so the first pull from either end reports
/// exhaustion.
pub proof fn law_empty<T>(p: Stream<Stream<T>>)
    requires
        p is Finite,
        forall|j: int| 0 <= j < p.items().len() ==> p.items()[j] == Stream::<T>::done(),
    ensures
        flat(p) == Stream::<T>::done(),
        flat(p).first() is None,
        flat(p).last() is None,
    decreases p.items().len(),
{
    if p.items().len() == 0 {
        lemma_flat_end(p);
    } else {
        assert(p.at(0) == p.items()[0]);
        lemma_flat_skip(p);
        assert forall|j: int| 0 <= j < p.rest().items().len() implies p.rest().items()[j]
            == Stream::<T>::done() by {
            assert(p.rest().items()[j] == p.items()[j + 1]);
        }
        law_empty(p.rest());
    }
}

/// In sub-sequences that are all empty no item is found.
pub proof fn lemma_locate_empty<T>(p: Stream<Stream<T>>, k: nat)
    requires
        forall|j: nat| p.reaches(j) ==> p.at(j) == Stream::<T>::done(),
    ensures
        locate(p, k, 0) is None,
    decreases k,
{
    if k > 0 && p.reaches(0) {
        assert forall|j: nat| p.rest().reaches(j) implies p.rest().at(j) == Stream::<T>::done() by {
            assert(p.reaches(j + 1));
            assert(p.rest().at(j) == p.at(j + 1));
        }
        lemma_locate_empty(p.rest(), (k - 1) as nat);
    }
}

/// The limit of empty tolerance: where the sub-sequences are all empty and
/// the outer sequence never reports exhaustion, the flattening is stalled,
/// and no pull from it is allowed.
pub proof fn law_empty_without_end<T>(p: Stream<Stream<T>>)
    requires
        !(p is Finite),
        forall|j: nat| p.reaches(j) ==> p.at(j) == Stream::<T>::done(),
    ensures
        flat(p).blocked(),
{
    assert forall|k: nat| (#[trigger] locate(p, k, 0)) is None by {
        lemma_locate_empty(p, k);
    }
    lemma_size(p, 0);
}

/// Laziness: where sub-sequence `j` has an item and those before it are
/// exhausted, a pull from the low end of the flattening is allowed and
/// returns the first item of sub-sequence `j`, however many sub-sequences
/// come after it; what is left is what the rest of sub-sequence `j` and the
/// sub-sequences after it give.
pub proof fn law_lazy<T>(p: Stream<Stream<T>>, j: nat)
    requires
        p.reaches(j),
        p.at(j).reaches(0),
        forall|i: nat| i < j ==> p.at(i) == Stream::<T>::done(),
    ensures
        !flat(p).blocked(),
        flat(p).first() == Some(p.at(j).at(0)),
        flat(p).rest() == flat(p.skip(j + 1).cons(p.at(j).rest())),
    decreases j,
{
    if j == 0 {
        lemma_flat_advance(p);
        assert(p.skip(1) == p.rest().skip(0));
    } else {
        assert(p.reaches(0));
        assert(p.at(0) == Stream::<T>::done());
        lemma_flat_skip(p);
        let r = p.rest();
        assert(r.reaches((j - 1) as nat));
        assert forall|i: nat| i <= j - 1 implies r.at(i) == p.at(i + 1) by {
            assert(p.reaches(i + 1));
        }
        law_lazy(r, (j - 1) as nat);
        assert(p.skip(j + 1) == r.skip(j));
    }
}

/// Composability: a flattening is a stream like any other, and the
/// flattening of the flattening of finite sequences of finite sequences of
/// finite sub-sequences is their concatenation, twice over; the inner
/// concatenation may be done first.
pub proof fn law_compose<T>(nest: Seq<Seq<Seq<T>>>)
    ensures
        flat(pieces_of(flat(pieces_of(nest)).items())) == Stream::Finite(
            nest.flatten().flatten(),
        ),
        nest.flatten().flatten() == nest.map_values(|subs: Seq<Seq<T>>| subs.flatten()).flatten(),
    decreases nest.len(),
{
    lemma_pieces_of(nest);
    lemma_pieces_of(nest.flatten());
    lemma_flatten_twice(nest);
}

/// Concatenating twice gives the same whichever level is done first.
pub proof fn lemma_flatten_twice<T>(nest: Seq<Seq<Seq<T>>>)
    ensures
        nest.flatten().flatten() == nest.map_values(|subs: Seq<Seq<T>>| subs.flatten()).flatten(),
    decreases nest.len(),
{
    let inner = nest.map_values(|subs: Seq<Seq<T>>| subs.flatten());
    if nest.len() == 0 {
        assert(nest.flatten() =~= Seq::<Seq<T>>::empty());
        assert(nest.flatten().flatten() =~= Seq::<T>::empty());
        assert(inner.flatten() =~= Seq::<T>::empty());
    } else {
        lemma_flatten_twice(nest.drop_first());
        lemma_flatten_concat(nest.first(), nest.drop_first().flatten());
        assert(inner.drop_first() =~= nest.drop_first().map_values(
            |subs: Seq<Seq<T>>| subs.flatten(),
        ));
        assert(nest.flatten().flatten() =~= inner.flatten());
    }
}

} // verus!
