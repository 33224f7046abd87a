//! Pulling a producer until it is exhausted.

use vstd::prelude::*;
use crate::cursor::Cursor;

verus! {

/// The items of `c`, pulled from its low end until it is exhausted.
pub fn collect<C: Cursor>(c: C) -> (v: Vec<C::Item>)
    requires
        c.stream() is Finite,
    ensures
        v@ == c.stream().items(),
{
    let ghost all = c.stream().items();
    let mut cur = c;
    let mut v: Vec<C::Item> = Vec::new();
    loop
        invariant
            all == c.stream().items(),
            cur.stream() is Finite,
            v@ + cur.stream().items() == all,
        decreases cur.stream().items().len(),
    {
        let ghost rem = cur.stream().items();
        match cur.next() {
            Some(x) => {
                v.push(x);
                proof {
                    assert(v@ + rem.drop_first() =~= v@.drop_last() + rem);
                }
            },
            None => {
                proof {
                    assert(v@ + rem =~= v@);
                }
                return v;
            },
        }
    }
}

/// The number of items of `c`, which is pulled until it is exhausted.
pub fn count<C: Cursor>(c: C) -> (n: usize)
    requires
        c.stream() is Finite,
        c.stream().items().len() <= usize::MAX,
    ensures
        n == c.stream().items().len(),
{
    let ghost all = c.stream().items();
    let mut cur = c;
    let mut n: usize = 0;
    loop
        invariant
            all == c.stream().items(),
            cur.stream() is Finite,
            n + cur.stream().items().len() == all.len(),
            all.len() <= usize::MAX,
        decreases cur.stream().items().len(),
    {
        match cur.next() {
            Some(_) => {
                n = n + 1;
            },
            None => {
                return n;
            },
        }
    }
}

} // verus!
