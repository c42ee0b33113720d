//! Vectors whose items are taken out one by one.

use vstd::prelude::*;

verus! {

/// The items in the opposite order, so that the first is the next to be
/// popped.
pub fn reversed<T>(items: Vec<T>) -> (out: Vec<T>)
    ensures
        out@ == items@.reverse(),
{
    let ghost given = items@;
    let mut rest = items;
    let mut out: Vec<T> = Vec::new();
    while rest.len() > 0
        invariant
            rest@.len() <= given.len(),
            rest@ == given.take(rest@.len() as int),
            out@.len() == given.len() - rest@.len(),
            forall|k: int| 0 <= k < out@.len() ==> #[trigger] out@[k] == given[given.len() - 1 - k],
        decreases rest@.len(),
    {
        let ghost before = rest@;
        let item = rest.pop().unwrap();
        assert(item == given[before.len() - 1]);
        out.push(item);
        assert(rest@ =~= given.take(rest@.len() as int));
    }
    assert(out@ =~= given.reverse());
    out
}

/// Takes the item that `reversed` put last: the first of those that are
/// left.
pub(crate) fn take_next<T>(rest: &mut Vec<T>, Ghost(given): Ghost<Seq<T>>, Ghost(taken): Ghost<int>) -> (item:
    T)
    requires
        0 <= taken < given.len(),
        old(rest)@ == given.reverse().take(given.len() - taken),
    ensures
        item == given[taken],
        final(rest)@ == given.reverse().take(given.len() - taken - 1),
{
    let ghost before = rest@;
    assert(before.len() == given.len() - taken);
    let item = rest.pop().unwrap();
    assert(item == given.reverse()[given.len() - taken - 1]);
    assert(rest@ =~= given.reverse().take(given.len() - taken - 1));
    item
}

} // verus!
