//! Folds that stop at the first error.

use vstd::prelude::*;

verus! {

/// Folds `step` over `items` from the left, starting with `init`, and stops at
/// the first error.
pub open spec fn try_fold<A, S, E>(
    items: Seq<A>,
    init: S,
    step: spec_fn(S, A) -> Result<S, E>,
) -> Result<S, E>
    decreases items.len(),
{
    if items.len() == 0 {
        Ok(init)
    } else {
        match try_fold(items.drop_last(), init, step) {
            Err(e) => Err(e),
            Ok(state) => step(state, items.last()),
        }
    }
}

/// The fold over one more item is one more step.
pub proof fn lemma_try_fold_step<A, S, E>(
    items: Seq<A>,
    init: S,
    step: spec_fn(S, A) -> Result<S, E>,
    i: int,
)
    requires
        0 <= i < items.len(),
    ensures
        try_fold(items.take(i + 1), init, step) == match try_fold(items.take(i), init, step) {
            Err(e) => Err(e),
            Ok(state) => step(state, items[i]),
        },
{
    assert(items.take(i + 1).drop_last() =~= items.take(i));
}

/// An error in a prefix is the error of the whole fold.
pub proof fn lemma_try_fold_error<A, S, E>(
    items: Seq<A>,
    init: S,
    step: spec_fn(S, A) -> Result<S, E>,
    i: int,
)
    requires
        0 <= i <= items.len(),
        try_fold(items.take(i), init, step) is Err,
    ensures
        try_fold(items, init, step) == try_fold(items.take(i), init, step),
    decreases items.len() - i,
{
    if i == items.len() {
        assert(items.take(i) =~= items);
    } else {
        lemma_try_fold_step(items, init, step, i);
        lemma_try_fold_error(items, init, step, i + 1);
    }
}

} // verus!
