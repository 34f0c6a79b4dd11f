//! Work that is handed out to threads.
use rayon::iter::{IntoParallelRefIterator, ParallelIterator};
use vstd::prelude::*;

verus! {

/// Calls `rayon`: `items.par_iter().map(f).collect()` into a `Result` of a `Vec`. If `f` fails on no
/// item, the vector holds what `f` returned for each item, in the order of the items; otherwise the
/// error is one that `f` returned for some item, and which one is left open.
#[verifier::external_body]
pub(crate) fn par_map<A: Sync, B: Send, E: Send, F: Fn(&A) -> Result<B, E> + Sync + Send>(
    items: &Vec<A>,
    f: F,
) -> (r: Result<Vec<B>, E>)
    requires
        forall|i: int| 0 <= i < items@.len() ==> call_requires(f, (&#[trigger] items@[i],)),
    ensures
        match r {
            Ok(results) => results@.len() == items@.len() && forall|i: int|
                0 <= i < results@.len() ==> call_ensures(
                    f,
                    (&items@[i],),
                    Ok::<B, E>(#[trigger] results@[i]),
                ),
            Err(error) => exists|i: int|
                0 <= i < items@.len() && call_ensures(
                    f,
                    (&#[trigger] items@[i],),
                    Err::<B, E>(error),
                ),
        },
{
    items.par_iter().map(f).collect()
}

} // verus!
