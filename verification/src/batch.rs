//! Batch fetch orchestration over known ids: the id set is split into
//! fixed-size batches, each batch dispatches one independent task per id
//! under a fixed permit pool, and a collector reduces the per-task outcomes
//! to the batch outcome — the first fatal error, or success once all tasks
//! have finished. Already completed work is never rolled back: a failed
//! task only reports.

use itertools::Itertools;

use vstd::prelude::*;

use crate::error::Error;

verus! {

/// How many items one batch may hold.
pub const MAX_ITEMS_PER_PAGE: usize = 20;

/// How many requests of one batch may be in flight at once: the permit pool
/// is sized smaller than the batch, bounding concurrency independently of
/// the batch size.
pub const WORKER_BUDGET: usize = 5;

/// Relies on itertools' chunking (Itertools::chunks): the elements in input
/// order, in consecutive runs of `size`, the last run possibly shorter;
/// chunking panics only on a zero size.
#[verifier::external_body]
fn chunk_ids(ids: &Vec<u64>, size: usize) -> (r: Vec<Vec<u64>>)
    requires
        1 <= size,
    ensures
        r@.len() == (ids@.len() + size - 1) / (size as int),
        forall|i: int|
            0 <= i < r@.len() ==> (#[trigger] r@[i])@ == ids@.subrange(
                i * size,
                if (i + 1) * size <= ids@.len() {
                    (i + 1) * size
                } else {
                    ids@.len() as int
                },
            ),
{
    ids.iter().copied().chunks(size).into_iter().map(|c| c.collect()).collect()
}

/// Splits the full id list into the batches to fetch, in order, each of the
/// fixed batch size but the last.
pub fn batch_plan(ids: &Vec<u64>) -> (r: Vec<Vec<u64>>)
    ensures
        r@.len() == (ids@.len() + MAX_ITEMS_PER_PAGE - 1) / (MAX_ITEMS_PER_PAGE as int),
        forall|i: int|
            0 <= i < r@.len() ==> (#[trigger] r@[i])@ == ids@.subrange(
                i * MAX_ITEMS_PER_PAGE,
                if (i + 1) * MAX_ITEMS_PER_PAGE <= ids@.len() {
                    (i + 1) * MAX_ITEMS_PER_PAGE
                } else {
                    ids@.len() as int
                },
            ),
{
    chunk_ids(ids, MAX_ITEMS_PER_PAGE)
}

/// Whether `e` is the first fatal error among the per-task outcomes.
pub open spec fn first_batch_err(results: Seq<Result<(), Error>>, e: Error) -> bool {
    exists|i: int|
        {
            &&& 0 <= i < results.len()
            &&& (#[trigger] results[i]) == Err::<(), Error>(e)
            &&& forall|j: int| 0 <= j < i ==> (#[trigger] results[j]) is Ok
        }
}

/// The collector: reduces one batch's per-task outcomes to the batch
/// outcome — the first fatal error observed, or success once every task has
/// finished without one. Completed sibling work stands either way.
pub fn batch_outcome(results: Vec<Result<(), Error>>) -> (r: Result<(), Error>)
    ensures
        r is Ok <==> (forall|i: int|
            0 <= i < results@.len() ==> (#[trigger] results@[i]) is Ok),
        r matches Err(e) ==> first_batch_err(results@, e),
{
    let ghost all = results@;
    let n = results.len();
    let mut rest = results;
    let mut i: usize = 0;
    #[verifier::loop_isolation(false)]
    while i < n
        invariant
            0 <= i <= n,
            rest@ =~= all.subrange(i as int, n as int),
            forall|j: int| 0 <= j < i ==> (#[trigger] all[j]) is Ok,
        decreases n - i,
    {
        let first = rest.remove(0);
        proof {
            assert(first == all[i as int]);
            assert(rest@ =~= all.subrange(i as int + 1, n as int));
        }
        match first {
            Ok(()) => {},
            Err(e) => {
                proof {
                    let w = i as int;
                    assert(0 <= w < all.len() && all[w] == Err::<(), Error>(e) && (forall|j: int|
                        0 <= j < w ==> (#[trigger] all[j]) is Ok));
                }
                return Err(e);
            },
        }
        i += 1;
    }
    Ok(())
}

} // verus!
