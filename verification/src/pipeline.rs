//! The build pipeline's scheduling decisions.
//!
//! A build runs one traversal producer and a fixed pool of workers around one
//! bounded queue. The producer numbers each discovered file from one upward
//! and, once the walk is done, sends exactly one shutdown item per worker, so
//! every worker drains the real work queued before its shutdown item and then
//! stops. The surrounding program performs the walk, the queue operations and
//! the thread management; what flows through the queue, when discovery is
//! reported, and when a worker stops are decided here.

use vstd::prelude::*;

verus! {

/// The fixed number of workers in the pool.
pub const WORKER_COUNT: usize = 10;

/// The bound of the work queue: the producer blocks when this many items
/// wait, capping memory during a large traversal.
pub const QUEUE_CAPACITY: usize = 100;

/// One item of the work queue: a discovered document with its discovery
/// number, or the shutdown signal for one worker.
pub enum WorkItem {
    Document { sequence: usize, path: String },
    Shutdown,
}

/// Whether a worker that received `item` keeps running: it stops exactly on
/// a shutdown item.
pub fn worker_continues(item: &WorkItem) -> (r: bool)
    ensures
        r == !(item is Shutdown),
{
    match item {
        WorkItem::Document { .. } => true,
        WorkItem::Shutdown => false,
    }
}

/// Whether the discovery of file number `sequence` is reported: at every
/// hundredth file.
pub fn progress_report_due(sequence: usize) -> (r: bool)
    ensures
        r == (sequence % 100 == 0),
{
    sequence % 100 == 0
}

/// The full queue content of one build over the discovered `paths`: each
/// path as a work item numbered from one in discovery order, then exactly
/// one shutdown item per worker.
pub fn plan_build(paths: &Vec<String>, workers: usize) -> (items: Vec<WorkItem>)
    requires
        paths@.len() + workers <= usize::MAX,
    ensures
        items@.len() == paths@.len() + workers,
        forall|i: int|
            0 <= i < paths@.len() ==> (#[trigger] items@[i] matches WorkItem::Document {
                sequence, path } && sequence == i + 1 && path@ == paths@[i]@),
        forall|i: int| paths@.len() <= i < items@.len() ==> #[trigger] items@[i] is Shutdown,
{
    let mut items: Vec<WorkItem> = Vec::new();
    let n = paths.len();
    let mut k: usize = 0;
    while k < n
        invariant
            n == paths@.len(),
            n + workers <= usize::MAX,
            k <= n,
            items@.len() == k,
            forall|i: int|
                0 <= i < k ==> (#[trigger] items@[i] matches WorkItem::Document { sequence, path }
                    && sequence == i + 1 && path@ == paths@[i]@),
        decreases n - k,
    {
        items.push(WorkItem::Document { sequence: k + 1, path: paths[k].clone() });
        k = k + 1;
    }
    let mut w: usize = 0;
    while w < workers
        invariant
            n == paths@.len(),
            w <= workers,
            items@.len() == n + w,
            forall|i: int|
                0 <= i < n ==> (#[trigger] items@[i] matches WorkItem::Document { sequence, path }
                    && sequence == i + 1 && path@ == paths@[i]@),
            forall|i: int| n <= i < items@.len() ==> #[trigger] items@[i] is Shutdown,
        decreases workers - w,
    {
        items.push(WorkItem::Shutdown);
        w = w + 1;
    }
    items
}

} // verus!
