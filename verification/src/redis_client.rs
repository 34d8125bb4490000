//! Tasks on the queue and the names of the queues.
use vstd::prelude::*;
use crate::generator::{copy_features, rows};

verus! {

/// One unit of work: the 1-indexed features to train on.
#[derive(Debug, Clone)]
pub struct Task {
    pub features: Vec<usize>,
}

/// The name of the queue that holds the items taken from `queue` while they
/// are being worked on: `QUEUE:processing`.
pub open spec fn processing_name(queue: Seq<char>) -> Seq<char> {
    queue + ":processing"@
}

/// The processing queue that belongs to `queue`.
pub fn processing_queue_name(queue: &str) -> (r: String)
    ensures
        r@ == processing_name(queue@),
{
    let mut s = String::from_str(queue);
    s.append(":processing");
    s
}

/// One task per feature list of a batch, in the same order.
pub fn tasks_from_batch(batch: &Vec<Vec<usize>>) -> (r: Vec<Task>)
    ensures
        r@.len() == batch@.len(),
        forall|i: int| 0 <= i < r@.len() ==> #[trigger] r@[i].features@ == rows(batch@)[i],
{
    let mut r: Vec<Task> = Vec::with_capacity(batch.len());
    let mut i: usize = 0;
    while i < batch.len()
        invariant
            i <= batch@.len(),
            r@.len() == i,
            forall|j: int| 0 <= j < i ==> #[trigger] r@[j].features@ == rows(batch@)[j],
        decreases batch@.len() - i,
    {
        let features = copy_features(&batch[i]);
        r.push(Task { features });
        i += 1;
    }
    r
}

/// Whether pushing batch number `batch_num` (counted from 1) is reported:
/// the first batch and every tenth.
pub fn push_progress_due(batch_num: usize) -> (r: bool)
    ensures
        r == (batch_num % 10 == 0 || batch_num == 1),
{
    batch_num % 10 == 0 || batch_num == 1
}

/// Whether having trained `task_count` tasks is reported: every hundredth.
pub fn train_progress_due(task_count: usize) -> (r: bool)
    ensures
        r == (task_count % 100 == 0),
{
    task_count % 100 == 0
}

} // verus!
