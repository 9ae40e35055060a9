//! Multi-producer, multi-consumer priority queues.
use vstd::prelude::*;

mod error;
mod history;
mod simple_pq;

pub use error::PQError;
pub use history::{
    dequeues, enqueued, enqueues, lemma_max_exists, lemma_no_loss, lemma_priority_order, non_increasing,
    run, step, Op,
};
pub use simple_pq::{is_max_of, max_of, SimplePQ};

verus! {

/// A multi-producer, multi-consumer priority queue.
pub trait PriorityQueue<T> where T: Ord {
    /// What an operation returns when it cannot be carried out.
    type Error;

    /// Adds a new item to the queue.
    fn enqueue(&mut self, item: T) -> Result<(), Self::Error>;

    /// Whether a call of `dequeue` can complete. A queue that blocks until
    /// an item arrives can always be called; one that cannot block needs an
    /// item to be resident.
    open spec fn can_dequeue(&self) -> bool {
        true
    }

    /// Takes out the item of highest priority, waiting for one if none is
    /// resident.
    fn dequeue(&mut self) -> Result<T, Self::Error>
        requires
            old(self).can_dequeue(),
    ;
}

} // verus!
