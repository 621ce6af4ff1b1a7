//! The indexed listing request and the batch that carries it.

use crate::indices::{ascending, sort_unique, sorted_unique};
use vstd::prelude::*;

verus! {

/// The payload of an indexed listing request: the wanted indices, ascending
/// and each once, and the size of the collection as the sender knows it.
#[derive(Clone, Debug)]
pub struct GetFiles {
    pub indices: Vec<u32>,
    pub count: u32,
}

/// The mathematical value of a [`GetFiles`].
pub struct GetFilesView {
    pub indices: Seq<u32>,
    pub count: u32,
}

impl GetFilesView {
    /// The form a request has on the wire: indices ascending, each once.
    pub open spec fn normal(self) -> bool {
        ascending(self.indices)
    }

    /// The count is positive and every index lies below it.
    pub open spec fn in_range(self) -> bool {
        self.count > 0 && forall|k: int|
            0 <= k < self.indices.len() ==> #[trigger] self.indices[k] < self.count
    }
}

impl View for GetFiles {
    type V = GetFilesView;

    open spec fn view(&self) -> GetFilesView {
        GetFilesView { indices: self.indices@, count: self.count }
    }
}

impl GetFiles {
    /// A request for the given indices, in any order and with repeats,
    /// brought into wire form.
    pub fn new(indices: &Vec<u32>, count: u32) -> (r: GetFiles)
        ensures
            r@.indices == sort_unique(indices@),
            r@.count == count,
            r@.normal(),
    {
        GetFiles { indices: sorted_unique(indices), count }
    }

    /// Whether the count is positive and covers every index.
    pub fn is_in_range(&self) -> (r: bool)
        ensures
            r == self@.in_range(),
    {
        if self.count == 0 {
            return false;
        }
        let mut k: usize = 0;
        while k < self.indices.len()
            invariant
                k <= self.indices.len(),
                forall|m: int| 0 <= m < k ==> #[trigger] self.indices@[m] < self.count,
            decreases self.indices.len() - k,
        {
            if self.indices[k] >= self.count {
                assert(!(self@.indices[k as int] < self@.count));
                return false;
            }
            k += 1;
        }
        true
    }
}

/// A request that the coordinator has decided to send, with the ticket under
/// which its answer has to be handed back.
#[derive(Clone, Debug)]
pub struct Batch {
    pub ticket: u64,
    pub request: GetFiles,
}

/// The mathematical value of a [`Batch`].
pub struct BatchView {
    pub ticket: u64,
    pub indices: Seq<u32>,
    pub count: u32,
}

impl View for Batch {
    type V = BatchView;

    open spec fn view(&self) -> BatchView {
        BatchView {
            ticket: self.ticket,
            indices: self.request.indices@,
            count: self.request.count,
        }
    }
}

} // verus!
