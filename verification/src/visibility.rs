//! The visibility tracker of one placeholder.

use crate::request::{Batch, BatchView};
use crate::store::{load_item, Store};
use vstd::prelude::*;

verus! {

/// Follows one placeholder in and out of the viewport and says when it has
/// just entered. Each tracker stands alone; what it reports goes to the
/// coordinator.
#[derive(Clone, Copy, Debug, PartialEq, Eq, Structural)]
pub struct VisibilityTracker {
    pub index: u32,
    pub observing: bool,
    pub intersecting: bool,
}

impl VisibilityTracker {
    /// Whether a report of `is_intersecting` makes the tracker fire: it is
    /// still observing, was outside and is now inside.
    pub open spec fn fires(self, is_intersecting: bool) -> bool {
        self.observing && !self.intersecting && is_intersecting
    }

    /// The tracker after a report of `is_intersecting`. Once observation has
    /// stopped, reports change nothing.
    pub open spec fn after(self, is_intersecting: bool) -> VisibilityTracker {
        if self.observing {
            VisibilityTracker { intersecting: is_intersecting, ..self }
        } else {
            self
        }
    }

    /// How often the tracker fires over a run of reports, oldest first.
    pub open spec fn fire_count(self, reports: Seq<bool>) -> nat
        decreases reports.len(),
    {
        if reports.len() == 0 {
            0
        } else {
            let rest = self.after(reports[0]).fire_count(reports.drop_first());
            if self.fires(reports[0]) {
                rest + 1
            } else {
                rest
            }
        }
    }

    /// A tracker for the placeholder of cell `index`. It observes from the
    /// start and takes the placeholder to be outside the viewport.
    pub fn new(index: u32) -> (r: VisibilityTracker)
        ensures
            r == (VisibilityTracker { index, observing: true, intersecting: false }),
    {
        VisibilityTracker { index, observing: true, intersecting: false }
    }

    /// Takes one report from the observer. Returns `true` exactly when the
    /// placeholder has just entered the viewport.
    pub fn observe(&mut self, is_intersecting: bool) -> (fired: bool)
        ensures
            fired == old(self).fires(is_intersecting),
            *final(self) == old(self).after(is_intersecting),
    {
        if !self.observing {
            return false;
        }
        let fired = !self.intersecting && is_intersecting;
        self.intersecting = is_intersecting;
        fired
    }

    /// Takes one report from the observer and hands it on to the
    /// coordinator: when the placeholder has just entered the viewport, the
    /// coordinator is told that the cell is visible. Returns the batch to
    /// send, if one has to go out.
    pub fn report(&mut self, is_intersecting: bool, store: &mut Store) -> (r: Option<Batch>)
        requires
            old(store).wf(),
        ensures
            final(store).wf(),
            *final(self) == old(self).after(is_intersecting),
            final(store)@ == if old(self).fires(is_intersecting) {
                old(store)@.after_visible(old(self).index)
            } else {
                old(store)@
            },
            r is Some <==> old(self).fires(is_intersecting) && old(store)@.can_dispatch(
                old(self).index,
            ),
            r matches Some(b) ==> b@ == (BatchView {
                ticket: old(store)@.next_ticket,
                indices: old(store)@.row_batch(old(self).index),
                count: old(store)@.total_count,
            }),
    {
        if self.observe(is_intersecting) {
            load_item(self.index, store)
        } else {
            None
        }
    }

    /// Stops observation for good. The owner releases the observer itself.
    pub fn stop(&mut self)
        ensures
            *final(self) == (VisibilityTracker { observing: false, ..*old(self) }),
    {
        self.observing = false;
    }

    /// While the placeholder stays inside, the tracker does not fire again.
    pub proof fn lemma_silent_while_visible(self, reports: Seq<bool>)
        requires
            self.intersecting,
            forall|k: int| 0 <= k < reports.len() ==> reports[k],
        ensures
            self.fire_count(reports) == 0,
        decreases reports.len(),
    {
        if reports.len() > 0 {
            let next = self.after(reports[0]);
            assert forall|k: int| 0 <= k < reports.drop_first().len() implies reports.drop_first()[k] by {
                assert(reports[k + 1]);
            }
            next.lemma_silent_while_visible(reports.drop_first());
        }
    }

    /// Leaving and entering again makes the tracker fire once more.
    pub proof fn lemma_fires_on_return(self)
        requires
            self.observing,
        ensures
            self.after(false).fires(true),
            self.after(false).after(true).intersecting,
    {
    }

    /// After `stop` the tracker never fires.
    pub proof fn lemma_silent_after_stop(self, reports: Seq<bool>)
        requires
            !self.observing,
        ensures
            self.fire_count(reports) == 0,
        decreases reports.len(),
    {
        if reports.len() > 0 {
            self.after(reports[0]).lemma_silent_after_stop(reports.drop_first());
        }
    }
}

} // verus!
