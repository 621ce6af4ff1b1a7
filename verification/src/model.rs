//! The session state as a mathematical value, and the steps it can take.
//!
//! Everything the coordinator does is defined here on plain maps, sets and
//! sequences; the executable [`crate::store::Store`] is proved to follow it.

use crate::indices::ascending;
use crate::item::{ItemState, ItemView};
use vstd::prelude::*;

verus! {

/// A `(name, kind)` pair as the listing service returns it.
pub type Pair = (Seq<char>, Seq<char>);

/// The session state of one mounted grid.
pub struct StoreView {
    /// Upper bound on the indices that exist.
    pub total_count: u32,
    /// Cells per row; never zero in a well-formed state.
    pub row_size: u32,
    /// The cells that have been touched so far. An absent cell is `Unrequested`.
    pub items: Map<u32, ItemView>,
    /// The indices covered by a batch that is still out.
    pub in_flight: Set<u32>,
    /// The batches that are still out, by ticket.
    pub outstanding: Map<u64, Seq<u32>>,
    /// The ticket the next batch will get.
    pub next_ticket: u64,
    /// The grid is still on the page. Once it is not, nothing changes any more.
    pub mounted: bool,
}

/// What can happen to a session.
pub enum Event {
    /// The cell with this index entered the viewport.
    Visible(u32),
    /// The batch with this ticket was answered with these pairs.
    Resolved(u64, Seq<Pair>),
    /// The batch with this ticket could not be fetched.
    Failed(u64),
    /// The layout now fits this many cells in a row.
    Resized(u32),
    /// The collection was counted anew.
    Counted(u32),
    /// The grid was taken off the page.
    Unmounted,
}

impl StoreView {
    /// The state a grid starts in: nothing known, one cell per row.
    pub open spec fn initial() -> StoreView {
        StoreView {
            total_count: 0,
            row_size: 1,
            items: Map::empty(),
            in_flight: Set::empty(),
            outstanding: Map::empty(),
            next_ticket: 0,
            mounted: true,
        }
    }

    /// The state of cell `i`; a cell never touched is `Unrequested`.
    pub open spec fn state_of(self, i: u32) -> ItemState {
        if self.items.contains_key(i) {
            self.items[i].state
        } else {
            ItemState::Unrequested
        }
    }

    /// Batch `t` is out and asks for index `i`.
    pub open spec fn covers(self, t: u64, i: u32) -> bool {
        self.outstanding.contains_key(t) && self.outstanding[t].contains(i)
    }

    /// The invariant of the session state.
    pub open spec fn wf(self) -> bool {
        &&& self.row_size >= 1
        &&& forall|i: u32| #[trigger]
            self.items.contains_key(i) ==> self.items[i].index == i && self.items[i].wf()
        &&& forall|i: u32|
            #![trigger self.in_flight.contains(i)]
            #![trigger self.state_of(i)]
            self.in_flight.contains(i) <==> self.state_of(i) is Pending
        &&& forall|t: u64| #[trigger]
            self.outstanding.contains_key(t) ==> t < self.next_ticket && ascending(
                self.outstanding[t],
            ) && self.outstanding[t].len() > 0
        &&& forall|t: u64, k: int|
            self.outstanding.contains_key(t) && 0 <= k < self.outstanding[t].len()
                ==> self.in_flight.contains(#[trigger] self.outstanding[t][k])
        &&& forall|t1: u64, t2: u64, k1: int, k2: int|
            self.outstanding.contains_key(t1) && self.outstanding.contains_key(t2) && t1 != t2
                && 0 <= k1 < self.outstanding[t1].len() && 0 <= k2 < self.outstanding[t2].len()
                ==> #[trigger] self.outstanding[t1][k1] != #[trigger] self.outstanding[t2][k2]
        &&& forall|i: u32| #[trigger]
            self.in_flight.contains(i) ==> exists|t: u64| self.covers(t, i)
    }

    /// First index of the row that holds `i`.
    pub open spec fn row_start(self, i: u32) -> int {
        (i as int / self.row_size as int) * (self.row_size as int)
    }

    /// One past the last index of the row that holds `i`, cut off at the count.
    pub open spec fn row_end(self, i: u32) -> int {
        let end = self.row_start(i) + self.row_size;
        if end < self.total_count {
            end
        } else {
            self.total_count as int
        }
    }

    /// The indices in `lo..hi` that a new batch may take, ascending.
    pub open spec fn wanted_between(self, lo: int, hi: int) -> Seq<u32>
        decreases hi - lo,
    {
        if hi <= lo {
            Seq::empty()
        } else {
            let rest = self.wanted_between(lo, hi - 1);
            if self.state_of((hi - 1) as u32).wanted() {
                rest.push((hi - 1) as u32)
            } else {
                rest
            }
        }
    }

    /// The batch that cell `i` pulls in when it becomes visible: every cell
    /// of its row that is neither loaded nor already being fetched.
    pub open spec fn row_batch(self, i: u32) -> Seq<u32> {
        self.wanted_between(self.row_start(i), self.row_end(i))
    }

    /// Cell `i` becoming visible sends a batch.
    pub open spec fn can_dispatch(self, i: u32) -> bool {
        self.mounted && i < self.total_count && self.state_of(i).wanted() && self.next_ticket
            < u64::MAX
    }

    /// The state after `batch` has gone out under the next ticket.
    pub open spec fn dispatch(self, batch: Seq<u32>) -> StoreView {
        StoreView {
            items: Map::new(
                |j: u32| self.items.contains_key(j) || batch.contains(j),
                |j: u32|
                    if batch.contains(j) {
                        ItemView::blank(j, ItemState::Pending)
                    } else {
                        self.items[j]
                    },
            ),
            in_flight: Set::new(|j: u32| self.in_flight.contains(j) || batch.contains(j)),
            outstanding: self.outstanding.insert(self.next_ticket, batch),
            next_ticket: (self.next_ticket + 1) as u64,
            ..self
        }
    }

    /// The state after cell `i` entered the viewport.
    pub open spec fn after_visible(self, i: u32) -> StoreView {
        if self.can_dispatch(i) {
            self.dispatch(self.row_batch(i))
        } else {
            self
        }
    }

    /// The answer to batch `t` can be matched to its indices one to one.
    pub open spec fn accepts(self, t: u64, pairs: Seq<Pair>) -> bool {
        self.outstanding.contains_key(t) && pairs.len() == self.outstanding[t].len()
    }

    /// The state after batch `t` has come back with one pair per index.
    pub open spec fn settle_loaded(self, t: u64, pairs: Seq<Pair>) -> StoreView {
        let batch = self.outstanding[t];
        StoreView {
            items: Map::new(
                |j: u32| self.items.contains_key(j) || batch.contains(j),
                |j: u32|
                    if batch.contains(j) {
                        let p = pairs[batch.index_of(j)];
                        ItemView::loaded(j, p.0, p.1)
                    } else {
                        self.items[j]
                    },
            ),
            in_flight: Set::new(|j: u32| self.in_flight.contains(j) && !batch.contains(j)),
            outstanding: self.outstanding.remove(t),
            ..self
        }
    }

    /// The state after batch `t` has come back without usable data.
    pub open spec fn settle_failed(self, t: u64) -> StoreView {
        let batch = self.outstanding[t];
        StoreView {
            items: Map::new(
                |j: u32| self.items.contains_key(j) || batch.contains(j),
                |j: u32|
                    if batch.contains(j) {
                        ItemView::blank(j, ItemState::Failed)
                    } else {
                        self.items[j]
                    },
            ),
            in_flight: Set::new(|j: u32| self.in_flight.contains(j) && !batch.contains(j)),
            outstanding: self.outstanding.remove(t),
            ..self
        }
    }

    /// Something is still waiting for the answer to batch `t`.
    pub open spec fn awaits(self, t: u64) -> bool {
        self.mounted && self.outstanding.contains_key(t)
    }

    /// The state after an answer for ticket `t` arrived. An answer that
    /// nothing waits for changes nothing; one with the wrong number of pairs
    /// counts as a failure.
    pub open spec fn after_resolved(self, t: u64, pairs: Seq<Pair>) -> StoreView {
        if !self.awaits(t) {
            self
        } else if self.accepts(t, pairs) {
            self.settle_loaded(t, pairs)
        } else {
            self.settle_failed(t)
        }
    }

    /// The state after the fetch for ticket `t` failed.
    pub open spec fn after_failed(self, t: u64) -> StoreView {
        if self.awaits(t) {
            self.settle_failed(t)
        } else {
            self
        }
    }

    /// The state after the layout was measured. Zero counts as one.
    pub open spec fn with_row_size(self, size: u32) -> StoreView {
        if self.mounted {
            StoreView { row_size: if size == 0 { 1 } else { size }, ..self }
        } else {
            self
        }
    }

    /// The state after the collection was counted.
    pub open spec fn with_total_count(self, count: u32) -> StoreView {
        if self.mounted {
            StoreView { total_count: count, ..self }
        } else {
            self
        }
    }

    /// The state after the grid was taken off the page.
    pub open spec fn unmounted(self) -> StoreView {
        StoreView { mounted: false, ..self }
    }

    /// One step of the session.
    pub open spec fn step(self, e: Event) -> StoreView {
        match e {
            Event::Visible(i) => self.after_visible(i),
            Event::Resolved(t, pairs) => self.after_resolved(t, pairs),
            Event::Failed(t) => self.after_failed(t),
            Event::Resized(size) => self.with_row_size(size),
            Event::Counted(count) => self.with_total_count(count),
            Event::Unmounted => self.unmounted(),
        }
    }

    /// The state after a whole history of events, oldest first.
    pub open spec fn run(self, events: Seq<Event>) -> StoreView
        decreases events.len(),
    {
        if events.len() == 0 {
            self
        } else {
            self.run(events.drop_last()).step(events.last())
        }
    }

    /// The indices in `lo..hi` that are wanted come out ascending, each once.
    pub proof fn lemma_wanted_between(self, lo: int, hi: int)
        requires
            0 <= lo,
            hi <= u32::MAX + 1,
        ensures
            ascending(self.wanted_between(lo, hi)),
            forall|x: u32|
                #![trigger self.wanted_between(lo, hi).contains(x)]
                self.wanted_between(lo, hi).contains(x) <==> (lo <= x < hi && self.state_of(
                    x,
                ).wanted()),
        decreases hi - lo,
    {
        let w = self.wanted_between(lo, hi);
        if hi > lo {
            let rest = self.wanted_between(lo, hi - 1);
            let top = (hi - 1) as u32;
            self.lemma_wanted_between(lo, hi - 1);
            assert forall|k: int| 0 <= k < rest.len() implies rest[k] < top by {
                assert(rest.contains(rest[k]));
            }
            if self.state_of(top).wanted() {
                assert(w[rest.len() as int] == top);
                assert forall|x: u32| w.contains(x) <==> (lo <= x < hi && self.state_of(
                    x,
                ).wanted()) by {
                    if w.contains(x) {
                        let k = choose|k: int| 0 <= k < w.len() && w[k] == x;
                        if k < rest.len() {
                            assert(rest.contains(rest[k]));
                        }
                    }
                    if rest.contains(x) {
                        let k = choose|k: int| 0 <= k < rest.len() && rest[k] == x;
                        assert(w[k] == x);
                    }
                }
            }
        }
    }

    /// The row of `i` starts at or before `i` and ends after it.
    pub proof fn lemma_row_bounds(self, i: u32)
        requires
            self.row_size >= 1,
            i < self.total_count,
        ensures
            0 <= self.row_start(i) <= i < self.row_end(i) <= self.total_count,
            self.row_end(i) <= self.row_start(i) + self.row_size,
    {
        let r = self.row_size as int;
        let q = i as int / r;
        assert(q * r <= i < q * r + r) by (nonlinear_arith)
            requires
                r >= 1,
                i >= 0,
                q == i as int / r,
        ;
        assert(0 <= q * r) by (nonlinear_arith)
            requires
                r >= 1,
                i >= 0,
                q == i as int / r,
        ;
    }

    /// A batch is never empty: it holds at least the cell that asked for it.
    pub proof fn lemma_row_batch(self, i: u32)
        requires
            self.row_size >= 1,
            self.can_dispatch(i),
        ensures
            ascending(self.row_batch(i)),
            self.row_batch(i).contains(i),
            forall|x: u32|
                #![trigger self.row_batch(i).contains(x)]
                self.row_batch(i).contains(x) <==> (self.row_start(i) <= x < self.row_end(i)
                    && self.state_of(x).wanted()),
    {
        self.lemma_row_bounds(i);
        self.lemma_wanted_between(self.row_start(i), self.row_end(i));
    }

    /// Sending a batch of wanted cells keeps the state well-formed.
    pub proof fn lemma_dispatch_wf(self, batch: Seq<u32>)
        requires
            self.wf(),
            ascending(batch),
            batch.len() > 0,
            forall|k: int| 0 <= k < batch.len() ==> self.state_of(#[trigger] batch[k]).wanted(),
            self.next_ticket < u64::MAX,
        ensures
            self.dispatch(batch).wf(),
    {
        let n = self.dispatch(batch);
        let t_new = self.next_ticket;
        assert forall|j: u32| batch.contains(j) implies self.state_of(j).wanted() by {
            let k = choose|k: int| 0 <= k < batch.len() && batch[k] == j;
            assert(self.state_of(batch[k]).wanted());
        }
        assert forall|j: u32|
            #![trigger n.in_flight.contains(j)]
            #![trigger n.state_of(j)]
            n.in_flight.contains(j) <==> n.state_of(j) is Pending by {
            if !batch.contains(j) {
                assert(n.state_of(j) == self.state_of(j));
            }
        }
        assert forall|t: u64, k: int|
            n.outstanding.contains_key(t) && 0 <= k < n.outstanding[t].len()
                implies n.in_flight.contains(#[trigger] n.outstanding[t][k]) by {
            if t == t_new {
                assert(batch.contains(batch[k]));
            } else {
                assert(self.in_flight.contains(self.outstanding[t][k]));
            }
        }
        assert forall|t1: u64, t2: u64, k1: int, k2: int|
            n.outstanding.contains_key(t1) && n.outstanding.contains_key(t2) && t1 != t2 && 0
                <= k1 < n.outstanding[t1].len() && 0 <= k2 < n.outstanding[t2].len()
                implies #[trigger] n.outstanding[t1][k1] != #[trigger] n.outstanding[t2][k2] by {
            if t1 == t_new {
                assert(self.state_of(batch[k1]).wanted());
                assert(self.in_flight.contains(self.outstanding[t2][k2]));
            } else if t2 == t_new {
                assert(self.state_of(batch[k2]).wanted());
                assert(self.in_flight.contains(self.outstanding[t1][k1]));
            } else {
                assert(self.outstanding[t1][k1] != self.outstanding[t2][k2]);
            }
        }
        assert forall|i: u32| #[trigger] n.in_flight.contains(i) implies exists|t: u64|
            n.covers(t, i) by {
            if self.in_flight.contains(i) {
                let t = choose|t: u64| self.covers(t, i);
                assert(n.covers(t, i));
            } else {
                assert(n.covers(t_new, i));
            }
        }
    }

    /// Making cell `i` visible keeps the state well-formed.
    pub proof fn lemma_after_visible_wf(self, i: u32)
        requires
            self.wf(),
        ensures
            self.after_visible(i).wf(),
    {
        if self.can_dispatch(i) {
            self.lemma_row_batch(i);
            let batch = self.row_batch(i);
            assert forall|k: int| 0 <= k < batch.len() implies self.state_of(
                #[trigger] batch[k],
            ).wanted() by {
                assert(batch.contains(batch[k]));
            }
            self.lemma_dispatch_wf(batch);
        }
    }

    /// In an ascending batch each index sits at one position only.
    pub proof fn lemma_position(batch: Seq<u32>, k: int)
        requires
            ascending(batch),
            0 <= k < batch.len(),
        ensures
            batch.contains(batch[k]),
            batch.index_of(batch[k]) == k,
    {
        let m = batch.index_of(batch[k]);
        assert(0 <= m < batch.len() && batch[m] == batch[k]);
        if m < k {
            assert(batch[m] < batch[k]);
        } else if k < m {
            assert(batch[k] < batch[m]);
        }
    }

    proof fn lemma_settle_wf(self, n: StoreView, t: u64)
        requires
            self.wf(),
            self.outstanding.contains_key(t),
            n.row_size == self.row_size,
            n.next_ticket == self.next_ticket,
            n.in_flight == Set::new(
                |j: u32| self.in_flight.contains(j) && !self.outstanding[t].contains(j),
            ),
            n.outstanding == self.outstanding.remove(t),
            forall|j: u32| n.items.contains_key(j) <==> self.items.contains_key(j)
                || self.outstanding[t].contains(j),
            forall|j: u32|
                !self.outstanding[t].contains(j) && self.items.contains_key(j) ==> n.items[j]
                    == self.items[j],
            forall|j: u32|
                self.outstanding[t].contains(j) ==> n.items[j].index == j && n.items[j].wf()
                    && !(n.items[j].state is Pending),
        ensures
            n.wf(),
    {
        let batch = self.outstanding[t];
        assert forall|j: u32|
            #![trigger n.in_flight.contains(j)]
            #![trigger n.state_of(j)]
            n.in_flight.contains(j) <==> n.state_of(j) is Pending by {
            if !batch.contains(j) {
                assert(n.state_of(j) == self.state_of(j));
            }
        }
        assert forall|t2: u64, k: int|
            n.outstanding.contains_key(t2) && 0 <= k < n.outstanding[t2].len()
                implies n.in_flight.contains(#[trigger] n.outstanding[t2][k]) by {
            let j = self.outstanding[t2][k];
            assert(self.in_flight.contains(j));
            if batch.contains(j) {
                let m = choose|m: int| 0 <= m < batch.len() && batch[m] == j;
                assert(self.outstanding[t][m] != self.outstanding[t2][k]);
            }
        }
        assert forall|t1: u64, t2: u64, k1: int, k2: int|
            n.outstanding.contains_key(t1) && n.outstanding.contains_key(t2) && t1 != t2 && 0
                <= k1 < n.outstanding[t1].len() && 0 <= k2 < n.outstanding[t2].len()
                implies #[trigger] n.outstanding[t1][k1] != #[trigger] n.outstanding[t2][k2] by {
            assert(self.outstanding[t1][k1] != self.outstanding[t2][k2]);
        }
        assert forall|i: u32| #[trigger] n.in_flight.contains(i) implies exists|t2: u64|
            n.covers(t2, i) by {
            let t2 = choose|t2: u64| self.covers(t2, i);
            assert(n.covers(t2, i));
        }
    }

    /// Settling a batch that is out keeps the state well-formed.
    pub proof fn lemma_settle_loaded_wf(self, t: u64, pairs: Seq<Pair>)
        requires
            self.wf(),
            self.outstanding.contains_key(t),
        ensures
            self.settle_loaded(t, pairs).wf(),
    {
        self.lemma_settle_wf(self.settle_loaded(t, pairs), t);
    }

    /// Failing a batch that is out keeps the state well-formed.
    pub proof fn lemma_settle_failed_wf(self, t: u64)
        requires
            self.wf(),
            self.outstanding.contains_key(t),
        ensures
            self.settle_failed(t).wf(),
    {
        self.lemma_settle_wf(self.settle_failed(t), t);
    }

    /// No single event can break the invariant.
    pub proof fn lemma_step_wf(self, e: Event)
        requires
            self.wf(),
        ensures
            self.step(e).wf(),
    {
        match e {
            Event::Visible(i) => {
                self.lemma_after_visible_wf(i);
            },
            Event::Resolved(t, pairs) => {
                if self.awaits(t) {
                    self.lemma_settle_loaded_wf(t, pairs);
                    self.lemma_settle_failed_wf(t);
                }
            },
            Event::Failed(t) => {
                if self.awaits(t) {
                    self.lemma_settle_failed_wf(t);
                }
            },
            Event::Unmounted => {
                let n = self.unmounted();
                assert forall|i: u32|
                    #![trigger n.in_flight.contains(i)]
                    #![trigger n.state_of(i)]
                    n.in_flight.contains(i) <==> n.state_of(i) is Pending by {
                    assert(n.state_of(i) == self.state_of(i));
                }
                assert forall|i: u32| #[trigger] n.in_flight.contains(i) implies exists|t: u64|
                    n.covers(t, i) by {
                    let t = choose|t: u64| self.covers(t, i);
                    assert(n.covers(t, i));
                }
            },
            Event::Resized(size) => {
                let n = self.with_row_size(size);
                assert forall|i: u32|
                    #![trigger n.in_flight.contains(i)]
                    #![trigger n.state_of(i)]
                    n.in_flight.contains(i) <==> n.state_of(i) is Pending by {
                    assert(n.state_of(i) == self.state_of(i));
                }
                assert forall|i: u32| #[trigger] n.in_flight.contains(i) implies exists|t: u64|
                    n.covers(t, i) by {
                    let t = choose|t: u64| self.covers(t, i);
                    assert(n.covers(t, i));
                }
            },
            Event::Counted(count) => {
                let n = self.with_total_count(count);
                assert forall|i: u32|
                    #![trigger n.in_flight.contains(i)]
                    #![trigger n.state_of(i)]
                    n.in_flight.contains(i) <==> n.state_of(i) is Pending by {
                    assert(n.state_of(i) == self.state_of(i));
                }
                assert forall|i: u32| #[trigger] n.in_flight.contains(i) implies exists|t: u64|
                    n.covers(t, i) by {
                    let t = choose|t: u64| self.covers(t, i);
                    assert(n.covers(t, i));
                }
            },
        }
    }

    /// A whole history of events cannot break the invariant either.
    pub proof fn lemma_run_wf(self, events: Seq<Event>)
        requires
            self.wf(),
        ensures
            self.run(events).wf(),
        decreases events.len(),
    {
        if events.len() > 0 {
            self.lemma_run_wf(events.drop_last());
            self.run(events.drop_last()).lemma_step_wf(events.last());
        }
    }

    /// At no time is an index asked for by two batches that are both out.
    pub proof fn lemma_one_request_per_index(self, t1: u64, t2: u64, i: u32)
        requires
            self.wf(),
            self.covers(t1, i),
            self.covers(t2, i),
        ensures
            t1 == t2,
    {
        let k1 = choose|k: int| 0 <= k < self.outstanding[t1].len() && self.outstanding[t1][k] == i;
        let k2 = choose|k: int| 0 <= k < self.outstanding[t2].len() && self.outstanding[t2][k] == i;
        if t1 != t2 {
            assert(self.outstanding[t1][k1] != self.outstanding[t2][k2]);
        }
    }

    /// The same, said of every state that a grid can reach from its start.
    pub proof fn lemma_one_request_per_index_ever(events: Seq<Event>, t1: u64, t2: u64, i: u32)
        requires
            StoreView::initial().run(events).covers(t1, i),
            StoreView::initial().run(events).covers(t2, i),
        ensures
            t1 == t2,
    {
        StoreView::initial().lemma_initial_wf();
        StoreView::initial().lemma_run_wf(events);
        StoreView::initial().run(events).lemma_one_request_per_index(t1, t2, i);
    }

    /// The starting state is well-formed.
    pub proof fn lemma_initial_wf(self)
        requires
            self == StoreView::initial(),
        ensures
            self.wf(),
    {
    }

    /// The indices in flight are exactly those that some batch that is out
    /// asks for, and exactly the pending cells.
    pub proof fn lemma_in_flight(self, i: u32)
        requires
            self.wf(),
        ensures
            self.in_flight.contains(i) <==> exists|t: u64| self.covers(t, i),
            self.in_flight.contains(i) <==> self.state_of(i) is Pending,
    {
        if exists|t: u64| self.covers(t, i) {
            let t = choose|t: u64| self.covers(t, i);
            let k = choose|k: int| 0 <= k < self.outstanding[t].len() && self.outstanding[t][k] == i;
            assert(self.in_flight.contains(self.outstanding[t][k]));
        }
    }

    /// A new batch never takes an index that is in flight.
    pub proof fn lemma_batch_avoids_in_flight(self, i: u32, x: u32)
        requires
            self.wf(),
            self.can_dispatch(i),
            self.row_batch(i).contains(x),
        ensures
            !self.in_flight.contains(x),
    {
        self.lemma_row_batch(i);
    }

    /// A cell that is loaded or being fetched sends nothing when it becomes
    /// visible again, and nothing changes.
    pub proof fn lemma_settled_cell_is_quiet(self, i: u32)
        requires
            self.state_of(i) is Loaded || self.state_of(i) is Pending,
        ensures
            !self.can_dispatch(i),
            self.after_visible(i) == self,
    {
    }

    /// Measuring the layout changes the row size and nothing else: every
    /// cell keeps its state, its name and its kind.
    pub proof fn lemma_resize_keeps_cells(self, size: u32)
        ensures
            self.with_row_size(size).items == self.items,
            self.with_row_size(size).in_flight == self.in_flight,
            self.with_row_size(size).outstanding == self.outstanding,
            self.with_row_size(size).total_count == self.total_count,
            forall|i: u32| self.with_row_size(size).state_of(i) == self.state_of(i),
    {
    }

    /// Once the grid is off the page no event changes anything: no batch goes
    /// out, and answers that are still on their way are dropped.
    pub proof fn lemma_unmounted_is_inert(self, e: Event)
        requires
            !self.mounted,
        ensures
            self.step(e) == self,
    {
    }

    /// A cell only ever moves forward: from unrequested or failed to
    /// pending, and from pending to loaded or failed.
    pub proof fn lemma_cells_move_forward(self, e: Event, i: u32)
        requires
            self.wf(),
        ensures
            self.state_of(i).may_become(self.step(e).state_of(i)),
    {
        match e {
            Event::Visible(v) => {
                if self.can_dispatch(v) {
                    self.lemma_row_batch(v);
                }
            },
            Event::Resolved(t, pairs) => {
                if self.awaits(t) && self.outstanding[t].contains(i) {
                    let k = choose|k: int|
                        0 <= k < self.outstanding[t].len() && self.outstanding[t][k] == i;
                    assert(self.in_flight.contains(self.outstanding[t][k]));
                }
            },
            Event::Failed(t) => {
                if self.awaits(t) && self.outstanding[t].contains(i) {
                    let k = choose|k: int|
                        0 <= k < self.outstanding[t].len() && self.outstanding[t][k] == i;
                    assert(self.in_flight.contains(self.outstanding[t][k]));
                }
            },
            Event::Resized(size) => {},
            Event::Counted(count) => {},
            Event::Unmounted => {},
        }
    }

    /// Once a cell is loaded, no event changes it.
    pub proof fn lemma_loaded_is_final(self, e: Event, i: u32)
        requires
            self.wf(),
            self.state_of(i) is Loaded,
        ensures
            self.step(e).items.contains_key(i),
            self.step(e).items[i] == self.items[i],
    {
        assert(!self.in_flight.contains(i));
        match e {
            Event::Visible(v) => {
                if self.can_dispatch(v) {
                    self.lemma_row_batch(v);
                }
            },
            Event::Resolved(t, pairs) => {
                if self.outstanding.contains_key(t) && self.outstanding[t].contains(i) {
                    let k = choose|k: int|
                        0 <= k < self.outstanding[t].len() && self.outstanding[t][k] == i;
                    assert(self.in_flight.contains(self.outstanding[t][k]));
                }
            },
            Event::Failed(t) => {
                if self.outstanding.contains_key(t) && self.outstanding[t].contains(i) {
                    let k = choose|k: int|
                        0 <= k < self.outstanding[t].len() && self.outstanding[t][k] == i;
                    assert(self.in_flight.contains(self.outstanding[t][k]));
                }
            },
            Event::Resized(size) => {},
            Event::Counted(count) => {},
            Event::Unmounted => {},
        }
    }

    /// An answer with one pair per index loads every cell of its batch with
    /// the pair at its position, and takes the batch out of flight.
    pub proof fn lemma_resolved_loads_batch(self, t: u64, pairs: Seq<Pair>, k: int)
        requires
            self.wf(),
            self.mounted,
            self.accepts(t, pairs),
            0 <= k < pairs.len(),
        ensures
            self.after_resolved(t, pairs).items[self.outstanding[t][k]] == ItemView::loaded(
                self.outstanding[t][k],
                pairs[k].0,
                pairs[k].1,
            ),
            !self.after_resolved(t, pairs).in_flight.contains(self.outstanding[t][k]),
            !self.after_resolved(t, pairs).outstanding.contains_key(t),
    {
        Self::lemma_position(self.outstanding[t], k);
    }

    /// A failed batch leaves every one of its cells `Failed`, so that the
    /// next visibility event for any of them sends a batch again.
    pub proof fn lemma_failed_batch_can_retry(self, t: u64, k: int)
        requires
            self.wf(),
            self.awaits(t),
            0 <= k < self.outstanding[t].len(),
        ensures
            self.after_failed(t).state_of(self.outstanding[t][k]) is Failed,
            !self.after_failed(t).in_flight.contains(self.outstanding[t][k]),
            self.outstanding[t][k] < self.total_count && self.next_ticket < u64::MAX
                ==> self.after_failed(t).can_dispatch(self.outstanding[t][k]),
    {
        Self::lemma_position(self.outstanding[t], k);
    }
}

} // verus!
