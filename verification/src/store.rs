//! The load coordinator: the one owner of the session state.

use crate::fetch::FetchError;
use crate::indices::ascending;
use crate::item::{ItemData, ItemState, ItemView};
use crate::model::{Pair, StoreView};
use crate::request::{Batch, BatchView, GetFiles};
use std::collections::{HashMap, HashSet};
use vstd::prelude::*;

verus! {

/// The views of a list of pairs, pair by pair.
pub open spec fn pairs_view(pairs: Seq<(String, String)>) -> Seq<Pair> {
    Seq::new(pairs.len(), |k: int| (pairs[k].0@, pairs[k].1@))
}

/// The views of an answer, if there is one.
pub open spec fn answer_view(pairs: Option<&Vec<(String, String)>>) -> Option<Seq<Pair>> {
    match pairs {
        Some(p) => Some(pairs_view(p@)),
        None => None,
    }
}

/// The cells after the indices in `done`, all taken from `batch`, have been
/// settled: loaded from the answer where there is one, failed where not.
pub open spec fn settled(
    items: Map<u32, ItemView>,
    batch: Seq<u32>,
    done: Seq<u32>,
    answer: Option<Seq<Pair>>,
) -> Map<u32, ItemView> {
    Map::new(
        |j: u32| items.contains_key(j) || done.contains(j),
        |j: u32|
            if done.contains(j) {
                match answer {
                    Some(pairs) => ItemView::loaded(
                        j,
                        pairs[batch.index_of(j)].0,
                        pairs[batch.index_of(j)].1,
                    ),
                    None => ItemView::blank(j, ItemState::Failed),
                }
            } else {
                items[j]
            },
    )
}

/// The indices that stay in flight when those in `done` are settled.
pub open spec fn unsettled(in_flight: Set<u32>, done: Seq<u32>) -> Set<u32> {
    Set::new(|j: u32| in_flight.contains(j) && !done.contains(j))
}

/// The session state of one mounted grid. All changes go through the
/// functions of this module, which keep it well-formed.
pub struct Store {
    total_count: u32,
    row_size: u32,
    items: HashMap<u32, ItemData>,
    in_flight: HashSet<u32>,
    outstanding: HashMap<u64, Vec<u32>>,
    next_ticket: u64,
    mounted: bool,
}

impl View for Store {
    type V = StoreView;

    closed spec fn view(&self) -> StoreView {
        StoreView {
            total_count: self.total_count,
            row_size: self.row_size,
            items: Map::new(|i: u32| self.items@.contains_key(i), |i: u32| self.items@[i]@),
            in_flight: self.in_flight@,
            outstanding: Map::new(
                |t: u64| self.outstanding@.contains_key(t),
                |t: u64| self.outstanding@[t]@,
            ),
            next_ticket: self.next_ticket,
            mounted: self.mounted,
        }
    }
}

impl Store {
    /// The invariant that every function of this module keeps.
    pub open spec fn wf(&self) -> bool {
        self@.wf()
    }

    /// The state of a freshly mounted grid.
    pub fn new() -> (r: Store)
        ensures
            r@ == StoreView::initial(),
            r.wf(),
    {
        let r = Store {
            total_count: 0,
            row_size: 1,
            items: HashMap::new(),
            in_flight: HashSet::new(),
            outstanding: HashMap::new(),
            next_ticket: 0,
            mounted: true,
        };
        proof {
            assert(r@.items =~= Map::<u32, ItemView>::empty());
            assert(r@.outstanding =~= Map::<u64, Seq<u32>>::empty());
            assert(r@.in_flight =~= Set::<u32>::empty());
        }
        r
    }

    /// The size of the collection as last counted.
    pub fn total_count(&self) -> (r: u32)
        ensures
            r == self@.total_count,
    {
        self.total_count
    }

    /// The number of cells per row.
    pub fn row_size(&self) -> (r: u32)
        ensures
            r == self@.row_size,
    {
        self.row_size
    }

    /// The state of cell `i`.
    pub fn state_of(&self, i: u32) -> (r: ItemState)
        ensures
            r == self@.state_of(i),
    {
        match self.items.get(&i) {
            Some(item) => item.state,
            None => ItemState::Unrequested,
        }
    }

    /// A copy of cell `i`, if it has been touched.
    pub fn item(&self, i: u32) -> (r: Option<ItemData>)
        ensures
            match r {
                Some(item) => self@.items.contains_key(i) && item@ == self@.items[i],
                None => !self@.items.contains_key(i),
            },
    {
        match self.items.get(&i) {
            Some(item) => Some(item.duplicate()),
            None => None,
        }
    }

    /// Whether a batch that covers cell `i` is out.
    pub fn is_in_flight(&self, i: u32) -> (r: bool)
        ensures
            r == self@.in_flight.contains(i),
    {
        self.in_flight.contains(&i)
    }

    /// The number of cells that are covered by a batch that is out.
    pub fn in_flight_count(&self) -> (r: usize)
        ensures
            r == self@.in_flight.len(),
    {
        self.in_flight.len()
    }

    /// Whether the grid is still on the page.
    pub fn is_mounted(&self) -> (r: bool)
        ensures
            r == self@.mounted,
    {
        self.mounted
    }

    /// Whether the batch with this ticket is out.
    pub fn is_outstanding(&self, ticket: u64) -> (r: bool)
        ensures
            r == self@.outstanding.contains_key(ticket),
    {
        self.outstanding.contains_key(&ticket)
    }

    fn wanted_in_row(&self, lo: u32, hi: u32) -> (r: Vec<u32>)
        requires
            lo <= hi,
        ensures
            r@ == self@.wanted_between(lo as int, hi as int),
    {
        let mut r: Vec<u32> = Vec::new();
        let mut j: u32 = lo;
        while j < hi
            invariant
                lo <= j <= hi,
                r@ == self@.wanted_between(lo as int, j as int),
            decreases hi - j,
        {
            if self.state_of(j).is_wanted() {
                r.push(j);
            }
            j += 1;
        }
        r
    }

    fn mark_pending(&mut self, batch: &Vec<u32>)
        ensures
            final(self)@.items == old(self)@.dispatch(batch@).items,
            final(self)@.in_flight == old(self)@.dispatch(batch@).in_flight,
            final(self).total_count == old(self).total_count,
            final(self).row_size == old(self).row_size,
            final(self).outstanding == old(self).outstanding,
            final(self).next_ticket == old(self).next_ticket,
            final(self).mounted == old(self).mounted,
    {
        let ghost before = self@;
        let mut k: usize = 0;
        proof {
            assert(self@.items =~= before.dispatch(batch@.take(0)).items);
            assert(self@.in_flight =~= before.dispatch(batch@.take(0)).in_flight);
        }
        while k < batch.len()
            invariant
                k <= batch.len(),
                before == old(self)@,
                self@.items == before.dispatch(batch@.take(k as int)).items,
                self@.in_flight == before.dispatch(batch@.take(k as int)).in_flight,
                self.total_count == old(self).total_count,
                self.row_size == old(self).row_size,
                self.outstanding == old(self).outstanding,
                self.next_ticket == old(self).next_ticket,
                self.mounted == old(self).mounted,
            decreases batch.len() - k,
        {
            let j = batch[k];
            let ghost prev = self@;
            self.items.insert(j, ItemData::blank(j, ItemState::Pending));
            self.in_flight.insert(j);
            proof {
                let done = batch@.take(k as int);
                let next = batch@.take(k + 1);
                assert(next =~= done.push(j));
                assert forall|x: u32| next.contains(x) <==> (done.contains(x) || x == j) by {
                    if done.contains(x) {
                        let m = choose|m: int| 0 <= m < done.len() && done[m] == x;
                        assert(next[m] == x);
                    }
                    if next.contains(x) {
                        let m = choose|m: int| 0 <= m < next.len() && next[m] == x;
                        if m < done.len() {
                            assert(done[m] == x);
                        }
                    }
                    assert(next[k as int] == j);
                }
                let goal = before.dispatch(next).items;
                assert forall|x: u32| self@.items.contains_key(x) <==> goal.contains_key(x) by {
                    assert(prev.items.contains_key(x) <==> before.dispatch(done).items.contains_key(x));
                }
                assert forall|x: u32| self@.items.contains_key(x) implies self@.items[x] == goal[x] by {
                    if x != j {
                        assert(prev.items.contains_key(x));
                        assert(prev.items[x] == before.dispatch(done).items[x]);
                    }
                }
                assert(self@.items =~= goal);
                assert(self@.in_flight =~= before.dispatch(next).in_flight);
            }
            k += 1;
        }
        proof {
            assert(batch@.take(k as int) =~= batch@);
        }
    }

    fn settle(&mut self, batch: &Vec<u32>, pairs: Option<&Vec<(String, String)>>)
        requires
            ascending(batch@),
            pairs matches Some(p) ==> p@.len() == batch@.len(),
        ensures
            final(self).total_count == old(self).total_count,
            final(self).row_size == old(self).row_size,
            final(self).outstanding == old(self).outstanding,
            final(self).next_ticket == old(self).next_ticket,
            final(self).mounted == old(self).mounted,
            final(self)@.in_flight == unsettled(old(self)@.in_flight, batch@),
            final(self)@.items == settled(
                old(self)@.items,
                batch@,
                batch@,
                answer_view(pairs),
            ),
    {
        let ghost before = self@;
        let ghost answer = answer_view(pairs);
        let mut k: usize = 0;
        proof {
            assert(self@.items =~= settled(before.items, batch@, batch@.take(0), answer));
            assert(self@.in_flight =~= unsettled(before.in_flight, batch@.take(0)));
        }
        while k < batch.len()
            invariant
                k <= batch.len(),
                ascending(batch@),
                pairs matches Some(p) ==> p@.len() == batch@.len(),
                before == old(self)@,
                answer == answer_view(pairs),
                self@.items == settled(before.items, batch@, batch@.take(k as int), answer),
                self@.in_flight == unsettled(before.in_flight, batch@.take(k as int)),
                self.total_count == old(self).total_count,
                self.row_size == old(self).row_size,
                self.outstanding == old(self).outstanding,
                self.next_ticket == old(self).next_ticket,
                self.mounted == old(self).mounted,
            decreases batch.len() - k,
        {
            let j = batch[k];
            let ghost prev = self@;
            let item = match pairs {
                Some(p) => ItemData::loaded(j, p[k].0.clone(), p[k].1.clone()),
                None => ItemData::blank(j, ItemState::Failed),
            };
            self.items.insert(j, item);
            self.in_flight.remove(&j);
            proof {
                let done = batch@.take(k as int);
                let next = batch@.take(k + 1);
                assert(next =~= done.push(j));
                assert forall|x: u32| next.contains(x) <==> (done.contains(x) || x == j) by {
                    if done.contains(x) {
                        let m = choose|m: int| 0 <= m < done.len() && done[m] == x;
                        assert(next[m] == x);
                    }
                    if next.contains(x) {
                        let m = choose|m: int| 0 <= m < next.len() && next[m] == x;
                        if m < done.len() {
                            assert(done[m] == x);
                        }
                    }
                    assert(next[k as int] == j);
                }
                StoreView::lemma_position(batch@, k as int);
                let was = settled(before.items, batch@, done, answer);
                let goal = settled(before.items, batch@, next, answer);
                assert forall|x: u32| self@.items.contains_key(x) <==> goal.contains_key(x) by {
                    assert(prev.items.contains_key(x) <==> was.contains_key(x));
                }
                assert forall|x: u32| self@.items.contains_key(x) implies self@.items[x]
                    == goal[x] by {
                    if x != j {
                        assert(prev.items.contains_key(x));
                        assert(prev.items[x] == was[x]);
                    }
                }
                assert(self@.items =~= goal);
                assert(self@.in_flight =~= unsettled(before.in_flight, next));
            }
            k += 1;
        }
        proof {
            assert(batch@.take(k as int) =~= batch@);
        }
    }
}

impl Default for Store {
    fn default() -> (r: Store)
        ensures
            r@ == StoreView::initial(),
    {
        Store::new()
    }
}

/// Cell `id` has entered the viewport. If the cell is within the collection
/// and neither loaded nor being fetched, every such cell of its row is marked
/// pending and the batch to send is returned; otherwise nothing changes.
pub fn load_item(id: u32, store: &mut Store) -> (r: Option<Batch>)
    requires
        old(store).wf(),
    ensures
        final(store).wf(),
        final(store)@ == old(store)@.after_visible(id),
        r is Some <==> old(store)@.can_dispatch(id),
        r matches Some(b) ==> b@ == (BatchView {
            ticket: old(store)@.next_ticket,
            indices: old(store)@.row_batch(id),
            count: old(store)@.total_count,
        }),
        r matches Some(b) ==> ascending(b@.indices) && b@.indices.contains(id)
            && forall|k: int|
            0 <= k < b@.indices.len() ==> !old(store)@.in_flight.contains(
                #[trigger] b@.indices[k],
            ),
{
    if !store.mounted || id >= store.total_count || !store.state_of(id).is_wanted()
        || store.next_ticket == u64::MAX {
        return None;
    }
    proof {
        store@.lemma_row_bounds(id);
        store@.lemma_row_batch(id);
        store@.lemma_after_visible_wf(id);
    }
    let rs: u32 = store.row_size;
    let lo: u32 = (id / rs) * rs;
    let end: u64 = lo as u64 + rs as u64;
    let hi: u32 = if end < store.total_count as u64 {
        end as u32
    } else {
        store.total_count
    };
    let indices = store.wanted_in_row(lo, hi);
    let ticket: u64 = store.next_ticket;
    let ghost before = store@;
    proof {
        assert forall|k: int| 0 <= k < indices@.len() implies !before.in_flight.contains(
            #[trigger] indices@[k],
        ) by {
            assert(indices@.contains(indices@[k]));
        }
    }
    store.mark_pending(&indices);
    store.outstanding.insert(ticket, indices.clone());
    store.next_ticket = ticket + 1;
    proof {
        assert(store@.outstanding =~= before.dispatch(indices@).outstanding);
        assert(store@ == before.dispatch(indices@));
    }
    Some(Batch { ticket, request: GetFiles { indices, count: store.total_count } })
}

/// The batch with this ticket has been answered with `pairs`, one for each of
/// its indices in ascending order. Returns the indices whose cells changed.
/// An answer for a ticket that is not out is ignored; one with the wrong
/// number of pairs fails the batch.
pub fn resolve_batch(ticket: u64, pairs: &Vec<(String, String)>, store: &mut Store) -> (r: Vec<
    u32,
>)
    requires
        old(store).wf(),
    ensures
        final(store).wf(),
        final(store)@ == old(store)@.after_resolved(ticket, pairs_view(pairs@)),
        r@ == if old(store)@.awaits(ticket) {
            old(store)@.outstanding[ticket]
        } else {
            Seq::empty()
        },
{
    if !store.mounted {
        return Vec::new();
    }
    let ghost before = store@;
    match store.outstanding.remove(&ticket) {
        None => {
            proof {
                assert(store@.outstanding =~= before.outstanding);
                assert(store@ == before);
            }
            Vec::new()
        },
        Some(batch) => {
            proof {
                assert(batch@ == before.outstanding[ticket]);
                assert(store@.outstanding =~= before.outstanding.remove(ticket));
                before.lemma_settle_loaded_wf(ticket, pairs_view(pairs@));
                before.lemma_settle_failed_wf(ticket);
            }
            if pairs.len() == batch.len() {
                store.settle(&batch, Some(pairs));
                proof {
                    assert(store@.items =~= before.settle_loaded(
                        ticket,
                        pairs_view(pairs@),
                    ).items);
                    assert(store@ == before.settle_loaded(ticket, pairs_view(pairs@)));
                }
            } else {
                store.settle(&batch, None);
                proof {
                    assert(store@.items =~= before.settle_failed(ticket).items);
                    assert(store@ == before.settle_failed(ticket));
                }
            }
            batch
        },
    }
}

/// The fetch for the batch with this ticket has failed. Every cell of the
/// batch becomes `Failed`, so that a later visibility event asks again.
/// Returns the indices whose cells changed.
pub fn fail_batch(ticket: u64, store: &mut Store) -> (r: Vec<u32>)
    requires
        old(store).wf(),
    ensures
        final(store).wf(),
        final(store)@ == old(store)@.after_failed(ticket),
        r@ == if old(store)@.awaits(ticket) {
            old(store)@.outstanding[ticket]
        } else {
            Seq::empty()
        },
{
    if !store.mounted {
        return Vec::new();
    }
    let ghost before = store@;
    match store.outstanding.remove(&ticket) {
        None => {
            proof {
                assert(store@.outstanding =~= before.outstanding);
                assert(store@ == before);
            }
            Vec::new()
        },
        Some(batch) => {
            proof {
                assert(batch@ == before.outstanding[ticket]);
                assert(store@.outstanding =~= before.outstanding.remove(ticket));
                before.lemma_settle_failed_wf(ticket);
            }
            store.settle(&batch, None);
            proof {
                assert(store@.items =~= before.settle_failed(ticket).items);
                assert(store@ == before.settle_failed(ticket));
            }
            batch
        },
    }
}

/// The fetch for the batch with this ticket has ended with `outcome`: the
/// pairs load the cells of the batch, any error fails them. Returns the
/// indices whose cells changed.
pub fn complete_batch(
    ticket: u64,
    outcome: &Result<Vec<(String, String)>, FetchError>,
    store: &mut Store,
) -> (r: Vec<u32>)
    requires
        old(store).wf(),
    ensures
        final(store).wf(),
        final(store)@ == match outcome {
            Ok(pairs) => old(store)@.after_resolved(ticket, pairs_view(pairs@)),
            Err(_) => old(store)@.after_failed(ticket),
        },
        r@ == if old(store)@.awaits(ticket) {
            old(store)@.outstanding[ticket]
        } else {
            Seq::empty()
        },
{
    match outcome {
        Ok(pairs) => resolve_batch(ticket, pairs, store),
        Err(_) => fail_batch(ticket, store),
    }
}

/// Records the size of the collection.
pub fn set_total_count(count: u32, store: &mut Store)
    requires
        old(store).wf(),
    ensures
        final(store).wf(),
        final(store)@ == old(store)@.with_total_count(count),
{
    proof {
        store@.lemma_step_wf(crate::model::Event::Counted(count));
    }
    if store.mounted {
        store.total_count = count;
    }
}

/// The grid has been taken off the page. From now on no batch goes out, and
/// answers that are still on their way change nothing.
pub fn unmount(store: &mut Store)
    requires
        old(store).wf(),
    ensures
        final(store).wf(),
        final(store)@ == old(store)@.unmounted(),
{
    proof {
        store@.lemma_step_wf(crate::model::Event::Unmounted);
    }
    store.mounted = false;
}

/// Records how many cells fit in a row. Zero counts as one. No cell changes.
pub fn set_row_size(size: u32, store: &mut Store)
    requires
        old(store).wf(),
    ensures
        final(store).wf(),
        final(store)@ == old(store)@.with_row_size(size),
        final(store)@.items == old(store)@.items,
        final(store)@.row_size >= 1,
{
    proof {
        store@.lemma_step_wf(crate::model::Event::Resized(size));
    }
    if store.mounted {
        store.row_size = if size == 0 {
            1
        } else {
            size
        };
    }
}

} // verus!
