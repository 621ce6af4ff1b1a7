//! The layout probe: how many cells fit in one row of the grid.

use crate::store::{set_row_size, Store};
use vstd::prelude::*;
use vstd::std_specs::iter::IteratorSpec;

verus! {

/// The number of spaces in `s`.
pub open spec fn count_spaces(s: Seq<char>) -> nat
    decreases s.len(),
{
    if s.len() == 0 {
        0
    } else {
        count_spaces(s.drop_last()) + if s.last() == ' ' {
            1nat
        } else {
            0nat
        }
    }
}

/// The number of column tracks that a computed `grid-template-columns` value
/// names: its pieces between single spaces. Never zero.
pub open spec fn track_count(value: Seq<char>) -> nat {
    count_spaces(value) + 1
}

/// `n` as a row size: cut off at the largest `u32`.
pub open spec fn clip(n: nat) -> u32 {
    if n > u32::MAX {
        u32::MAX
    } else {
        n as u32
    }
}

/// Counts the column tracks of a computed `grid-template-columns` value.
pub fn count_tracks(value: &str) -> (r: u32)
    ensures
        r == clip(track_count(value@)),
        r >= 1,
{
    let n: usize = value.unicode_len();
    let mut it = value.chars();
    let mut i: usize = 0;
    let mut tracks: u32 = 1;
    loop
        invariant
            i <= n,
            n == value@.len(),
            it.remaining() == value@.skip(i as int),
            tracks == clip(track_count(value@.take(i as int))),
            tracks >= 1,
        decreases n - i,
    {
        match it.next() {
            Some(c) => {
                proof {
                    assert(value@.skip(i as int)[0] == value@[i as int]);
                    assert(value@.skip(i as int).drop_first() =~= value@.skip(i + 1));
                    assert(value@.take(i + 1).drop_last() =~= value@.take(i as int));
                    assert(value@.take(i + 1).last() == c);
                }
                if c == ' ' && tracks < u32::MAX {
                    tracks += 1;
                }
                i += 1;
            },
            None => {
                proof {
                    assert(value@.skip(i as int).len() == 0);
                    assert(value@.take(i as int) =~= value@);
                }
                return tracks;
            },
        }
    }
}

/// The layout probe. It remembers the last row size it measured, so that a
/// measurement that fails leaves the grid as it was.
#[derive(Clone, Copy, Debug, PartialEq, Eq, Structural)]
pub struct LayoutProbe {
    row_size: u32,
}

impl LayoutProbe {
    /// The last known row size. At least one.
    pub closed spec fn known(self) -> u32 {
        self.row_size
    }

    /// Every probe that this module hands out knows a positive row size.
    pub open spec fn wf(self) -> bool {
        self.known() >= 1
    }

    /// A probe that has not measured yet: one cell per row.
    pub fn new() -> (r: LayoutProbe)
        ensures
            r.known() == 1,
            r.wf(),
    {
        LayoutProbe { row_size: 1 }
    }

    /// The last known row size.
    pub fn row_size(&self) -> (r: u32)
        ensures
            r == self.known(),
    {
        self.row_size
    }

    /// Takes one measurement and puts the row size into the session state.
    /// No cell changes; only the rows of later batches do.
    pub fn publish(&mut self, computed: Option<&str>, store: &mut Store) -> (r: u32)
        requires
            old(self).wf(),
            old(store).wf(),
        ensures
            final(self).wf(),
            final(store).wf(),
            r == final(self).known(),
            r == match computed {
                Some(value) => clip(track_count(value@)),
                None => old(self).known(),
            },
            final(store)@ == old(store)@.with_row_size(r),
            final(store)@.items == old(store)@.items,
    {
        let size = self.measure(computed);
        set_row_size(size, store);
        size
    }

    /// Takes one measurement. `computed` is the container's computed
    /// `grid-template-columns` value, or `None` where the container is not
    /// attached or has no computed style. Returns the row size to use: the
    /// measured one, or the last known one where the measurement failed.
    pub fn measure(&mut self, computed: Option<&str>) -> (r: u32)
        requires
            old(self).wf(),
        ensures
            final(self).wf(),
            r == final(self).known(),
            r >= 1,
            r == match computed {
                Some(value) => clip(track_count(value@)),
                None => old(self).known(),
            },
    {
        match computed {
            Some(value) => {
                self.row_size = count_tracks(value);
            },
            None => {},
        }
        self.row_size
    }
}

} // verus!
