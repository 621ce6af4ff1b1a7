//! One grid cell and its loading state.

use vstd::prelude::*;

verus! {

/// Where one grid cell stands in its loading life cycle.
#[derive(Clone, Copy, Debug, PartialEq, Eq, Structural)]
pub enum ItemState {
    /// Never asked for.
    Unrequested,
    /// Covered by a batch that has been sent and not yet answered.
    Pending,
    /// Name and kind are known.
    Loaded,
    /// The batch that covered it came back with an error.
    Failed,
}

impl ItemState {
    /// A cell in this state is picked up by the next batch for its row.
    pub open spec fn wanted(self) -> bool {
        self is Unrequested || self is Failed
    }

    /// A cell may go from `self` to `next` in one step: it is asked for,
    /// its batch is answered or fails, or nothing happens to it.
    pub open spec fn may_become(self, next: ItemState) -> bool {
        ||| next == self
        ||| self.wanted() && next is Pending
        ||| self is Pending && (next is Loaded || next is Failed)
    }

    pub fn is_wanted(self) -> (r: bool)
        ensures
            r == self.wanted(),
    {
        match self {
            ItemState::Unrequested => true,
            ItemState::Failed => true,
            _ => false,
        }
    }
}

/// One grid cell. `name` and `kind` are filled in only while `state` is `Loaded`.
#[derive(Clone, Debug)]
pub struct ItemData {
    pub index: u32,
    pub state: ItemState,
    pub name: String,
    pub kind: String,
}

/// The mathematical value of an [`ItemData`].
pub struct ItemView {
    pub index: u32,
    pub state: ItemState,
    pub name: Seq<char>,
    pub kind: Seq<char>,
}

impl ItemView {
    /// A cell that carries no name: every state but `Loaded`.
    pub open spec fn blank(index: u32, state: ItemState) -> ItemView {
        ItemView { index, state, name: Seq::empty(), kind: Seq::empty() }
    }

    /// A cell whose entry has arrived.
    pub open spec fn loaded(index: u32, name: Seq<char>, kind: Seq<char>) -> ItemView {
        ItemView { index, state: ItemState::Loaded, name, kind }
    }

    /// Name and kind are present only when loaded.
    pub open spec fn wf(self) -> bool {
        !(self.state is Loaded) ==> self.name.len() == 0 && self.kind.len() == 0
    }
}

impl View for ItemData {
    type V = ItemView;

    open spec fn view(&self) -> ItemView {
        ItemView { index: self.index, state: self.state, name: self.name@, kind: self.kind@ }
    }
}

impl ItemData {
    /// A cell without a name, in the given state.
    pub fn blank(index: u32, state: ItemState) -> (r: ItemData)
        ensures
            r@ == ItemView::blank(index, state),
    {
        ItemData { index, state, name: String::new(), kind: String::new() }
    }

    /// A cell whose entry has arrived.
    pub fn loaded(index: u32, name: String, kind: String) -> (r: ItemData)
        ensures
            r@ == ItemView::loaded(index, name@, kind@),
    {
        ItemData { index, state: ItemState::Loaded, name, kind }
    }

    /// A copy with the same value.
    pub fn duplicate(&self) -> (r: ItemData)
        ensures
            r@ == self@,
    {
        ItemData {
            index: self.index,
            state: self.state,
            name: self.name.clone(),
            kind: self.kind.clone(),
        }
    }
}

} // verus!
