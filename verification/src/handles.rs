//! Handles to cells of an [`Engine`]: a `SharedCell` stands for a writable
//! base cell, a `MappedCell` or `ZippedCell` for a read-only derived cell.
//! Handles are plain ids — copying one gives another owner of the same
//! underlying cell — and every operation goes through the engine that owns
//! the graph.

use vstd::prelude::*;

use crate::engine::Engine;
use crate::engine::Error;
use crate::state::State;
use crate::state::Subscriber;
use crate::state::Transforms;
use crate::state::add_edge;
use crate::state::set_cell;

verus! {

/// A handle to a cell: anything that can be observed — read, listened to,
/// mapped, zipped.
pub trait CellLike: Sized {
    /// The id of the cell this handle stands for.
    spec fn id_spec(&self) -> int;

    /// Returns the id of the cell this handle stands for.
    fn id(&self) -> (r: usize)
        ensures
            r as int == self.id_spec(),
    ;

    /// Returns a reference to the cell's current value.
    fn get<'a, V, F: Transforms<V>>(&self, e: &'a Engine<V, F>) -> (v: &'a V)
        requires
            0 <= self.id_spec() < e.n(),
        ensures
            *v == e.state().values[self.id_spec()],
    {
        e.get(self.id())
    }

    /// Registers a `Repeating` external listener on this cell.
    fn on_update<V, F: Transforms<V>>(&self, e: &mut Engine<V, F>, token: u64)
        requires
            old(e).inv(),
            0 <= self.id_spec() < old(e).n(),
        ensures
            final(e).inv(),
            final(e).state() == (State {
                subs: old(e).state().subs.update(
                    self.id_spec(),
                    old(e).state().subs[self.id_spec()].push(Subscriber::Repeating(token)),
                ),
                ..old(e).state()
            }),
            final(e).trans() == old(e).trans(),
    {
        e.on_update(self.id(), token)
    }

    /// Registers a `Once` external listener on this cell.
    fn on_update_once<V, F: Transforms<V>>(&self, e: &mut Engine<V, F>, token: u64)
        requires
            old(e).inv(),
            0 <= self.id_spec() < old(e).n(),
        ensures
            final(e).inv(),
            final(e).state() == (State {
                subs: old(e).state().subs.update(
                    self.id_spec(),
                    old(e).state().subs[self.id_spec()].push(Subscriber::Once(token)),
                ),
                ..old(e).state()
            }),
            final(e).trans() == old(e).trans(),
    {
        e.on_update_once(self.id(), token)
    }
}

/// A handle to a cell that can be mutated through a shared handle, by way of
/// the engine: the writable face of [`CellLike`].
pub trait RefMutableCell: CellLike {
    /// Writes `value` into this cell and cascades; refused with
    /// `BorrowConflict` while events of an earlier mutation are pending.
    fn set<V, F: Transforms<V>>(&self, e: &mut Engine<V, F>, value: V) -> (r: Result<(), Error>)
        requires
            old(e).inv(),
            old(e).is_base(self.id_spec()),
        ensures
            final(e).inv(),
            final(e).trans() == old(e).trans(),
            final(e).n() == old(e).n(),
            final(e).state().kinds == old(e).state().kinds,
            r is Err <==> old(e).state().events.len() > 0,
            r is Err ==> r == Err::<(), Error>(Error::BorrowConflict) && final(e).state() == old(
                e,
            ).state(),
            r is Ok ==> final(e).state() == set_cell(
                old(e).trans(),
                old(e).n(),
                old(e).state(),
                self.id_spec(),
                value,
            ),
    {
        e.set(self.id(), value)
    }

    /// Rewrites this cell through unary transform `op`, applied to its
    /// current value, under the same conflict rule as `set`.
    fn update<V, F: Transforms<V>>(&self, e: &mut Engine<V, F>, op: u64) -> (r: Result<(), Error>)
        requires
            old(e).inv(),
            old(e).is_base(self.id_spec()),
        ensures
            final(e).inv(),
            final(e).trans() == old(e).trans(),
            final(e).n() == old(e).n(),
            final(e).state().kinds == old(e).state().kinds,
            r is Err <==> old(e).state().events.len() > 0,
            r is Err ==> r == Err::<(), Error>(Error::BorrowConflict) && final(e).state() == old(
                e,
            ).state(),
            r is Ok ==> final(e).state() == set_cell(
                old(e).trans(),
                old(e).n(),
                old(e).state(),
                self.id_spec(),
                old(e).trans().map_spec(op, old(e).state().values[self.id_spec()]),
            ),
    {
        e.update(self.id(), op)
    }
}

/// A handle to a writable base cell.
#[derive(Clone, Copy, PartialEq, Eq, Structural, Debug)]
pub struct SharedCell {
    id: usize,
}

impl SharedCell {
    /// Adds a base cell holding `value` to the engine and returns a handle
    /// to it.
    pub fn new<V, F: Transforms<V>>(e: &mut Engine<V, F>, value: V) -> (c: Self)
        requires
            old(e).inv(),
            old(e).n() < usize::MAX,
        ensures
            final(e).inv(),
            c.id_spec() == old(e).n(),
            final(e).is_base(c.id_spec()),
            final(e).n() == old(e).n() + 1,
            final(e).trans() == old(e).trans(),
            final(e).state().values == old(e).state().values.push(value),
            final(e).state().kinds == old(e).state().kinds.push(crate::state::CellKind::Base),
            final(e).state().subs == old(e).state().subs.push(Seq::<Subscriber>::empty()),
            final(e).state().events == old(e).state().events,
    {
        SharedCell { id: e.new_cell(value) }
    }
}

impl CellLike for SharedCell {
    closed spec fn id_spec(&self) -> int {
        self.id as int
    }

    fn id(&self) -> usize {
        self.id
    }
}

impl RefMutableCell for SharedCell {

}

/// A handle to a read-only cell derived from one parent through a unary
/// transform.
#[derive(Clone, Copy, PartialEq, Eq, Structural, Debug)]
pub struct MappedCell {
    id: usize,
}

impl MappedCell {
    /// Adds a mapped cell derived from `parent` through `op`: seeded from
    /// the parent's current value and rewritten on the parent's every
    /// mutation. Returns a handle to it.
    pub fn new<V, F: Transforms<V>, C: CellLike>(
        e: &mut Engine<V, F>,
        parent: &C,
        op: u64,
    ) -> (c: Self)
        requires
            old(e).inv(),
            0 <= parent.id_spec() < old(e).n(),
            old(e).n() < usize::MAX,
        ensures
            final(e).inv(),
            c.id_spec() == old(e).n(),
            final(e).n() == old(e).n() + 1,
            final(e).trans() == old(e).trans(),
            final(e).state().values == old(e).state().values.push(
                old(e).trans().map_spec(op, old(e).state().values[parent.id_spec()]),
            ),
            final(e).state().kinds == old(e).state().kinds.push(
                (crate::state::CellKind::Mapped { parent: parent.id_spec() as usize, op }),
            ),
            final(e).state().subs == add_edge(
                old(e).state().subs,
                parent.id_spec(),
                c.id_spec() as usize,
            ).push(Seq::<Subscriber>::empty()),
            final(e).state().events == old(e).state().events,
    {
        MappedCell { id: e.new_mapped(parent.id(), op) }
    }
}

impl CellLike for MappedCell {
    closed spec fn id_spec(&self) -> int {
        self.id as int
    }

    fn id(&self) -> usize {
        self.id
    }
}

/// A handle to a read-only cell derived from two parents through a binary
/// transform.
#[derive(Clone, Copy, PartialEq, Eq, Structural, Debug)]
pub struct ZippedCell {
    id: usize,
}

impl ZippedCell {
    /// Adds a zipped cell derived from `left` and `right` through `op`:
    /// seeded from both parents' current values, and rewritten — from both
    /// parents' then-current values — whenever either parent mutates.
    /// Returns a handle to it.
    pub fn new<V, F: Transforms<V>, L: CellLike, R: CellLike>(
        e: &mut Engine<V, F>,
        left: &L,
        right: &R,
        op: u64,
    ) -> (c: Self)
        requires
            old(e).inv(),
            0 <= left.id_spec() < old(e).n(),
            0 <= right.id_spec() < old(e).n(),
            old(e).n() < usize::MAX,
        ensures
            final(e).inv(),
            c.id_spec() == old(e).n(),
            final(e).n() == old(e).n() + 1,
            final(e).trans() == old(e).trans(),
            final(e).state().values == old(e).state().values.push(
                old(e).trans().zip_spec(
                    op,
                    old(e).state().values[left.id_spec()],
                    old(e).state().values[right.id_spec()],
                ),
            ),
            final(e).state().kinds == old(e).state().kinds.push(
                (crate::state::CellKind::Zipped {
                    left: left.id_spec() as usize,
                    right: right.id_spec() as usize,
                    op,
                }),
            ),
            final(e).state().subs == add_edge(
                add_edge(old(e).state().subs, left.id_spec(), c.id_spec() as usize),
                right.id_spec(),
                c.id_spec() as usize,
            ).push(Seq::<Subscriber>::empty()),
            final(e).state().events == old(e).state().events,
    {
        ZippedCell { id: e.new_zipped(left.id(), right.id(), op) }
    }
}

impl CellLike for ZippedCell {
    closed spec fn id_spec(&self) -> int {
        self.id as int
    }

    fn id(&self) -> usize {
        self.id
    }
}

} // verus!
