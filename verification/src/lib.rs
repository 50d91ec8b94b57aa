//! A reactive cell library: mutable containers that notify registered
//! listeners when their value changes, derived cells recomputed from one or
//! two parents, and a binding protocol that keeps a rendered artifact in
//! sync with a cell.
//!
//! Listeners and transforms are reified as data: a listener is a caller-chosen
//! token (the caller maps tokens to whatever side effect it wants to run), and
//! a transform is an entry in a dispatch table implementing [`Transforms`].
//! Mutating a cell produces an ordered list of notification events that the
//! caller drains and acts on; derived cells are recomputed synchronously,
//! inside the mutation, before the events are handed out.

mod binding;
mod cell;
mod engine;
mod handles;
mod laws;
mod ops;
mod state;

pub use binding::Binding;
pub use binding::UpdateStep;
pub use cell::Cell;
pub use cell::Listener;
pub use cell::ListenerKind;
pub use cell::MutableCell;
pub use cell::subs_of;
pub use engine::Engine;
pub use engine::Error;
pub use handles::CellLike;
pub use handles::MappedCell;
pub use handles::RefMutableCell;
pub use handles::SharedCell;
pub use handles::ZippedCell;
pub use laws::evs_of;
pub use laws::lemma_listener_order;
pub use laws::lemma_mapped_fires_once;
pub use laws::lemma_set_consistent;
pub use laws::lemma_set_fires_in_order;
pub use laws::lemma_shared_fire_order;
pub use laws::event_tokens;
pub use laws::lemma_zipped_freshness;
pub use laws::rep_events;
pub use laws::self_batch;
pub use ops::apply_binary;
pub use ops::apply_unary;
pub use ops::BinaryOp;
pub use ops::OpTable;
pub use ops::UnaryOp;
pub use state::CellKind;
pub use state::Event;
pub use state::State;
pub use state::Subscriber;
pub use state::Transforms;
