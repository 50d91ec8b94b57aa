//! The primitive reactive container: a value plus an insertion-ordered list
//! of listeners, notified synchronously on every mutation.
//!
//! A listener is a caller-chosen `u64` token: the caller keeps whatever
//! callback or side effect the token stands for, and runs it when the token
//! comes back in the fired list. `Once` listeners fire on the next mutation
//! only and are removed; `Repeating` listeners fire on every mutation, in
//! registration order, after all `Once` listeners.

use vstd::prelude::*;

use crate::engine::Engine;
use crate::handles::CellLike;
use crate::handles::SharedCell;
use crate::state::CellKind;
use crate::state::Subscriber;
use crate::state::Transforms;

verus! {

/// Whether a listener fires on every mutation or only on the next one.
#[derive(Clone, Copy, PartialEq, Eq, Structural, Debug)]
pub enum ListenerKind {
    Once,
    Repeating,
}

/// A registered listener: a caller-chosen token tagged with its kind.
#[derive(Clone, Copy, PartialEq, Eq, Structural, Debug)]
pub struct Listener {
    pub token: u64,
    pub kind: ListenerKind,
}

/// The tokens of the `Once` listeners, in registration order.
pub open spec fn once_tokens(ls: Seq<Listener>) -> Seq<u64>
    decreases ls.len(),
{
    if ls.len() == 0 {
        Seq::empty()
    } else if ls.last().kind == ListenerKind::Once {
        once_tokens(ls.drop_last()).push(ls.last().token)
    } else {
        once_tokens(ls.drop_last())
    }
}

/// The tokens of the `Repeating` listeners, in registration order.
pub open spec fn repeating_tokens(ls: Seq<Listener>) -> Seq<u64>
    decreases ls.len(),
{
    if ls.len() == 0 {
        Seq::empty()
    } else if ls.last().kind == ListenerKind::Repeating {
        repeating_tokens(ls.drop_last()).push(ls.last().token)
    } else {
        repeating_tokens(ls.drop_last())
    }
}

/// The listener list after one mutation: `Once` listeners are consumed,
/// `Repeating` listeners stay, in their original order.
pub open spec fn keep_repeating(ls: Seq<Listener>) -> Seq<Listener>
    decreases ls.len(),
{
    if ls.len() == 0 {
        Seq::empty()
    } else if ls.last().kind == ListenerKind::Repeating {
        keep_repeating(ls.drop_last()).push(ls.last())
    } else {
        keep_repeating(ls.drop_last())
    }
}

/// The order in which one mutation fires the listeners: every `Once` token
/// first, then every `Repeating` token, each group in registration order.
pub open spec fn fire_order(ls: Seq<Listener>) -> Seq<u64> {
    once_tokens(ls) + repeating_tokens(ls)
}

/// The engine-side subscription list standing for a standalone cell's
/// listener list.
pub open spec fn subs_of(ls: Seq<Listener>) -> Seq<Subscriber>
    decreases ls.len(),
{
    if ls.len() == 0 {
        Seq::empty()
    } else {
        let sub = match ls.last().kind {
            ListenerKind::Once => Subscriber::Once(ls.last().token),
            ListenerKind::Repeating => Subscriber::Repeating(ls.last().token),
        };
        subs_of(ls.drop_last()).push(sub)
    }
}

/// A cell whose state can be mutated, firing its listeners.
pub trait MutableCell<V> {
    /// The current value.
    spec fn cell_value(&self) -> V;

    /// The registered listeners, in registration order.
    spec fn cell_listeners(&self) -> Seq<Listener>;

    /// Replaces the value and fires the listeners: every `Once` token first
    /// (consuming those listeners), then every `Repeating` token, each group
    /// in registration order.
    fn set(&mut self, v: V) -> (fired: Vec<u64>)
        ensures
            final(self).cell_value() == v,
            final(self).cell_listeners() == keep_repeating(old(self).cell_listeners()),
            fired@ == fire_order(old(self).cell_listeners()),
    ;

    /// Rewrites the value through `g`, applied to the current value, then
    /// fires exactly as `set` does.
    fn update<G: Fn(&V) -> V>(&mut self, g: G) -> (fired: Vec<u64>)
        requires
            call_requires(g, (&old(self).cell_value(),)),
        ensures
            call_ensures(g, (&old(self).cell_value(),), final(self).cell_value()),
            final(self).cell_listeners() == keep_repeating(old(self).cell_listeners()),
            fired@ == fire_order(old(self).cell_listeners()),
    ;
}

/// The basic cell: exclusively owned, mutated through `&mut`.
pub struct Cell<V> {
    value: V,
    listeners: Vec<Listener>,
}

impl<V> Cell<V> {
    /// The current value.
    pub closed spec fn value_spec(&self) -> V {
        self.value
    }

    /// The registered listeners, in registration order.
    pub closed spec fn listeners_spec(&self) -> Seq<Listener> {
        self.listeners@
    }

    /// Creates a cell with the given initial value and no listeners.
    pub fn new(value: V) -> (c: Self)
        ensures
            c.value_spec() == value,
            c.listeners_spec() == Seq::<Listener>::empty(),
    {
        Cell { value, listeners: Vec::new() }
    }

    /// Returns a reference to the current value.
    pub fn get(&self) -> (v: &V)
        ensures
            *v == self.value_spec(),
    {
        &self.value
    }

    /// Registers a `Repeating` listener; it takes effect from the next
    /// mutation onward.
    pub fn on_update(&mut self, token: u64)
        ensures
            final(self).value_spec() == old(self).value_spec(),
            final(self).listeners_spec() == old(self).listeners_spec().push(
                Listener { token, kind: ListenerKind::Repeating },
            ),
    {
        self.listeners.push(Listener { token, kind: ListenerKind::Repeating });
    }

    /// Registers a `Once` listener; it fires on the next mutation only.
    pub fn on_update_once(&mut self, token: u64)
        ensures
            final(self).value_spec() == old(self).value_spec(),
            final(self).listeners_spec() == old(self).listeners_spec().push(
                Listener { token, kind: ListenerKind::Once },
            ),
    {
        self.listeners.push(Listener { token, kind: ListenerKind::Once });
    }

    /// Replaces the value and fires the listeners: every `Once` token first
    /// (consuming those listeners), then every `Repeating` token, each group
    /// in registration order.
    pub fn set(&mut self, v: V) -> (fired: Vec<u64>)
        ensures
            final(self).value_spec() == v,
            final(self).listeners_spec() == keep_repeating(old(self).listeners_spec()),
            fired@ == fire_order(old(self).listeners_spec()),
    {
        self.value = v;
        self.notify()
    }

    /// Rewrites the value through `g`, applied to the current value, then
    /// fires the listeners exactly as `set` does.
    pub fn update<G: Fn(&V) -> V>(&mut self, g: G) -> (fired: Vec<u64>)
        requires
            call_requires(g, (&old(self).value_spec(),)),
        ensures
            call_ensures(g, (&old(self).value_spec(),), final(self).value_spec()),
            final(self).listeners_spec() == keep_repeating(old(self).listeners_spec()),
            fired@ == fire_order(old(self).listeners_spec()),
    {
        let nv = g(&self.value);
        self.set(nv)
    }

    /// Moves this cell — value and listeners alike — into an engine,
    /// yielding a shared handle to the same state.
    #[verifier::loop_isolation(false)]
    pub fn into_shared<F: Transforms<V>>(self, e: &mut Engine<V, F>) -> (c: SharedCell)
        requires
            old(e).inv(),
            old(e).n() < usize::MAX,
        ensures
            final(e).inv(),
            c.id_spec() == old(e).n(),
            final(e).is_base(c.id_spec()),
            final(e).n() == old(e).n() + 1,
            final(e).trans() == old(e).trans(),
            final(e).state().values == old(e).state().values.push(self.value_spec()),
            final(e).state().kinds == old(e).state().kinds.push(CellKind::Base),
            final(e).state().subs == old(e).state().subs.push(subs_of(self.listeners_spec())),
            final(e).state().events == old(e).state().events,
    {
        let ghost gls = self.listeners@;
        let ghost gval = self.value;
        let Cell { value, listeners } = self;
        let c = SharedCell::new(e, value);
        let id = c.id();
        let n = listeners.len();
        let mut k: usize = 0;
        proof {
            assert(e.state().subs =~~= old(e).state().subs.push(subs_of(gls.take(0))));
        }
        while k < n
            invariant
                k <= n,
                e.inv(),
                e.n() == old(e).n() + 1,
                0 <= c.id_spec() < e.n(),
                c.id_spec() == old(e).n(),
                id as int == c.id_spec(),
                e.is_base(c.id_spec()),
                e.trans() == old(e).trans(),
                e.state().values == old(e).state().values.push(gval),
                e.state().kinds == old(e).state().kinds.push(CellKind::Base),
                e.state().events == old(e).state().events,
                e.state().subs == old(e).state().subs.push(subs_of(gls.take(k as int))),
                listeners@ == gls,
            decreases n - k,
        {
            proof {
                assert(gls.take(k + 1).drop_last() =~= gls.take(k as int));
                assert(gls.take(k + 1).last() == gls[k as int]);
            }
            let ghost before = e.state().subs;
            let l = listeners[k];
            match l.kind {
                ListenerKind::Once => e.on_update_once(id, l.token),
                ListenerKind::Repeating => e.on_update(id, l.token),
            }
            proof {
                assert(e.state().subs =~~= old(e).state().subs.push(
                    subs_of(gls.take(k + 1)),
                ));
            }
            k = k + 1;
        }
        proof {
            assert(gls.take(n as int) =~= gls);
        }
        c
    }

    /// Fires the listeners for a mutation that has already been written.
    fn notify(&mut self) -> (fired: Vec<u64>)
        ensures
            final(self).value_spec() == old(self).value_spec(),
            final(self).listeners_spec() == keep_repeating(old(self).listeners_spec()),
            fired@ == fire_order(old(self).listeners_spec()),
    {
        let ghost ls = self.listeners@;
        let mut fired: Vec<u64> = Vec::new();
        let mut kept: Vec<Listener> = Vec::new();
        let n = self.listeners.len();
        let mut k: usize = 0;
        while k < n
            invariant
                n == self.listeners.len(),
                self.listeners@ == ls,
                k <= n,
                fired@ == once_tokens(ls.take(k as int)),
            decreases n - k,
        {
            let l = self.listeners[k];
            proof {
                assert(ls.take(k + 1).drop_last() =~= ls.take(k as int));
                assert(ls.take(k + 1).last() == ls[k as int]);
            }
            if matches!(l.kind, ListenerKind::Once) {
                fired.push(l.token);
            }
            k = k + 1;
        }
        proof {
            assert(ls.take(n as int) =~= ls);
        }
        k = 0;
        while k < n
            invariant
                n == self.listeners.len(),
                self.listeners@ == ls,
                k <= n,
                fired@ == once_tokens(ls) + repeating_tokens(ls.take(k as int)),
                kept@ == keep_repeating(ls.take(k as int)),
            decreases n - k,
        {
            let l = self.listeners[k];
            proof {
                assert(ls.take(k + 1).drop_last() =~= ls.take(k as int));
                assert(ls.take(k + 1).last() == ls[k as int]);
            }
            if matches!(l.kind, ListenerKind::Repeating) {
                fired.push(l.token);
                kept.push(l);
            }
            k = k + 1;
        }
        proof {
            assert(ls.take(n as int) =~= ls);
        }
        self.listeners = kept;
        fired
    }
}

impl<V> MutableCell<V> for Cell<V> {
    closed spec fn cell_value(&self) -> V {
        self.value
    }

    closed spec fn cell_listeners(&self) -> Seq<Listener> {
        self.listeners@
    }

    fn set(&mut self, v: V) -> (fired: Vec<u64>) {
        self.value = v;
        self.notify()
    }

    fn update<G: Fn(&V) -> V>(&mut self, g: G) -> (fired: Vec<u64>) {
        let nv = g(&self.value);
        self.value = nv;
        self.notify()
    }
}

} // verus!
