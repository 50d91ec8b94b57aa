//! The propagation engine: owns every cell of one reactive graph — base
//! cells, mapped cells, zipped cells — their subscription lists and the
//! pending event queue, and performs the synchronous notification cascade
//! when a base cell is mutated.
//!
//! The caller drives the loop: `set` (or `update`) writes a value, recomputes
//! every derived cell reachable from it and queues one event per external
//! listener fired, in dispatch order; `take_event` then hands the events out
//! one at a time. While events are pending, a further mutation is refused
//! with [`Error::BorrowConflict`] — the fail-fast single-writer rule.

use vstd::prelude::*;

use crate::state::CellKind;
use crate::state::Event;
use crate::state::State;
use crate::state::Subscriber;
use crate::state::Transforms;
use crate::state::dispatch;
use crate::state::fire;
use crate::state::keep_subs;
use crate::state::kinds_wf;
use crate::state::add_edge;
use crate::state::lemma_push_sub_wf;
use crate::state::lemma_wf_new_base;
use crate::state::lemma_wf_new_mapped;
use crate::state::lemma_wf_new_zipped;
use crate::state::lemma_dispatch_frame;
use crate::state::lemma_wf_values;
use crate::state::once_events;
use crate::state::recompute_spec;
use crate::state::set_cell;
use crate::state::state_wf;

verus! {

/// Why a mutation was refused.
#[derive(Clone, Copy, PartialEq, Eq, Structural, Debug)]
pub enum Error {
    /// A mutation was attempted while the events of an earlier mutation were
    /// still pending — that is, from inside a listener of the same engine.
    BorrowConflict,
}

/// One reactive dependency graph: the cells, their subscriptions, the
/// transform table and the queue of events not yet handed to the caller.
pub struct Engine<V, F: Transforms<V>> {
    values: Vec<V>,
    kinds: Vec<CellKind>,
    subs: Vec<Vec<Subscriber>>,
    pending: Vec<Event>,
    transforms: F,
}

impl<V, F: Transforms<V>> Engine<V, F> {
    /// The ghost snapshot of the whole engine.
    pub closed spec fn state(&self) -> State<V> {
        State {
            values: self.values@,
            kinds: self.kinds@,
            subs: Seq::new(self.subs@.len(), |i: int| self.subs@[i]@),
            events: self.pending@,
        }
    }

    /// The transform table.
    pub closed spec fn trans(&self) -> F {
        self.transforms
    }

    /// The number of cells.
    pub open spec fn n(&self) -> nat {
        self.state().values.len()
    }

    /// The engine's invariant: its snapshot is well formed.
    pub open spec fn inv(&self) -> bool {
        state_wf(self.state())
    }

    /// Valid id of a cell that can be written directly.
    pub open spec fn is_base(&self, i: int) -> bool {
        0 <= i < self.n() && self.state().kinds[i] == CellKind::Base
    }

    /// Creates an engine with no cells, driven by the given transform table.
    pub fn new(transforms: F) -> (e: Self)
        ensures
            e.inv(),
            e.n() == 0,
            e.state().events == Seq::<Event>::empty(),
            e.trans() == transforms,
    {
        Engine {
            values: Vec::new(),
            kinds: Vec::new(),
            subs: Vec::new(),
            pending: Vec::new(),
            transforms,
        }
    }

    /// Adds a base cell holding `value`; returns its id.
    pub fn new_cell(&mut self, value: V) -> (id: usize)
        requires
            old(self).inv(),
            old(self).n() < usize::MAX,
        ensures
            final(self).inv(),
            id == old(self).n(),
            final(self).n() == old(self).n() + 1,
            final(self).state().values == old(self).state().values.push(value),
            final(self).state().kinds == old(self).state().kinds.push(CellKind::Base),
            final(self).state().subs == old(self).state().subs.push(Seq::<Subscriber>::empty()),
            final(self).state().events == old(self).state().events,
            final(self).trans() == old(self).trans(),
    {
        let ghost s0 = self.state();
        let id = self.values.len();
        self.values.push(value);
        self.kinds.push(CellKind::Base);
        self.subs.push(Vec::new());
        proof {
            assert(self.state().subs =~~= old(self).state().subs.push(
                Seq::<Subscriber>::empty(),
            ));
            lemma_wf_new_base(s0, value);
        }
        id
    }

    /// Returns a reference to the current value of cell `i`.
    pub fn get(&self, i: usize) -> (v: &V)
        requires
            i < self.n(),
        ensures
            *v == self.state().values[i as int],
    {
        &self.values[i]
    }

    /// Registers a `Repeating` external listener on cell `i`; it takes
    /// effect from the next mutation onward.
    pub fn on_update(&mut self, i: usize, token: u64)
        requires
            old(self).inv(),
            i < old(self).n(),
        ensures
            final(self).inv(),
            final(self).state() == (State {
                subs: old(self).state().subs.update(
                    i as int,
                    old(self).state().subs[i as int].push(Subscriber::Repeating(token)),
                ),
                ..old(self).state()
            }),
            final(self).trans() == old(self).trans(),
    {
        let ghost s0 = self.state();
        self.subs[i].push(Subscriber::Repeating(token));
        proof {
            assert(self.state().subs =~~= s0.subs.update(
                i as int,
                s0.subs[i as int].push(Subscriber::Repeating(token)),
            ));
            assert(self.state() =~~= State {
                subs: s0.subs.update(
                    i as int,
                    s0.subs[i as int].push(Subscriber::Repeating(token)),
                ),
                ..s0
            });
            lemma_push_sub_wf(s0, i as int, Subscriber::Repeating(token));
        }
    }

    /// Registers a `Once` external listener on cell `i`; it fires on the
    /// next mutation only.
    pub fn on_update_once(&mut self, i: usize, token: u64)
        requires
            old(self).inv(),
            i < old(self).n(),
        ensures
            final(self).inv(),
            final(self).state() == (State {
                subs: old(self).state().subs.update(
                    i as int,
                    old(self).state().subs[i as int].push(Subscriber::Once(token)),
                ),
                ..old(self).state()
            }),
            final(self).trans() == old(self).trans(),
    {
        let ghost s0 = self.state();
        self.subs[i].push(Subscriber::Once(token));
        proof {
            assert(self.state().subs =~~= s0.subs.update(
                i as int,
                s0.subs[i as int].push(Subscriber::Once(token)),
            ));
            assert(self.state() =~~= State {
                subs: s0.subs.update(
                    i as int,
                    s0.subs[i as int].push(Subscriber::Once(token)),
                ),
                ..s0
            });
            lemma_push_sub_wf(s0, i as int, Subscriber::Once(token));
        }
    }

    /// Adds a mapped cell derived from `parent` through unary transform
    /// `op`: its value is seeded from the parent's current value, and it is
    /// subscribed to the parent, so every later mutation of the parent
    /// rewrites it synchronously. Returns its id.
    pub fn new_mapped(&mut self, parent: usize, op: u64) -> (id: usize)
        requires
            old(self).inv(),
            parent < old(self).n(),
            old(self).n() < usize::MAX,
        ensures
            final(self).inv(),
            id == old(self).n(),
            final(self).n() == old(self).n() + 1,
            final(self).trans() == old(self).trans(),
            final(self).state().values == old(self).state().values.push(
                old(self).trans().map_spec(op, old(self).state().values[parent as int]),
            ),
            final(self).state().kinds == old(self).state().kinds.push(
                CellKind::Mapped { parent, op },
            ),
            final(self).state().subs == add_edge(old(self).state().subs, parent as int, id).push(
                Seq::<Subscriber>::empty(),
            ),
            final(self).state().events == old(self).state().events,
    {
        let ghost s0 = self.state();
        let id = self.values.len();
        let seed = self.transforms.map(op, &self.values[parent]);
        self.values.push(seed);
        self.kinds.push(CellKind::Mapped { parent, op });
        self.subs.push(Vec::new());
        self.subs[parent].push(Subscriber::Derived(id));
        proof {
            assert(self.state().subs =~~= add_edge(s0.subs, parent as int, id).push(
                Seq::<Subscriber>::empty(),
            ));
            lemma_wf_new_mapped(s0, parent, op, seed);
        }
        id
    }

    /// Adds a zipped cell derived from `left` and `right` through binary
    /// transform `op`: its value is seeded from both parents' current
    /// values, and it is subscribed to each parent, so a mutation of either
    /// rewrites it from both parents' then-current values. Returns its id.
    pub fn new_zipped(&mut self, left: usize, right: usize, op: u64) -> (id: usize)
        requires
            old(self).inv(),
            left < old(self).n(),
            right < old(self).n(),
            old(self).n() < usize::MAX,
        ensures
            final(self).inv(),
            id == old(self).n(),
            final(self).n() == old(self).n() + 1,
            final(self).trans() == old(self).trans(),
            final(self).state().values == old(self).state().values.push(
                old(self).trans().zip_spec(
                    op,
                    old(self).state().values[left as int],
                    old(self).state().values[right as int],
                ),
            ),
            final(self).state().kinds == old(self).state().kinds.push(
                CellKind::Zipped { left, right, op },
            ),
            final(self).state().subs == add_edge(
                add_edge(old(self).state().subs, left as int, id),
                right as int,
                id,
            ).push(Seq::<Subscriber>::empty()),
            final(self).state().events == old(self).state().events,
    {
        let ghost s0 = self.state();
        let id = self.values.len();
        let seed = self.transforms.zip(op, &self.values[left], &self.values[right]);
        self.values.push(seed);
        self.kinds.push(CellKind::Zipped { left, right, op });
        self.subs.push(Vec::new());
        self.subs[left].push(Subscriber::Derived(id));
        self.subs[right].push(Subscriber::Derived(id));
        proof {
            assert(self.state().subs =~~= add_edge(
                add_edge(s0.subs, left as int, id),
                right as int,
                id,
            ).push(Seq::<Subscriber>::empty()));
            lemma_wf_new_zipped(s0, left, right, op, seed);
        }
        id
    }

    /// The number of cells in the graph.
    pub fn len(&self) -> (r: usize)
        ensures
            r == self.n(),
    {
        self.values.len()
    }

    /// Number of events still waiting to be taken.
    pub fn pending_len(&self) -> (r: usize)
        ensures
            r == self.state().events.len(),
    {
        self.pending.len()
    }

    /// Hands out the oldest pending event, if any.
    pub fn take_event(&mut self) -> (e: Option<Event>)
        requires
            old(self).inv(),
        ensures
            final(self).inv(),
            final(self).trans() == old(self).trans(),
            old(self).state().events.len() == 0 ==> e is None && final(self).state() == old(
                self,
            ).state(),
            old(self).state().events.len() > 0 ==> e == Some(old(self).state().events.first())
                && final(self).state() == (State {
                events: old(self).state().events.drop_first(),
                ..old(self).state()
            }),
    {
        let ghost s0 = self.state();
        if self.pending.len() == 0 {
            proof {
                assert(self.state() =~~= s0);
            }
            None
        } else {
            let e = self.pending.remove(0);
            proof {
                assert(self.state().events =~= s0.events.drop_first());
                assert(self.state() =~~= State { events: s0.events.drop_first(), ..s0 });
            }
            Some(e)
        }
    }

    /// Writes `v` into base cell `i` and runs the notification cascade:
    /// derived cells are recomputed synchronously, inside this call, and one
    /// event per external listener fired is queued, in dispatch order.
    ///
    /// Fails fast with `BorrowConflict` — leaving the engine untouched — if
    /// the events of an earlier mutation have not all been taken yet, that
    /// is, when called from inside a listener of this engine.
    pub fn set(&mut self, i: usize, v: V) -> (r: Result<(), Error>)
        requires
            old(self).inv(),
            old(self).is_base(i as int),
        ensures
            final(self).inv(),
            final(self).trans() == old(self).trans(),
            final(self).n() == old(self).n(),
            final(self).state().kinds == old(self).state().kinds,
            r is Err <==> old(self).state().events.len() > 0,
            r is Err ==> r == Err::<(), Error>(Error::BorrowConflict) && final(self).state()
                == old(self).state(),
            r is Ok ==> final(self).state() == set_cell(
                old(self).trans(),
                old(self).n(),
                old(self).state(),
                i as int,
                v,
            ),
    {
        if self.pending.len() > 0 {
            return Err(Error::BorrowConflict);
        }
        let ghost s0 = self.state();
        let ghost f = self.transforms;
        let ghost nn = self.n();
        let ghost written = State { values: s0.values.update(i as int, v), ..s0 };
        self.values[i] = v;
        proof {
            assert(self.state() =~~= written);
            lemma_wf_values(s0, written);
        }
        self.run_dispatch(i);
        proof {
            lemma_dispatch_frame(f, nn, written, i as int);
        }
        Ok(())
    }

    /// Rewrites base cell `i` through unary transform `op`, applied to its
    /// current value, then cascades exactly as `set` does, with the same
    /// fail-fast conflict rule.
    pub fn update(&mut self, i: usize, op: u64) -> (r: Result<(), Error>)
        requires
            old(self).inv(),
            old(self).is_base(i as int),
        ensures
            final(self).inv(),
            final(self).trans() == old(self).trans(),
            final(self).n() == old(self).n(),
            final(self).state().kinds == old(self).state().kinds,
            r is Err <==> old(self).state().events.len() > 0,
            r is Err ==> r == Err::<(), Error>(Error::BorrowConflict) && final(self).state()
                == old(self).state(),
            r is Ok ==> final(self).state() == set_cell(
                old(self).trans(),
                old(self).n(),
                old(self).state(),
                i as int,
                old(self).trans().map_spec(op, old(self).state().values[i as int]),
            ),
    {
        if self.pending.len() > 0 {
            return Err(Error::BorrowConflict);
        }
        let nv = self.transforms.map(op, &self.values[i]);
        self.set(i, nv)
    }

    /// Dispatches cell `i`, whose value has just been written: fires and
    /// consumes its `Once` listeners, then walks the remaining subscriptions
    /// in registration order, recomputing derived cells depth-first.
    #[verifier::loop_isolation(false)]
    fn run_dispatch(&mut self, i: usize)
        requires
            old(self).state().kinds.len() == old(self).n(),
            old(self).state().subs.len() == old(self).n(),
            kinds_wf(old(self).state().kinds),
            i < old(self).n(),
        ensures
            final(self).state() == dispatch(
                old(self).trans(),
                old(self).n(),
                old(self).state(),
                i as int,
            ),
            final(self).trans() == old(self).trans(),
            final(self).state().values.len() == old(self).n(),
            final(self).state().kinds == old(self).state().kinds,
            final(self).state().subs.len() == old(self).state().subs.len(),
        decreases old(self).n() - i,
    {
        let ghost f = self.transforms;
        let ghost s0 = self.state();
        let ghost nn = self.n();
        let ghost ls = s0.subs[i as int];

        // Split the subscription list: queue the Once events, keep the rest.
        let ls_len = self.subs[i].len();
        let mut kept: Vec<Subscriber> = Vec::new();
        let mut work: Vec<Subscriber> = Vec::new();
        let mut k: usize = 0;
        while k < ls_len
            invariant
                k <= ls_len,
                self.values@ == old(self).values@,
                self.kinds@ == old(self).kinds@,
                self.subs@ == old(self).subs@,
                self.transforms == old(self).transforms,
                self.pending@ == s0.events + once_events(ls.take(k as int), i as int),
                kept@ == keep_subs(ls.take(k as int)),
                work@ == kept@,
            decreases ls_len - k,
        {
            proof {
                assert(ls.take(k + 1).drop_last() =~= ls.take(k as int));
                assert(ls.take(k + 1).last() == ls[k as int]);
            }
            let l = self.subs[i][k];
            match l {
                Subscriber::Once(tok) => {
                    self.pending.push(Event { token: tok, cell: i });
                },
                _ => {
                    kept.push(l);
                    work.push(l);
                },
            }
            k = k + 1;
        }
        proof {
            assert(ls.take(ls_len as int) =~= ls);
        }
        self.subs[i] = kept;
        let ghost s1 = self.state();
        proof {
            assert(s1.subs =~~= s0.subs.update(i as int, keep_subs(ls)));
            assert(s1 =~~= (State {
                subs: s0.subs.update(i as int, keep_subs(ls)),
                events: s0.events + once_events(ls, i as int),
                ..s0
            }));
            assert(dispatch(f, nn, s0, i as int) == fire(f, nn, s1, i as int, keep_subs(ls)));
        }

        // Fire the kept entries in order; a derived edge recomputes its
        // target and dispatches it before the next entry is processed.
        proof {
            assert(work@.skip(0) =~= work@);
        }
        let wlen = work.len();
        k = 0;
        while k < wlen
            invariant
                k <= wlen,
                self.values@.len() == s0.values.len(),
                self.kinds@ == old(self).kinds@,
                self.subs@.len() == old(self).subs@.len(),
                self.transforms == old(self).transforms,
                fire(f, nn, s1, i as int, work@) == fire(
                    f,
                    nn,
                    self.state(),
                    i as int,
                    work@.skip(k as int),
                ),
            decreases wlen - k,
        {
            let ghost scur = self.state();
            let ghost todo = work@.skip(k as int);
            proof {
                assert(todo.first() == work@[k as int]);
                assert(todo.drop_first() =~= work@.skip(k as int + 1));
            }
            let l = work[k];
            match l {
                Subscriber::Once(_) => {
                    proof {
                        assert(fire(f, nn, scur, i as int, todo) == fire(
                            f,
                            nn,
                            scur,
                            i as int,
                            todo.drop_first(),
                        ));
                    }
                },
                Subscriber::Repeating(tok) => {
                    self.pending.push(Event { token: tok, cell: i });
                    proof {
                        assert(self.state() =~~= (State {
                            events: scur.events.push(Event { token: tok, cell: i }),
                            ..scur
                        }));
                        assert(fire(f, nn, scur, i as int, todo) == fire(
                            f,
                            nn,
                            self.state(),
                            i as int,
                            todo.drop_first(),
                        ));
                    }
                },
                Subscriber::Derived(j) => {
                    if i < j && j < self.values.len() && !(matches!(
                        self.kinds[j],
                        CellKind::Base,
                    )) {
                        let nv = self.recompute(j);
                        self.values[j] = nv;
                        proof {
                            assert(self.state() =~~= (State {
                                values: scur.values.update(
                                    j as int,
                                    recompute_spec(f, scur, j as int),
                                ),
                                ..scur
                            }));
                        }
                        self.run_dispatch(j);
                        proof {
                            assert(fire(f, nn, scur, i as int, todo) == fire(
                                f,
                                nn,
                                self.state(),
                                i as int,
                                todo.drop_first(),
                            ));
                        }
                    } else {
                        proof {
                            assert(fire(f, nn, scur, i as int, todo) == fire(
                                f,
                                nn,
                                scur,
                                i as int,
                                todo.drop_first(),
                            ));
                        }
                    }
                },
            }
            k = k + 1;
        }
        proof {
            assert(work@.skip(wlen as int) =~= Seq::<Subscriber>::empty());
            assert(fire(f, nn, self.state(), i as int, work@.skip(wlen as int)) == self.state());
        }
    }

    /// Recomputes the value a derived cell should hold from its parents'
    /// current values.
    fn recompute(&self, j: usize) -> (nv: V)
        requires
            self.state().kinds.len() == self.n(),
            kinds_wf(self.state().kinds),
            j < self.n(),
            !(self.state().kinds[j as int] is Base),
        ensures
            nv == recompute_spec(self.trans(), self.state(), j as int),
    {
        match self.kinds[j] {
            CellKind::Base => unreached(),
            CellKind::Mapped { parent, op } => self.transforms.map(op, &self.values[parent]),
            CellKind::Zipped { left, right, op } => self.transforms.zip(
                op,
                &self.values[left],
                &self.values[right],
            ),
        }
    }
}

} // verus!
