//! The laws of the propagation engine, each stated over the ghost snapshot
//! and proved for every well-formed engine: what one mutation does to the
//! event order, to every derived cell, and to the untouched rest of the
//! graph.

use vstd::prelude::*;

use crate::state::CellKind;
use crate::state::Event;
use crate::state::State;
use crate::state::Subscriber;
use crate::state::Transforms;
use crate::state::consistent;
use crate::state::consistent_at;
use crate::state::child_of;
use crate::state::dispatch;
use crate::state::edge_count;
use crate::state::edge_mult;
use crate::state::lemma_edge_count_keep;
use crate::state::lemma_fire_frame;
use crate::state::lemma_keep_subs_props;
use crate::state::lemma_once_events_cell;
use crate::state::lemma_wf_trim;
use crate::state::fire;
use crate::state::keep_subs;
use crate::state::lemma_dispatch_consistent;
use crate::state::lemma_dispatch_frame;
use crate::state::lemma_wf_values;
use crate::state::once_events;
use crate::state::reads_parent;
use crate::state::recompute_spec;
use crate::state::set_cell;
use crate::state::state_wf;
use crate::state::sub_wf;

verus! {

/// The events queued when a cell's `Repeating` subscribers fire, in
/// registration order.
pub open spec fn rep_events(ls: Seq<Subscriber>, i: int) -> Seq<Event>
    decreases ls.len(),
{
    if ls.len() == 0 {
        Seq::empty()
    } else if ls.last() is Repeating {
        rep_events(ls.drop_last(), i).push(Event { token: ls.last()->Repeating_0, cell: i as usize })
    } else {
        rep_events(ls.drop_last(), i)
    }
}

/// Unfolding `rep_events` from the front instead of the back.
proof fn lemma_rep_events_first(ls: Seq<Subscriber>, i: int)
    requires
        ls.len() > 0,
    ensures
        rep_events(ls, i) == if ls.first() is Repeating {
            seq![Event { token: ls.first()->Repeating_0, cell: i as usize }] + rep_events(
                ls.drop_first(),
                i,
            )
        } else {
            rep_events(ls.drop_first(), i)
        },
    decreases ls.len(),
{
    if ls.len() == 1 {
        assert(ls.drop_last() =~= Seq::<Subscriber>::empty());
        assert(ls.drop_first() =~= Seq::<Subscriber>::empty());
        if ls.first() is Repeating {
            assert(rep_events(ls, i) =~= seq![
                Event { token: ls.first()->Repeating_0, cell: i as usize },
            ] + rep_events(ls.drop_first(), i));
        }
    } else {
        let l0 = ls.drop_last();
        lemma_rep_events_first(l0, i);
        assert(ls.drop_first().drop_last() =~= l0.drop_first());
        assert(ls.drop_first().last() == ls.last());
        assert(ls.drop_first().len() > 0);
        if ls.first() is Repeating {
            let head = seq![Event { token: ls.first()->Repeating_0, cell: i as usize }];
            if ls.last() is Repeating {
                let ev = Event { token: ls.last()->Repeating_0, cell: i as usize };
                assert(rep_events(ls, i) == rep_events(l0, i).push(ev));
                assert(rep_events(l0, i) == head + rep_events(l0.drop_first(), i));
                assert(rep_events(ls.drop_first(), i) == rep_events(l0.drop_first(), i).push(ev));
                assert((head + rep_events(l0.drop_first(), i)).push(ev) =~= head + rep_events(
                    l0.drop_first(),
                    i,
                ).push(ev));
            } else {
                assert(rep_events(ls, i) == rep_events(l0, i));
                assert(rep_events(ls.drop_first(), i) == rep_events(l0.drop_first(), i));
            }
        } else {
            if ls.last() is Repeating {
                let ev = Event { token: ls.last()->Repeating_0, cell: i as usize };
                assert(rep_events(ls, i) == rep_events(l0, i).push(ev));
                assert(rep_events(l0, i) == rep_events(l0.drop_first(), i));
                assert(rep_events(ls.drop_first(), i) == rep_events(l0.drop_first(), i).push(ev));
            }
        }
    }
}

/// A list with no `Once` entry queues no `Once` events.
proof fn lemma_once_events_empty(ls: Seq<Subscriber>, i: int)
    requires
        forall|k: int| 0 <= k < ls.len() ==> !((#[trigger] ls[k]) is Once),
    ensures
        once_events(ls, i) == Seq::<Event>::empty(),
    decreases ls.len(),
{
    if ls.len() > 0 {
        assert(!(ls[ls.len() - 1] is Once));
        lemma_once_events_empty(ls.drop_last(), i);
    }
}

/// Consuming the `Once` entries leaves the `Repeating` events unchanged.
proof fn lemma_rep_events_keep(ls: Seq<Subscriber>, i: int)
    ensures
        rep_events(keep_subs(ls), i) == rep_events(ls, i),
        forall|k: int|
            0 <= k < keep_subs(ls).len() ==> !((#[trigger] keep_subs(ls)[k]) is Once),
    decreases ls.len(),
{
    if ls.len() > 0 {
        lemma_rep_events_keep(ls.drop_last(), i);
        if !(ls.last() is Once) {
            let kl = keep_subs(ls.drop_last()).push(ls.last());
            assert(kl.drop_last() =~= keep_subs(ls.drop_last()));
            assert forall|k: int| 0 <= k < kl.len() implies !((#[trigger] kl[k]) is Once) by {
                if k < kl.len() - 1 {
                    assert(keep_subs(ls.drop_last())[k] == kl[k]);
                }
            }
        }
    }
}

/// Firing a subscription list that holds no derived edge only queues that
/// cell's `Repeating` events, in order, and changes nothing else.
proof fn lemma_fire_external<V, F: Transforms<V>>(
    f: F,
    n: nat,
    s: State<V>,
    i: int,
    todo: Seq<Subscriber>,
)
    requires
        0 <= i < n,
        forall|k: int| 0 <= k < todo.len() ==> !((#[trigger] todo[k]) is Derived),
        forall|k: int| 0 <= k < todo.len() ==> !((#[trigger] todo[k]) is Once),
    ensures
        fire(f, n, s, i, todo) == (State { events: s.events + rep_events(todo, i), ..s }),
    decreases todo.len(),
{
    if todo.len() == 0 {
        assert(s.events + rep_events(todo, i) =~= s.events);
        assert(fire(f, n, s, i, todo) =~~= (State {
            events: s.events + rep_events(todo, i),
            ..s
        }));
    } else {
        lemma_rep_events_first(todo, i);
        let rest = todo.drop_first();
        assert(forall|k: int| 0 <= k < rest.len() ==> rest[k] == todo[k + 1]);
        let tok = todo.first()->Repeating_0;
        let ev = Event { token: tok, cell: i as usize };
        let stepped = State { events: s.events.push(ev), ..s };
        lemma_fire_external(f, n, stepped, i, rest);
        assert(stepped.events + rep_events(rest, i) =~= s.events + (seq![ev] + rep_events(
            rest,
            i,
        )));
        assert(fire(f, n, s, i, todo) == fire(f, n, stepped, i, rest));
    }
}

/// The events of `es` that fired for cell `c`, in order.
pub open spec fn evs_of(es: Seq<Event>, c: usize) -> Seq<Event>
    decreases es.len(),
{
    if es.len() == 0 {
        Seq::empty()
    } else if es.last().cell == c {
        evs_of(es.drop_last(), c).push(es.last())
    } else {
        evs_of(es.drop_last(), c)
    }
}

/// `evs_of` distributes over concatenation.
proof fn lemma_evs_of_add(a: Seq<Event>, b: Seq<Event>, c: usize)
    ensures
        evs_of(a + b, c) == evs_of(a, c) + evs_of(b, c),
    decreases b.len(),
{
    if b.len() == 0 {
        assert(a + b =~= a);
        assert(evs_of(a, c) + evs_of(b, c) =~= evs_of(a, c));
    } else {
        lemma_evs_of_add(a, b.drop_last(), c);
        assert((a + b).drop_last() =~= a + b.drop_last());
        assert((a + b).last() == b.last());
        if b.last().cell == c {
            assert(evs_of(a, c) + evs_of(b.drop_last(), c).push(b.last()) =~= (evs_of(a, c)
                + evs_of(b.drop_last(), c)).push(b.last()));
        }
    }
}

/// A stretch of events that never names `c` filters to nothing.
proof fn lemma_evs_of_none(es: Seq<Event>, c: usize)
    requires
        forall|k: int| 0 <= k < es.len() ==> (#[trigger] es[k]).cell != c,
    ensures
        evs_of(es, c) == Seq::<Event>::empty(),
    decreases es.len(),
{
    if es.len() > 0 {
        assert(es[es.len() - 1].cell != c);
        assert forall|k: int| 0 <= k < es.drop_last().len() implies (#[trigger] es.drop_last()[
            k
        ]).cell != c by {
            assert(es.drop_last()[k] == es[k]);
        }
        lemma_evs_of_none(es.drop_last(), c);
    }
}

/// A stretch of events that always names `c` filters to itself.
proof fn lemma_evs_of_all(es: Seq<Event>, c: usize)
    requires
        forall|k: int| 0 <= k < es.len() ==> (#[trigger] es[k]).cell == c,
    ensures
        evs_of(es, c) == es,
    decreases es.len(),
{
    if es.len() > 0 {
        assert(es[es.len() - 1].cell == c);
        assert forall|k: int| 0 <= k < es.drop_last().len() implies (#[trigger] es.drop_last()[
            k
        ]).cell == c by {
            assert(es.drop_last()[k] == es[k]);
        }
        lemma_evs_of_all(es.drop_last(), c);
        assert(es.drop_last().push(es.last()) =~= es);
    }
}

/// Unfolding `edge_count` from the front instead of the back.
proof fn lemma_edge_count_first(ls: Seq<Subscriber>, j: usize)
    requires
        ls.len() > 0,
    ensures
        edge_count(ls, j) == (if ls.first() == Subscriber::Derived(j) {
            1nat
        } else {
            0nat
        }) + edge_count(ls.drop_first(), j),
    decreases ls.len(),
{
    if ls.len() == 1 {
        assert(ls.drop_last() =~= Seq::<Subscriber>::empty());
        assert(ls.drop_first() =~= Seq::<Subscriber>::empty());
    } else {
        let l0 = ls.drop_last();
        lemma_edge_count_first(l0, j);
        assert(ls.drop_first().drop_last() =~= l0.drop_first());
        assert(ls.drop_first().last() == ls.last());
        assert(ls.drop_first().len() > 0);
    }
}

/// The prefix of a dispatch result is the starting event queue; what follows
/// is the added stretch.
proof fn lemma_added_split(before: Seq<Event>, mid: Seq<Event>, after: Seq<Event>)
    requires
        before.is_prefix_of(mid),
        mid.is_prefix_of(after),
    ensures
        after.skip(before.len() as int) =~= mid.skip(before.len() as int) + after.skip(
            mid.len() as int,
        ),
{
    assert(mid =~= after.subrange(0, mid.len() as int));
}

/// A cascade from cell `m` never reaches cell `j` when no cell from `m`
/// upward holds a derived edge to `j`: the value and the subscriptions of
/// `j` stay, and no new event names it.
proof fn lemma_dispatch_avoids<V, F: Transforms<V>>(f: F, n: nat, s: State<V>, m: int, j: int)
    requires
        state_wf(s),
        n == s.values.len(),
        0 <= m < n,
        0 <= j < n,
        j != m,
        forall|p: int|
            m <= p < n ==> edge_count(#[trigger] s.subs[p], j as usize) == 0,
    ensures
        ({
            let r = dispatch(f, n, s, m);
            &&& r.values[j] == s.values[j]
            &&& r.subs[j] == s.subs[j]
            &&& forall|k: int|
                s.events.len() <= k < r.events.len() ==> (#[trigger] r.events[k]).cell != j
                    as usize
        }),
    decreases n - m, 1int, 0int,
{
    let kept = keep_subs(s.subs[m]);
    let s1 = State {
        subs: s.subs.update(m, kept),
        events: s.events + once_events(s.subs[m], m),
        ..s
    };
    lemma_wf_trim(s, s1, m);
    lemma_keep_subs_props(s.subs[m]);
    lemma_edge_count_keep(s.subs[m], j as usize);
    assert forall|k: int| 0 <= k < kept.len() implies sub_wf(s1, m, #[trigger] kept[k]) by {
        assert(kept.contains(kept[k]));
        assert(s.subs[m].contains(kept[k]));
        let k0 = choose|k0: int| 0 <= k0 < s.subs[m].len() && s.subs[m][k0] == kept[k];
        assert(sub_wf(s, m, s.subs[m][k0]));
    }
    assert forall|p: int|
        m <= p < n implies edge_count(#[trigger] s1.subs[p], j as usize) == 0 by {
        assert(edge_count(s.subs[p], j as usize) == 0);
    }
    lemma_fire_avoids(f, n, s1, m, kept, j);
    lemma_once_events_cell(s.subs[m], m);
    lemma_fire_frame(f, n, s1, m, kept);
    let r = fire(f, n, s1, m, kept);
    assert forall|k: int|
        s.events.len() <= k < r.events.len() implies (#[trigger] r.events[k]).cell != j
        as usize by {
        if k < s1.events.len() {
            assert(s1.events =~= r.events.subrange(0, s1.events.len() as int));
            assert(r.events[k] == s1.events[k]);
            assert(s1.events[k] == once_events(s.subs[m], m)[k - s.events.len()]);
        }
    }
}

/// The same, for the middle of a dispatch of cell `m`.
proof fn lemma_fire_avoids<V, F: Transforms<V>>(
    f: F,
    n: nat,
    s: State<V>,
    m: int,
    todo: Seq<Subscriber>,
    j: int,
)
    requires
        state_wf(s),
        n == s.values.len(),
        0 <= m < n,
        0 <= j < n,
        j != m,
        forall|p: int|
            m <= p < n ==> edge_count(#[trigger] s.subs[p], j as usize) == 0,
        edge_count(todo, j as usize) == 0,
        forall|k: int| 0 <= k < todo.len() ==> sub_wf(s, m, #[trigger] todo[k]),
    ensures
        ({
            let r = fire(f, n, s, m, todo);
            &&& r.values[j] == s.values[j]
            &&& r.subs[j] == s.subs[j]
            &&& forall|k: int|
                s.events.len() <= k < r.events.len() ==> (#[trigger] r.events[k]).cell != j
                    as usize
        }),
    decreases n - m, 0int, todo.len(),
{
    if todo.len() == 0 {
    } else {
        let rest = todo.drop_first();
        lemma_edge_count_first(todo, j as usize);
        assert(edge_count(rest, j as usize) == 0);
        assert(todo.first() != Subscriber::Derived(j as usize));
        assert forall|k: int| 0 <= k < rest.len() implies sub_wf(s, m, #[trigger] rest[k]) by {
            assert(rest[k] == todo[k + 1]);
        }
        match todo.first() {
            Subscriber::Once(_) => {
                lemma_fire_avoids(f, n, s, m, rest, j);
            },
            Subscriber::Repeating(tok) => {
                let ev = Event { token: tok, cell: m as usize };
                let stepped = State { events: s.events.push(ev), ..s };
                crate::state::lemma_wf_values(s, stepped);
                assert forall|k: int|
                    0 <= k < rest.len() implies sub_wf(stepped, m, #[trigger] rest[k]) by {
                    assert(sub_wf(s, m, rest[k]));
                }
                lemma_fire_avoids(f, n, stepped, m, rest, j);
                lemma_fire_frame(f, n, stepped, m, rest);
                let r = fire(f, n, stepped, m, rest);
                assert forall|k: int|
                    s.events.len() <= k < r.events.len() implies (#[trigger] r.events[k]).cell
                    != j as usize by {
                    if k < stepped.events.len() {
                        assert(stepped.events =~= r.events.subrange(
                            0,
                            stepped.events.len() as int,
                        ));
                        assert(r.events[k] == stepped.events[k]);
                    }
                }
            },
            Subscriber::Derived(j0u) => {
                let j0 = j0u as int;
                assert(sub_wf(s, m, todo[0]));
                assert(m < j0 < n);
                assert(!(s.kinds[j0] is Base));
                assert(j0 != j);
                let written = State {
                    values: s.values.update(j0, recompute_spec(f, s, j0)),
                    ..s
                };
                crate::state::lemma_wf_values(s, written);
                assert forall|p: int|
                    j0 <= p < n implies edge_count(
                    #[trigger] written.subs[p],
                    j as usize,
                ) == 0 by {
                    assert(edge_count(s.subs[p], j as usize) == 0);
                }
                lemma_dispatch_avoids(f, n, written, j0, j);
                let s2 = dispatch(f, n, written, j0);
                lemma_dispatch_frame(f, n, written, j0);
                assert forall|p: int|
                    m <= p < n implies edge_count(
                    #[trigger] s2.subs[p],
                    j as usize,
                ) == 0 by {
                    lemma_edge_count_keep(written.subs[p], j as usize);
                    assert(s2.subs[p] == written.subs[p] || s2.subs[p] == keep_subs(
                        written.subs[p],
                    ));
                    assert(edge_count(s.subs[p], j as usize) == 0);
                }
                assert forall|k: int|
                    0 <= k < rest.len() implies sub_wf(s2, m, #[trigger] rest[k]) by {
                    assert(sub_wf(s, m, rest[k]));
                }
                lemma_fire_avoids(f, n, s2, m, rest, j);
                lemma_fire_frame(f, n, s2, m, rest);
                let r = fire(f, n, s2, m, rest);
                assert forall|k: int|
                    s.events.len() <= k < r.events.len() implies (#[trigger] r.events[k]).cell
                    != j as usize by {
                    if k < s2.events.len() {
                        assert(s2.events =~= r.events.subrange(0, s2.events.len() as int));
                        assert(r.events[k] == s2.events[k]);
                    }
                }
            },
        }
    }
}

/// One full batch: what a dispatch of cell `j` queues for `j` itself — its
/// `Once` events, then its `Repeating` events, in registration order.
pub open spec fn self_batch(ls: Seq<Subscriber>, j: int) -> Seq<Event> {
    once_events(ls, j) + rep_events(keep_subs(ls), j)
}

/// Dispatching cell `j` queues, for `j` itself, exactly one full batch of
/// its subscription list: every other event a dispatch queues names a cell
/// reached through a derived edge, which points strictly upward.
proof fn lemma_dispatch_self_evs<V, F: Transforms<V>>(f: F, n: nat, s: State<V>, j: int)
    requires
        state_wf(s),
        n == s.values.len(),
        0 <= j < n,
    ensures
        ({
            let r = dispatch(f, n, s, j);
            evs_of(r.events.skip(s.events.len() as int), j as usize) == self_batch(s.subs[j], j)
        }),
{
    let kept = keep_subs(s.subs[j]);
    let s1 = State {
        subs: s.subs.update(j, kept),
        events: s.events + once_events(s.subs[j], j),
        ..s
    };
    lemma_wf_trim(s, s1, j);
    lemma_keep_subs_props(s.subs[j]);
    assert forall|k: int| 0 <= k < kept.len() implies sub_wf(s1, j, #[trigger] kept[k]) by {
        assert(kept.contains(kept[k]));
        assert(s.subs[j].contains(kept[k]));
        let k0 = choose|k0: int| 0 <= k0 < s.subs[j].len() && s.subs[j][k0] == kept[k];
        assert(sub_wf(s, j, s.subs[j][k0]));
    }
    lemma_fire_self_evs(f, n, s1, j, kept);
    lemma_fire_frame(f, n, s1, j, kept);
    let r = fire(f, n, s1, j, kept);
    let onceb = once_events(s.subs[j], j);
    assert(s.events.is_prefix_of(s1.events)) by {
        assert(s.events =~= s1.events.subrange(0, s.events.len() as int));
    }
    lemma_added_split(s.events, s1.events, r.events);
    assert(s1.events.skip(s.events.len() as int) =~= onceb);
    lemma_evs_of_add(onceb, r.events.skip(s1.events.len() as int), j as usize);
    lemma_once_events_cell(s.subs[j], j);
    lemma_evs_of_all(onceb, j as usize);
    lemma_rep_events_keep(s.subs[j], j);
}

/// While cell `i`'s entries fire, the events queued for `i` itself are its
/// `Repeating` events, in order: derived edges lead strictly upward, away
/// from `i`.
proof fn lemma_fire_self_evs<V, F: Transforms<V>>(
    f: F,
    n: nat,
    s: State<V>,
    i: int,
    todo: Seq<Subscriber>,
)
    requires
        state_wf(s),
        n == s.values.len(),
        0 <= i < n,
        forall|k: int| 0 <= k < todo.len() ==> sub_wf(s, i, #[trigger] todo[k]),
    ensures
        ({
            let r = fire(f, n, s, i, todo);
            evs_of(r.events.skip(s.events.len() as int), i as usize) == rep_events(todo, i)
        }),
    decreases n - i, 0int, todo.len(),
{
    if todo.len() == 0 {
        assert(fire(f, n, s, i, todo).events.skip(s.events.len() as int)
            =~= Seq::<Event>::empty());
    } else {
        lemma_rep_events_first(todo, i);
        let rest = todo.drop_first();
        assert forall|k: int| 0 <= k < rest.len() implies sub_wf(s, i, #[trigger] rest[k]) by {
            assert(rest[k] == todo[k + 1]);
        }
        match todo.first() {
            Subscriber::Once(_) => {
                lemma_fire_self_evs(f, n, s, i, rest);
            },
            Subscriber::Repeating(tok) => {
                let ev = Event { token: tok, cell: i as usize };
                let stepped = State { events: s.events.push(ev), ..s };
                lemma_wf_values(s, stepped);
                assert forall|k: int|
                    0 <= k < rest.len() implies sub_wf(stepped, i, #[trigger] rest[k]) by {
                    assert(sub_wf(s, i, rest[k]));
                }
                lemma_fire_self_evs(f, n, stepped, i, rest);
                lemma_fire_frame(f, n, stepped, i, rest);
                let r = fire(f, n, stepped, i, rest);
                assert(s.events.is_prefix_of(stepped.events)) by {
                    assert(s.events =~= stepped.events.subrange(0, s.events.len() as int));
                }
                lemma_added_split(s.events, stepped.events, r.events);
                assert(stepped.events.skip(s.events.len() as int) =~= seq![ev]);
                lemma_evs_of_add(seq![ev], r.events.skip(stepped.events.len() as int), i as usize);
                lemma_evs_of_all(seq![ev], i as usize);
            },
            Subscriber::Derived(j0u) => {
                let j0 = j0u as int;
                assert(sub_wf(s, i, todo[0]));
                assert(i < j0 < n);
                assert(!(s.kinds[j0] is Base));
                let written = State {
                    values: s.values.update(j0, recompute_spec(f, s, j0)),
                    ..s
                };
                lemma_wf_values(s, written);
                lemma_dispatch_frame(f, n, written, j0);
                let s2 = dispatch(f, n, written, j0);
                let a = s2.events.skip(s.events.len() as int);
                assert forall|k: int| 0 <= k < a.len() implies (#[trigger] a[k]).cell != i
                    as usize by {
                    assert(a[k] == s2.events[s.events.len() + k]);
                    assert(s2.events[s.events.len() + k].cell >= j0);
                }
                lemma_evs_of_none(a, i as usize);
                assert forall|k: int|
                    0 <= k < rest.len() implies sub_wf(s2, i, #[trigger] rest[k]) by {
                    assert(sub_wf(s, i, rest[k]));
                }
                lemma_fire_self_evs(f, n, s2, i, rest);
                lemma_fire_frame(f, n, s2, i, rest);
                let r = fire(f, n, s2, i, rest);
                assert(s.events.is_prefix_of(s2.events)) by {
                    assert(s.events =~= s2.events.subrange(0, s.events.len() as int));
                }
                lemma_added_split(s.events, s2.events, r.events);
                lemma_evs_of_add(a, r.events.skip(s2.events.len() as int), i as usize);
            },
        }
    }
}

/// While cell `i`'s entries fire, a mapped cell `j` that reads `i` alone
/// receives one full batch per remaining edge to it — `c` of them, where `c`
/// is at most one.
proof fn lemma_fire_once_target<V, F: Transforms<V>>(
    f: F,
    n: nat,
    s: State<V>,
    i: int,
    todo: Seq<Subscriber>,
    j: int,
    op: u64,
    c: nat,
)
    requires
        state_wf(s),
        n == s.values.len(),
        0 <= i < n,
        0 <= j < n,
        i != j,
        s.kinds[j] == (CellKind::Mapped { parent: i as usize, op }),
        edge_count(todo, j as usize) == c,
        c <= 1,
        forall|k: int| 0 <= k < todo.len() ==> sub_wf(s, i, #[trigger] todo[k]),
    ensures
        ({
            let r = fire(f, n, s, i, todo);
            evs_of(r.events.skip(s.events.len() as int), j as usize) == if c == 1 {
                self_batch(s.subs[j], j)
            } else {
                Seq::<Event>::empty()
            }
        }),
    decreases n - i, 0int, todo.len(),
{
    if todo.len() == 0 {
        assert(fire(f, n, s, i, todo).events.skip(s.events.len() as int)
            =~= Seq::<Event>::empty());
    } else {
        lemma_edge_count_first(todo, j as usize);
        let rest = todo.drop_first();
        assert forall|k: int| 0 <= k < rest.len() implies sub_wf(s, i, #[trigger] rest[k]) by {
            assert(rest[k] == todo[k + 1]);
        }
        match todo.first() {
            Subscriber::Once(_) => {
                lemma_fire_once_target(f, n, s, i, rest, j, op, c);
            },
            Subscriber::Repeating(tok) => {
                let ev = Event { token: tok, cell: i as usize };
                let stepped = State { events: s.events.push(ev), ..s };
                lemma_wf_values(s, stepped);
                assert forall|k: int|
                    0 <= k < rest.len() implies sub_wf(stepped, i, #[trigger] rest[k]) by {
                    assert(sub_wf(s, i, rest[k]));
                }
                lemma_fire_once_target(f, n, stepped, i, rest, j, op, c);
                lemma_fire_frame(f, n, stepped, i, rest);
                let r = fire(f, n, stepped, i, rest);
                assert(s.events.is_prefix_of(stepped.events)) by {
                    assert(s.events =~= stepped.events.subrange(0, s.events.len() as int));
                }
                lemma_added_split(s.events, stepped.events, r.events);
                assert(stepped.events.skip(s.events.len() as int) =~= seq![ev]);
                lemma_evs_of_add(seq![ev], r.events.skip(stepped.events.len() as int), j as usize);
                lemma_evs_of_none(seq![ev], j as usize);
            },
            Subscriber::Derived(j0u) => {
                let j0 = j0u as int;
                assert(sub_wf(s, i, todo[0]));
                assert(i < j0 < n);
                assert(!(s.kinds[j0] is Base));
                let written = State {
                    values: s.values.update(j0, recompute_spec(f, s, j0)),
                    ..s
                };
                lemma_wf_values(s, written);
                lemma_dispatch_frame(f, n, written, j0);
                let s2 = dispatch(f, n, written, j0);
                let a = s2.events.skip(s.events.len() as int);
                assert(s.events.is_prefix_of(s2.events)) by {
                    assert(s.events =~= s2.events.subrange(0, s.events.len() as int));
                }
                if j0 == j {
                    // The one edge to the mapped cell: its dispatch queues
                    // exactly one batch for it, and no later entry holds
                    // another edge.
                    assert(c == 1);
                    assert(edge_count(rest, j as usize) == 0);
                    lemma_dispatch_self_evs(f, n, written, j);
                    assert(evs_of(a, j as usize) == self_batch(written.subs[j], j));
                    assert(written.subs[j] == s.subs[j]);
                    assert forall|k: int|
                        0 <= k < rest.len() implies sub_wf(s2, i, #[trigger] rest[k]) by {
                        assert(sub_wf(s, i, rest[k]));
                    }
                    lemma_fire_once_target(f, n, s2, i, rest, j, op, 0);
                    lemma_fire_frame(f, n, s2, i, rest);
                    let r = fire(f, n, s2, i, rest);
                    lemma_added_split(s.events, s2.events, r.events);
                    lemma_evs_of_add(a, r.events.skip(s2.events.len() as int), j as usize);
                    assert(self_batch(s.subs[j], j) + Seq::<Event>::empty() =~= self_batch(
                        s.subs[j],
                        j,
                    ));
                } else {
                    // A derived edge to some other cell: its whole cascade
                    // stays away from the mapped cell, which only `i` reads.
                    assert forall|p: int|
                        j0 <= p < n implies edge_count(
                        #[trigger] written.subs[p],
                        j as usize,
                    ) == 0 by {
                        assert(edge_count(written.subs[p], j as usize) == edge_mult(
                            written.kinds[j],
                            p,
                        ));
                    }
                    lemma_dispatch_avoids(f, n, written, j0, j);
                    assert forall|k: int| 0 <= k < a.len() implies (#[trigger] a[k]).cell != j
                        as usize by {
                        assert(a[k] == s2.events[s.events.len() + k]);
                    }
                    lemma_evs_of_none(a, j as usize);
                    assert(s2.subs[j] == s.subs[j]);
                    assert forall|k: int|
                        0 <= k < rest.len() implies sub_wf(s2, i, #[trigger] rest[k]) by {
                        assert(sub_wf(s, i, rest[k]));
                    }
                    lemma_fire_once_target(f, n, s2, i, rest, j, op, c);
                    lemma_fire_frame(f, n, s2, i, rest);
                    let r = fire(f, n, s2, i, rest);
                    lemma_added_split(s.events, s2.events, r.events);
                    lemma_evs_of_add(a, r.events.skip(s2.events.len() as int), j as usize);
                }
            },
        }
    }
}

/// Mapped-cell single-firing law. One mutation of a base cell fires the
/// listeners of a mapped cell that reads it exactly once: the events queued
/// for the mapped cell are one full batch — its `Once` events, then its
/// `Repeating` events, each group in registration order — and nothing more.
pub proof fn lemma_mapped_fires_once<V, F: Transforms<V>>(
    f: F,
    n: nat,
    s: State<V>,
    i: int,
    j: usize,
    op: u64,
    v: V,
)
    requires
        state_wf(s),
        n == s.values.len(),
        0 <= i < n,
        (j as int) < n,
        s.kinds[i] is Base,
        s.kinds[j as int] == (CellKind::Mapped { parent: i as usize, op }),
    ensures
        ({
            let r = set_cell(f, n, s, i, v);
            evs_of(r.events.skip(s.events.len() as int), j) == self_batch(
                s.subs[j as int],
                j as int,
            )
        }),
{
    let ji = j as int;
    assert(i != ji);
    let written = State { values: s.values.update(i, v), ..s };
    lemma_wf_values(s, written);
    let kept = keep_subs(s.subs[i]);
    let s1 = State {
        subs: written.subs.update(i, kept),
        events: written.events + once_events(s.subs[i], i),
        ..written
    };
    lemma_wf_trim(written, s1, i);
    lemma_keep_subs_props(s.subs[i]);
    lemma_edge_count_keep(s.subs[i], j);
    assert(edge_count(s.subs[i], (ji as usize)) == edge_mult(
        s.kinds[ji],
        i,
    ));
    assert(ji as usize == j);
    assert(edge_count(kept, j) == 1);
    assert forall|k: int| 0 <= k < kept.len() implies sub_wf(s1, i, #[trigger] kept[k]) by {
        assert(kept.contains(kept[k]));
        assert(s.subs[i].contains(kept[k]));
        let k0 = choose|k0: int| 0 <= k0 < s.subs[i].len() && s.subs[i][k0] == kept[k];
        assert(sub_wf(s, i, s.subs[i][k0]));
    }
    lemma_fire_once_target(f, n, s1, i, kept, ji, op, 1);
    lemma_fire_frame(f, n, s1, i, kept);
    let r = fire(f, n, s1, i, kept);
    assert(set_cell(f, n, s, i, v) == r);
    let onceb = once_events(s.subs[i], i);
    assert(s.events.is_prefix_of(s1.events)) by {
        assert(s.events =~= s1.events.subrange(0, s.events.len() as int));
    }
    lemma_added_split(s.events, s1.events, r.events);
    assert(s1.events.skip(s.events.len() as int) =~= onceb);
    lemma_evs_of_add(onceb, r.events.skip(s1.events.len() as int), j);
    lemma_once_events_cell(s.subs[i], i);
    assert forall|k: int| 0 <= k < onceb.len() implies (#[trigger] onceb[k]).cell != j by {
        assert(onceb[k].cell == i);
    }
    lemma_evs_of_none(onceb, j);
    assert(s1.subs[ji] == s.subs[ji]);
}

/// Listener ordering law. For a base cell whose subscribers are all
/// external, one mutation queues every `Once` event first, then every
/// `Repeating` event, each group in registration order; the `Once`
/// subscribers are consumed and the `Repeating` subscribers stay; nothing
/// else in the graph changes — so a second mutation queues the `Repeating`
/// events only.
pub proof fn lemma_listener_order<V, F: Transforms<V>>(f: F, n: nat, s: State<V>, i: int, v: V)
    requires
        state_wf(s),
        n == s.values.len(),
        0 <= i < n,
        forall|k: int| 0 <= k < s.subs[i].len() ==> !((#[trigger] s.subs[i][k]) is Derived),
    ensures
        ({
            let r = set_cell(f, n, s, i, v);
            &&& r.events == s.events + once_events(s.subs[i], i) + rep_events(s.subs[i], i)
            &&& r.subs == s.subs.update(i, keep_subs(s.subs[i]))
            &&& once_events(r.subs[i], i) == Seq::<Event>::empty()
            &&& rep_events(r.subs[i], i) == rep_events(s.subs[i], i)
            &&& r.values == s.values.update(i, v)
            &&& r.kinds == s.kinds
        }),
{
    let written = State { values: s.values.update(i, v), ..s };
    let ls = s.subs[i];
    let kept = keep_subs(ls);
    let s1 = State {
        subs: written.subs.update(i, kept),
        events: written.events + once_events(ls, i),
        ..written
    };
    lemma_rep_events_keep(ls, i);
    assert forall|k: int| 0 <= k < kept.len() implies !((#[trigger] kept[k]) is Derived) by {
        lemma_keep_subs_props(ls);
        assert(kept.contains(kept[k]));
        assert(ls.contains(kept[k]));
        let k0 = choose|k0: int| 0 <= k0 < ls.len() && ls[k0] == kept[k];
        assert(!(ls[k0] is Derived));
    }
    lemma_fire_external(f, n, s1, i, kept);
    assert(dispatch(f, n, written, i) == fire(f, n, s1, i, kept));
    let r = set_cell(f, n, s, i, v);
    assert(r.events =~= s.events + once_events(ls, i) + rep_events(ls, i));
    lemma_once_events_empty(kept, i);
}

/// Ordering law for any cell in any graph. One mutation of cell `i` queues,
/// for `i` itself, its `Once` events first and then its `Repeating` events,
/// each group in registration order, whatever other cells the cascade
/// reaches in between; the `Once` subscribers are consumed, the rest stay.
pub proof fn lemma_set_fires_in_order<V, F: Transforms<V>>(
    f: F,
    n: nat,
    s: State<V>,
    i: int,
    v: V,
)
    requires
        state_wf(s),
        n == s.values.len(),
        0 <= i < n,
    ensures
        ({
            let r = set_cell(f, n, s, i, v);
            &&& evs_of(r.events.skip(s.events.len() as int), i as usize) == self_batch(
                s.subs[i],
                i,
            )
            &&& r.subs[i] == keep_subs(s.subs[i])
            &&& once_events(r.subs[i], i) == Seq::<Event>::empty()
            &&& rep_events(r.subs[i], i) == rep_events(s.subs[i], i)
            &&& r.values[i] == v
        }),
{
    lemma_rep_events_keep(s.subs[i], i);
    lemma_once_events_empty(keep_subs(s.subs[i]), i);
    let written = State { values: s.values.update(i, v), ..s };
    lemma_wf_values(s, written);
    lemma_dispatch_self_evs(f, n, written, i);
    lemma_dispatch_frame(f, n, written, i);
    let r = dispatch(f, n, written, i);
    lemma_keep_subs_props(s.subs[i]);
    let kept = keep_subs(s.subs[i]);
    let s1 = State {
        subs: written.subs.update(i, kept),
        events: written.events + once_events(s.subs[i], i),
        ..written
    };
    lemma_wf_trim(written, s1, i);
    lemma_fire_frame(f, n, s1, i, kept);
    assert(r.subs[i] == s1.subs[i] || r.subs[i] == keep_subs(s1.subs[i]));
}

/// The tokens a stretch of events carries, in order.
pub open spec fn event_tokens(es: Seq<Event>) -> Seq<u64>
    decreases es.len(),
{
    if es.len() == 0 {
        Seq::empty()
    } else {
        event_tokens(es.drop_last()).push(es.last().token)
    }
}

/// `event_tokens` distributes over concatenation.
proof fn lemma_event_tokens_add(a: Seq<Event>, b: Seq<Event>)
    ensures
        event_tokens(a + b) == event_tokens(a) + event_tokens(b),
    decreases b.len(),
{
    if b.len() == 0 {
        assert(a + b =~= a);
        assert(event_tokens(a) + event_tokens(b) =~= event_tokens(a));
    } else {
        lemma_event_tokens_add(a, b.drop_last());
        assert((a + b).drop_last() =~= a + b.drop_last());
        assert((a + b).last() == b.last());
        assert(event_tokens(a) + event_tokens(b.drop_last()).push(b.last().token) =~= (
        event_tokens(a) + event_tokens(b.drop_last())).push(b.last().token));
    }
}

/// The `Once` events of a converted listener list carry the standalone
/// cell's `Once` tokens, in order.
proof fn lemma_subs_of_once(ls: Seq<crate::cell::Listener>, i: int)
    ensures
        event_tokens(once_events(crate::cell::subs_of(ls), i)) == crate::cell::once_tokens(ls),
    decreases ls.len(),
{
    if ls.len() > 0 {
        let ls0 = ls.drop_last();
        lemma_subs_of_once(ls0, i);
        let subs = crate::cell::subs_of(ls);
        assert(subs.drop_last() =~= crate::cell::subs_of(ls0));
        match ls.last().kind {
            crate::cell::ListenerKind::Once => {
                assert(subs.last() == Subscriber::Once(ls.last().token));
                let ev = Event { token: ls.last().token, cell: i as usize };
                assert(once_events(subs, i) == once_events(subs.drop_last(), i).push(ev));
                assert(once_events(subs.drop_last(), i).push(ev).drop_last() =~= once_events(
                    subs.drop_last(),
                    i,
                ));
            },
            crate::cell::ListenerKind::Repeating => {
                assert(subs.last() == Subscriber::Repeating(ls.last().token));
                assert(once_events(subs, i) == once_events(subs.drop_last(), i));
            },
        }
    }
}

/// The `Repeating` events of a converted listener list carry the standalone
/// cell's `Repeating` tokens, in order.
proof fn lemma_subs_of_rep(ls: Seq<crate::cell::Listener>, i: int)
    ensures
        event_tokens(rep_events(crate::cell::subs_of(ls), i)) == crate::cell::repeating_tokens(
            ls,
        ),
    decreases ls.len(),
{
    if ls.len() > 0 {
        let ls0 = ls.drop_last();
        lemma_subs_of_rep(ls0, i);
        let subs = crate::cell::subs_of(ls);
        assert(subs.drop_last() =~= crate::cell::subs_of(ls0));
        match ls.last().kind {
            crate::cell::ListenerKind::Repeating => {
                assert(subs.last() == Subscriber::Repeating(ls.last().token));
                let ev = Event { token: ls.last().token, cell: i as usize };
                assert(rep_events(subs, i) == rep_events(subs.drop_last(), i).push(ev));
                assert(rep_events(subs.drop_last(), i).push(ev).drop_last() =~= rep_events(
                    subs.drop_last(),
                    i,
                ));
            },
            crate::cell::ListenerKind::Once => {
                assert(subs.last() == Subscriber::Once(ls.last().token));
                assert(rep_events(subs, i) == rep_events(subs.drop_last(), i));
            },
        }
    }
}

/// Sharing preserves the firing order. A standalone cell moved into an
/// engine fires, on its next mutation there, exactly the tokens it would
/// have fired on its own, in the same order: the engine's batch for the
/// converted subscription list carries the standalone cell's fire order.
pub proof fn lemma_shared_fire_order(ls: Seq<crate::cell::Listener>, i: int)
    ensures
        event_tokens(self_batch(crate::cell::subs_of(ls), i)) == crate::cell::fire_order(ls),
{
    let subs = crate::cell::subs_of(ls);
    lemma_event_tokens_add(once_events(subs, i), rep_events(keep_subs(subs), i));
    lemma_subs_of_once(ls, i);
    lemma_rep_events_keep(subs, i);
    lemma_subs_of_rep(ls, i);
}

/// Derived-cell consistency law. Mutating a base cell of a consistent graph
/// leaves the graph consistent: the mutated cell holds the new value, every
/// mapped cell holds its transform of its parent's current value, every
/// zipped cell holds its transform of both parents' current values, and
/// every other base cell is untouched.
pub proof fn lemma_set_consistent<V, F: Transforms<V>>(f: F, n: nat, s: State<V>, i: int, v: V)
    requires
        state_wf(s),
        n == s.values.len(),
        0 <= i < n,
        s.kinds[i] is Base,
        consistent(f, s),
    ensures
        ({
            let r = set_cell(f, n, s, i, v);
            &&& state_wf(r)
            &&& r.values.len() == n
            &&& r.kinds == s.kinds
            &&& consistent(f, r)
            &&& r.values[i] == v
            &&& forall|m: int|
                0 <= m < n && s.kinds[m] is Base && m != i ==> r.values[m] == s.values[m]
        }),
{
    let written = State { values: s.values.update(i, v), ..s };
    lemma_wf_values(s, written);
    assert forall|j: int|
        0 <= j < n && !(#[trigger] consistent_at(f, written, j)) implies child_of(written, j, i)
        || Set::<int>::empty().contains(j) by {
        if !reads_parent(written.kinds[j], i) {
            assert(consistent_at(f, written, j) == consistent_at(f, s, j));
        }
    }
    lemma_dispatch_consistent(f, n, written, i, Set::<int>::empty());
    lemma_dispatch_frame(f, n, written, i);
}

/// Zipped-cell freshness law. Mutating the left parent of a zipped cell
/// rewrites the zipped cell from the new left value and the right parent's
/// value at mutation time — not its value at construction time.
pub proof fn lemma_zipped_freshness<V, F: Transforms<V>>(
    f: F,
    n: nat,
    s: State<V>,
    lid: usize,
    rid: usize,
    z: usize,
    op: u64,
    v: V,
)
    requires
        state_wf(s),
        n == s.values.len(),
        lid < n,
        rid < n,
        (z as int) < n,
        s.kinds[z as int] == (CellKind::Zipped { left: lid, right: rid, op }),
        s.kinds[lid as int] is Base,
        s.kinds[rid as int] is Base,
        lid != rid,
        consistent(f, s),
    ensures
        set_cell(f, n, s, lid as int, v).values[z as int] == f.zip_spec(
            op,
            v,
            s.values[rid as int],
        ),
        set_cell(f, n, s, lid as int, v).values[lid as int] == v,
        set_cell(f, n, s, lid as int, v).values[rid as int] == s.values[rid as int],
{
    lemma_set_consistent(f, n, s, lid as int, v);
    let r = set_cell(f, n, s, lid as int, v);
    assert(consistent_at(f, r, z as int));
}

} // verus!
