//! The mathematical model of the propagation engine: a ghost snapshot of all
//! cells plus the recursive dispatch function that defines, exactly, what one
//! mutation does — which values are recomputed, in what order the events are
//! queued, and which `Once` subscriptions are consumed.

use vstd::prelude::*;

verus! {

/// A queued notification: listener `token` fired for cell `cell`.
#[derive(Clone, Copy, PartialEq, Eq, Structural, Debug)]
pub struct Event {
    pub token: u64,
    pub cell: usize,
}

/// How a cell gets its value.
#[derive(Clone, Copy, PartialEq, Eq, Structural, Debug)]
pub enum CellKind {
    /// Holds whatever was last written into it.
    Base,
    /// Recomputed from one parent through unary transform `op`.
    Mapped { parent: usize, op: u64 },
    /// Recomputed from two parents through binary transform `op`.
    Zipped { left: usize, right: usize, op: u64 },
}

/// One entry in a cell's subscription list.
#[derive(Clone, Copy, PartialEq, Eq, Structural, Debug)]
pub enum Subscriber {
    /// External listener fired on the next mutation only.
    Once(u64),
    /// External listener fired on every mutation.
    Repeating(u64),
    /// Write-through edge to a derived cell, fired on every mutation.
    Derived(usize),
}

/// The transform dispatch table: derived cells name their recomputation as an
/// `op` index into an implementation of this trait. Transforms are total and
/// pure: the same operands always give the same result.
pub trait Transforms<V> {
    /// The meaning of unary transform `op`.
    spec fn map_spec(&self, op: u64, v: V) -> V;

    /// The meaning of binary transform `op`.
    spec fn zip_spec(&self, op: u64, left: V, right: V) -> V;

    /// Applies unary transform `op`.
    fn map(&self, op: u64, v: &V) -> (r: V)
        ensures
            r == self.map_spec(op, *v),
    ;

    /// Applies binary transform `op`.
    fn zip(&self, op: u64, left: &V, right: &V) -> (r: V)
        ensures
            r == self.zip_spec(op, *left, *right),
    ;
}

/// A snapshot of the whole engine: one entry per cell in each of the three
/// sequences, plus the queue of events not yet handed to the caller.
#[verifier::ext_equal]
pub struct State<V> {
    pub values: Seq<V>,
    pub kinds: Seq<CellKind>,
    pub subs: Seq<Seq<Subscriber>>,
    pub events: Seq<Event>,
}

/// Does `kind` read cell `p`?
pub open spec fn reads_parent(kind: CellKind, p: int) -> bool {
    match kind {
        CellKind::Base => false,
        CellKind::Mapped { parent, .. } => parent == p,
        CellKind::Zipped { left, right, .. } => left == p || right == p,
    }
}

/// Well-formedness of one subscription entry of cell `i`: a derived edge
/// points forward, to a cell that really reads `i`.
pub open spec fn sub_wf<V>(s: State<V>, i: int, sub: Subscriber) -> bool {
    match sub {
        Subscriber::Once(_) => true,
        Subscriber::Repeating(_) => true,
        Subscriber::Derived(j) => i < j < s.values.len() && reads_parent(s.kinds[j as int], i),
    }
}

/// Every derived cell reads only cells created before it.
pub open spec fn kinds_wf(kinds: Seq<CellKind>) -> bool {
    forall|j: int|
        0 <= j < kinds.len() ==> match #[trigger] kinds[j] {
            CellKind::Base => true,
            CellKind::Mapped { parent, .. } => 0 <= parent < j,
            CellKind::Zipped { left, right, .. } => 0 <= left < j && 0 <= right < j,
        }
}

/// The number of derived edges to cell `j` in one subscription list.
pub open spec fn edge_count(ls: Seq<Subscriber>, j: usize) -> nat
    decreases ls.len(),
{
    if ls.len() == 0 {
        0
    } else if ls.last() == Subscriber::Derived(j) {
        edge_count(ls.drop_last(), j) + 1
    } else {
        edge_count(ls.drop_last(), j)
    }
}

/// How often `kind` reads cell `p`: a zipped cell over the same parent twice
/// reads it twice.
pub open spec fn edge_mult(kind: CellKind, p: int) -> nat {
    match kind {
        CellKind::Base => 0,
        CellKind::Mapped { parent, .. } => if parent == p {
            1
        } else {
            0
        },
        CellKind::Zipped { left, right, .. } => (if left == p {
            1nat
        } else {
            0nat
        }) + (if right == p {
            1nat
        } else {
            0nat
        }),
    }
}

/// Well-formedness of the whole snapshot:
/// - the three per-cell sequences line up, and the cell count fits a `usize`;
/// - every derived cell reads only cells created before it;
/// - every derived edge points forward, to a cell that reads its source;
/// - every derived cell is subscribed to each of its parents, once per read.
pub open spec fn state_wf<V>(s: State<V>) -> bool {
    &&& s.kinds.len() == s.values.len()
    &&& s.subs.len() == s.values.len()
    &&& s.values.len() <= usize::MAX
    &&& kinds_wf(s.kinds)
    &&& forall|i: int, k: int|
        0 <= i < s.subs.len() && 0 <= k < s.subs[i].len() ==> sub_wf(s, i, #[trigger] s.subs[i][k])
    &&& forall|j: int, p: int|
        0 <= j < s.values.len() && 0 <= p < s.subs.len() && #[trigger] reads_parent(s.kinds[j], p)
            ==> s.subs[p].contains(Subscriber::Derived(j as usize))
    &&& forall|j: int, p: int|
        0 <= j < s.values.len() && 0 <= p < s.subs.len() ==> #[trigger] edge_count(
            s.subs[p],
            j as usize,
        ) == edge_mult(s.kinds[j], p)
}

/// The value cell `j` should hold, given its parents' current values.
pub open spec fn recompute_spec<V, F: Transforms<V>>(f: F, s: State<V>, j: int) -> V {
    match s.kinds[j] {
        CellKind::Base => s.values[j],
        CellKind::Mapped { parent, op } => f.map_spec(op, s.values[parent as int]),
        CellKind::Zipped { left, right, op } => f.zip_spec(
            op,
            s.values[left as int],
            s.values[right as int],
        ),
    }
}

/// Cell `j` holds exactly what its parents' current values dictate.
pub open spec fn consistent_at<V, F: Transforms<V>>(f: F, s: State<V>, j: int) -> bool {
    s.values[j] == recompute_spec(f, s, j)
}

/// Every derived cell is in sync with its parents.
pub open spec fn consistent<V, F: Transforms<V>>(f: F, s: State<V>) -> bool {
    forall|j: int| 0 <= j < s.values.len() ==> #[trigger] consistent_at(f, s, j)
}

/// The events queued when cell `i`'s `Once` subscribers fire, in
/// registration order.
pub open spec fn once_events(ls: Seq<Subscriber>, i: int) -> Seq<Event>
    decreases ls.len(),
{
    if ls.len() == 0 {
        Seq::empty()
    } else if ls.last() is Once {
        once_events(ls.drop_last(), i).push(Event { token: ls.last()->Once_0, cell: i as usize })
    } else {
        once_events(ls.drop_last(), i)
    }
}

/// The subscription list after its `Once` entries are consumed.
pub open spec fn keep_subs(ls: Seq<Subscriber>) -> Seq<Subscriber>
    decreases ls.len(),
{
    if ls.len() == 0 {
        Seq::empty()
    } else if ls.last() is Once {
        keep_subs(ls.drop_last())
    } else {
        keep_subs(ls.drop_last()).push(ls.last())
    }
}

/// Dispatches cell `i` after its value has been written: consumes and fires
/// its `Once` subscribers, then processes the remaining entries in order.
pub open spec fn dispatch<V, F: Transforms<V>>(f: F, n: nat, s: State<V>, i: int) -> State<V>
    decreases n - i, 1int, 0int,
{
    if 0 <= i < n {
        let fired = State {
            subs: s.subs.update(i, keep_subs(s.subs[i])),
            events: s.events + once_events(s.subs[i], i),
            ..s
        };
        fire(f, n, fired, i, keep_subs(s.subs[i]))
    } else {
        s
    }
}

/// Processes the remaining subscription entries `todo` of cell `i`, in order:
/// a `Repeating` entry queues an event; a `Derived` entry recomputes the
/// target from its parents' current values and dispatches it in turn, before
/// the next entry of `i` is processed.
pub open spec fn fire<V, F: Transforms<V>>(
    f: F,
    n: nat,
    s: State<V>,
    i: int,
    todo: Seq<Subscriber>,
) -> State<V>
    decreases n - i, 0int, todo.len(),
{
    if todo.len() == 0 || !(0 <= i < n) {
        s
    } else {
        let stepped = match todo.first() {
            Subscriber::Once(_) => s,
            Subscriber::Repeating(tok) => State {
                events: s.events.push(Event { token: tok, cell: i as usize }),
                ..s
            },
            Subscriber::Derived(j) => if i < j < n && !(s.kinds[j as int] is Base) {
                let written = State {
                    values: s.values.update(j as int, recompute_spec(f, s, j as int)),
                    ..s
                };
                dispatch(f, n, written, j as int)
            } else {
                s
            },
        };
        fire(f, n, stepped, i, todo.drop_first())
    }
}

/// Appending an external listener to one subscription list keeps the whole
/// snapshot well formed.
pub proof fn lemma_push_sub_wf<V>(s: State<V>, i: int, sub: Subscriber)
    requires
        state_wf(s),
        0 <= i < s.subs.len(),
        sub_wf(s, i, sub),
        !(sub is Derived),
    ensures
        state_wf(State { subs: s.subs.update(i, s.subs[i].push(sub)), ..s }),
{
    let s1 = State { subs: s.subs.update(i, s.subs[i].push(sub)), ..s };
    assert forall|j: int, p: int|
        0 <= j < s1.values.len() && 0 <= p < s1.subs.len() implies #[trigger] edge_count(
        s1.subs[p],
        j as usize,
    ) == edge_mult(s1.kinds[j], p) by {
        if p == i {
            lemma_edge_count_push(s.subs[i], sub, j as usize);
        }
        assert(edge_count(s.subs[p], j as usize) == edge_mult(s.kinds[j], p));
    }
    assert forall|a: int, k: int|
        0 <= a < s1.subs.len() && 0 <= k < s1.subs[a].len() implies sub_wf(
        s1,
        a,
        #[trigger] s1.subs[a][k],
    ) by {
        if a == i && k == s1.subs[a].len() - 1 {
            assert(s1.subs[a][k] == sub);
        } else {
            assert(s1.subs[a][k] == s.subs[a][k]);
            assert(sub_wf(s, a, s.subs[a][k]));
        }
    }
    assert forall|j: int, p: int|
        0 <= j < s1.values.len() && 0 <= p < s1.subs.len() && #[trigger] reads_parent(
            s1.kinds[j],
            p,
        ) implies s1.subs[p].contains(Subscriber::Derived(j as usize)) by {
        assert(reads_parent(s.kinds[j], p));
        assert(s.subs[p].contains(Subscriber::Derived(j as usize)));
        let idx = choose|idx: int|
            0 <= idx < s.subs[p].len() && s.subs[p][idx] == Subscriber::Derived(j as usize);
        assert(s1.subs[p][idx] == Subscriber::Derived(j as usize));
    }
}

/// `keep_subs` keeps exactly the entries that are not `Once`, and doing it
/// twice is the same as doing it once.
pub proof fn lemma_keep_subs_props(l: Seq<Subscriber>)
    ensures
        forall|x: Subscriber| #[trigger] keep_subs(l).contains(x) ==> l.contains(x),
        forall|x: Subscriber| l.contains(x) && !(x is Once) ==> #[trigger] keep_subs(l).contains(
            x,
        ),
        keep_subs(keep_subs(l)) == keep_subs(l),
    decreases l.len(),
{
    if l.len() == 0 {
    } else {
        let l0 = l.drop_last();
        lemma_keep_subs_props(l0);
        assert forall|x: Subscriber| #[trigger] keep_subs(l).contains(x) implies l.contains(x) by {
            if l.last() is Once {
                assert(l0.contains(x));
                let k = choose|k: int| 0 <= k < l0.len() && l0[k] == x;
                assert(l[k] == x);
            } else {
                let ks = keep_subs(l0).push(l.last());
                assert(keep_subs(l) == ks);
                let k = choose|k: int| 0 <= k < ks.len() && ks[k] == x;
                if k == ks.len() - 1 {
                    assert(l[l.len() - 1] == x);
                } else {
                    assert(keep_subs(l0).contains(x));
                    let k0 = choose|k0: int| 0 <= k0 < l0.len() && l0[k0] == x;
                    assert(l[k0] == x);
                }
            }
        }
        assert forall|x: Subscriber|
            l.contains(x) && !(x is Once) implies #[trigger] keep_subs(l).contains(x) by {
            let k = choose|k: int| 0 <= k < l.len() && l[k] == x;
            if k == l.len() - 1 {
                assert(keep_subs(l).last() == x);
            } else {
                assert(l0[k] == x);
                assert(keep_subs(l0).contains(x));
                if !(l.last() is Once) {
                    let k2 = choose|k2: int|
                        0 <= k2 < keep_subs(l0).len() && keep_subs(l0)[k2] == x;
                    assert(keep_subs(l)[k2] == x);
                }
            }
        }
        if l.last() is Once {
        } else {
            assert(keep_subs(keep_subs(l0)) == keep_subs(l0));
            assert(keep_subs(l) == keep_subs(l0).push(l.last()));
            assert(keep_subs(l0).push(l.last()).drop_last() =~= keep_subs(l0));
        }
    }
}

/// Appending one entry raises the edge count to `j` by one exactly when the
/// entry is the edge to `j`.
pub proof fn lemma_edge_count_push(ls: Seq<Subscriber>, x: Subscriber, j: usize)
    ensures
        edge_count(ls.push(x), j) == edge_count(ls, j) + (if x == Subscriber::Derived(j) {
            1nat
        } else {
            0nat
        }),
{
    assert(ls.push(x).drop_last() =~= ls);
}

/// Consuming the `Once` entries keeps every edge count.
pub proof fn lemma_edge_count_keep(ls: Seq<Subscriber>, j: usize)
    ensures
        edge_count(keep_subs(ls), j) == edge_count(ls, j),
    decreases ls.len(),
{
    if ls.len() > 0 {
        lemma_edge_count_keep(ls.drop_last(), j);
        if !(ls.last() is Once) {
            lemma_edge_count_push(keep_subs(ls.drop_last()), ls.last(), j);
        }
    }
}

/// A list of well-formed entries holds no edge to a cell beyond the graph.
pub proof fn lemma_edge_count_oob<V>(s: State<V>, i: int, ls: Seq<Subscriber>, j: usize)
    requires
        forall|k: int| 0 <= k < ls.len() ==> sub_wf(s, i, #[trigger] ls[k]),
        j >= s.values.len(),
    ensures
        edge_count(ls, j) == 0,
    decreases ls.len(),
{
    if ls.len() > 0 {
        assert(sub_wf(s, i, ls[ls.len() - 1]));
        assert forall|k: int| 0 <= k < ls.drop_last().len() implies sub_wf(
            s,
            i,
            #[trigger] ls.drop_last()[k],
        ) by {
            assert(ls.drop_last()[k] == ls[k]);
        }
        lemma_edge_count_oob(s, i, ls.drop_last(), j);
    }
}

/// Replacing the values (length kept) or the events of a well-formed
/// snapshot keeps it well formed: well-formedness reads only the kinds, the
/// subscriptions and the cell count.
pub proof fn lemma_wf_values<V>(s: State<V>, s2: State<V>)
    requires
        state_wf(s),
        s2.values.len() == s.values.len(),
        s2.kinds == s.kinds,
        s2.subs == s.subs,
    ensures
        state_wf(s2),
{
    assert forall|a: int, k: int|
        0 <= a < s2.subs.len() && 0 <= k < s2.subs[a].len() implies sub_wf(
        s2,
        a,
        #[trigger] s2.subs[a][k],
    ) by {
        assert(sub_wf(s, a, s.subs[a][k]));
    }
}

/// Consuming the `Once` entries of one subscription list keeps the snapshot
/// well formed.
pub proof fn lemma_wf_trim<V>(s: State<V>, s2: State<V>, i: int)
    requires
        state_wf(s),
        0 <= i < s.subs.len(),
        s2.values.len() == s.values.len(),
        s2.kinds == s.kinds,
        s2.subs == s.subs.update(i, keep_subs(s.subs[i])),
    ensures
        state_wf(s2),
{
    lemma_keep_subs_props(s.subs[i]);
    assert forall|a: int, k: int|
        0 <= a < s2.subs.len() && 0 <= k < s2.subs[a].len() implies sub_wf(
        s2,
        a,
        #[trigger] s2.subs[a][k],
    ) by {
        if a == i {
            assert(keep_subs(s.subs[i]).contains(s2.subs[a][k]));
            assert(s.subs[i].contains(s2.subs[a][k]));
            let k0 = choose|k0: int|
                0 <= k0 < s.subs[i].len() && s.subs[i][k0] == s2.subs[a][k];
            assert(sub_wf(s, a, s.subs[a][k0]));
        } else {
            assert(sub_wf(s, a, s.subs[a][k]));
        }
    }
    assert forall|j: int, p: int|
        0 <= j < s2.values.len() && 0 <= p < s2.subs.len() && #[trigger] reads_parent(
            s2.kinds[j],
            p,
        ) implies s2.subs[p].contains(Subscriber::Derived(j as usize)) by {
        assert(reads_parent(s.kinds[j], p));
        assert(s.subs[p].contains(Subscriber::Derived(j as usize)));
        if p == i {
            assert(keep_subs(s.subs[i]).contains(Subscriber::Derived(j as usize)));
        }
    }
    assert forall|j: int, p: int|
        0 <= j < s2.values.len() && 0 <= p < s2.subs.len() implies #[trigger] edge_count(
        s2.subs[p],
        j as usize,
    ) == edge_mult(s2.kinds[j], p) by {
        if p == i {
            lemma_edge_count_keep(s.subs[i], j as usize);
        }
        assert(edge_count(s.subs[p], j as usize) == edge_mult(s.kinds[j], p));
    }
}

/// Every `Once` event of cell `i` names cell `i`.
pub proof fn lemma_once_events_cell(ls: Seq<Subscriber>, i: int)
    requires
        0 <= i <= usize::MAX,
    ensures
        forall|k: int|
            0 <= k < once_events(ls, i).len() ==> (#[trigger] once_events(ls, i)[k]).cell == i,
    decreases ls.len(),
{
    if ls.len() > 0 {
        lemma_once_events_cell(ls.drop_last(), i);
        assert forall|k: int|
            0 <= k < once_events(ls, i).len() implies (#[trigger] once_events(ls, i)[k]).cell
            == i by {
            if !(ls.last() is Once) || k < once_events(ls, i).len() - 1 {
                assert(once_events(ls, i)[k] == once_events(ls.drop_last(), i)[k]);
            }
        }
    }
}

/// `is_prefix_of` is transitive.
pub proof fn lemma_prefix_trans(a: Seq<Event>, b: Seq<Event>, c: Seq<Event>)
    requires
        a.is_prefix_of(b),
        b.is_prefix_of(c),
    ensures
        a.is_prefix_of(c),
{
    assert(a =~= c.subrange(0, a.len() as int));
}

/// What one dispatch cannot do: it never grows or shrinks the graph, never
/// changes a kind, never writes the dispatched cell itself, a cell below it,
/// or any base cell, only consumes `Once` subscriptions, and only appends
/// events. It also keeps the snapshot well formed.
pub proof fn lemma_dispatch_frame<V, F: Transforms<V>>(f: F, n: nat, s: State<V>, i: int)
    requires
        state_wf(s),
        n == s.values.len(),
        0 <= i < n,
    ensures
        ({
            let r = dispatch(f, n, s, i);
            &&& state_wf(r)
            &&& r.values.len() == s.values.len()
            &&& r.kinds == s.kinds
            &&& r.subs.len() == s.subs.len()
            &&& forall|m: int| 0 <= m <= i ==> r.values[m] == s.values[m]
            &&& forall|m: int|
                0 <= m < n && s.kinds[m] is Base ==> r.values[m] == s.values[m]
            &&& forall|m: int|
                0 <= m < n ==> r.subs[m] == s.subs[m] || r.subs[m] == keep_subs(#[trigger] s.subs[m])
            &&& s.events.is_prefix_of(r.events)
            &&& forall|k: int|
                s.events.len() <= k < r.events.len() ==> (#[trigger] r.events[k]).cell >= i
        }),
    decreases n - i, 1int, 0int,
{
    let kept = keep_subs(s.subs[i]);
    let s1 = State {
        subs: s.subs.update(i, kept),
        events: s.events + once_events(s.subs[i], i),
        ..s
    };
    lemma_wf_trim(s, s1, i);
    lemma_keep_subs_props(s.subs[i]);
    assert(s.events =~= s1.events.subrange(0, s.events.len() as int));
    lemma_fire_frame(f, n, s1, i, kept);
    lemma_prefix_trans(s.events, s1.events, fire(f, n, s1, i, kept).events);
    lemma_once_events_cell(s.subs[i], i);
    let r = fire(f, n, s1, i, kept);
    assert forall|k: int|
        s.events.len() <= k < r.events.len() implies (#[trigger] r.events[k]).cell >= i by {
        if k < s1.events.len() {
            assert(s1.events =~= r.events.subrange(0, s1.events.len() as int));
            assert(r.events[k] == s1.events[k]);
            assert(s1.events[k] == once_events(s.subs[i], i)[k - s.events.len()]);
        }
    }
    assert forall|m: int|
        0 <= m < n implies {
        let r = dispatch(f, n, s, i);
        r.subs[m] == s.subs[m] || r.subs[m] == keep_subs(#[trigger] s.subs[m])
    } by {
        let r = fire(f, n, s1, i, kept);
        assert(r.subs[m] == s1.subs[m] || r.subs[m] == keep_subs(s1.subs[m]));
        if m == i {
            if r.subs[m] == s1.subs[m] {
                assert(r.subs[m] == keep_subs(s.subs[m]));
            } else {
                assert(r.subs[m] == keep_subs(kept));
            }
        }
    }
}

/// The same frame facts for the middle of a dispatch: processing a tail of
/// one cell's subscription list.
pub proof fn lemma_fire_frame<V, F: Transforms<V>>(
    f: F,
    n: nat,
    s: State<V>,
    i: int,
    todo: Seq<Subscriber>,
)
    requires
        state_wf(s),
        n == s.values.len(),
        0 <= i < n,
    ensures
        ({
            let r = fire(f, n, s, i, todo);
            &&& state_wf(r)
            &&& r.values.len() == s.values.len()
            &&& r.kinds == s.kinds
            &&& r.subs.len() == s.subs.len()
            &&& forall|m: int| 0 <= m <= i ==> r.values[m] == s.values[m]
            &&& forall|m: int|
                0 <= m < n && s.kinds[m] is Base ==> r.values[m] == s.values[m]
            &&& forall|m: int|
                0 <= m < n ==> r.subs[m] == s.subs[m] || r.subs[m] == keep_subs(#[trigger] s.subs[m])
            &&& s.events.is_prefix_of(r.events)
            &&& forall|k: int|
                s.events.len() <= k < r.events.len() ==> (#[trigger] r.events[k]).cell >= i
        }),
    decreases n - i, 0int, todo.len(),
{
    if todo.len() == 0 {
        assert(s.events =~= fire(f, n, s, i, todo).events.subrange(0, s.events.len() as int));
    } else {
        let rest = todo.drop_first();
        match todo.first() {
            Subscriber::Once(_) => {
                lemma_fire_frame(f, n, s, i, rest);
            },
            Subscriber::Repeating(tok) => {
                let stepped = State {
                    events: s.events.push(Event { token: tok, cell: i as usize }),
                    ..s
                };
                lemma_wf_values(s, stepped);
                lemma_fire_frame(f, n, stepped, i, rest);
                let r = fire(f, n, stepped, i, rest);
                assert(s.events =~= stepped.events.subrange(0, s.events.len() as int));
                lemma_prefix_trans(s.events, stepped.events, r.events);
                assert forall|k: int|
                    s.events.len() <= k < r.events.len() implies (#[trigger] r.events[k]).cell
                    >= i by {
                    if k < stepped.events.len() {
                        assert(stepped.events =~= r.events.subrange(
                            0,
                            stepped.events.len() as int,
                        ));
                        assert(r.events[k] == stepped.events[k]);
                    }
                }
            },
            Subscriber::Derived(j) => {
                if i < j < n && !(s.kinds[j as int] is Base) {
                    let written = State {
                        values: s.values.update(j as int, recompute_spec(f, s, j as int)),
                        ..s
                    };
                    lemma_wf_values(s, written);
                    lemma_dispatch_frame(f, n, written, j as int);
                    let s2 = dispatch(f, n, written, j as int);
                    lemma_fire_frame(f, n, s2, i, rest);
                    let r = fire(f, n, s2, i, rest);
                    assert(s.events =~= written.events.subrange(0, s.events.len() as int));
                    lemma_prefix_trans(s.events, s2.events, r.events);
                    assert forall|m: int|
                        0 <= m < n implies r.subs[m] == s.subs[m] || r.subs[m] == keep_subs(
                        #[trigger] s.subs[m],
                    ) by {
                        lemma_keep_subs_props(s.subs[m]);
                        assert(s2.subs[m] == s.subs[m] || s2.subs[m] == keep_subs(s.subs[m]));
                        assert(r.subs[m] == s2.subs[m] || r.subs[m] == keep_subs(s2.subs[m]));
                    }
                    assert forall|k: int|
                        s.events.len() <= k < r.events.len() implies (#[trigger] r.events[k]).cell
                        >= i by {
                        if k < s2.events.len() {
                            assert(s2.events =~= r.events.subrange(0, s2.events.len() as int));
                            assert(r.events[k] == s2.events[k]);
                            assert(s2.events[k].cell >= j);
                        }
                    }
                } else {
                    lemma_fire_frame(f, n, s, i, rest);
                }
            },
        }
    }
}

/// One subscription list extended with a derived edge to cell `j`.
pub open spec fn add_edge(subs: Seq<Seq<Subscriber>>, p: int, j: usize) -> Seq<Seq<Subscriber>> {
    subs.update(p, subs[p].push(Subscriber::Derived(j)))
}

/// Appending a base cell — value, kind, empty subscription list — keeps the
/// snapshot well formed.
pub proof fn lemma_wf_new_base<V>(s: State<V>, v: V)
    requires
        state_wf(s),
        s.values.len() < usize::MAX,
    ensures
        state_wf(
            State {
                values: s.values.push(v),
                kinds: s.kinds.push(CellKind::Base),
                subs: s.subs.push(Seq::empty()),
                events: s.events,
            },
        ),
{
    let n = s.values.len() as int;
    let s2 = State {
        values: s.values.push(v),
        kinds: s.kinds.push(CellKind::Base),
        subs: s.subs.push(Seq::<Subscriber>::empty()),
        events: s.events,
    };
    assert forall|a: int, k: int|
        0 <= a < s2.subs.len() && 0 <= k < s2.subs[a].len() implies sub_wf(
        s2,
        a,
        #[trigger] s2.subs[a][k],
    ) by {
        if a < n {
            assert(s2.subs[a][k] == s.subs[a][k]);
            assert(sub_wf(s, a, s.subs[a][k]));
        }
    }
    assert forall|j: int, p: int|
        0 <= j < s2.values.len() && 0 <= p < s2.subs.len() && #[trigger] reads_parent(
            s2.kinds[j],
            p,
        ) implies s2.subs[p].contains(Subscriber::Derived(j as usize)) by {
        if j < n {
            assert(reads_parent(s.kinds[j], p));
            assert(p < n);
            assert(s.subs[p].contains(Subscriber::Derived(j as usize)));
            let k = choose|k: int|
                0 <= k < s.subs[p].len() && s.subs[p][k] == Subscriber::Derived(j as usize);
            assert(s2.subs[p][k] == Subscriber::Derived(j as usize));
        }
    }
    let nu = s.values.len() as usize;
    assert forall|j: int, p: int|
        0 <= j < s2.values.len() && 0 <= p < s2.subs.len() implies #[trigger] edge_count(
        s2.subs[p],
        j as usize,
    ) == edge_mult(s2.kinds[j], p) by {
        if p == n {
            assert(s2.subs[p] =~= Seq::<Subscriber>::empty());
        } else {
            assert(s2.subs[p] == s.subs[p]);
            if j < n {
                assert(edge_count(s.subs[p], j as usize) == edge_mult(s.kinds[j], p));
            } else {
                assert forall|k: int| 0 <= k < s.subs[p].len() implies sub_wf(
                    s,
                    p,
                    #[trigger] s.subs[p][k],
                ) by {}
                lemma_edge_count_oob(s, p, s.subs[p], nu);
            }
        }
    }
}

/// Appending a mapped cell — seeded value, kind, empty subscription list,
/// one derived edge from its parent — keeps the snapshot well formed.
pub proof fn lemma_wf_new_mapped<V>(s: State<V>, parent: usize, op: u64, v: V)
    requires
        state_wf(s),
        parent < s.values.len(),
        s.values.len() < usize::MAX,
    ensures
        ({
            let n = s.values.len();
            state_wf(
                State {
                    values: s.values.push(v),
                    kinds: s.kinds.push(CellKind::Mapped { parent, op }),
                    subs: add_edge(s.subs, parent as int, n as usize).push(Seq::empty()),
                    events: s.events,
                },
            )
        }),
{
    let n = s.values.len() as int;
    let s2 = State {
        values: s.values.push(v),
        kinds: s.kinds.push(CellKind::Mapped { parent, op }),
        subs: add_edge(s.subs, parent as int, n as usize).push(Seq::<Subscriber>::empty()),
        events: s.events,
    };
    assert forall|a: int, k: int|
        0 <= a < s2.subs.len() && 0 <= k < s2.subs[a].len() implies sub_wf(
        s2,
        a,
        #[trigger] s2.subs[a][k],
    ) by {
        if a < n {
            if a == parent as int && k == s2.subs[a].len() - 1 {
                assert(s2.subs[a][k] == Subscriber::Derived(n as usize));
                assert(s2.kinds[n] == CellKind::Mapped { parent, op });
            } else {
                assert(s2.subs[a][k] == s.subs[a][k]);
                assert(sub_wf(s, a, s.subs[a][k]));
            }
        }
    }
    assert forall|j: int, p: int|
        0 <= j < s2.values.len() && 0 <= p < s2.subs.len() && #[trigger] reads_parent(
            s2.kinds[j],
            p,
        ) implies s2.subs[p].contains(Subscriber::Derived(j as usize)) by {
        if j < n {
            assert(reads_parent(s.kinds[j], p));
            assert(p < n);
            assert(s.subs[p].contains(Subscriber::Derived(j as usize)));
            let k = choose|k: int|
                0 <= k < s.subs[p].len() && s.subs[p][k] == Subscriber::Derived(j as usize);
            assert(s2.subs[p][k] == Subscriber::Derived(j as usize));
        } else {
            assert(p == parent as int);
            assert(s2.subs[p].last() == Subscriber::Derived(j as usize));
        }
    }
    let nu = s.values.len() as usize;
    assert forall|j: int, p: int|
        0 <= j < s2.values.len() && 0 <= p < s2.subs.len() implies #[trigger] edge_count(
        s2.subs[p],
        j as usize,
    ) == edge_mult(s2.kinds[j], p) by {
        if p == n {
            assert(s2.subs[p] =~= Seq::<Subscriber>::empty());
        } else {
            if j < n {
                assert(edge_count(s.subs[p], j as usize) == edge_mult(s.kinds[j], p));
            } else {
                assert forall|k: int| 0 <= k < s.subs[p].len() implies sub_wf(
                    s,
                    p,
                    #[trigger] s.subs[p][k],
                ) by {}
                lemma_edge_count_oob(s, p, s.subs[p], nu);
            }
            if p == parent as int {
                lemma_edge_count_push(s.subs[p], Subscriber::Derived(nu), j as usize);
            } else {
                assert(s2.subs[p] == s.subs[p]);
            }
        }
    }
}

/// Appending a zipped cell — seeded value, kind, empty subscription list,
/// one derived edge from each parent — keeps the snapshot well formed.
pub proof fn lemma_wf_new_zipped<V>(s: State<V>, left: usize, right: usize, op: u64, v: V)
    requires
        state_wf(s),
        left < s.values.len(),
        right < s.values.len(),
        s.values.len() < usize::MAX,
    ensures
        ({
            let n = s.values.len();
            state_wf(
                State {
                    values: s.values.push(v),
                    kinds: s.kinds.push(CellKind::Zipped { left, right, op }),
                    subs: add_edge(
                        add_edge(s.subs, left as int, n as usize),
                        right as int,
                        n as usize,
                    ).push(Seq::empty()),
                    events: s.events,
                },
            )
        }),
{
    let n = s.values.len() as int;
    let mid = add_edge(s.subs, left as int, n as usize);
    let s2 = State {
        values: s.values.push(v),
        kinds: s.kinds.push(CellKind::Zipped { left, right, op }),
        subs: add_edge(mid, right as int, n as usize).push(Seq::<Subscriber>::empty()),
        events: s.events,
    };
    assert forall|a: int, k: int|
        0 <= a < s2.subs.len() && 0 <= k < s2.subs[a].len() implies sub_wf(
        s2,
        a,
        #[trigger] s2.subs[a][k],
    ) by {
        if a < n {
            if k < s.subs[a].len() {
                assert(s2.subs[a][k] == s.subs[a][k]);
                assert(sub_wf(s, a, s.subs[a][k]));
            } else {
                assert(s2.subs[a][k] == Subscriber::Derived(n as usize));
                assert(s2.kinds[n] == CellKind::Zipped { left, right, op });
            }
        }
    }
    assert forall|j: int, p: int|
        0 <= j < s2.values.len() && 0 <= p < s2.subs.len() && #[trigger] reads_parent(
            s2.kinds[j],
            p,
        ) implies s2.subs[p].contains(Subscriber::Derived(j as usize)) by {
        if j < n {
            assert(reads_parent(s.kinds[j], p));
            assert(p < n);
            assert(s.subs[p].contains(Subscriber::Derived(j as usize)));
            let k = choose|k: int|
                0 <= k < s.subs[p].len() && s.subs[p][k] == Subscriber::Derived(j as usize);
            assert(s2.subs[p][k] == Subscriber::Derived(j as usize));
        } else {
            assert(p == left as int || p == right as int);
            assert(s2.subs[p].last() == Subscriber::Derived(j as usize));
        }
    }
    let nu = s.values.len() as usize;
    assert forall|j: int, p: int|
        0 <= j < s2.values.len() && 0 <= p < s2.subs.len() implies #[trigger] edge_count(
        s2.subs[p],
        j as usize,
    ) == edge_mult(s2.kinds[j], p) by {
        if p == n {
            assert(s2.subs[p] =~= Seq::<Subscriber>::empty());
        } else {
            if j < n {
                assert(edge_count(s.subs[p], j as usize) == edge_mult(s.kinds[j], p));
            } else {
                assert forall|k: int| 0 <= k < s.subs[p].len() implies sub_wf(
                    s,
                    p,
                    #[trigger] s.subs[p][k],
                ) by {}
                lemma_edge_count_oob(s, p, s.subs[p], nu);
            }
            if p == left as int && p == right as int {
                lemma_edge_count_push(s.subs[p], Subscriber::Derived(nu), j as usize);
                lemma_edge_count_push(
                    s.subs[p].push(Subscriber::Derived(nu)),
                    Subscriber::Derived(nu),
                    j as usize,
                );
                assert(s2.subs[p] == s.subs[p].push(Subscriber::Derived(nu)).push(
                    Subscriber::Derived(nu),
                ));
            } else if p == left as int {
                lemma_edge_count_push(s.subs[p], Subscriber::Derived(nu), j as usize);
                assert(s2.subs[p] == mid[p]);
            } else if p == right as int {
                assert(mid[p] == s.subs[p]);
                lemma_edge_count_push(s.subs[p], Subscriber::Derived(nu), j as usize);
                assert(s2.subs[p] == s.subs[p].push(Subscriber::Derived(nu)));
            } else {
                assert(s2.subs[p] == s.subs[p]);
            }
        }
    }
}

/// Cell `j` reads cell `p` directly.
pub open spec fn child_of<V>(s: State<V>, j: int, p: int) -> bool {
    0 <= j < s.values.len() && reads_parent(s.kinds[j], p)
}

/// The derived cells a list of subscription entries points at.
pub open spec fn targets(todo: Seq<Subscriber>) -> Set<int> {
    Set::new(
        |j: int|
            0 <= j && exists|k: int|
                0 <= k < todo.len() && todo[k] == Subscriber::Derived(j as usize),
    )
}

/// Consistency restoration, stated for a whole dispatch: if every
/// out-of-sync cell either reads the dispatched cell `i` or is excused by
/// `ex`, then after the dispatch every out-of-sync cell is excused by `ex`.
/// With `ex` empty: writing a cell and dispatching it restores full
/// consistency.
pub proof fn lemma_dispatch_consistent<V, F: Transforms<V>>(
    f: F,
    n: nat,
    s: State<V>,
    i: int,
    ex: Set<int>,
)
    requires
        state_wf(s),
        n == s.values.len(),
        0 <= i < n,
        forall|j: int|
            0 <= j < n && !(#[trigger] consistent_at(f, s, j)) ==> child_of(s, j, i)
                || ex.contains(j),
    ensures
        forall|j: int|
            0 <= j < n && !(#[trigger] consistent_at(f, dispatch(f, n, s, i), j)) ==> ex.contains(
                j,
            ),
    decreases n - i, 1int, 0int,
{
    let kept = keep_subs(s.subs[i]);
    let s1 = State {
        subs: s.subs.update(i, kept),
        events: s.events + once_events(s.subs[i], i),
        ..s
    };
    lemma_wf_trim(s, s1, i);
    lemma_keep_subs_props(s.subs[i]);
    assert forall|j: int|
        0 <= j < n && !(#[trigger] consistent_at(f, s1, j)) implies ex.contains(j) || targets(
        kept,
    ).contains(j) by {
        assert(!consistent_at(f, s, j));
        if child_of(s, j, i) {
            assert(s.subs[i].contains(Subscriber::Derived(j as usize)));
            assert(kept.contains(Subscriber::Derived(j as usize)));
            let k = choose|k: int|
                0 <= k < kept.len() && kept[k] == Subscriber::Derived(j as usize);
            assert(targets(kept).contains(j));
        }
    }
    assert forall|k: int| 0 <= k < kept.len() implies sub_wf(s1, i, #[trigger] kept[k]) by {
        assert(kept.contains(kept[k]));
        assert(s.subs[i].contains(kept[k]));
        let k0 = choose|k0: int| 0 <= k0 < s.subs[i].len() && s.subs[i][k0] == kept[k];
        assert(sub_wf(s, i, s.subs[i][k0]));
    }
    lemma_fire_consistent(f, n, s1, i, kept, ex);
    assert(dispatch(f, n, s, i) == fire(f, n, s1, i, kept));
}

/// Consistency restoration for the middle of a dispatch: every out-of-sync
/// cell must be excused or awaited by a remaining derived edge in `todo`.
pub proof fn lemma_fire_consistent<V, F: Transforms<V>>(
    f: F,
    n: nat,
    s: State<V>,
    i: int,
    todo: Seq<Subscriber>,
    ex: Set<int>,
)
    requires
        state_wf(s),
        n == s.values.len(),
        0 <= i < n,
        forall|k: int| 0 <= k < todo.len() ==> sub_wf(s, i, #[trigger] todo[k]),
        forall|j: int|
            0 <= j < n && !(#[trigger] consistent_at(f, s, j)) ==> ex.contains(j) || targets(
                todo,
            ).contains(j),
    ensures
        forall|j: int|
            0 <= j < n && !(#[trigger] consistent_at(f, fire(f, n, s, i, todo), j))
                ==> ex.contains(j),
    decreases n - i, 0int, todo.len(),
{
    if todo.len() == 0 {
    } else {
        let rest = todo.drop_first();
        // An entry of `rest` is an entry of `todo`, one position later.
        assert forall|j: int| #[trigger]
            targets(rest).contains(j) implies targets(todo).contains(j) by {
            let k = choose|k: int|
                0 <= k < rest.len() && rest[k] == Subscriber::Derived(j as usize);
            assert(todo[k + 1] == Subscriber::Derived(j as usize));
        }
        assert forall|k: int| 0 <= k < rest.len() implies sub_wf(s, i, #[trigger] rest[k]) by {
            assert(rest[k] == todo[k + 1]);
        }
        match todo.first() {
            Subscriber::Once(_) => {
                lemma_step_keeps_targets(todo);
                lemma_fire_consistent(f, n, s, i, rest, ex);
                assert(fire(f, n, s, i, todo) == fire(f, n, s, i, rest));
            },
            Subscriber::Repeating(tok) => {
                let stepped = State {
                    events: s.events.push(Event { token: tok, cell: i as usize }),
                    ..s
                };
                lemma_wf_values(s, stepped);
                lemma_step_keeps_targets(todo);
                assert forall|j: int|
                    0 <= j < n && !(#[trigger] consistent_at(f, stepped, j)) implies ex.contains(
                    j,
                ) || targets(rest).contains(j) by {
                    assert(!consistent_at(f, s, j));
                }
                assert forall|k: int|
                    0 <= k < rest.len() implies sub_wf(stepped, i, #[trigger] rest[k]) by {
                    assert(sub_wf(s, i, rest[k]));
                }
                lemma_fire_consistent(f, n, stepped, i, rest, ex);
                assert(fire(f, n, s, i, todo) == fire(f, n, stepped, i, rest));
            },
            Subscriber::Derived(j0u) => {
                let j0 = j0u as int;
                // A well-formed derived edge always passes the dispatch
                // guard: it points forward, at a non-base cell.
                assert(sub_wf(s, i, todo[0]));
                assert(i < j0 < n);
                assert(reads_parent(s.kinds[j0], i));
                assert(!(s.kinds[j0] is Base));
                let written = State {
                    values: s.values.update(j0, recompute_spec(f, s, j0)),
                    ..s
                };
                lemma_wf_values(s, written);
                // The rewritten cell is now in sync: its parents are below
                // it and were not touched by this write.
                assert(consistent_at(f, written, j0));
                let ex1 = ex.union(targets(rest));
                assert forall|m: int|
                    0 <= m < n && !(#[trigger] consistent_at(f, written, m)) implies child_of(
                    written,
                    m,
                    j0,
                ) || ex1.contains(m) by {
                    if !reads_parent(written.kinds[m], j0) {
                        assert(consistent_at(f, written, m) == consistent_at(f, s, m));
                        assert(!consistent_at(f, s, m));
                        assert(ex.contains(m) || targets(todo).contains(m));
                        if targets(todo).contains(m) {
                            let k = choose|k: int|
                                0 <= k < todo.len() && todo[k] == Subscriber::Derived(m as usize);
                            if k == 0 {
                                assert(m == j0);
                                assert(false);
                            } else {
                                assert(rest[k - 1] == Subscriber::Derived(m as usize));
                                assert(targets(rest).contains(m));
                            }
                        }
                    }
                }
                lemma_dispatch_consistent(f, n, written, j0, ex1);
                let s2 = dispatch(f, n, written, j0);
                lemma_dispatch_frame(f, n, written, j0);
                assert forall|k: int|
                    0 <= k < rest.len() implies sub_wf(s2, i, #[trigger] rest[k]) by {
                    assert(sub_wf(s, i, rest[k]));
                }
                lemma_fire_consistent(f, n, s2, i, rest, ex);
                assert(fire(f, n, s, i, todo) == fire(f, n, s2, i, rest));
            },
        }
    }
}

/// Dropping the first entry of a list keeps every derived target that a
/// later entry awaits.
proof fn lemma_step_keeps_targets(todo: Seq<Subscriber>)
    requires
        todo.len() > 0,
        !(todo.first() is Derived),
    ensures
        forall|j: int| #[trigger]
            targets(todo).contains(j) ==> targets(todo.drop_first()).contains(j),
{
    assert forall|j: int| #[trigger]
        targets(todo).contains(j) implies targets(todo.drop_first()).contains(j) by {
        let k = choose|k: int|
            0 <= k < todo.len() && todo[k] == Subscriber::Derived(j as usize);
        assert(todo.drop_first()[k - 1] == Subscriber::Derived(j as usize));
    }
}

/// What `set` does when no conflict stands in the way: writes `v` into cell
/// `i` and dispatches it.
pub open spec fn set_cell<V, F: Transforms<V>>(f: F, n: nat, s: State<V>, i: int, v: V) -> State<
    V,
> {
    dispatch(f, n, State { values: s.values.update(i, v), ..s }, i)
}

} // verus!
