use dynui::BinaryOp;
use dynui::Cell;
use dynui::CellLike;
use dynui::Engine;
use dynui::Error;
use dynui::Event;
use dynui::MappedCell;
use dynui::OpTable;
use dynui::RefMutableCell;
use dynui::SharedCell;
use dynui::UnaryOp;
use dynui::ZippedCell;

fn drain(e: &mut Engine<u64, OpTable>) -> Vec<Event> {
    let mut out = Vec::new();
    while let Some(ev) = e.take_event() {
        out.push(ev);
    }
    out
}

#[test]
fn scenario_log_of_observed_values_via_engine() {
    let mut table = OpTable::new();
    let add1 = table.push_unary(UnaryOp::Add(1));
    let mul2 = table.push_unary(UnaryOp::Mul(2));
    let mut e: Engine<u64, OpTable> = Engine::new(table);
    let c = SharedCell::new(&mut e, 1);
    c.on_update(&mut e, 1);
    let mut log: Vec<u64> = Vec::new();

    c.update(&mut e, add1).unwrap();
    for _ev in drain(&mut e) {
        log.push(*c.get(&e));
    }
    assert_eq!(log, vec![2]);

    c.set(&mut e, 10).unwrap();
    for _ev in drain(&mut e) {
        log.push(*c.get(&e));
    }
    assert_eq!(log, vec![2, 10]);

    c.update(&mut e, mul2).unwrap();
    for _ev in drain(&mut e) {
        log.push(*c.get(&e));
    }
    assert_eq!(log, vec![2, 10, 20]);
}

#[test]
fn once_events_come_before_repeating_events() {
    let mut e: Engine<u64, OpTable> = Engine::new(OpTable::new());
    let c = SharedCell::new(&mut e, 0);
    c.on_update(&mut e, 10);
    c.on_update_once(&mut e, 11);
    c.on_update(&mut e, 12);
    c.on_update_once(&mut e, 13);
    c.set(&mut e, 5).unwrap();
    let tokens: Vec<u64> = drain(&mut e).iter().map(|ev| ev.token).collect();
    assert_eq!(tokens, vec![11, 13, 10, 12]);
    // The Once listeners were consumed.
    c.set(&mut e, 6).unwrap();
    let tokens: Vec<u64> = drain(&mut e).iter().map(|ev| ev.token).collect();
    assert_eq!(tokens, vec![10, 12]);
}

#[test]
fn mapped_cell_tracks_its_parent() {
    let mut table = OpTable::new();
    let add1 = table.push_unary(UnaryOp::Add(1));
    let mut e: Engine<u64, OpTable> = Engine::new(table);
    let base = SharedCell::new(&mut e, 5);
    let m = MappedCell::new(&mut e, &base, add1);
    assert_eq!(*m.get(&e), 6);
    base.set(&mut e, 10).unwrap();
    drain(&mut e);
    assert_eq!(*m.get(&e), 11);
    base.set(&mut e, 0).unwrap();
    drain(&mut e);
    assert_eq!(*m.get(&e), 1);
}

#[test]
fn mapped_cell_listeners_fire_exactly_once_per_base_mutation() {
    let mut table = OpTable::new();
    let add1 = table.push_unary(UnaryOp::Add(1));
    let mut e: Engine<u64, OpTable> = Engine::new(table);
    let base = SharedCell::new(&mut e, 5);
    let m = MappedCell::new(&mut e, &base, add1);
    m.on_update(&mut e, 99);
    base.set(&mut e, 10).unwrap();
    let events = drain(&mut e);
    assert_eq!(events.iter().filter(|ev| ev.token == 99).count(), 1);
    // The value the listener observes is the settled one.
    assert_eq!(*m.get(&e), 11);
    base.set(&mut e, 20).unwrap();
    let events = drain(&mut e);
    assert_eq!(events.iter().filter(|ev| ev.token == 99).count(), 1);
    assert_eq!(*m.get(&e), 21);
}

#[test]
fn mapped_cell_events_are_one_batch_once_then_repeating() {
    let mut table = OpTable::new();
    let add1 = table.push_unary(UnaryOp::Add(1));
    let mut e: Engine<u64, OpTable> = Engine::new(table);
    let base = SharedCell::new(&mut e, 0);
    let m = MappedCell::new(&mut e, &base, add1);
    m.on_update(&mut e, 20);
    m.on_update_once(&mut e, 21);
    m.on_update(&mut e, 22);
    base.set(&mut e, 1).unwrap();
    let for_m: Vec<u64> = drain(&mut e)
        .iter()
        .filter(|ev| ev.cell == m.id())
        .map(|ev| ev.token)
        .collect();
    assert_eq!(for_m, vec![21, 20, 22]);
    base.set(&mut e, 2).unwrap();
    let for_m: Vec<u64> = drain(&mut e)
        .iter()
        .filter(|ev| ev.cell == m.id())
        .map(|ev| ev.token)
        .collect();
    assert_eq!(for_m, vec![20, 22]);
}

#[test]
fn chained_mapped_cells_settle_in_one_mutation() {
    let mut table = OpTable::new();
    let add1 = table.push_unary(UnaryOp::Add(1));
    let mul2 = table.push_unary(UnaryOp::Mul(2));
    let mut e: Engine<u64, OpTable> = Engine::new(table);
    let base = SharedCell::new(&mut e, 3);
    let m1 = MappedCell::new(&mut e, &base, add1);
    let m2 = MappedCell::new(&mut e, &m1, mul2);
    assert_eq!(*m1.get(&e), 4);
    assert_eq!(*m2.get(&e), 8);
    base.set(&mut e, 5).unwrap();
    drain(&mut e);
    assert_eq!(*m1.get(&e), 6);
    assert_eq!(*m2.get(&e), 12);
}

#[test]
fn zipped_cell_reads_the_other_parent_fresh() {
    let mut table = OpTable::new();
    let mul = table.push_binary(BinaryOp::Mul);
    let mut e: Engine<u64, OpTable> = Engine::new(table);
    let l = SharedCell::new(&mut e, 2);
    let r = SharedCell::new(&mut e, 10);
    let z = ZippedCell::new(&mut e, &l, &r, mul);
    assert_eq!(*z.get(&e), 20);
    l.set(&mut e, 3).unwrap();
    drain(&mut e);
    assert_eq!(*z.get(&e), 30);
    r.set(&mut e, 5).unwrap();
    drain(&mut e);
    assert_eq!(*z.get(&e), 15);
}

#[test]
fn zipped_cell_over_a_mapped_cell() {
    let mut table = OpTable::new();
    let add1 = table.push_unary(UnaryOp::Add(1));
    let add = table.push_binary(BinaryOp::Add);
    let mut e: Engine<u64, OpTable> = Engine::new(table);
    let base = SharedCell::new(&mut e, 1);
    let m = MappedCell::new(&mut e, &base, add1);
    let z = ZippedCell::new(&mut e, &m, &base, add);
    assert_eq!(*z.get(&e), 3);
    base.set(&mut e, 4).unwrap();
    drain(&mut e);
    assert_eq!(*m.get(&e), 5);
    assert_eq!(*z.get(&e), 9);
}

#[test]
fn reentrant_mutation_fails_fast_and_changes_nothing() {
    let mut e: Engine<u64, OpTable> = Engine::new(OpTable::new());
    let c = SharedCell::new(&mut e, 0);
    c.on_update(&mut e, 1);
    c.set(&mut e, 1).unwrap();
    // The events of the first mutation are still pending: mutating now —
    // which is what a listener calling back into the engine would do —
    // must fail deterministically and leave the state alone.
    assert_eq!(c.set(&mut e, 2), Err(Error::BorrowConflict));
    assert_eq!(*c.get(&e), 1);
    drain(&mut e);
    c.set(&mut e, 2).unwrap();
    assert_eq!(*c.get(&e), 2);
}

#[test]
fn events_name_the_cell_they_fired_for() {
    let mut table = OpTable::new();
    let add1 = table.push_unary(UnaryOp::Add(1));
    let mut e: Engine<u64, OpTable> = Engine::new(table);
    let base = SharedCell::new(&mut e, 0);
    let m = MappedCell::new(&mut e, &base, add1);
    base.on_update(&mut e, 1);
    m.on_update(&mut e, 2);
    base.set(&mut e, 7).unwrap();
    let events = drain(&mut e);
    // The derived cell was registered first, so its write — and its
    // listener — come before the base cell's own external listener.
    assert_eq!(events.len(), 2);
    assert_eq!(events[0].token, 2);
    assert_eq!(events[0].cell, m.id());
    assert_eq!(events[1].token, 1);
    assert_eq!(events[1].cell, base.id());
}

#[test]
fn into_shared_carries_value_and_listeners_over() {
    let mut c = Cell::new(3u64);
    c.on_update(10);
    c.on_update_once(11);
    let mut table = OpTable::new();
    let add1 = table.push_unary(UnaryOp::Add(1));
    let mut e: Engine<u64, OpTable> = Engine::new(table);
    let s = c.into_shared(&mut e);
    assert_eq!(*s.get(&e), 3);
    s.update(&mut e, add1).unwrap();
    let tokens: Vec<u64> = drain(&mut e).iter().map(|ev| ev.token).collect();
    assert_eq!(tokens, vec![11, 10]);
    assert_eq!(*s.get(&e), 4);
    s.set(&mut e, 9).unwrap();
    let tokens: Vec<u64> = drain(&mut e).iter().map(|ev| ev.token).collect();
    assert_eq!(tokens, vec![10]);
}

#[test]
fn saturating_transforms_are_total() {
    let mut table = OpTable::new();
    let addmax = table.push_unary(UnaryOp::Add(u64::MAX));
    let sub10 = table.push_unary(UnaryOp::Sub(10));
    let mut e: Engine<u64, OpTable> = Engine::new(table);
    let c = SharedCell::new(&mut e, 5);
    c.update(&mut e, addmax).unwrap();
    drain(&mut e);
    assert_eq!(*c.get(&e), u64::MAX);
    c.set(&mut e, 3).unwrap();
    drain(&mut e);
    c.update(&mut e, sub10).unwrap();
    drain(&mut e);
    assert_eq!(*c.get(&e), 0);
}
