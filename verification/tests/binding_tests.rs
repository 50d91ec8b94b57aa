use dynui::Binding;
use dynui::CellLike;
use dynui::Engine;
use dynui::OpTable;
use dynui::RefMutableCell;
use dynui::SharedCell;
use dynui::UnaryOp;
use dynui::UpdateStep;

// A miniature artifact tree standing in for a presentation toolkit: each
// artifact has a text payload and an optional parent.
struct MockDom {
    texts: Vec<String>,
    parents: Vec<Option<usize>>,
}

impl MockDom {
    fn new() -> Self {
        MockDom { texts: Vec::new(), parents: Vec::new() }
    }

    fn create(&mut self, text: &str, parent: Option<usize>) -> u64 {
        self.texts.push(text.to_string());
        self.parents.push(parent);
        (self.texts.len() - 1) as u64
    }

    fn apply(&mut self, step: UpdateStep, rendered: &str) {
        match step {
            UpdateStep::SetText { artifact } => {
                self.texts[artifact as usize] = rendered.to_string();
            }
            UpdateStep::Replace { old, new } => {
                let p = self.parents[old as usize];
                self.parents[old as usize] = None;
                self.parents[new as usize] = p;
            }
            UpdateStep::SkipDetached { .. } => {}
        }
    }
}

#[test]
fn in_place_binding_keeps_the_artifact_identity() {
    let mut dom = MockDom::new();
    let root = dom.create("", None);
    let art = dom.create("1", Some(root as usize));
    let mut b = Binding::new(0, art, true);
    assert!(!b.needs_fresh_render());

    let step = b.on_change(None, true);
    assert_eq!(step, UpdateStep::SetText { artifact: art });
    dom.apply(step, "2");
    // Same artifact before and after: only its payload changed.
    assert_eq!(b.artifact(), art);
    assert_eq!(dom.texts[art as usize], "2");
    assert_eq!(dom.parents[art as usize], Some(root as usize));
}

#[test]
fn replacement_binding_swaps_in_the_fresh_artifact() {
    let mut dom = MockDom::new();
    let root = dom.create("", None);
    let old = dom.create("old", Some(root as usize));
    let mut b = Binding::new(0, old, false);
    assert!(b.needs_fresh_render());

    let fresh = dom.create("new", None);
    let has_parent = dom.parents[b.artifact() as usize].is_some();
    let step = b.on_change(Some(fresh), has_parent);
    assert_eq!(step, UpdateStep::Replace { old, new: fresh });
    dom.apply(step, "new");
    // The new artifact is attached in the old one's place; the old one is
    // detached; the binding now holds the new identity.
    assert_eq!(b.artifact(), fresh);
    assert_eq!(dom.parents[fresh as usize], Some(root as usize));
    assert_eq!(dom.parents[old as usize], None);
}

#[test]
fn replacement_of_a_detached_artifact_is_skipped() {
    let mut dom = MockDom::new();
    let old = dom.create("old", None);
    let mut b = Binding::new(0, old, false);
    let fresh = dom.create("new", None);
    let has_parent = dom.parents[b.artifact() as usize].is_some();
    let step = b.on_change(Some(fresh), has_parent);
    // Soft failure: the stale artifact is reported, nothing is swapped.
    assert_eq!(step, UpdateStep::SkipDetached { old });
    assert_eq!(b.artifact(), old);
}

#[test]
fn a_text_cell_bound_in_place_stays_in_sync() {
    let mut table = OpTable::new();
    let mul2 = table.push_unary(UnaryOp::Mul(2));
    let mut e: Engine<u64, OpTable> = Engine::new(table);
    let c = SharedCell::new(&mut e, 21);

    let mut dom = MockDom::new();
    let root = dom.create("", None);
    let art = dom.create("21", Some(root as usize));
    let mut b = Binding::new(c.id(), art, true);
    c.on_update(&mut e, 1);

    c.update(&mut e, mul2).unwrap();
    while let Some(ev) = e.take_event() {
        if ev.cell == b.cell() {
            let rendered = format!("{}", *c.get(&e));
            let step = b.on_change(None, true);
            dom.apply(step, &rendered);
        }
    }
    assert_eq!(dom.texts[art as usize], "42");
    assert_eq!(b.artifact(), art);
}
