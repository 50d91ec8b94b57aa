//! The binding bridge between a cell and a live rendered artifact: the
//! decision protocol that keeps exactly one artifact attached per binding.
//!
//! Artifacts — live nodes or attributes of some presentation toolkit — are
//! named by opaque ids; the toolkit work itself (rendering a value, writing
//! text, swapping children) is the driver's, steered by the [`UpdateStep`]
//! this module computes. A text-valued binding updates its artifact in
//! place, so the artifact's identity never changes; a structurally rendered
//! binding replaces the artifact, unless the old one has been detached by
//! unrelated code, in which case the replacement is skipped and the stale
//! artifact reported rather than treated as a fatal error.

use vstd::prelude::*;

verus! {

/// How one cell mutation is reflected into a binding's artifact.
#[derive(Clone, Copy, PartialEq, Eq, Structural, Debug)]
pub enum UpdateStep {
    /// Write the newly rendered text into the existing artifact; its
    /// identity is kept.
    SetText { artifact: u64 },
    /// Detach `old` and attach `new` in its place in the parent container.
    Replace { old: u64, new: u64 },
    /// The old artifact has no parent any more: do nothing, report the
    /// stale artifact as a diagnostic.
    SkipDetached { old: u64 },
}

/// One live binding: which cell it watches, which artifact is currently
/// attached, and whether new values are written in place.
pub struct Binding {
    cell: usize,
    artifact: u64,
    in_place: bool,
}

impl Binding {
    /// The cell this binding watches.
    pub closed spec fn cell_spec(&self) -> usize {
        self.cell
    }

    /// The artifact currently attached for this binding.
    pub closed spec fn artifact_spec(&self) -> u64 {
        self.artifact
    }

    /// Whether this binding mutates its artifact in place.
    pub closed spec fn in_place_spec(&self) -> bool {
        self.in_place
    }

    /// Binds `cell` to the freshly rendered `artifact`. A binding starts
    /// bound and never returns to unbound while the cell lives.
    pub fn new(cell: usize, artifact: u64, in_place: bool) -> (b: Self)
        ensures
            b.cell_spec() == cell,
            b.artifact_spec() == artifact,
            b.in_place_spec() == in_place,
    {
        Binding { cell, artifact, in_place }
    }

    /// The cell this binding watches.
    pub fn cell(&self) -> (c: usize)
        ensures
            c == self.cell_spec(),
    {
        self.cell
    }

    /// The artifact currently attached for this binding.
    pub fn artifact(&self) -> (a: u64)
        ensures
            a == self.artifact_spec(),
    {
        self.artifact
    }

    /// Whether the driver must render a fresh artifact before calling
    /// `on_change`: true exactly for the replacement strategy.
    pub fn needs_fresh_render(&self) -> (r: bool)
        ensures
            r == !self.in_place_spec(),
    {
        !self.in_place
    }

    /// Decides how a mutation of the watched cell reaches the artifact.
    ///
    /// In-place bindings keep the same artifact and have its text
    /// rewritten. Replacement bindings swap in the freshly rendered
    /// artifact — atomically, from the driver's point of view: the step
    /// names both the artifact to detach and the one to attach — unless the
    /// old artifact is already detached, in which case the binding keeps
    /// its old, now stale, artifact and the step reports it.
    pub fn on_change(&mut self, fresh: Option<u64>, old_has_parent: bool) -> (s: UpdateStep)
        requires
            old(self).in_place_spec() <==> fresh is None,
        ensures
            final(self).cell_spec() == old(self).cell_spec(),
            final(self).in_place_spec() == old(self).in_place_spec(),
            old(self).in_place_spec() ==> s == (UpdateStep::SetText {
                artifact: old(self).artifact_spec(),
            }) && final(self).artifact_spec() == old(self).artifact_spec(),
            !old(self).in_place_spec() && old_has_parent ==> s == (UpdateStep::Replace {
                old: old(self).artifact_spec(),
                new: fresh->Some_0,
            }) && final(self).artifact_spec() == fresh->Some_0,
            !old(self).in_place_spec() && !old_has_parent ==> s == (UpdateStep::SkipDetached {
                old: old(self).artifact_spec(),
            }) && final(self).artifact_spec() == old(self).artifact_spec(),
    {
        if self.in_place {
            UpdateStep::SetText { artifact: self.artifact }
        } else {
            match fresh {
                Some(new) => {
                    if old_has_parent {
                        let old_artifact = self.artifact;
                        self.artifact = new;
                        UpdateStep::Replace { old: old_artifact, new }
                    } else {
                        UpdateStep::SkipDetached { old: self.artifact }
                    }
                },
                None => UpdateStep::SetText { artifact: self.artifact },
            }
        }
    }
}

} // verus!
