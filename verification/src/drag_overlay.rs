//! The semantic roles of the drop-target feedback layer's rectangles; the
//! theme resolves each role's paint at draw time.

use vstd::prelude::*;

verus! {

/// What a feedback rectangle represents — the theme picks its paint.
#[derive(Debug, Clone, Copy, PartialEq, Eq, Structural)]
pub enum OverlayRole {
    /// The surface the drop will occupy: filled, with an emphasis outline.
    Target,
    /// The insertion caret within a header band (merge/reorder targets).
    Caret,
}

} // verus!
