//! Parts, requirements and placements.

use crate::grid::Location;
use crate::mask::Mask;
use vstd::prelude::*;

verus! {

/// A game piece: its solidity, its color and its two shapes.
#[derive(Debug, Clone)]
pub struct Part {
    pub is_solid: bool,
    pub color: usize,
    pub compressed_mask: Mask,
    pub uncompressed_mask: Mask,
}

/// Optional demands on how a requirement is placed; `None` is "don't care".
#[derive(Debug, Clone, Copy, PartialEq, Eq, Structural)]
pub struct Constraint {
    pub compressed: Option<bool>,
    pub on_command_line: Option<bool>,
    pub bugged: Option<bool>,
}

/// A part that must be placed, under a constraint.
#[derive(Debug, Clone, Copy, PartialEq, Eq, Structural)]
pub struct Requirement {
    pub part_index: usize,
    pub constraint: Constraint,
}

/// Where and in which shape a requirement was placed.
#[derive(Debug, Clone, Copy, PartialEq, Eq, Structural)]
pub struct Placement {
    pub loc: Location,
    pub compressed: bool,
}

/// A placement together with the turned mask that it stamps.
#[derive(Debug)]
pub struct Candidate {
    pub placement: Placement,
    pub mask: Mask,
}

/// One placement per requirement, in the order of the requirements.
pub type Solution = Vec<Placement>;

impl Part {
    pub open spec fn wf(&self) -> bool {
        self.compressed_mask.wf() && self.uncompressed_mask.wf()
    }
}

/// Every part has well-formed masks and every requirement names a part.
pub open spec fn inputs_wf(parts: Seq<Part>, requirements: Seq<Requirement>) -> bool {
    &&& forall|i: int| 0 <= i < parts.len() ==> (#[trigger] parts[i]).wf()
    &&& forall|r: int| 0 <= r < requirements.len() ==> (#[trigger] requirements[r]).part_index < parts.len()
}

} // verus!
