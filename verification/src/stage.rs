//! Marking where a plan is split.

use vstd::prelude::*;

use crate::plan::{ExecutionPlan, Node, Tree};

verus! {

/// A marker over the plan of a stage. It says where to split a plan, and is replaced by
/// a reader of the stage before anything is executed.
#[derive(Debug)]
pub struct DFRayStageExec {
    pub input: Box<ExecutionPlan>,
    pub stage_id: usize,
}

/// A plan under a stage marker.
pub open spec fn stage_tree(input: Tree, stage_id: usize) -> Tree {
    Tree { node: Node::Stage { stage_id }, inputs: seq![input] }
}

/// Why a plan cannot be split into stages.
#[derive(Clone, Copy, Debug, PartialEq, Eq, Structural)]
pub enum StageError {
    /// The plan has no stage marker.
    NoStages,
    /// The last stage has more than the one partition that the driver reads.
    LastStagePartitions,
}

impl StageError {
    /// The text of the error.
    pub open spec fn text(self) -> Seq<char> {
        match self {
            StageError::NoStages => "No stages found"@,
            StageError::LastStagePartitions => "Last stage expected to have one partition"@,
        }
    }

    /// Returns the text of the error.
    pub fn message(&self) -> (s: &'static str)
        ensures
            s@ == self.text(),
            self is NoStages ==> s@ == "No stages found"@,
    {
        match self {
            StageError::NoStages => "No stages found",
            StageError::LastStagePartitions => "Last stage expected to have one partition",
        }
    }
}

impl DFRayStageExec {
    /// Marks `input` as the plan of stage `stage_id`.
    pub fn new(input: ExecutionPlan, stage_id: usize) -> (r: Self)
        ensures
            ExecutionPlan::Stage(r)@ == stage_tree(input@, stage_id),
            *r.input == input,
            r.stage_id == stage_id,
    {
        DFRayStageExec { input: Box::new(input), stage_id }
    }
}

} // verus!
