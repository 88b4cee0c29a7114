//! Buffering batches ahead of their consumer.

use vstd::prelude::*;

use crate::plan::{ExecutionPlan, Node, Tree};
use crate::text::around;
use crate::text::digits;

verus! {

/// Consumes its input ahead of its own consumer, holding up to `buf_size` batches in a
/// bounded channel. The buffering begins when the node is executed.
#[derive(Debug)]
pub struct PrefetchExec {
    /// Input plan
    pub input: Box<ExecutionPlan>,
    /// Maximum number of buffered batches
    pub buf_size: usize,
}

/// A plan behind a buffer of batches.
pub open spec fn prefetch_tree(input: Tree, buf_size: usize) -> Tree {
    Tree { node: Node::Prefetch { buf_size }, inputs: seq![input] }
}

impl PrefetchExec {
    /// Buffers up to `buf_size` batches of `input`, which has exactly one input itself.
    pub fn new(input: ExecutionPlan, buf_size: usize) -> (r: Self)
        requires
            input@.inputs.len() == 1,
        ensures
            ExecutionPlan::Prefetch(r)@ == prefetch_tree(input@, buf_size),
            *r.input == input,
            r.buf_size == buf_size,
    {
        PrefetchExec { input: Box::new(input), buf_size }
    }

    /// Returns the name of the node.
    pub fn name(&self) -> (s: &'static str)
        ensures
            s@ == "PrefetchExec"@,
    {
        "PrefetchExec"
    }

    /// Returns the line that shows the node in a plan.
    pub fn fmt_as(&self) -> (s: String)
        ensures
            s@ == "PrefetchExec [num="@ + digits(self.buf_size as nat) + "]"@,
    {
        around("PrefetchExec [num=", self.buf_size, "]")
    }

    /// Returns the node over another input, which has exactly one input itself.
    pub fn with_new_children(&self, children: Vec<ExecutionPlan>) -> (r: Self)
        requires
            children.len() == 1,
            children[0]@.inputs.len() == 1,
        ensures
            *r.input == children[0],
            r.buf_size == self.buf_size,
    {
        let mut children = children;
        PrefetchExec::new(children.remove(0), self.buf_size)
    }
}

} // verus!
