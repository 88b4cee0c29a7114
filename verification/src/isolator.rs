//! Showing a processor only the partitions that it serves.

use vstd::prelude::*;

use crate::plan::{ExecutionPlan, Node, Tree};
use crate::text::around;
use crate::text::digits;

verus! {

/// The partitions of a stage that one processor serves.
#[derive(Debug)]
pub struct PartitionGroup(pub Vec<usize>);

/// Isolates the partitions of its input that one processor serves.
///
/// It advertises `partition_count` partitions, and executing one of them executes
/// the input's partition that the processor's [`PartitionGroup`] puts in that slot.
/// This lets a repartitioning run on several processors, each of which sees its own
/// partitions alone.
#[derive(Debug)]
pub struct PartitionIsolatorExec {
    pub input: Box<ExecutionPlan>,
    pub partition_count: usize,
}

/// What executing a partition of a [`PartitionIsolatorExec`] comes to.
#[derive(Clone, Copy, Debug, PartialEq, Eq, Structural)]
pub enum IsolatedRead {
    /// Execute this partition of the input.
    Input(usize),
    /// A stream without rows.
    Empty,
}

/// Why a partition of a [`PartitionIsolatorExec`] cannot be executed.
#[derive(Clone, Copy, Debug, PartialEq, Eq, Structural)]
pub enum IsolatorError {
    GroupNotSet,
    InvalidPartition(usize),
}

impl IsolatorError {
    /// The text of the error.
    pub open spec fn text(self) -> Seq<char> {
        match self {
            IsolatorError::GroupNotSet => "PartitionGroup not set in session config"@,
            IsolatorError::InvalidPartition(n) => "Invalid partition "@ + digits(n as nat)
                + " for PartitionIsolatorExec"@,
        }
    }

    /// Returns the text of the error.
    pub fn message(&self) -> (s: String)
        ensures
            s@ == self.text(),
            self is GroupNotSet ==> s@ == "PartitionGroup not set in session config"@,
    {
        match self {
            IsolatorError::GroupNotSet => "PartitionGroup not set in session config".to_owned(),
            IsolatorError::InvalidPartition(n) => around(
                "Invalid partition ",
                *n,
                " for PartitionIsolatorExec",
            ),
        }
    }
}

/// What slot `partition` of an isolator that advertises `count` partitions reads, for
/// a processor that serves the partitions `group`.
pub open spec fn isolated(count: usize, group: Option<Seq<usize>>, partition: usize) -> Result<
    IsolatedRead,
    IsolatorError,
> {
    match group {
        None => Err(IsolatorError::GroupNotSet),
        Some(g) => if partition >= count {
            Err(IsolatorError::InvalidPartition(partition))
        } else if partition < g.len() {
            Ok(IsolatedRead::Input(g[partition as int]))
        } else {
            Ok(IsolatedRead::Empty)
        },
    }
}

/// A plan under a partition isolator.
pub open spec fn isolator_tree(input: Tree, partition_count: usize) -> Tree {
    Tree { node: Node::PartitionIsolator { partition_count }, inputs: seq![input] }
}

impl PartitionIsolatorExec {
    /// Isolates `partition_count` partitions of `input`.
    pub fn new(input: ExecutionPlan, partition_count: usize) -> (r: Self)
        ensures
            ExecutionPlan::PartitionIsolator(r)@ == isolator_tree(input@, partition_count),
            *r.input == input,
            r.partition_count == partition_count,
    {
        PartitionIsolatorExec { input: Box::new(input), partition_count }
    }

    /// Returns the name of the node.
    pub fn name(&self) -> (s: &'static str)
        ensures
            s@ == "PartitionIsolatorExec"@,
    {
        "PartitionIsolatorExec"
    }

    /// Returns the line that shows the node in a plan.
    pub fn fmt_as(&self) -> (s: String)
        ensures
            s@ == "PartitionIsolatorExec [providing upto "@ + digits(self.partition_count as nat)
                + " partitions]"@,
    {
        around(
            "PartitionIsolatorExec [providing upto ",
            self.partition_count,
            " partitions]",
        )
    }

    /// Returns the node over another input.
    pub fn with_new_children(&self, children: Vec<ExecutionPlan>) -> (r: Self)
        requires
            children.len() == 1,
        ensures
            *r.input == children[0],
            r.partition_count == self.partition_count,
    {
        let mut children = children;
        PartitionIsolatorExec::new(children.remove(0), self.partition_count)
    }

    /// Returns what executing `partition` comes to on a processor that serves `group`.
    /// A slot that the group does not fill has no rows.
    pub fn execute(&self, partition: usize, group: Option<&PartitionGroup>) -> (r: Result<
        IsolatedRead,
        IsolatorError,
    >)
        ensures
            r == isolated(
                self.partition_count,
                match group {
                    Some(g) => Some(g.0@),
                    None => None,
                },
                partition,
            ),
    {
        match group {
            None => Err(IsolatorError::GroupNotSet),
            Some(g) => {
                if partition >= self.partition_count {
                    Err(IsolatorError::InvalidPartition(partition))
                } else if partition < g.0.len() {
                    Ok(IsolatedRead::Input(g.0[partition]))
                } else {
                    Ok(IsolatedRead::Empty)
                }
            },
        }
    }
}

/// What the slots of an isolator read. The slots that it advertises read what the group puts
/// there, and nothing where the group is shorter. There are no other slots, and none without a
/// group.
pub proof fn lemma_slots(count: usize, group: Seq<usize>, slot: usize)
    ensures
        isolated(count, None, slot) == Err::<IsolatedRead, _>(IsolatorError::GroupNotSet),
        slot >= count ==> isolated(count, Some(group), slot) == Err::<IsolatedRead, _>(
            IsolatorError::InvalidPartition(slot),
        ),
        slot < count && slot < group.len() ==> isolated(count, Some(group), slot) == Ok::<
            _,
            IsolatorError,
        >(IsolatedRead::Input(group[slot as int])),
        slot < count && slot >= group.len() ==> isolated(count, Some(group), slot) == Ok::<
            _,
            IsolatorError,
        >(IsolatedRead::Empty),
{
}

} // verus!
