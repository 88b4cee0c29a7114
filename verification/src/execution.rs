//! Executing a partition of a plan, down to the first operator of the query engine.

use vstd::prelude::*;

use crate::isolator::{isolated, IsolatedRead, IsolatorError, PartitionGroup};
use crate::plan::{ExecutionPlan, Node, OperatorExec, Tree};
use crate::processor_service::ServiceClients;
use crate::stage_reader::{reader_name, ReaderError, StageRequest};
use crate::ticket::{lemma_ticket_round_trip, ticket_bytes, ticket_of, FlightTicketData};

verus! {

/// What a processor holds for the plan that it hosts.
#[derive(Debug)]
pub struct TaskContext<'a> {
    /// The clients for the stages that the plan reads.
    pub clients: Option<&'a ServiceClients>,
    /// The partitions that the processor serves.
    pub partition_group: Option<&'a PartitionGroup>,
}

impl<'a> TaskContext<'a> {
    /// The partitions that the processor serves.
    pub open spec fn group(self) -> Option<Seq<usize>> {
        match self.partition_group {
            Some(g) => Some(g.0@),
            None => None,
        }
    }
}

/// Where the rows of a partition come from.
pub enum Located {
    /// There are none.
    Empty,
    /// An isolator refuses the partition.
    Refused(IsolatorError),
    /// A partition of an operator of the query engine.
    Operator { operator: Tree, partition: usize },
    /// A partition of another stage.
    Reader { stage_id: usize, partition: usize },
    /// A stage marker, which has no rows to give.
    Marker,
}

/// Where the rows of a partition come from: an isolator looks up what the processor serves,
/// and the other nodes that this crate adds pass their input's partition on.
pub open spec fn located(t: Tree, partition: usize, group: Option<Seq<usize>>) -> Located
    decreases t,
{
    match t.node {
        Node::Operator { .. } => Located::Operator { operator: t, partition },
        Node::StageReader { stage_id, .. } => Located::Reader { stage_id, partition },
        Node::Stage { .. } => Located::Marker,
        Node::PartitionIsolator { partition_count } => match isolated(
            partition_count,
            group,
            partition,
        ) {
            Ok(IsolatedRead::Input(actual)) => if t.inputs.len() == 1 {
                located(t.inputs[0], actual, group)
            } else {
                Located::Empty
            },
            Ok(IsolatedRead::Empty) => Located::Empty,
            Err(e) => Located::Refused(e),
        },
        _ => if t.inputs.len() == 1 {
            located(t.inputs[0], partition, group)
        } else {
            Located::Empty
        },
    }
}

/// What executing a partition comes to.
#[derive(Debug)]
pub enum Source<'a> {
    /// A stream without rows.
    Empty,
    /// Execute this partition of the operator.
    Operator { operator: &'a OperatorExec, partition: usize },
    /// Ask other processors.
    Remote(StageRequest),
}

/// Why a partition cannot be executed.
#[derive(Debug)]
pub enum ExecuteError {
    Isolator(IsolatorError),
    Reader(ReaderError),
}

impl ExecuteError {
    /// The text of the error.
    pub open spec fn text(self) -> Seq<char> {
        match self {
            ExecuteError::Isolator(e) => e.text(),
            ExecuteError::Reader(e) => e.text(),
        }
    }

    /// Returns the text of the error.
    pub fn message(&self) -> (s: String)
        ensures
            s@ == self.text(),
    {
        match self {
            ExecuteError::Isolator(e) => e.message(),
            ExecuteError::Reader(e) => e.message(),
        }
    }
}

/// What executing a partition comes to, for a partition whose rows come from there.
pub open spec fn executed(
    at: Located,
    clients: Option<&ServiceClients>,
    r: Result<Source, ExecuteError>,
) -> bool {
    match at {
        Located::Empty => r matches Ok(Source::Empty),
        Located::Refused(e) => r matches Err(ExecuteError::Isolator(got)) && got == e,
        Located::Operator { operator, partition } => r matches Ok(
            Source::Operator { operator: o, partition: p },
        ) && ExecutionPlan::Operator(*o)@ == operator && p == partition,
        Located::Reader { stage_id, partition } => match clients {
            None => r matches Err(
                ExecuteError::Reader(ReaderError::NoClients { stage_id: s, partition: p }),
            ) && s == stage_id && p == partition,
            Some(map) => match map.at(stage_id, partition) {
                None => r matches Err(
                    ExecuteError::Reader(ReaderError::NotServed { stage_id: s, partition: p, have }),
                ) && s == stage_id && p == partition && have@.no_duplicates() && forall|
                    a: usize,
                    b: usize,
                | #[trigger]
                    have@.contains((a, b)) <==> map.at(a, b) is Some,
                Some(served) => r matches Ok(Source::Remote(request)) && request.clients@ == served
                    && request.ticket@ == ticket_bytes(
                    FlightTicketData { dummy: false, partition: partition as u64 },
                ) && request.name@ == reader_name(stage_id, partition),
            },
        },
        Located::Marker => false,
    }
}

impl ExecutionPlan {
    /// Returns what executing a partition of the plan comes to. A stage marker is never
    /// executed.
    pub fn execute<'a>(&'a self, partition: usize, context: &TaskContext) -> (r: Result<
        Source<'a>,
        ExecuteError,
    >)
        requires
            self@.wf(),
            !(located(self@, partition, context.group()) is Marker),
        ensures
            executed(located(self@, partition, context.group()), context.clients, r),
        decreases self,
    {
        match self {
            ExecutionPlan::Operator(operator) => Ok(Source::Operator { operator, partition }),
            ExecutionPlan::StageReader(reader) => match reader.execute(partition, context.clients) {
                Ok(request) => Ok(Source::Remote(request)),
                Err(e) => Err(ExecuteError::Reader(e)),
            },
            ExecutionPlan::PartitionIsolator(p) => match p.execute(
                partition,
                context.partition_group,
            ) {
                Ok(IsolatedRead::Input(actual)) => p.input.execute(actual, context),
                Ok(IsolatedRead::Empty) => Ok(Source::Empty),
                Err(e) => Err(ExecuteError::Isolator(e)),
            },
            ExecutionPlan::MaxRows(m) => m.input.execute(partition, context),
            ExecutionPlan::Prefetch(p) => p.input.execute(partition, context),
            ExecutionPlan::CoalesceBatches(c) => c.input.execute(partition, context),
            ExecutionPlan::Stage(_) => Ok(Source::Empty),
        }
    }
}

/// What executing partition `k` of a plan comes to, from its root on.
///
/// An operator is asked for its partition `k`. A limit, a buffer and a coalescing are
/// transparent: they come to what partition `k` of their input comes to. An isolator comes to
/// the partition that its slot `k` holds. A reader asks every client of partition `k` of its
/// stage, with a ticket that its peers read as `k`.
pub proof fn lemma_executed(
    t: Tree,
    k: usize,
    group: Option<Seq<usize>>,
    clients: Option<&ServiceClients>,
    r: Result<Source, ExecuteError>,
)
    requires
        t.wf(),
        executed(located(t, k, group), clients, r),
    ensures
        match t.node {
            Node::Operator { .. } => r matches Ok(Source::Operator { operator, partition })
                && ExecutionPlan::Operator(*operator)@ == t && partition == k,
            Node::MaxRows { .. } => executed(located(t.inputs[0], k, group), clients, r),
            Node::Prefetch { .. } => executed(located(t.inputs[0], k, group), clients, r),
            Node::CoalesceBatches { .. } => executed(located(t.inputs[0], k, group), clients, r),
            Node::PartitionIsolator { partition_count } => match group {
                None => r matches Err(ExecuteError::Isolator(IsolatorError::GroupNotSet)),
                Some(served) => if k >= partition_count {
                    r matches Err(ExecuteError::Isolator(IsolatorError::InvalidPartition(p)))
                        && p == k
                } else if k < served.len() {
                    executed(located(t.inputs[0], served[k as int], group), clients, r)
                } else {
                    r matches Ok(Source::Empty)
                },
            },
            Node::StageReader { stage_id, .. } => match clients {
                None => r matches Err(
                    ExecuteError::Reader(ReaderError::NoClients { stage_id: s, partition: p }),
                ) && s == stage_id && p == k,
                Some(map) => if map.0@.contains_key(stage_id) && map.0@[stage_id]@.contains_key(k) {
                    r matches Ok(Source::Remote(request)) && request.clients@
                        == map.0@[stage_id]@[k]@ && (ticket_of(request.ticket@) matches Ok(asked)
                        && asked.partition == k)
                } else {
                    r matches Err(
                        ExecuteError::Reader(
                            ReaderError::NotServed { stage_id: s, partition: p, have },
                        ),
                    ) && s == stage_id && p == k && forall|a: usize, b: usize| #[trigger]
                        have@.contains((a, b)) <==> map.0@.contains_key(a)
                            && map.0@[a]@.contains_key(b)
                },
            },
            Node::Stage { .. } => false,
        },
{
    lemma_ticket_round_trip(FlightTicketData { dummy: false, partition: k as u64 });
}

/// A limit, a buffer and a coalescing leave every partition where it is: the rows of partition
/// `k` come from where those of partition `k` of the input come from.
pub proof fn lemma_located_through(t: Tree, k: usize, group: Option<Seq<usize>>)
    requires
        t.wf(),
    ensures
        t.node is MaxRows || t.node is Prefetch || t.node is CoalesceBatches ==> located(
            t,
            k,
            group,
        ) == located(t.inputs[0], k, group),
        t.node is Operator ==> located(t, k, group) == (Located::Operator {
            operator: t,
            partition: k,
        }),
        t.node matches Node::StageReader { stage_id, .. } ==> located(t, k, group) == (
        Located::Reader { stage_id, partition: k }),
        t.node matches Node::PartitionIsolator { partition_count } ==> (group matches Some(served)
            ==> (k < partition_count && k < served.len() ==> located(t, k, group) == located(
            t.inputs[0],
            served[k as int],
            group,
        ))),
{
}

/// A context has the group of its processor, if it has one.
pub proof fn lemma_context_group(context: TaskContext)
    ensures
        context.group() is Some <==> context.partition_group is Some,
        context.partition_group matches Some(served) ==> context.group() == Some(served.0@),
{
}

} // verus!
