//! Reading a stage that another processor hosts.

use vstd::prelude::*;

use crate::plan::{ExecutionPlan, Node, Partitioning, SchemaRef, Tree};
use crate::processor_service::ServiceClients;
use crate::stage::StageError;
use crate::text::{around, digits, joined};
use crate::ticket::{lemma_ticket_round_trip, ticket_bytes, ticket_of, FlightTicketData};

verus! {

/// Produces the batches of a stage that is hosted on the other side of a network
/// boundary.
#[derive(Debug)]
pub struct DFRayStageReaderExec {
    pub schema: SchemaRef,
    pub stage_id: usize,
    /// The number of partitions of the stage.
    pub partitions: usize,
}

/// A reader of a stage.
pub open spec fn reader_tree(stage_id: usize, schema: SchemaRef, partitions: usize) -> Tree {
    Tree { node: Node::StageReader { stage_id, schema, partitions }, inputs: seq![] }
}

impl DFRayStageReaderExec {
    /// Reads stage `stage_id`, whose plan is `input`.
    pub fn try_new_from_input(input: &ExecutionPlan, stage_id: usize) -> (r: Result<
        Self,
        StageError,
    >)
        requires
            input@.wf(),
        ensures
            r matches Ok(reader) && ExecutionPlan::StageReader(reader)@ == reader_tree(
                stage_id,
                input@.schema(),
                input@.partition_count(),
            ),
    {
        DFRayStageReaderExec::try_new(
            Partitioning::UnknownPartitioning(input.partition_count()),
            input.schema(),
            stage_id,
        )
    }

    /// Reads stage `stage_id`. The rows arrive already distributed, so the reader keeps
    /// the number of partitions and forgets the scheme.
    pub fn try_new(partitioning: Partitioning, schema: SchemaRef, stage_id: usize) -> (r: Result<
        Self,
        StageError,
    >)
        ensures
            r matches Ok(reader) && ExecutionPlan::StageReader(reader)@ == reader_tree(
                stage_id,
                schema,
                partitioning.count(),
            ),
    {
        Ok(DFRayStageReaderExec { schema, stage_id, partitions: partitioning.partition_count() })
    }
}

/// What messages call partition `partition` of a reader of stage `stage_id`.
pub open spec fn reader_name(stage_id: usize, partition: usize) -> Seq<char> {
    "RayStageReaderExec["@ + digits(stage_id as nat) + "-"@ + digits(partition as nat) + "]:"@
}

/// Pairs of a stage and a partition, shown one after the other.
pub open spec fn shown_pairs(pairs: Seq<(usize, usize)>) -> Seq<char>
    decreases pairs.len(),
{
    if pairs.len() == 0 {
        seq![]
    } else {
        let before = shown_pairs(pairs.drop_last());
        let separated = if pairs.len() == 1 {
            before
        } else {
            before + ", "@
        };
        (separated + "("@ + digits(pairs.last().0 as nat) + ", "@) + digits(pairs.last().1 as nat)
            + ")"@
    }
}

fn show_pairs(pairs: &Vec<(usize, usize)>) -> (s: String)
    ensures
        s@ == shown_pairs(pairs@),
{
    let mut s = String::new();
    let mut i: usize = 0;
    proof {
        assert(pairs@.take(0) =~= seq![]);
        assert(s@ =~= seq![]);
    }
    while i < pairs.len()
        invariant
            i <= pairs.len(),
            s@ == shown_pairs(pairs@.take(i as int)),
        decreases pairs.len() - i,
    {
        proof {
            assert(pairs@.take(i + 1).drop_last() =~= pairs@.take(i as int));
        }
        let (stage_id, partition) = pairs[i];
        if i > 0 {
            s = joined(s.as_str(), ", ");
        }
        s = joined(s.as_str(), "(");
        s = around(s.as_str(), stage_id, ", ");
        s = around(s.as_str(), partition, ")");
        i += 1;
    }
    proof {
        assert(pairs@.take(i as int) =~= pairs@);
    }
    s
}

/// Why a partition of a reader cannot be executed.
#[derive(Debug)]
pub enum ReaderError {
    /// No clients were given at all.
    NoClients { stage_id: usize, partition: usize },
    /// No client serves the partition. The clients that there are serve `have`.
    NotServed { stage_id: usize, partition: usize, have: Vec<(usize, usize)> },
}

impl ReaderError {
    /// The text of the error.
    pub open spec fn text(self) -> Seq<char> {
        match self {
            ReaderError::NoClients { stage_id, partition } => reader_name(stage_id, partition)
                + " Flight Client not in context"@,
            ReaderError::NotServed { stage_id, partition, have } => (reader_name(
                stage_id,
                partition,
            ) + " No flight clients found for "@) + digits(stage_id as nat) + ":"@ + digits(
                partition as nat,
            ) + ", have ["@ + shown_pairs(have@) + "]"@,
        }
    }

    /// Returns the text of the error.
    pub fn message(&self) -> (s: String)
        ensures
            s@ == self.text(),
    {
        match self {
            ReaderError::NoClients { stage_id, partition } => joined(
                name_reader(*stage_id, *partition).as_str(),
                " Flight Client not in context",
            ),
            ReaderError::NotServed { stage_id, partition, have } => {
                let head = joined(
                    name_reader(*stage_id, *partition).as_str(),
                    " No flight clients found for ",
                );
                let stage = around(head.as_str(), *stage_id, ":");
                let asked = around(stage.as_str(), *partition, ", have [");
                let listed = joined(asked.as_str(), show_pairs(have).as_str());
                joined(listed.as_str(), "]")
            },
        }
    }
}

fn name_reader(stage_id: usize, partition: usize) -> (s: String)
    ensures
        s@ == reader_name(stage_id, partition),
{
    let stage = around("RayStageReaderExec[", stage_id, "-");
    around(stage.as_str(), partition, "]:")
}

/// What a reader asks of other processors: the partition's ticket, of every client.
#[derive(Debug)]
pub struct StageRequest {
    /// What messages call the partition.
    pub name: String,
    pub clients: Vec<usize>,
    pub ticket: Vec<u8>,
}

impl DFRayStageReaderExec {
    /// Returns the name of the node.
    pub fn name(&self) -> (s: &'static str)
        ensures
            s@ == "RayStageReaderExec"@,
    {
        "RayStageReaderExec"
    }

    /// Returns how the rows that the reader yields are spread over partitions.
    pub fn output_partitioning(&self) -> (r: Partitioning)
        ensures
            r == Partitioning::UnknownPartitioning(self.partitions),
    {
        Partitioning::UnknownPartitioning(self.partitions)
    }

    /// Returns the line that shows the node in a plan.
    pub fn fmt_as(&self) -> (s: String)
        ensures
            s@ == "RayStageReaderExec["@ + digits(self.stage_id as nat)
                + "] (output_partitioning=UnknownPartitioning("@ + digits(self.partitions as nat)
                + "))"@,
    {
        let head = around(
            "RayStageReaderExec[",
            self.stage_id,
            "] (output_partitioning=UnknownPartitioning(",
        );
        around(head.as_str(), self.partitions, "))")
    }

    /// Returns what executing `partition` asks of other processors, given the clients that
    /// the context holds.
    pub fn execute(&self, partition: usize, clients: Option<&ServiceClients>) -> (r: Result<
        StageRequest,
        ReaderError,
    >)
        ensures
            match clients {
                None => r matches Err(ReaderError::NoClients { stage_id, partition: p })
                    && stage_id == self.stage_id && p == partition,
                Some(map) => match map.at(self.stage_id, partition) {
                    None => r matches Err(
                        ReaderError::NotServed { stage_id, partition: p, have },
                    ) && stage_id == self.stage_id && p == partition && have@.no_duplicates()
                        && forall|s: usize, q: usize| #[trigger]
                        have@.contains((s, q)) <==> map.at(s, q) is Some,
                    Some(served) => r matches Ok(request) && request.clients@ == served
                        && request.ticket@ == ticket_bytes(
                        FlightTicketData { dummy: false, partition: partition as u64 },
                    ) && request.name@ == reader_name(self.stage_id, partition),
                },
            },
    {
        let stage_id = self.stage_id;
        match clients {
            None => Err(ReaderError::NoClients { stage_id, partition }),
            Some(map) => match map.get(stage_id, partition) {
                None => Err(ReaderError::NotServed { stage_id, partition, have: map.keys() }),
                Some(served) => {
                    let data = FlightTicketData { dummy: false, partition: partition as u64 };
                    let copy = served.clone();
                    assert(copy@ =~= served@);
                    Ok(
                        StageRequest {
                            name: name_reader(stage_id, partition),
                            clients: copy,
                            ticket: data.encode_to_vec(),
                        },
                    )
                },
            },
        }
    }
}

/// The partition that a reader asks for is the one that its peers understand.
pub proof fn lemma_peers_understand(partition: usize)
    ensures
        ticket_of(
            ticket_bytes(FlightTicketData { dummy: false, partition: partition as u64 }),
        ) matches Ok(t) && t.partition as usize == partition,
{
    lemma_ticket_round_trip(FlightTicketData { dummy: false, partition: partition as u64 });
}

/// Collects the streams that the clients of a partition answer with. The streams are
/// consumed, merged, once every client has answered, and only if all of them had one.
#[derive(Debug)]
pub struct StageFetch {
    /// What messages call the partition.
    pub name: String,
    /// Whether a client failed.
    pub error: bool,
    /// The streams so far, by their places in the caller's table of streams.
    pub streams: Vec<usize>,
}

/// The text of the error for a client that has no stream.
pub open spec fn getting_text(name: Seq<char>, error: Seq<char>) -> Seq<char> {
    name + " Error getting flight stream: "@ + error
}

/// The text of the error for a stream that breaks off.
pub open spec fn consuming_text(name: Seq<char>, error: Seq<char>) -> Seq<char> {
    name + " Error consuming flight stream: "@ + error
}

impl StageFetch {
    /// Starts with no answer.
    pub fn new(name: String) -> (r: Self)
        ensures
            r.name == name,
            !r.error,
            r.streams@ == Seq::<usize>::empty(),
    {
        StageFetch { name, error: false, streams: Vec::new() }
    }

    /// Takes a client's answer: a stream, or why there is none. Returns the text to yield as
    /// an error, if there is none.
    pub fn answered(&mut self, answer: Result<usize, String>) -> (r: Option<String>)
        ensures
            final(self).name == old(self).name,
            match answer {
                Ok(stream) => r is None && final(self).error == old(self).error
                    && final(self).streams@ == old(self).streams@.push(stream),
                Err(e) => r matches Some(text) && text@ == getting_text(old(self).name@, e@)
                    && final(self).error && final(self).streams@ == old(self).streams@,
            },
    {
        match answer {
            Ok(stream) => {
                self.streams.push(stream);
                None
            },
            Err(e) => {
                self.error = true;
                let head = joined(self.name.as_str(), " Error getting flight stream: ");
                Some(joined(head.as_str(), e.as_str()))
            },
        }
    }

    /// Returns the streams to merge, once every client has answered: none if one failed.
    pub fn finish(self) -> (r: Vec<usize>)
        ensures
            r@ == if self.error {
                Seq::<usize>::empty()
            } else {
                self.streams@
            },
    {
        if self.error {
            Vec::new()
        } else {
            self.streams
        }
    }
}

/// Returns the text of the error for a stream that breaks off.
pub fn consuming_error(name: &str, error: &str) -> (s: String)
    ensures
        s@ == consuming_text(name@, error@),
{
    let head = joined(name, " Error consuming flight stream: ");
    joined(head.as_str(), error)
}

/// Pairs are shown in order, each in round brackets, with a comma and a blank between two.
pub proof fn lemma_pairs_shown(before: Seq<(usize, usize)>, pair: (usize, usize))
    ensures
        shown_pairs(Seq::empty()) == Seq::<char>::empty(),
        shown_pairs(before.push(pair)) == shown_pairs(before) + (if before.len() == 0 {
            seq![]
        } else {
            ", "@
        }) + "("@ + digits(pair.0 as nat) + ", "@ + digits(pair.1 as nat) + ")"@,
{
    assert(before.push(pair).drop_last() =~= before);
    if before.len() == 0 {
        assert(before =~= seq![]);
        assert(shown_pairs(before) + seq![] =~= shown_pairs(before));
    }
}

} // verus!
