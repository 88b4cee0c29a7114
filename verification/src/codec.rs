//! The bytes with which the nodes that this crate adds to a plan are sent to processors.

use vstd::prelude::*;

use crate::isolator::{isolator_tree, PartitionIsolatorExec};
use crate::max_rows::{max_rows_tree, MaxRowsExec};
use crate::plan::{lemma_trees, trees};
use crate::plan::{ExecutionPlan, Node, Partitioning, SchemaRef, Tree};
use crate::pre_fetch::{prefetch_tree, PrefetchExec};
use crate::stage_reader::{reader_tree, DFRayStageReaderExec};
use crate::text::{around, decimal, digits, joined};
use crate::wire::{
    all_bytes, bytes_field, bytes_field_len, bytes_in, chunks_view, last_number,
    lemma_bytes_round_trip, lemma_field_within, lemma_key_round_trip, lemma_uint_round_trip,
    number_field, number_in, put_bytes, put_uint, read_fields, read_value, take_fields, uint, uint_len, varint,
};
use crate::wire::{
    FieldKind, FieldShape, FieldView, MessageShape, ShapeView, ValueView, LENGTH_DELIMITED, VARINT,
};

verus! {

/// Writes the nodes that this crate adds to a plan, and reads them back.
#[derive(Debug)]
pub struct RayCodec {}

/// The fields of a partition isolator. The first keeps its bytes apart from those of a
/// limit on rows or a buffer.
pub open spec fn isolator_shape() -> ShapeView {
    ShapeView {
        name: "PartitionIsolatorExecNode"@,
        fields: seq![
            FieldShape { name: "dummy", kind: FieldKind::Word },
            FieldShape { name: "partition_count", kind: FieldKind::Number },
        ],
    }
}

fn make_isolator_shape() -> (r: MessageShape)
    ensures
        r@ == isolator_shape(),
{
    let fields = vec![
        FieldShape { name: "dummy", kind: FieldKind::Word },
        FieldShape { name: "partition_count", kind: FieldKind::Number },
    ];
    assert(fields@ =~= isolator_shape().fields);
    MessageShape { name: "PartitionIsolatorExecNode", fields }
}

/// The fields of a reader of a stage.
pub open spec fn reader_shape() -> ShapeView {
    ShapeView {
        name: "DfRayStageReaderExecNode"@,
        fields: seq![
            FieldShape { name: "schema", kind: FieldKind::Bytes },
            FieldShape { name: "partitioning", kind: FieldKind::Bytes },
            FieldShape { name: "stage_id", kind: FieldKind::Number },
        ],
    }
}

fn make_reader_shape() -> (r: MessageShape)
    ensures
        r@ == reader_shape(),
{
    let fields = vec![
        FieldShape { name: "schema", kind: FieldKind::Bytes },
        FieldShape { name: "partitioning", kind: FieldKind::Bytes },
        FieldShape { name: "stage_id", kind: FieldKind::Number },
    ];
    assert(fields@ =~= reader_shape().fields);
    MessageShape { name: "DfRayStageReaderExecNode", fields }
}

/// The fields of a limit on rows.
pub open spec fn max_rows_shape() -> ShapeView {
    ShapeView {
        name: "MaxRowsExecNode"@,
        fields: seq![FieldShape { name: "max_rows", kind: FieldKind::Number }],
    }
}

fn make_max_rows_shape() -> (r: MessageShape)
    ensures
        r@ == max_rows_shape(),
{
    let fields = vec![FieldShape { name: "max_rows", kind: FieldKind::Number }];
    assert(fields@ =~= max_rows_shape().fields);
    MessageShape { name: "MaxRowsExecNode", fields }
}

/// The fields of a buffer. The first keeps its bytes apart from those of an isolator.
pub open spec fn prefetch_shape() -> ShapeView {
    ShapeView {
        name: "PrefetchExecNode"@,
        fields: seq![
            FieldShape { name: "dummy", kind: FieldKind::Number },
            FieldShape { name: "buf_size", kind: FieldKind::Number },
        ],
    }
}

fn make_prefetch_shape() -> (r: MessageShape)
    ensures
        r@ == prefetch_shape(),
{
    let fields = vec![
        FieldShape { name: "dummy", kind: FieldKind::Number },
        FieldShape { name: "buf_size", kind: FieldKind::Number },
    ];
    assert(fields@ =~= prefetch_shape().fields);
    MessageShape { name: "PrefetchExecNode", fields }
}

/// What the bytes of a reader hold. A field that occurs several times is given item by item.
#[derive(Debug)]
pub struct DfRayStageReaderExecNode {
    /// The bytes of the schema, for the query engine to read.
    pub schema: Vec<Vec<u8>>,
    /// The bytes of the partitioning, for the query engine to read.
    pub partitioning: Vec<Vec<u8>>,
    pub stage_id: u64,
}

/// The value of a [`DfRayStageReaderExecNode`].
pub struct ReaderNodeView {
    pub schema: Seq<Seq<u8>>,
    pub partitioning: Seq<Seq<u8>>,
    pub stage_id: u64,
}

impl View for DfRayStageReaderExecNode {
    type V = ReaderNodeView;

    open spec fn view(&self) -> ReaderNodeView {
        ReaderNodeView {
            schema: chunks_view(self.schema@),
            partitioning: chunks_view(self.partitioning@),
            stage_id: self.stage_id,
        }
    }
}

/// What the bytes of a reader hold, if they have the fields of one.
pub open spec fn reader_node_of(s: Seq<u8>) -> Option<ReaderNodeView> {
    match read_fields(reader_shape(), s) {
        Ok(fields) => Some(
            ReaderNodeView {
                schema: all_bytes(fields, 1),
                partitioning: all_bytes(fields, 2),
                stage_id: last_number(fields, 3),
            },
        ),
        Err(_) => None,
    }
}

impl DfRayStageReaderExecNode {
    /// Returns what the bytes of a reader hold, if they have the fields of one. The schema
    /// and the partitioning are left for the query engine to read.
    pub fn decode(buf: &[u8]) -> (r: Option<Self>)
        ensures
            match r {
                Some(node) => reader_node_of(buf@) == Some(node@),
                None => reader_node_of(buf@) is None,
            },
    {
        match take_fields(&make_reader_shape(), buf) {
            Ok(fields) => Some(
                DfRayStageReaderExecNode {
                    schema: bytes_in(&fields, 1),
                    partitioning: bytes_in(&fields, 2),
                    stage_id: number_in(&fields, 3),
                },
            ),
            Err(_) => None,
        }
    }
}

/// What the query engine reads out of the schema and the partitioning of a reader.
#[derive(Debug)]
pub enum ReaderReply {
    /// The bytes are no messages of the engine's.
    Malformed,
    /// The schema is not one. The text says why.
    BadSchema(String),
    /// A schema, with a partitioning, none, or a text that says why it is not one.
    Parsed { schema: SchemaRef, partitioning: Result<Option<Partitioning>, String> },
}

/// What the query engine writes a reader's schema and partitioning as. A text says why it
/// cannot.
#[derive(Debug)]
pub struct ReaderBytes {
    pub schema: Result<Vec<u8>, String>,
    pub partitioning: Result<Vec<u8>, String>,
}

/// Why a node cannot be written or read.
#[derive(Debug)]
pub enum CodecError {
    IsolatorInputs,
    MissingSchema,
    MissingPartitioning,
    /// How many inputs there are where there should be one.
    Inputs(usize),
    /// The input of a buffer has not exactly one input.
    PrefetchInput,
    Unrecognized,
    NotSupported,
    /// The node does not fit into the buffer.
    Capacity { node: &'static str, required: usize, remaining: usize },
    /// The query engine's own error.
    Engine(String),
}

/// The text of the error for a node of `required` bytes where `remaining` are left.
pub open spec fn capacity_text(node: Seq<char>, required: nat, remaining: nat) -> Seq<char> {
    ("can't encode "@ + node)
        + " pb: failed to encode Protobuf message; insufficient buffer capacity (required: "@
        + digits(required) + ", remaining: "@ + digits(remaining) + ")"@
}

impl CodecError {
    /// The text of the error.
    pub open spec fn text(self) -> Seq<char> {
        match self {
            CodecError::IsolatorInputs => "PartitionIsolatorExec requires one input"@,
            CodecError::MissingSchema => "missing schema in proto"@,
            CodecError::MissingPartitioning => "missing partitioning in proto"@,
            CodecError::Inputs(n) => "MaxRowsExec requires one input, got "@ + digits(n as nat),
            CodecError::PrefetchInput => "PrefetchExec must have exactly one input"@,
            CodecError::Unrecognized => "Should not reach this point"@,
            CodecError::NotSupported => "Not supported"@,
            CodecError::Capacity { node, required, remaining } => capacity_text(
                node@,
                required as nat,
                remaining as nat,
            ),
            CodecError::Engine(text) => text@,
        }
    }

    /// Returns the text of the error.
    pub fn message(&self) -> (s: String)
        ensures
            s@ == self.text(),
    {
        match self {
            CodecError::IsolatorInputs => "PartitionIsolatorExec requires one input".to_owned(),
            CodecError::MissingSchema => "missing schema in proto".to_owned(),
            CodecError::MissingPartitioning => "missing partitioning in proto".to_owned(),
            CodecError::Inputs(n) => joined(
                "MaxRowsExec requires one input, got ",
                decimal(*n).as_str(),
            ),
            CodecError::PrefetchInput => "PrefetchExec must have exactly one input".to_owned(),
            CodecError::Unrecognized => "Should not reach this point".to_owned(),
            CodecError::NotSupported => "Not supported".to_owned(),
            CodecError::Capacity { node, required, remaining } => {
                let what = joined("can't encode ", node);
                let head = joined(
                    what.as_str(),
                    " pb: failed to encode Protobuf message; insufficient buffer capacity (required: ",
                );
                let middle = around(head.as_str(), *required, ", remaining: ");
                around(middle.as_str(), *remaining, ")")
            },
            CodecError::Engine(text) => text.clone(),
        }
    }
}

/// The reader that its bytes and the query engine's reply give, or the text of the error.
pub open spec fn decoded_reader(node: ReaderNodeView, reply: ReaderReply) -> Result<
    Tree,
    Seq<char>,
> {
    if node.schema.len() == 0 {
        Err(CodecError::MissingSchema.text())
    } else {
        match reply {
            ReaderReply::Parsed { schema, partitioning: Ok(Some(p)) } => Ok(
                reader_tree(node.stage_id as usize, schema, p.count()),
            ),
            ReaderReply::Parsed { partitioning: Ok(None), .. } => Err(
                CodecError::MissingPartitioning.text(),
            ),
            ReaderReply::Parsed { partitioning: Err(text), .. } => Err(text@),
            ReaderReply::BadSchema(text) => Err(text@),
            ReaderReply::Malformed => Err(CodecError::Unrecognized.text()),
        }
    }
}

/// The size of the buffer that some bytes are, if they are one. A buffer holds something,
/// and the bytes of a limit on rows do not say how much.
pub open spec fn buffer_of(s: Seq<u8>) -> Option<u64> {
    match read_fields(prefetch_shape(), s) {
        Ok(fields) => if last_number(fields, 2) > 0 {
            Some(last_number(fields, 2))
        } else {
            None
        },
        Err(_) => None,
    }
}

/// The buffer or the limit on rows that some bytes are, or the text of the error. A buffer
/// needs an input that has one input itself.
pub open spec fn decoded_sized(s: Seq<u8>, inputs: Seq<Tree>) -> Result<Tree, Seq<char>> {
    match (buffer_of(s), read_fields(max_rows_shape(), s)) {
        (Some(buf_size), _) => if inputs.len() != 1 {
            Err(CodecError::Inputs(inputs.len() as usize).text())
        } else if inputs[0].inputs.len() != 1 {
            Err(CodecError::PrefetchInput.text())
        } else {
            Ok(prefetch_tree(inputs[0], buf_size as usize))
        },
        (None, Ok(fields)) => if inputs.len() != 1 {
            Err(CodecError::Inputs(inputs.len() as usize).text())
        } else {
            Ok(max_rows_tree(inputs[0], last_number(fields, 1) as usize))
        },
        (None, Err(_)) => Err(CodecError::Unrecognized.text()),
    }
}

/// The node that some bytes are over these inputs, or the text of the error. The first kind
/// of node whose fields the bytes have is taken: an isolator, a reader, a buffer, a limit on
/// rows.
pub open spec fn decoded(s: Seq<u8>, inputs: Seq<Tree>, reply: ReaderReply) -> Result<
    Tree,
    Seq<char>,
> {
    match (read_fields(isolator_shape(), s), reader_node_of(s)) {
        (Ok(fields), _) => if inputs.len() != 1 {
            Err(CodecError::IsolatorInputs.text())
        } else {
            Ok(isolator_tree(inputs[0], last_number(fields, 2) as usize))
        },
        (Err(_), Some(node)) => if reply is Malformed {
            decoded_sized(s, inputs)
        } else {
            decoded_reader(node, reply)
        },
        (Err(_), None) => decoded_sized(s, inputs),
    }
}

/// The bytes of a node, or the text of the error. A node that is not added by this crate,
/// and a marker, which is never sent, have none.
pub open spec fn encoded(t: Tree, reader: ReaderBytes) -> Result<Seq<u8>, Seq<char>> {
    match t.node {
        Node::StageReader { stage_id, .. } => match (reader.schema, reader.partitioning) {
            (Ok(schema), Ok(partitioning)) => Ok(
                bytes_field(1, schema@) + bytes_field(2, partitioning@) + uint(3, stage_id as u64),
            ),
            (Err(text), _) => Err(text@),
            (_, Err(text)) => Err(text@),
        },
        Node::PartitionIsolator { partition_count } => Ok(uint(2, partition_count as u64)),
        Node::MaxRows { max_rows } => Ok(uint(1, max_rows as u64)),
        Node::Prefetch { buf_size } => Ok(uint(1, 1) + uint(2, buf_size as u64)),
        _ => Err(CodecError::NotSupported.text()),
    }
}

/// How an error calls a node.
pub open spec fn pb_name(t: Tree) -> Seq<char> {
    match t.node {
        Node::StageReader { .. } => "ray stage reader"@,
        Node::PartitionIsolator { .. } => "partition isolator"@,
        Node::MaxRows { .. } => "max rows"@,
        _ => "prefetch"@,
    }
}

fn decode_reader(node: DfRayStageReaderExecNode, reply: ReaderReply) -> (r: Result<
    ExecutionPlan,
    CodecError,
>)
    ensures
        match r {
            Ok(plan) => decoded_reader(node@, reply) == Ok::<Tree, Seq<char>>(plan@),
            Err(e) => decoded_reader(node@, reply) == Err::<Tree, Seq<char>>(e.text()),
        },
{
    if node.schema.len() == 0 {
        return Err(CodecError::MissingSchema);
    }
    match reply {
        ReaderReply::Malformed => Err(CodecError::Unrecognized),
        ReaderReply::BadSchema(text) => Err(CodecError::Engine(text)),
        ReaderReply::Parsed { schema, partitioning } => match partitioning {
            Err(text) => Err(CodecError::Engine(text)),
            Ok(None) => Err(CodecError::MissingPartitioning),
            Ok(Some(p)) => match DFRayStageReaderExec::try_new(
                p,
                schema,
                node.stage_id as usize,
            ) {
                Ok(reader) => Ok(ExecutionPlan::StageReader(reader)),
                Err(_) => Err(CodecError::Unrecognized),
            },
        },
    }
}

fn decode_sized(buf: &[u8], inputs: Vec<ExecutionPlan>) -> (r: Result<ExecutionPlan, CodecError>)
    ensures
        match r {
            Ok(plan) => decoded_sized(buf@, trees(inputs@)) == Ok::<Tree, Seq<char>>(plan@),
            Err(e) => decoded_sized(buf@, trees(inputs@)) == Err::<Tree, Seq<char>>(e.text()),
        },
{
    proof {
        lemma_trees(inputs@);
    }
    let mut inputs = inputs;
    if let Some(buf_size) = decode_buffer(buf) {
        if inputs.len() != 1 {
            return Err(CodecError::Inputs(inputs.len()));
        }
        let input = inputs.remove(0);
        return match input.sole_input() {
            None => Err(CodecError::PrefetchInput),
            Some(_) => Ok(
                ExecutionPlan::Prefetch(PrefetchExec::new(input, buf_size as usize)),
            ),
        };
    }
    match take_fields(&make_max_rows_shape(), buf) {
        Ok(fields) => {
            if inputs.len() != 1 {
                Err(CodecError::Inputs(inputs.len()))
            } else {
                let max_rows = number_in(&fields, 1) as usize;
                Ok(ExecutionPlan::MaxRows(MaxRowsExec::new(inputs.remove(0), max_rows)))
            }
        },
        Err(_) => Err(CodecError::Unrecognized),
    }
}

fn decode_buffer(buf: &[u8]) -> (r: Option<u64>)
    ensures
        r == buffer_of(buf@),
{
    match take_fields(&make_prefetch_shape(), buf) {
        Ok(fields) => {
            let buf_size: u64 = number_in(&fields, 2);
            if buf_size > 0 {
                Some(buf_size)
            } else {
                None
            }
        },
        Err(_) => None,
    }
}

impl RayCodec {
    /// Returns the node that the bytes are over these inputs.
    pub fn try_decode(&self, buf: &[u8], inputs: Vec<ExecutionPlan>, reply: ReaderReply) -> (r:
        Result<ExecutionPlan, CodecError>)
        ensures
            match r {
                Ok(plan) => decoded(buf@, trees(inputs@), reply) == Ok::<Tree, Seq<char>>(plan@),
                Err(e) => decoded(buf@, trees(inputs@), reply) == Err::<Tree, Seq<char>>(e.text()),
            },
    {
        proof {
            lemma_trees(inputs@);
        }
        let mut inputs = inputs;
        match take_fields(&make_isolator_shape(), buf) {
            Ok(fields) => {
                if inputs.len() != 1 {
                    Err(CodecError::IsolatorInputs)
                } else {
                    let partition_count = number_in(&fields, 2) as usize;
                    Ok(
                        ExecutionPlan::PartitionIsolator(
                            PartitionIsolatorExec::new(inputs.remove(0), partition_count),
                        ),
                    )
                }
            },
            Err(_) => match DfRayStageReaderExecNode::decode(buf) {
                Some(node) => match reply {
                    ReaderReply::Malformed => decode_sized(buf, inputs),
                    _ => decode_reader(node, reply),
                },
                None => decode_sized(buf, inputs),
            },
        }
    }

    /// Appends the bytes of the node to `buf`. Where that fails, `buf` stays as it is.
    pub fn try_encode(&self, node: &ExecutionPlan, reader: &ReaderBytes, buf: &mut Vec<u8>) -> (r:
        Result<(), CodecError>)
        requires
            old(buf)@.len() <= isize::MAX,
            node@.node is StageReader ==> (reader.schema matches Ok(s) ==> (
            reader.partitioning matches Ok(p) ==> s@.len() + p@.len() + 64 <= usize::MAX)),
        ensures
            match encoded(node@, *reader) {
                Err(text) => r matches Err(e) && e.text() == text && final(buf)@ == old(buf)@,
                Ok(body) => if old(buf)@.len() + body.len() <= isize::MAX {
                    r is Ok && final(buf)@ == old(buf)@ + body
                } else {
                    r matches Err(e) && e.text() == capacity_text(
                        pb_name(node@),
                        body.len(),
                        (isize::MAX - old(buf)@.len()) as nat,
                    ) && final(buf)@ == old(buf)@
                },
            },
    {
        let remaining = isize::MAX as usize - buf.len();
        match node {
            ExecutionPlan::StageReader(r) => {
                let schema = match &reader.schema {
                    Ok(schema) => schema,
                    Err(text) => {
                        return Err(CodecError::Engine(text.clone()));
                    },
                };
                let partitioning = match &reader.partitioning {
                    Ok(partitioning) => partitioning,
                    Err(text) => {
                        return Err(CodecError::Engine(text.clone()));
                    },
                };
                let required = bytes_field_len(1, schema) + bytes_field_len(2, partitioning)
                    + uint_len(3, r.stage_id as u64);
                if required > remaining {
                    return Err(
                        CodecError::Capacity { node: "ray stage reader", required, remaining },
                    );
                }
                put_bytes(1, schema, buf);
                put_bytes(2, partitioning, buf);
                put_uint(3, r.stage_id as u64, buf);
                proof {
                    assert(buf@ =~= old(buf)@ + (bytes_field(1, schema@) + bytes_field(
                        2,
                        partitioning@,
                    ) + uint(3, r.stage_id as u64)));
                }
                Ok(())
            },
            ExecutionPlan::PartitionIsolator(p) => {
                let required = uint_len(2, p.partition_count as u64);
                if required > remaining {
                    return Err(
                        CodecError::Capacity { node: "partition isolator", required, remaining },
                    );
                }
                put_uint(2, p.partition_count as u64, buf);
                Ok(())
            },
            ExecutionPlan::MaxRows(m) => {
                let required = uint_len(1, m.max_rows as u64);
                if required > remaining {
                    return Err(CodecError::Capacity { node: "max rows", required, remaining });
                }
                put_uint(1, m.max_rows as u64, buf);
                Ok(())
            },
            ExecutionPlan::Prefetch(p) => {
                let required = uint_len(1, 1) + uint_len(2, p.buf_size as u64);
                if required > remaining {
                    return Err(CodecError::Capacity { node: "prefetch", required, remaining });
                }
                put_uint(1, 1, buf);
                put_uint(2, p.buf_size as u64, buf);
                proof {
                    assert(buf@ =~= old(buf)@ + (uint(1, 1) + uint(2, p.buf_size as u64)));
                }
                Ok(())
            },
            _ => Err(CodecError::NotSupported),
        }
    }
}

/// Bytes that start with a field that a message does not take are not that message.
proof fn lemma_refused_field(shape: ShapeView, tag: u32, wire_type: u64, rest: Seq<u8>)
    requires
        1 <= tag < 0x2000_0000,
        wire_type <= 5,
        read_value(shape, tag, wire_type, rest) is Err,
    ensures
        read_fields(shape, varint((8 * tag + wire_type) as nat) + rest) is Err,
{
    let key = varint((8 * tag + wire_type) as nat);
    let s = key + rest;
    lemma_key_round_trip(tag, wire_type, rest);
    lemma_field_within(shape, s);
    assert(s.skip(key.len() as int) =~= rest);
}

proof fn lemma_one_number(shape: ShapeView, tag: u32, value: u64)
    requires
        1 <= tag < 0x2000_0000,
        shape.field(tag) matches Some(f) && f.kind == FieldKind::Number,
    ensures
        read_fields(shape, uint(tag, value)) matches Ok(fields) && last_number(fields, tag)
            == value,
{
    lemma_uint_round_trip(shape, tag, value, seq![]);
    assert(uint(tag, value) + seq![] =~= uint(tag, value));
    let fields = read_fields(shape, uint(tag, value))->Ok_0;
    if value == 0 {
        assert(fields =~= seq![]);
    } else {
        assert(fields =~= seq![FieldView { tag, value: ValueView::Number(value) }]);
    }
}

/// Reading an isolator gives back what was written.
pub proof fn lemma_isolator_round_trip(
    input: Tree,
    partition_count: usize,
    reader: ReaderBytes,
    reply: ReaderReply,
)
    ensures
        encoded(isolator_tree(input, partition_count), reader) matches Ok(s) && decoded(
            s,
            seq![input],
            reply,
        ) == Ok::<Tree, Seq<char>>(isolator_tree(input, partition_count)),
{
    lemma_one_number(isolator_shape(), 2, partition_count as u64);
}

/// Reading a limit on rows gives back what was written. A limit of 0 rows, which no batch
/// meets, is left out: it takes no bytes, and those are the bytes of an isolator of 0
/// partitions.
pub proof fn lemma_max_rows_round_trip(
    input: Tree,
    max_rows: usize,
    reader: ReaderBytes,
    reply: ReaderReply,
)
    requires
        max_rows > 0,
    ensures
        encoded(max_rows_tree(input, max_rows), reader) matches Ok(s) && decoded(
            s,
            seq![input],
            reply,
        ) == Ok::<Tree, Seq<char>>(max_rows_tree(input, max_rows)),
{
    let value = max_rows as u64;
    lemma_refused_field(isolator_shape(), 1, VARINT, varint(value as nat));
    lemma_refused_field(reader_shape(), 1, VARINT, varint(value as nat));
    lemma_one_number(max_rows_shape(), 1, value);
    lemma_uint_round_trip(prefetch_shape(), 1, value, seq![]);
    assert(uint(1, value) + seq![] =~= uint(1, value));
    let a = FieldView { tag: 1, value: ValueView::Number(value) };
    let fields = read_fields(prefetch_shape(), uint(1, value))->Ok_0;
    assert(fields =~= seq![a]);
    assert(fields.drop_last() =~= seq![]);
    assert(last_number(fields.drop_last(), 2) == 0);
    assert(last_number(fields, 2) == 0);
}

/// Reading a reader gives back what was written, once the query engine reads its schema and
/// partitioning back. It is given exactly the bytes to read that it wrote.
pub proof fn lemma_reader_round_trip(
    stage_id: usize,
    schema: SchemaRef,
    partitions: usize,
    reader: ReaderBytes,
    reply: ReaderReply,
)
    requires
        reader.schema matches Ok(bytes) && bytes@.len() <= usize::MAX,
        reader.partitioning matches Ok(bytes) && bytes@.len() <= usize::MAX,
        reply matches ReaderReply::Parsed { schema: s, partitioning: Ok(Some(p)) } && s == schema
            && p.count() == partitions,
    ensures
        encoded(reader_tree(stage_id, schema, partitions), reader) matches Ok(s) && {
            &&& reader_node_of(s) == Some(
                ReaderNodeView {
                    schema: seq![reader.schema->Ok_0@],
                    partitioning: seq![reader.partitioning->Ok_0@],
                    stage_id: stage_id as u64,
                },
            )
            &&& forall|inputs: Seq<Tree>| #[trigger]
                decoded(s, inputs, reply) == Ok::<Tree, Seq<char>>(
                    reader_tree(stage_id, schema, partitions),
                )
        },
{
    let first = reader.schema->Ok_0@;
    let second = reader.partitioning->Ok_0@;
    let id = stage_id as u64;
    let shape = reader_shape();
    let third_bytes = uint(3, id);
    let tail = bytes_field(2, second) + third_bytes;
    let s = bytes_field(1, first) + bytes_field(2, second) + third_bytes;
    assert(s =~= bytes_field(1, first) + tail);
    lemma_bytes_round_trip(shape, 1, first, tail);
    lemma_bytes_round_trip(shape, 2, second, third_bytes);
    lemma_uint_round_trip(shape, 3, id, seq![]);
    assert(third_bytes + seq![] =~= third_bytes);
    let fields = read_fields(shape, s)->Ok_0;
    let a = FieldView { tag: 1, value: ValueView::Bytes(first) };
    let b = FieldView { tag: 2, value: ValueView::Bytes(second) };
    let c = FieldView { tag: 3, value: ValueView::Number(id) };
    assert(fields =~= if id == 0 {
        seq![a, b]
    } else {
        seq![a, b, c]
    });
    lemma_reader_fields(a, b, c, first, second, id);
    let len = varint(first.len());
    lemma_refused_field(isolator_shape(), 1, LENGTH_DELIMITED, len + first + tail);
    assert(s =~= varint((8 * 1 + LENGTH_DELIMITED) as nat) + (len + first + tail));
}

proof fn lemma_reader_fields(
    a: FieldView,
    b: FieldView,
    c: FieldView,
    first: Seq<u8>,
    second: Seq<u8>,
    id: u64,
)
    requires
        a == (FieldView { tag: 1, value: ValueView::Bytes(first) }),
        b == (FieldView { tag: 2, value: ValueView::Bytes(second) }),
        c == (FieldView { tag: 3, value: ValueView::Number(id) }),
    ensures
        all_bytes(seq![a, b], 1) == seq![first],
        all_bytes(seq![a, b], 2) == seq![second],
        last_number(seq![a, b], 3) == 0,
        all_bytes(seq![a, b, c], 1) == seq![first],
        all_bytes(seq![a, b, c], 2) == seq![second],
        last_number(seq![a, b, c], 3) == id,
{
    reveal_with_fuel(all_bytes, 4);
    reveal_with_fuel(last_number, 4);
    assert(seq![a, b, c].drop_last() =~= seq![a, b]);
    assert(seq![a, b].drop_last() =~= seq![a]);
    assert(seq![a].drop_last() =~= seq![]);
    assert(all_bytes(seq![a, b], 1) =~= seq![first]);
    assert(all_bytes(seq![a, b], 2) =~= seq![second]);
}

/// Reading a buffer gives back what was written. A buffer of no batches, which is never put
/// into a plan, is left out: its bytes are those of a limit of one row.
pub proof fn lemma_prefetch_round_trip(
    input: Tree,
    buf_size: usize,
    reader: ReaderBytes,
    reply: ReaderReply,
)
    requires
        buf_size > 0,
        input.inputs.len() == 1,
    ensures
        encoded(prefetch_tree(input, buf_size), reader) matches Ok(s) && decoded(
            s,
            seq![input],
            reply,
        ) == Ok::<Tree, Seq<char>>(prefetch_tree(input, buf_size)),
{
    let value = buf_size as u64;
    let shape = prefetch_shape();
    let second = uint(2, value);
    let s = uint(1, 1) + second;
    lemma_uint_round_trip(shape, 1, 1, second);
    lemma_uint_round_trip(shape, 2, value, seq![]);
    assert(second + seq![] =~= second);
    let a = FieldView { tag: 1, value: ValueView::Number(1) };
    let b = FieldView { tag: 2, value: ValueView::Number(value) };
    let fields = read_fields(shape, s)->Ok_0;
    assert(fields =~= seq![a, b]);
    assert(last_number(fields, 2) == value);
    let behind = varint(1) + second;
    assert(s =~= varint((8 * 1 + VARINT) as nat) + behind);
    lemma_refused_field(isolator_shape(), 1, VARINT, behind);
    lemma_refused_field(reader_shape(), 1, VARINT, behind);
}

/// What some bytes are read as is a node of this crate over the inputs that it was sent with:
/// a reader has none, and any other node is over the one input that there is.
pub proof fn lemma_decoded_over_inputs(s: Seq<u8>, inputs: Seq<Tree>, reply: ReaderReply)
    ensures
        decoded(s, inputs, reply) matches Ok(t) ==> match t.node {
            Node::StageReader { schema, partitions, .. } => t.inputs.len() == 0 && (
            reply matches ReaderReply::Parsed { schema: read, partitioning: Ok(Some(p)) } && schema
                == read && partitions == p.count()),
            Node::PartitionIsolator { .. } => inputs.len() == 1 && t.inputs == inputs,
            Node::MaxRows { .. } => inputs.len() == 1 && t.inputs == inputs,
            Node::Prefetch { .. } => inputs.len() == 1 && t.inputs == inputs
                && inputs[0].inputs.len() == 1,
            _ => false,
        },
{
    if inputs.len() == 1 {
        assert(inputs =~= seq![inputs[0]]);
    }
}

/// The nodes of this crate that stages have can be written, a reader only if the query engine
/// can write its parts. No other node can.
pub proof fn lemma_encoded_if_added(t: Tree, reader: ReaderBytes)
    ensures
        encoded(t, reader) is Ok <==> match t.node {
            Node::StageReader { .. } => reader.schema is Ok && reader.partitioning is Ok,
            Node::PartitionIsolator { .. } => true,
            Node::MaxRows { .. } => true,
            Node::Prefetch { .. } => true,
            _ => false,
        },
{
}

/// The bytes of a node. Its numbers are the fields of a message, and a number that is 0 is left
/// out. A reader's parts are the bytes that the query engine wrote. A buffer starts with a field
/// that an isolator does not have.
pub proof fn lemma_encoded_bytes(t: Tree, reader: ReaderBytes)
    ensures
        match t.node {
            Node::PartitionIsolator { partition_count } => encoded(t, reader) == Ok::<
                _,
                Seq<char>,
            >(if partition_count == 0 {
                seq![]
            } else {
                number_field(2, partition_count as u64)
            }),
            Node::MaxRows { max_rows } => encoded(t, reader) == Ok::<_, Seq<char>>(
                if max_rows == 0 {
                    seq![]
                } else {
                    number_field(1, max_rows as u64)
                },
            ),
            Node::Prefetch { buf_size } => encoded(t, reader) == Ok::<_, Seq<char>>(
                number_field(1, 1) + if buf_size == 0 {
                    seq![]
                } else {
                    number_field(2, buf_size as u64)
                },
            ),
            Node::StageReader { stage_id, .. } => reader.schema matches Ok(schema) ==> (
            reader.partitioning matches Ok(partitioning) ==> encoded(t, reader) == Ok::<
                _,
                Seq<char>,
            >(
                bytes_field(1, schema@) + bytes_field(2, partitioning@) + if stage_id == 0 {
                    seq![]
                } else {
                    number_field(3, stage_id as u64)
                },
            )),
            _ => encoded(t, reader) is Err,
        },
{
}

} // verus!
