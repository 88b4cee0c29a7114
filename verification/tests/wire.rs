use datafusion_ray::codec::{CodecError, DfRayStageReaderExecNode, RayCodec, ReaderBytes, ReaderReply};
use datafusion_ray::isolator::PartitionIsolatorExec;
use datafusion_ray::max_rows::MaxRowsExec;
use datafusion_ray::plan::{ExecutionPlan, OperatorExec, OperatorKind, Partitioning, SchemaRef};
use datafusion_ray::pre_fetch::PrefetchExec;
use datafusion_ray::stage_reader::DFRayStageReaderExec;
use datafusion_ray::ticket::{extract_ticket, FlightTicketData};
use datafusion_ray::wire::{take_fields, FieldKind, FieldShape, MessageShape, Value};

const SCHEMA_BYTES: [u8; 4] = [10, 2, 97, 98];
const PARTITIONING_BYTES: [u8; 2] = [24, 2];

fn reader(partitions: usize, stage_id: usize) -> ExecutionPlan {
    ExecutionPlan::StageReader(
        DFRayStageReaderExec::try_new(
            Partitioning::UnknownPartitioning(partitions),
            SchemaRef { id: 3 },
            stage_id,
        )
        .unwrap(),
    )
}

fn written() -> ReaderBytes {
    ReaderBytes {
        schema: Ok(SCHEMA_BYTES.to_vec()),
        partitioning: Ok(PARTITIONING_BYTES.to_vec()),
    }
}

fn parsed(partitions: usize) -> ReaderReply {
    ReaderReply::Parsed {
        schema: SchemaRef { id: 3 },
        partitioning: Ok(Some(Partitioning::UnknownPartitioning(partitions))),
    }
}

fn encode(plan: &ExecutionPlan) -> Vec<u8> {
    let mut buf = vec![];
    RayCodec {}.try_encode(plan, &written(), &mut buf).unwrap();
    buf
}

fn line(plan: &ExecutionPlan) -> String {
    match plan {
        ExecutionPlan::StageReader(r) => r.fmt_as(),
        ExecutionPlan::PartitionIsolator(p) => p.fmt_as(),
        ExecutionPlan::MaxRows(m) => m.fmt_as(),
        ExecutionPlan::Prefetch(p) => p.fmt_as(),
        other => panic!("not sent by this codec: {other:?}"),
    }
}

fn lines(plan: &ExecutionPlan) -> Vec<String> {
    let mut out = vec![line(plan)];
    for child in plan.children() {
        out.extend(lines(child));
    }
    out
}

/// Writes every node of a plan, and reads the plan back from its leaves.
fn round_trip(plan: &ExecutionPlan, partitions: usize) -> ExecutionPlan {
    let inputs = plan.children().into_iter().map(|c| round_trip(c, partitions)).collect();
    RayCodec {}.try_decode(&encode(plan), inputs, parsed(partitions)).unwrap()
}

#[test]
fn stage_reader_round_trip() {
    let exec = reader(2, 1);
    let codec = RayCodec {};
    let mut buf = vec![];
    codec.try_encode(&exec, &written(), &mut buf).unwrap();

    // the query engine is handed exactly what it wrote
    let node = DfRayStageReaderExecNode::decode(&buf).unwrap();
    assert_eq!(node.schema, vec![SCHEMA_BYTES.to_vec()]);
    assert_eq!(node.partitioning, vec![PARTITIONING_BYTES.to_vec()]);
    assert_eq!(node.stage_id, 1);

    let decoded = codec.try_decode(&buf, vec![], parsed(2)).unwrap();
    assert_eq!(exec.schema(), decoded.schema());
    assert_eq!(exec.partition_count(), decoded.partition_count());
}

#[test]
fn max_rows_and_reader_round_trip() {
    let exec = ExecutionPlan::MaxRows(MaxRowsExec::new(reader(2, 1), 10));
    let result_exec_plan = round_trip(&exec, 2);
    assert_eq!(lines(&exec), lines(&result_exec_plan));
}

#[test]
fn partition_isolator_round_trip() {
    let exec = ExecutionPlan::PartitionIsolator(PartitionIsolatorExec::new(reader(3, 1), 1));
    let round_tripped = round_trip(&exec, 3);
    assert_eq!(lines(&exec), lines(&round_tripped));
}

#[test]
fn nodes_have_these_bytes() {
    let isolator = ExecutionPlan::PartitionIsolator(PartitionIsolatorExec::new(reader(3, 1), 300));
    assert_eq!(encode(&isolator), vec![0x10, 0xac, 0x02]);
    let limit = ExecutionPlan::MaxRows(MaxRowsExec::new(reader(2, 1), 10));
    assert_eq!(encode(&limit), vec![0x08, 0x0a]);
    assert_eq!(
        encode(&reader(2, 5)),
        vec![0x0a, 4, 10, 2, 97, 98, 0x12, 2, 24, 2, 0x18, 5]
    );
    // a number that is 0 is left out
    assert_eq!(encode(&reader(2, 0)), vec![0x0a, 4, 10, 2, 97, 98, 0x12, 2, 24, 2]);
}

#[test]
fn encoding_appends() {
    let mut buf = vec![1, 2, 3];
    let limit = ExecutionPlan::MaxRows(MaxRowsExec::new(reader(2, 1), 10));
    RayCodec {}.try_encode(&limit, &written(), &mut buf).unwrap();
    assert_eq!(buf, vec![1, 2, 3, 0x08, 0x0a]);
}

#[test]
fn a_buffer_round_trips() {
    for buf_size in [1, 4, 300] {
        let limit = ExecutionPlan::MaxRows(MaxRowsExec::new(reader(2, 1), 10));
        let buffer = ExecutionPlan::Prefetch(PrefetchExec::new(limit, buf_size));
        let read_back = round_trip(&buffer, 2);
        assert_eq!(lines(&buffer), lines(&read_back));
        assert_eq!(buffer.partition_count(), read_back.partition_count());
        assert!(matches!(read_back, ExecutionPlan::Prefetch(p) if p.buf_size == buf_size));
    }
    let limit = ExecutionPlan::MaxRows(MaxRowsExec::new(reader(2, 1), 10));
    let buffer = ExecutionPlan::Prefetch(PrefetchExec::new(limit, 4));
    assert_eq!(encode(&buffer), vec![0x08, 1, 0x10, 4]);
}

#[test]
fn an_isolator_under_a_buffer_round_trips() {
    let isolator = ExecutionPlan::PartitionIsolator(PartitionIsolatorExec::new(reader(4, 1), 2));
    let limit = ExecutionPlan::MaxRows(MaxRowsExec::new(isolator, 1));
    let buffer = ExecutionPlan::Prefetch(PrefetchExec::new(limit, 1));
    assert_eq!(lines(&buffer), lines(&round_trip(&buffer, 4)));
}

#[test]
fn a_buffer_of_no_batches_is_read_as_a_limit() {
    let limit = ExecutionPlan::MaxRows(MaxRowsExec::new(reader(2, 1), 10));
    let bytes = encode(&ExecutionPlan::Prefetch(PrefetchExec::new(limit, 0)));
    assert_eq!(bytes, vec![0x08, 1]);
    let plan = RayCodec {}.try_decode(&bytes, vec![reader(2, 1)], ReaderReply::Malformed).unwrap();
    assert!(matches!(plan, ExecutionPlan::MaxRows(m) if m.max_rows == 1));
}

#[test]
fn a_limit_of_no_rows_is_read_as_an_isolator() {
    let bytes = encode(&ExecutionPlan::MaxRows(MaxRowsExec::new(reader(2, 1), 0)));
    assert!(bytes.is_empty());
    let plan = RayCodec {}.try_decode(&bytes, vec![reader(2, 1)], ReaderReply::Malformed).unwrap();
    assert!(matches!(plan, ExecutionPlan::PartitionIsolator(p) if p.partition_count == 0));
}

#[test]
fn nodes_of_the_query_engine_are_not_written() {
    let operator = ExecutionPlan::Operator(OperatorExec {
        kind: OperatorKind::Other,
        id: 0,
        partition_count: 1,
        schema: SchemaRef { id: 0 },
        inputs: vec![],
    });
    let mut buf = vec![7];
    let e = RayCodec {}.try_encode(&operator, &written(), &mut buf).unwrap_err();
    assert!(matches!(e, CodecError::NotSupported));
    assert_eq!(e.message(), "Not supported");
    assert_eq!(buf, vec![7]);
}

#[test]
fn what_the_query_engine_cannot_write_is_reported() {
    let mut buf = vec![];
    let bad = ReaderBytes { schema: Err("no such type".to_string()), partitioning: Ok(vec![]) };
    let e = RayCodec {}.try_encode(&reader(1, 1), &bad, &mut buf).unwrap_err();
    assert_eq!(e.message(), "no such type");
    let bad = ReaderBytes { schema: Ok(vec![]), partitioning: Err("no such scheme".to_string()) };
    let e = RayCodec {}.try_encode(&reader(1, 1), &bad, &mut buf).unwrap_err();
    assert_eq!(e.message(), "no such scheme");
    assert!(buf.is_empty());
    // the other nodes have nothing that the query engine would write
    let bad = ReaderBytes { schema: Err("no such type".to_string()), partitioning: Ok(vec![]) };
    let limit = ExecutionPlan::MaxRows(MaxRowsExec::new(reader(2, 1), 10));
    RayCodec {}.try_encode(&limit, &bad, &mut buf).unwrap();
    assert_eq!(buf, vec![0x08, 0x0a]);
}

fn decode_error(buf: &[u8], inputs: Vec<ExecutionPlan>, reply: ReaderReply) -> String {
    match (RayCodec {}).try_decode(buf, inputs, reply) {
        Err(e) => e.message(),
        Ok(plan) => panic!("expected an error, got {plan:?}"),
    }
}

#[test]
fn nodes_need_their_one_input() {
    assert_eq!(
        decode_error(&[0x10, 4], vec![], ReaderReply::Malformed),
        "PartitionIsolatorExec requires one input"
    );
    assert_eq!(
        decode_error(&[0x08, 10], vec![reader(1, 1), reader(1, 2)], ReaderReply::Malformed),
        "MaxRowsExec requires one input, got 2"
    );
    assert_eq!(
        decode_error(&[0x08, 1, 0x10, 4], vec![], ReaderReply::Malformed),
        "MaxRowsExec requires one input, got 0"
    );
    // what a buffer is over has one input itself
    assert_eq!(
        decode_error(&[0x08, 1, 0x10, 4], vec![reader(1, 1)], ReaderReply::Malformed),
        "PrefetchExec must have exactly one input"
    );
}

#[test]
fn a_reader_needs_its_parts() {
    let bytes = encode(&reader(2, 1));
    assert_eq!(
        decode_error(&bytes, vec![], ReaderReply::BadSchema("bad schema".to_string())),
        "bad schema"
    );
    let schema = SchemaRef { id: 0 };
    let missing = ReaderReply::Parsed { schema, partitioning: Ok(None) };
    assert_eq!(decode_error(&bytes, vec![], missing), "missing partitioning in proto");
    let bad = ReaderReply::Parsed { schema, partitioning: Err("bad scheme".to_string()) };
    assert_eq!(decode_error(&bytes, vec![], bad), "bad scheme");
    // the partitioning alone: field 2 with bytes, so neither an isolator nor a limit
    assert_eq!(decode_error(&[0x12, 1, 0], vec![], parsed(1)), "missing schema in proto");
}

#[test]
fn bytes_of_no_node_are_reported() {
    assert_eq!(
        decode_error(&[0xff, 0xff, 0xff], vec![], ReaderReply::Malformed),
        "Should not reach this point"
    );
    // the bytes of a reader that the query engine cannot read are no other node's
    let bytes = encode(&reader(2, 1));
    assert_eq!(
        decode_error(&bytes, vec![], ReaderReply::Malformed),
        "Should not reach this point"
    );
}

#[test]
fn a_full_buffer_is_reported_in_words() {
    let e = CodecError::Capacity { node: "max rows", required: 2, remaining: 1 };
    assert_eq!(
        e.message(),
        "can't encode max rows pb: failed to encode Protobuf message; insufficient buffer \
         capacity (required: 2, remaining: 1)"
    );
}

#[test]
fn tickets_round_trip() {
    for partition in [0u64, 1, 127, 128, 300, u32::MAX as u64] {
        for dummy in [false, true] {
            let ticket = FlightTicketData { dummy, partition };
            let bytes = ticket.encode_to_vec();
            assert_eq!(FlightTicketData::decode(&bytes), Ok(ticket));
            assert_eq!(extract_ticket(&bytes), Ok(partition as usize));
        }
    }
    assert_eq!(
        FlightTicketData { dummy: true, partition: 300 }.encode_to_vec(),
        vec![0x08, 1, 0x10, 0xac, 0x02]
    );
    let all = FlightTicketData { dummy: false, partition: u64::MAX };
    assert_eq!(FlightTicketData::decode(&all.encode_to_vec()), Ok(all));
}

#[test]
fn the_last_of_several_partitions_counts() {
    assert_eq!(extract_ticket(&[0x10, 1, 0x10, 9]), Ok(9));
}

#[test]
fn fields_that_a_ticket_does_not_have_are_skipped() {
    // a number, eight bytes, bytes behind their length, a group, and four bytes
    let mut bytes = vec![0x18, 0x96, 0x01];
    bytes.extend([0x21, 1, 2, 3, 4, 5, 6, 7, 8]);
    bytes.extend([0x2a, 3, 1, 2, 3]);
    bytes.extend([0x33, 0x08, 0x07, 0x34]);
    bytes.extend([0x3d, 1, 2, 3, 4]);
    bytes.extend([0x10, 6]);
    assert_eq!(extract_ticket(&bytes), Ok(6));
}

#[test]
fn malformed_tickets_say_why() {
    assert_eq!(
        extract_ticket(&[0x10]).unwrap_err(),
        "failed to decode Protobuf message: FlightTicketData.partition: invalid varint"
    );
    assert_eq!(
        extract_ticket(&[0x12, 0]).unwrap_err(),
        "failed to decode Protobuf message: FlightTicketData.partition: invalid wire type: \
         LengthDelimited (expected Varint)"
    );
    // no key at all, a field numbered 0, a wire type that is none
    assert_eq!(
        extract_ticket(&[0xff, 0xff, 0xff]).unwrap_err(),
        "failed to decode Protobuf message: invalid varint"
    );
    assert_eq!(
        extract_ticket(&[0x00]).unwrap_err(),
        "failed to decode Protobuf message: invalid tag value: 0"
    );
    assert_eq!(
        extract_ticket(&[0x0e]).unwrap_err(),
        "failed to decode Protobuf message: invalid wire type value: 6"
    );
    // a field that ends too early, and a group that was not opened
    assert_eq!(
        extract_ticket(&[0x1d, 1, 2]).unwrap_err(),
        "failed to decode Protobuf message: buffer underflow"
    );
    assert_eq!(
        extract_ticket(&[0x1c]).unwrap_err(),
        "failed to decode Protobuf message: unexpected end group tag"
    );
}

fn shape() -> MessageShape {
    MessageShape {
        name: "Sample",
        fields: vec![
            FieldShape { name: "word", kind: FieldKind::Word },
            FieldShape { name: "bytes", kind: FieldKind::Bytes },
        ],
    }
}

#[test]
fn fields_are_read_in_order() {
    let fields = take_fields(&shape(), &[0x0d, 1, 2, 3, 4, 0x12, 2, 8, 9]).unwrap();
    assert_eq!(fields.len(), 2);
    assert_eq!(fields[0].tag, 1);
    assert!(matches!(fields[0].value, Value::Word));
    assert_eq!(fields[1].tag, 2);
    assert!(matches!(&fields[1].value, Value::Bytes(b) if b == &vec![8, 9]));
}

#[test]
fn fields_of_another_kind_are_refused() {
    assert_eq!(
        take_fields(&shape(), &[0x08, 1]).unwrap_err(),
        "failed to decode Protobuf message: Sample.word: invalid wire type: Varint (expected \
         ThirtyTwoBit)"
    );
    assert_eq!(
        take_fields(&shape(), &[0x12, 3, 1]).unwrap_err(),
        "failed to decode Protobuf message: Sample.bytes: buffer underflow"
    );
}

#[test]
fn numbers_end_where_they_say() {
    // ten bytes hold 64 bits and no more
    let mut bytes = vec![0x10];
    bytes.extend([0xff; 9]);
    bytes.push(0x01);
    assert_eq!(FlightTicketData::decode(&bytes).unwrap().partition, u64::MAX);
    *bytes.last_mut().unwrap() = 0x02;
    assert!(FlightTicketData::decode(&bytes).is_err());
}
