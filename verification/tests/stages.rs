use datafusion_ray::codec::{RayCodec, ReaderBytes, ReaderReply};
use datafusion_ray::dataframe::{
    build_replacement, build_stages, is_splittable, next_stream, DFRayDataFrame, IterationEnd,
    PyDFRayStage, Sizing,
};
use datafusion_ray::isolator::PartitionIsolatorExec;
use datafusion_ray::max_rows::MaxRowsExec;
use datafusion_ray::physical::RayStageOptimizerRule;
use datafusion_ray::plan::{
    CoalesceBatchesExec, ExecutionPlan, OperatorExec, OperatorKind, Partitioning, SchemaRef,
};
use datafusion_ray::pre_fetch::PrefetchExec;
use datafusion_ray::pyerr::{PyDataFusionError, Raised};
use datafusion_ray::stage::StageError;

fn operator(kind: OperatorKind, id: usize, count: usize, inputs: Vec<ExecutionPlan>) -> ExecutionPlan {
    ExecutionPlan::Operator(OperatorExec {
        kind,
        id,
        partition_count: count,
        schema: SchemaRef { id: 0 },
        inputs,
    })
}

/// The plan of "select k, count(*) from t group by k order by k" over three partitions.
fn grouped_and_sorted() -> ExecutionPlan {
    let scan = operator(OperatorKind::Other, 0, 3, vec![]);
    let partial = operator(OperatorKind::Other, 1, 3, vec![scan]);
    let repartition = operator(OperatorKind::Repartition, 2, 3, vec![partial]);
    let aggregate = operator(OperatorKind::Other, 3, 3, vec![repartition]);
    let projection = operator(OperatorKind::Other, 4, 3, vec![aggregate]);
    let sort = operator(OperatorKind::Sort, 5, 3, vec![projection]);
    operator(OperatorKind::Other, 6, 1, vec![sort])
}

fn marked(plan: ExecutionPlan) -> ExecutionPlan {
    RayStageOptimizerRule::new().optimize(plan).unwrap()
}

fn shown(plan: &ExecutionPlan) -> String {
    format!("{:?}", plan)
}

fn marker_ids(plan: &ExecutionPlan, ids: &mut Vec<usize>) {
    for child in plan.children() {
        marker_ids(child, ids);
    }
    if let ExecutionPlan::Stage(stage) = plan {
        ids.push(stage.stage_id);
    }
}

/// Puts the stages in the places of their readers and leaves out the added nodes.
fn restored(plan: &ExecutionPlan, stages: &[PyDFRayStage]) -> ExecutionPlan {
    match plan {
        ExecutionPlan::StageReader(reader) => restored(&stages[reader.stage_id].plan, stages),
        ExecutionPlan::Operator(o) => operator(
            o.kind,
            o.id,
            o.partition_count,
            o.inputs.iter().map(|i| restored(i, stages)).collect(),
        ),
        other => restored(other.children()[0], stages),
    }
}

#[test]
fn last_stage_is_coalesced_to_one_partition() {
    let (stages, reader) = build_stages(marked(grouped_and_sorted()), 8192, 0, Some(2)).unwrap();

    let last = stages.last().unwrap();
    assert_eq!(last.num_output_partitions(), 1, "driver reads one partition");
    assert!(last.full_partitions, "last stage hosts complete partitions");
    assert_eq!(last.partition_groups, vec![vec![0]]);
    // the reader the driver consumes is wired to the last stage
    assert_eq!(reader.partition_count(), 1);
    assert!(matches!(&reader, ExecutionPlan::StageReader(r) if r.stage_id == last.stage_id));
}

#[test]
fn stages_are_numbered_and_linked_child_to_parent() {
    let (stages, _) = build_stages(marked(grouped_and_sorted()), 8192, 0, Some(2)).unwrap();

    assert!(stages.len() >= 2, "a repartition and a sort should both split");
    let ids: Vec<usize> = stages.iter().map(|s| s.stage_id).collect();
    let mut sorted = ids.clone();
    sorted.sort_unstable();
    sorted.dedup();
    assert_eq!(ids, sorted, "stage ids are unique and ascending");

    // every stage but the first consumes the one below it
    for w in stages.windows(2) {
        let children = w[1].child_stage_ids().unwrap();
        assert!(
            children.contains(&w[0].stage_id),
            "stage {} should read stage {}, got {children:?}",
            w[1].stage_id,
            w[0].stage_id
        );
    }
}

#[test]
fn isolator_is_inserted_only_when_partitions_span_processors() {
    let split = build_stages(marked(grouped_and_sorted()), 8192, 0, Some(2)).unwrap().0;
    assert!(
        split.iter().any(|s| shown(&s.plan).contains("PartitionIsolatorExec")),
        "two groups over three partitions needs an isolator"
    );
    assert_eq!(split[0].partition_groups, vec![vec![0, 1], vec![2]]);

    let whole = build_stages(marked(grouped_and_sorted()), 8192, 0, Some(3)).unwrap().0;
    assert!(
        !whole.iter().any(|s| shown(&s.plan).contains("PartitionIsolatorExec")),
        "a single group per stage must not be isolated"
    );
    assert_eq!(whole[0].partition_groups, vec![vec![0, 1, 2]]);

    let none = build_stages(marked(grouped_and_sorted()), 8192, 0, None).unwrap().0;
    assert_eq!(none[0].partition_groups, vec![vec![0, 1, 2]]);
}

#[test]
fn prefetch_is_inserted_only_when_a_buffer_is_requested() {
    let off = build_stages(marked(grouped_and_sorted()), 8192, 0, Some(2)).unwrap().0;
    assert!(!off.iter().any(|s| shown(&s.plan).contains("PrefetchExec")));

    let on = build_stages(marked(grouped_and_sorted()), 8192, 4, Some(2)).unwrap().0;
    assert!(on.iter().any(|s| shown(&s.plan).contains("PrefetchExec")));
}

fn added_bytes(plan: &ExecutionPlan, buf: &mut Vec<u8>) {
    let reader = ReaderBytes { schema: Ok(vec![1]), partitioning: Ok(vec![2]) };
    // what is not added by this crate is not this codec's to write
    let codec = RayCodec {};
    if codec.try_encode(plan, &reader, buf).is_err() {
        assert!(matches!(
            plan,
            ExecutionPlan::Operator(_) | ExecutionPlan::CoalesceBatches(_)
        ));
    }
    for child in plan.children() {
        added_bytes(child, buf);
    }
}

#[test]
fn every_stage_round_trips_through_the_codec() {
    let (stages, _) = build_stages(marked(grouped_and_sorted()), 8192, 2, Some(2)).unwrap();

    // this is what actually crosses the wire to each processor
    for s in &stages {
        let mut bytes = vec![];
        added_bytes(&s.plan, &mut bytes);
        assert!(!bytes.is_empty(), "stage {} serialized empty", s.stage_id);
        assert_eq!(shown(&read_back(&s.plan)), shown(&s.plan), "stage {}", s.stage_id);
    }
}

/// A plan as the other side reads it. The query engine's own operators come back as they are.
fn read_back(plan: &ExecutionPlan) -> ExecutionPlan {
    let mut inputs: Vec<ExecutionPlan> = plan.children().into_iter().map(read_back).collect();
    match plan {
        ExecutionPlan::Operator(o) => operator(o.kind, o.id, o.partition_count, inputs),
        ExecutionPlan::CoalesceBatches(c) => ExecutionPlan::CoalesceBatches(CoalesceBatchesExec {
            input: Box::new(inputs.remove(0)),
            target_batch_size: c.target_batch_size,
        }),
        added => {
            let written = ReaderBytes { schema: Ok(vec![1]), partitioning: Ok(vec![2]) };
            let mut bytes = vec![];
            RayCodec {}.try_encode(added, &written, &mut bytes).unwrap();
            let reply = ReaderReply::Parsed {
                schema: SchemaRef { id: 0 },
                partitioning: Ok(Some(Partitioning::UnknownPartitioning(added.partition_count()))),
            };
            RayCodec {}.try_decode(&bytes, inputs, reply).unwrap()
        }
    }
}

#[test]
fn the_nodes_of_a_replacement_are_read_back() {
    for buffer in [0, 1, 3] {
        let plan = OperatorExec {
            kind: OperatorKind::Repartition,
            id: 7,
            partition_count: 4,
            schema: SchemaRef { id: 0 },
            inputs: vec![operator(OperatorKind::Other, 8, 5, vec![])],
        };
        let (_, replacement) = build_replacement(plan, buffer, Some(2), true, 1, 50);
        assert!(shown(&replacement).contains("PartitionIsolatorExec"));
        assert_eq!(shown(&replacement).contains("PrefetchExec"), buffer > 0);
        assert_eq!(shown(&read_back(&replacement)), shown(&replacement));
    }
}

#[test]
fn what_cannot_be_split_is_told_apart() {
    let sizing = |partitions_per_worker: Option<usize>| Sizing {
        batch_size: 8192,
        prefetch_buffer_size: 2,
        partitions_per_worker,
    };
    let plan = marked(grouped_and_sorted());
    assert!(is_splittable(&plan, sizing(None)));
    assert!(is_splittable(&plan, sizing(Some(2))));
    // partitions cannot be dealt out in groups of none
    assert!(!is_splittable(&plan, sizing(Some(0))));
    let leaf = operator(OperatorKind::Other, 0, 1, vec![]);
    assert!(is_splittable(&leaf, sizing(Some(0))));
    // a repartition needs what it repartitions
    let alone = operator(OperatorKind::Repartition, 0, 1, vec![]);
    assert!(!is_splittable(&operator(OperatorKind::Other, 1, 1, vec![alone]), sizing(None)));
    // a buffer right above a stage marker would be left without the input that it needs
    let limit = ExecutionPlan::MaxRows(MaxRowsExec::new(leaf, 5));
    let buffer = ExecutionPlan::Prefetch(PrefetchExec::new(limit, 2));
    assert!(is_splittable(&buffer, sizing(None)));
    let buffer = ExecutionPlan::Prefetch(PrefetchExec::new(plan, 2));
    assert!(!is_splittable(&buffer, sizing(None)));
}

#[test]
fn only_plans_without_markers_are_hosted() {
    assert!(grouped_and_sorted().is_unmarked());
    assert!(!marked(grouped_and_sorted()).is_unmarked());
    let iso = PartitionIsolatorExec::new(marked(grouped_and_sorted()), 1);
    assert!(!ExecutionPlan::PartitionIsolator(iso).is_unmarked());
    let (stages, reader) = build_stages(marked(grouped_and_sorted()), 8192, 2, Some(2)).unwrap();
    assert!(reader.is_unmarked());
    assert!(stages.iter().all(|s| s.plan.is_unmarked() && s.plan.is_well_formed()));
}

#[test]
fn a_plan_with_no_stage_markers_is_rejected() {
    // no RayStageOptimizerRule, so no DFRayStageExec markers are inserted
    let plan = operator(OperatorKind::Other, 0, 1, vec![]);
    match build_stages(plan, 8192, 0, None) {
        Err(e) => assert!(e.message().contains("No stages found"), "got: {e:?}"),
        Ok((stages, _)) => panic!("expected an error, got {} stages", stages.len()),
    }
}

#[test]
fn stages_hands_back_the_stages_and_keeps_the_reader_plan() {
    let mut df = DFRayDataFrame::new();
    assert!(df.final_plan.is_none());
    let stages = df.stages(marked(grouped_and_sorted()), 8192, 0, Some(2)).unwrap();
    assert!(stages.len() >= 2);
    assert!(df.final_plan.is_some(), "stages() records the reader plan");

    // the accessors python reads off each stage
    let last = stages.last().unwrap();
    assert!(last.child_stage_ids().unwrap().len() <= stages.len());
    assert!(shown(&last.plan).contains("RayStageReaderExec"));

    // the first stage reads files, not another stage
    assert!(stages[0].child_stage_ids().unwrap().is_empty());
}

#[test]
fn a_stream_iterates_then_raises_stop_iteration() {
    let first = next_stream(Some(Ok(vec![1, 2, 3])), true).unwrap();
    assert_eq!(first.len(), 3);
    let none: Option<Result<Vec<i32>, String>> = None;
    assert!(
        matches!(
            next_stream(none, true),
            Err(IterationEnd::StopIteration("stream exhausted"))
        ),
        "exhaustion must end a for loop"
    );
}

#[test]
fn an_asynchronous_stream_ends_with_its_own_exception() {
    let none: Option<Result<Vec<i32>, String>> = None;
    assert!(matches!(
        next_stream(none, false),
        Err(IterationEnd::StopAsyncIteration("stream exhausted"))
    ));
}

#[test]
fn a_stream_error_surfaces_as_a_python_exception() {
    let item: Option<Result<Vec<i32>, String>> = Some(Err("Internal error: boom".to_string()));
    match next_stream(item, true) {
        Err(IterationEnd::Failed(e)) => match e.raised() {
            Raised::Exception(text) => assert!(text.contains("boom"), "got: {text}"),
            Raised::Same => panic!("no Python exception was met"),
        },
        other => panic!("expected a failure, got {other:?}"),
    }
}

#[test]
fn errors_are_shown_with_where_they_come_from() {
    let boom = || "boom".to_string();
    assert_eq!(PyDataFusionError::ExecutionError(boom()).message(), "DataFusion error: boom");
    assert_eq!(PyDataFusionError::ArrowError(boom()).message(), "Arrow error: boom");
    assert_eq!(PyDataFusionError::PythonError(boom()).message(), "Python error boom");
    assert_eq!(PyDataFusionError::Common(boom()).message(), "boom");
    assert!(matches!(PyDataFusionError::PythonError(boom()).raised(), Raised::Same));
}

#[test]
fn the_final_stage_is_read_once_from_its_first_partition() {
    let mut df = DFRayDataFrame::new();
    let stages = df.stages(marked(grouped_and_sorted()), 8192, 0, None).unwrap();
    let last = stages.last().unwrap().stage_id;
    let read = df.read_final_stage(last, "10.0.0.1:4000");
    assert_eq!(read.stage_id, last);
    assert_eq!(read.partition, 0);
    assert_eq!(read.addr, "10.0.0.1:4000");
    assert!(matches!(read.plan, ExecutionPlan::StageReader(_)));
    assert!(df.final_plan.is_none());
}

#[test]
fn a_failed_split_keeps_the_reader_plan() {
    let mut df = DFRayDataFrame::new();
    df.stages(marked(grouped_and_sorted()), 8192, 0, None).unwrap();
    let unmarked = operator(OperatorKind::Other, 0, 1, vec![]);
    assert_eq!(df.stages(unmarked, 8192, 0, None).unwrap_err(), StageError::NoStages);
    assert!(df.final_plan.is_some());
}

#[test]
fn a_last_stage_of_several_partitions_is_rejected() {
    let plan = marked(operator(OperatorKind::Other, 0, 2, vec![]));
    let e = build_stages(plan, 8192, 0, None).unwrap_err();
    assert_eq!(e, StageError::LastStagePartitions);
    assert_eq!(e.message(), "Last stage expected to have one partition");
}

#[test]
fn a_replacement_limits_and_buffers_its_operator() {
    let plan = OperatorExec {
        kind: OperatorKind::Repartition,
        id: 7,
        partition_count: 4,
        schema: SchemaRef { id: 1 },
        inputs: vec![operator(OperatorKind::Other, 8, 5, vec![])],
    };
    let (groups, replacement) = build_replacement(plan, 3, Some(2), true, 100, 50);
    assert_eq!(groups, vec![vec![0, 1], vec![2, 3], vec![4]]);
    assert_eq!(replacement.partition_count(), 4);
    let prefetch = match replacement {
        ExecutionPlan::Prefetch(p) => p,
        other => panic!("expected a buffer, got {other:?}"),
    };
    assert_eq!(prefetch.buf_size, 3);
    let limit = match *prefetch.input {
        ExecutionPlan::MaxRows(m) => m,
        other => panic!("expected a limit, got {other:?}"),
    };
    assert_eq!(limit.max_rows, 100);
    let coalesce = match *limit.input {
        ExecutionPlan::CoalesceBatches(c) => c,
        other => panic!("expected a coalesce, got {other:?}"),
    };
    assert_eq!(coalesce.target_batch_size, 50);
    let repartition = match *coalesce.input {
        ExecutionPlan::Operator(o) => o,
        other => panic!("expected the operator, got {other:?}"),
    };
    assert_eq!(repartition.id, 7);
    assert_eq!(repartition.inputs[0].partition_count(), 2);
    assert!(matches!(&repartition.inputs[0], ExecutionPlan::PartitionIsolator(_)));
}

#[test]
fn a_sort_is_never_isolated() {
    let plan = OperatorExec {
        kind: OperatorKind::Sort,
        id: 7,
        partition_count: 5,
        schema: SchemaRef { id: 1 },
        inputs: vec![operator(OperatorKind::Other, 8, 5, vec![])],
    };
    let (groups, replacement) = build_replacement(plan, 0, Some(2), false, 10, 10);
    assert_eq!(groups, vec![vec![0, 1], vec![2, 3], vec![4]]);
    assert!(!shown(&replacement).contains("PartitionIsolatorExec"));
    assert!(!shown(&replacement).contains("PrefetchExec"));
}

#[test]
fn a_nested_loop_join_is_hosted_whole() {
    let left = operator(OperatorKind::Other, 0, 2, vec![]);
    let right = operator(OperatorKind::Other, 1, 4, vec![]);
    let join = operator(OperatorKind::NestedLoopJoin, 2, 4, vec![left, right]);
    let merge = operator(OperatorKind::Other, 3, 1, vec![join]);
    let (stages, _) = build_stages(marked(merge), 8192, 0, Some(2)).unwrap();
    assert_eq!(stages.len(), 2);
    assert_eq!(stages[0].partition_groups(), vec![vec![0, 1, 2, 3]]);
    assert!(stages[0].full_partitions());
    assert_eq!(stages[1].child_stage_ids().unwrap(), vec![0]);
}

#[test]
fn stages_are_shared_as_their_own_operator_says() {
    let stages = build_stages(marked(grouped_and_sorted()), 8192, 0, Some(2)).unwrap().0;
    // a repartition spreads every partition over all processors, a sort does not
    assert!(!stages[0].full_partitions);
    assert!(stages[1].full_partitions);
    assert_eq!(stages[1].partition_groups, vec![vec![0, 1], vec![2]]);
}

#[test]
fn a_join_reads_the_stages_of_both_sides() {
    let left = operator(OperatorKind::Repartition, 1, 3, vec![operator(OperatorKind::Other, 0, 2, vec![])]);
    let right = operator(OperatorKind::Repartition, 3, 3, vec![operator(OperatorKind::Other, 2, 5, vec![])]);
    let join = operator(OperatorKind::Other, 4, 3, vec![left, right]);
    let merge = operator(OperatorKind::Other, 5, 1, vec![join]);
    let stages = build_stages(marked(merge), 8192, 0, Some(2)).unwrap().0;
    let ids: Vec<usize> = stages.iter().map(|s| s.stage_id()).collect();
    assert_eq!(ids, vec![0, 1, 2]);
    assert_eq!(stages[0].partition_groups, vec![vec![0, 1]]);
    assert_eq!(stages[1].partition_groups, vec![vec![0, 1], vec![2, 3], vec![4]]);
    assert_eq!(stages[2].child_stage_ids().unwrap(), vec![0, 1]);
}

#[test]
fn the_stages_make_up_the_plan() {
    let (stages, reader) = build_stages(marked(grouped_and_sorted()), 8192, 2, Some(2)).unwrap();
    assert_eq!(shown(&restored(&reader, &stages)), shown(&grouped_and_sorted()));
    for stage in &stages {
        let mut ids = vec![];
        marker_ids(&stage.plan, &mut ids);
        assert!(ids.is_empty(), "a marker was left in stage {}", stage.stage_id);
    }
}

fn isolators(plan: &ExecutionPlan) -> usize {
    let below: usize = plan.children().into_iter().map(isolators).sum();
    below + usize::from(matches!(plan, ExecutionPlan::PartitionIsolator(_)))
}

#[test]
fn every_kind_of_stage_is_shared_in_its_own_way() {
    let scan = operator(OperatorKind::Other, 0, 5, vec![]);
    let repartition = operator(OperatorKind::Repartition, 1, 3, vec![scan]);
    let sort = operator(OperatorKind::Sort, 2, 3, vec![repartition]);
    let other = operator(OperatorKind::Other, 3, 4, vec![]);
    let join = operator(OperatorKind::NestedLoopJoin, 4, 4, vec![sort, other]);
    let merge = operator(OperatorKind::Other, 5, 1, vec![join]);
    let stages = build_stages(marked(merge), 8192, 2, Some(2)).unwrap().0;
    let full: Vec<bool> = stages.iter().map(|s| s.full_partitions).collect();
    assert_eq!(full, vec![false, true, true, true]);
    assert_eq!(stages[0].partition_groups, vec![vec![0, 1], vec![2, 3], vec![4]]);
    assert_eq!(stages[1].partition_groups, vec![vec![0, 1], vec![2]]);
    assert_eq!(stages[2].partition_groups, vec![vec![0, 1, 2, 3]]);
    assert_eq!(stages[3].partition_groups, vec![vec![0]]);
    let counts: Vec<usize> = stages.iter().map(|s| isolators(&s.plan)).collect();
    assert_eq!(counts, vec![1, 0, 0, 0]);
}
