use datafusion_ray::context::{
    context_settings, execution_settings, listing_path, planning_settings, Setting,
};
use datafusion_ray::isolator::{IsolatedRead, IsolatorError, PartitionGroup, PartitionIsolatorExec};
use datafusion_ray::max_rows::{BatchSlice, MaxRowsExec};
use datafusion_ray::plan::{ExecutionPlan, OperatorExec, OperatorKind, Partitioning, SchemaRef};
use datafusion_ray::pre_fetch::PrefetchExec;
use datafusion_ray::stage_reader::DFRayStageReaderExec;

/// A source with `n` partitions.
fn source(n: usize) -> ExecutionPlan {
    ExecutionPlan::Operator(OperatorExec {
        kind: OperatorKind::Other,
        id: 0,
        partition_count: n,
        schema: SchemaRef { id: 4 },
        inputs: vec![],
    })
}

fn read(iso: &PartitionIsolatorExec, partition: usize, group: Vec<usize>) -> Vec<usize> {
    match iso.execute(partition, Some(&PartitionGroup(group))).unwrap() {
        IsolatedRead::Input(actual) => vec![actual],
        IsolatedRead::Empty => vec![],
    }
}

#[test]
fn advertises_only_the_partitions_a_processor_will_serve() {
    let iso = PartitionIsolatorExec::new(source(4), 2);
    assert_eq!(iso.name(), "PartitionIsolatorExec");
    assert!(iso.fmt_as().contains("providing upto 2"));
    assert_eq!(iso.fmt_as(), "PartitionIsolatorExec [providing upto 2 partitions]");
    let iso = ExecutionPlan::PartitionIsolator(iso);
    assert_eq!(iso.partition_count(), 2);
    assert_eq!(iso.children().len(), 1);
}

#[test]
fn maps_output_partitions_onto_the_partition_group() {
    let iso = PartitionIsolatorExec::new(source(4), 2);
    assert_eq!(read(&iso, 0, vec![2, 3]), vec![2]);
    assert_eq!(read(&iso, 1, vec![2, 3]), vec![3]);
    assert_eq!(read(&iso, 0, vec![0, 1]), vec![0]);
}

#[test]
fn slots_beyond_the_group_are_empty() {
    let iso = PartitionIsolatorExec::new(source(4), 2);
    assert_eq!(read(&iso, 0, vec![3]), vec![3]);
    assert!(read(&iso, 1, vec![3]).is_empty());
}

#[test]
fn execute_needs_the_partition_group_extension() {
    let iso = PartitionIsolatorExec::new(source(2), 1);
    match iso.execute(0, None) {
        Err(e) => assert!(e.message().contains("PartitionGroup"), "got: {e:?}"),
        Ok(_) => panic!("expected the missing-extension error"),
    }
}

#[test]
fn replacing_children_keeps_the_partition_count() {
    let iso = PartitionIsolatorExec::new(source(4), 2);
    let replaced = ExecutionPlan::PartitionIsolator(iso.with_new_children(vec![source(6)]));
    assert_eq!(replaced.partition_count(), 2);
    assert_eq!(replaced.children()[0].partition_count(), 6);
}

#[test]
fn a_partition_beyond_the_advertised_ones_is_refused() {
    let iso = PartitionIsolatorExec::new(source(4), 2);
    let group = PartitionGroup(vec![0, 1]);
    let e = iso.execute(3, Some(&group)).unwrap_err();
    assert_eq!(e, IsolatorError::InvalidPartition(3));
    assert_eq!(e.message(), "Invalid partition 3 for PartitionIsolatorExec");
    // the first one that is not advertised is refused too
    assert_eq!(iso.execute(2, Some(&group)), Err(IsolatorError::InvalidPartition(2)));
}

#[test]
fn a_longer_group_does_not_widen_an_isolator() {
    let iso = PartitionIsolatorExec::new(source(4), 1);
    assert_eq!(read(&iso, 0, vec![2, 3]), vec![2]);
    let e = iso.execute(1, Some(&PartitionGroup(vec![2, 3]))).unwrap_err();
    assert!(e.message().contains("Invalid partition 1"), "got: {e:?}");
}

#[test]
fn a_buffer_advertises_the_partitions_of_its_input() {
    let iso = ExecutionPlan::PartitionIsolator(PartitionIsolatorExec::new(source(4), 2));
    let buffer = ExecutionPlan::Prefetch(PrefetchExec::new(iso, 3));
    assert_eq!(buffer.partition_count(), 2);
}

#[test]
fn plans_with_the_wrong_inputs_are_told_apart() {
    assert!(source(4).is_well_formed());
    assert!(ExecutionPlan::Prefetch(wrapped(2, 3)).is_well_formed());
    // a buffer over something without an input, anywhere in a plan
    let bad = ExecutionPlan::Prefetch(PrefetchExec { input: Box::new(source(1)), buf_size: 3 });
    assert!(!bad.is_well_formed());
    assert!(!ExecutionPlan::MaxRows(MaxRowsExec::new(bad, 9)).is_well_formed());
}

#[test]
fn every_partition_is_read_by_one_processor() {
    let iso = PartitionIsolatorExec::new(source(5), 2);
    let mut seen = vec![];
    for group in [vec![0, 1], vec![2, 3], vec![4]] {
        for slot in 0..2 {
            seen.extend(read(&iso, slot, group.clone()));
        }
    }
    assert_eq!(seen, vec![0, 1, 2, 3, 4]);
}

#[test]
fn mirrors_its_input_and_names_the_limit() {
    let limit = MaxRowsExec::new(source(1), 8192);
    assert_eq!(limit.name(), "MaxRowsExec");
    assert!(limit.fmt_as().contains("max_rows=8192"));
    let plan = ExecutionPlan::MaxRows(limit);
    assert_eq!(plan.children().len(), 1);
    assert_eq!(plan.partition_count(), 1);
}

#[test]
fn splits_oversized_batches_and_preserves_rows() {
    let limit = MaxRowsExec::new(source(1), 3);
    let pieces = limit.split(10);
    let sizes: Vec<usize> = pieces.iter().map(|p| p.len).collect();
    assert_eq!(sizes.iter().sum::<usize>(), 10, "no rows lost");
    assert_eq!(sizes, vec![3, 3, 3, 1]);
    let offsets: Vec<usize> = pieces.iter().map(|p| p.offset).collect();
    assert_eq!(offsets, vec![0, 3, 6, 9]);
}

#[test]
fn a_batch_within_the_limit_passes_through_whole() {
    let limit = MaxRowsExec::new(source(1), 100);
    assert_eq!(limit.split(5), vec![BatchSlice { offset: 0, len: 5 }]);
    assert_eq!(limit.split(100), vec![BatchSlice { offset: 0, len: 100 }]);
    assert_eq!(limit.split(0), vec![BatchSlice { offset: 0, len: 0 }]);
}

#[test]
fn replacing_children_keeps_the_limit() {
    let limit = MaxRowsExec::new(source(4), 7);
    let replaced = limit.with_new_children(vec![source(9)]);
    assert!(replaced.fmt_as().contains("max_rows=7"));
    assert_eq!(ExecutionPlan::MaxRows(replaced).partition_count(), 9);
}

fn wrapped(partitions: usize, buf: usize) -> PrefetchExec {
    PrefetchExec::new(ExecutionPlan::MaxRows(MaxRowsExec::new(source(partitions), 8192)), buf)
}

#[test]
fn reports_the_buffer_size() {
    let prefetch = wrapped(1, 4);
    assert_eq!(prefetch.name(), "PrefetchExec");
    assert!(prefetch.fmt_as().contains("num=4"));
    let plan = ExecutionPlan::Prefetch(prefetch);
    assert_eq!(plan.children().len(), 1);
    assert_eq!(plan.partition_count(), 1);
}

#[test]
fn replacing_children_keeps_the_buffer_size() {
    let plan = wrapped(2, 3);
    let new_child = ExecutionPlan::MaxRows(MaxRowsExec::new(source(4), 8192));
    let replaced = plan.with_new_children(vec![new_child]);
    assert!(replaced.fmt_as().contains("num=3"));
    assert_eq!(ExecutionPlan::Prefetch(replaced).partition_count(), 4);
}

#[test]
fn a_reader_keeps_the_partition_count_of_what_it_replaces() {
    let r = DFRayStageReaderExec::try_new_from_input(&source(1), 4).unwrap();
    assert_eq!(r.stage_id, 4);
    assert_eq!(r.output_partitioning().partition_count(), 1);
    assert!(matches!(r.output_partitioning(), Partitioning::UnknownPartitioning(_)));

    let schema = SchemaRef { id: 4 };
    let r = DFRayStageReaderExec::try_new(Partitioning::UnknownPartitioning(2), schema, 7).unwrap();
    assert_eq!(r.name(), "RayStageReaderExec");
    let shown = r.fmt_as();
    assert!(shown.contains("RayStageReaderExec[7]"), "got: {shown}");
    assert_eq!(
        shown,
        "RayStageReaderExec[7] (output_partitioning=UnknownPartitioning(2))"
    );
    let plan = ExecutionPlan::StageReader(r);
    assert!(plan.children().is_empty());
    assert_eq!(plan.schema(), schema);
}

#[test]
fn a_reader_forgets_the_scheme_of_what_it_replaces() {
    let schema = SchemaRef { id: 0 };
    for p in [
        Partitioning::RoundRobinBatch(6),
        Partitioning::Hash(6),
        Partitioning::Range(6),
        Partitioning::UnknownPartitioning(6),
    ] {
        let r = DFRayStageReaderExec::try_new(p, schema, 1).unwrap();
        assert_eq!(r.output_partitioning(), Partitioning::UnknownPartitioning(6));
    }
}

fn setting<'a>(settings: &'a [Setting], key: &str) -> &'a str {
    settings.iter().find(|s| s.key == key).map(|s| s.value).unwrap()
}

#[test]
fn a_new_context_carries_the_planning_settings() {
    let settings = context_settings();
    assert_eq!(
        setting(&settings, "datafusion.optimizer.hash_join_single_partition_threshold"),
        "0"
    );
    assert_eq!(
        setting(&settings, "datafusion.optimizer.hash_join_single_partition_threshold_rows"),
        "0"
    );
    assert_eq!(
        setting(&settings, "datafusion.optimizer.enable_physical_uncorrelated_scalar_subquery"),
        "false"
    );
    assert_eq!(setting(&settings, "datafusion.catalog.information_schema"), "true");
    assert_eq!(planning_settings().len(), 3);
    assert_eq!(settings.len(), 4);
}

#[test]
fn a_processor_does_not_steal_its_siblings_files() {
    let settings = execution_settings();
    assert_eq!(
        setting(&settings, "datafusion.execution.enable_file_stream_work_stealing"),
        "false"
    );
}

#[test]
fn a_listing_table_reads_a_directory() {
    assert_eq!(listing_path("/data/t"), "/data/t/");
}
