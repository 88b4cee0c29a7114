use datafusion_ray::physical::RayStageOptimizerRule;
use datafusion_ray::plan::{ExecutionPlan, OperatorExec, OperatorKind, SchemaRef};

fn operator(kind: OperatorKind, id: usize, count: usize, inputs: Vec<ExecutionPlan>) -> ExecutionPlan {
    ExecutionPlan::Operator(OperatorExec {
        kind,
        id,
        partition_count: count,
        schema: SchemaRef { id: 0 },
        inputs,
    })
}

fn optimized(plan: ExecutionPlan) -> ExecutionPlan {
    RayStageOptimizerRule::new().optimize(plan).unwrap()
}

fn markers(plan: &ExecutionPlan) -> Vec<usize> {
    let mut ids: Vec<usize> = plan.children().into_iter().flat_map(markers).collect();
    if let ExecutionPlan::Stage(stage) = plan {
        ids.push(stage.stage_id);
    }
    ids
}

fn grouped_and_sorted() -> ExecutionPlan {
    let scan = operator(OperatorKind::Other, 0, 3, vec![]);
    let partial = operator(OperatorKind::Other, 1, 3, vec![scan]);
    let repartition = operator(OperatorKind::Repartition, 2, 3, vec![partial]);
    let aggregate = operator(OperatorKind::Other, 3, 3, vec![repartition]);
    let sort = operator(OperatorKind::Sort, 4, 3, vec![aggregate]);
    operator(OperatorKind::Other, 5, 1, vec![sort])
}

#[test]
fn rule_identifies_itself() {
    let rule = RayStageOptimizerRule::new();
    assert_eq!(rule.name(), "RayStageOptimizerRule");
    assert!(rule.schema_check());
    // Default and new agree
    assert_eq!(RayStageOptimizerRule::default().name(), rule.name());
}

#[test]
fn a_trivial_plan_gets_exactly_one_stage() {
    let plan = optimized(operator(OperatorKind::Other, 0, 1, vec![]));
    assert_eq!(markers(&plan).len(), 1, "{plan:?}");
    assert!(matches!(plan, ExecutionPlan::Stage(_)), "{plan:?}");
}

/// Every marker but the root's is directly above a boundary, and every boundary is under one.
fn check_boundaries(plan: &ExecutionPlan, under: bool) {
    if let ExecutionPlan::Operator(o) = plan {
        let boundary = o.kind != OperatorKind::Other;
        assert_eq!(boundary, under, "{plan:?}");
    }
    for child in plan.children() {
        check_boundaries(child, matches!(plan, ExecutionPlan::Stage(_)));
    }
}

#[test]
fn repartition_and_sort_each_open_a_stage() {
    let plan = optimized(grouped_and_sorted());
    let count = markers(&plan).len();
    assert!(count >= 3, "expected a stage per boundary plus the root:\n{plan:?}");

    // a marker sits directly above each boundary operator
    check_boundaries(plan.children()[0], false);
}

#[test]
fn a_plan_with_no_boundary_is_not_split() {
    let scan = operator(OperatorKind::Other, 0, 1, vec![]);
    let plan = optimized(operator(OperatorKind::Other, 1, 1, vec![scan]));
    assert_eq!(markers(&plan).len(), 1, "{plan:?}");
}

#[test]
fn stage_ids_are_unique() {
    let plan = optimized(grouped_and_sorted());
    let mut ids = markers(&plan);
    let total = ids.len();
    ids.sort_unstable();
    ids.dedup();
    assert_eq!(ids.len(), total, "duplicate stage ids in:\n{plan:?}");
}

#[test]
fn markers_are_numbered_from_the_leaves() {
    let left = operator(OperatorKind::Repartition, 1, 3, vec![operator(OperatorKind::Other, 0, 2, vec![])]);
    let right = operator(OperatorKind::Sort, 3, 5, vec![operator(OperatorKind::Other, 2, 5, vec![])]);
    let join = operator(OperatorKind::NestedLoopJoin, 4, 5, vec![left, right]);
    let plan = optimized(operator(OperatorKind::Other, 5, 1, vec![join]));
    assert_eq!(markers(&plan), vec![0, 1, 2, 3]);
    assert_eq!(plan.partition_count(), 1);
    assert_eq!(plan.schema(), SchemaRef { id: 0 });
}
