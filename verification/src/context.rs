//! The settings with which queries are planned and executed.

use vstd::prelude::*;

use crate::text::joined;

verus! {

/// A setting of the query engine.
#[derive(Clone, Copy, Debug)]
pub struct Setting {
    pub key: &'static str,
    pub value: &'static str,
}

/// The settings under which a plan can be split into stages. Both sides of a hash join are
/// always repartitioned, since a join whose one side is collected cannot be shared by
/// processors, and scalar subqueries stay in the plan of the query.
pub open spec fn planning() -> Seq<Setting> {
    seq![
        Setting {
            key: "datafusion.optimizer.hash_join_single_partition_threshold",
            value: "0",
        },
        Setting {
            key: "datafusion.optimizer.hash_join_single_partition_threshold_rows",
            value: "0",
        },
        Setting {
            key: "datafusion.optimizer.enable_physical_uncorrelated_scalar_subquery",
            value: "false",
        },
    ]
}

/// The setting that makes the catalog queryable.
pub open spec fn information_schema() -> Setting {
    Setting { key: "datafusion.catalog.information_schema", value: "true" }
}

/// The settings under which a processor executes its partitions alone. A partition reads its
/// own files and none of its siblings', which other processors read.
pub open spec fn execution() -> Seq<Setting> {
    seq![
        Setting {
            key: "datafusion.execution.enable_file_stream_work_stealing",
            value: "false",
        },
    ]
}

/// Returns the settings under which a plan can be split into stages.
pub fn planning_settings() -> (r: Vec<Setting>)
    ensures
        r@ == planning(),
{
    let settings = vec![
        Setting {
            key: "datafusion.optimizer.hash_join_single_partition_threshold",
            value: "0",
        },
        Setting {
            key: "datafusion.optimizer.hash_join_single_partition_threshold_rows",
            value: "0",
        },
        Setting {
            key: "datafusion.optimizer.enable_physical_uncorrelated_scalar_subquery",
            value: "false",
        },
    ];
    assert(settings@ =~= planning());
    settings
}

/// Returns the settings of a context that plans queries.
pub fn context_settings() -> (r: Vec<Setting>)
    ensures
        r@ == seq![information_schema()] + planning(),
{
    let mut settings = vec![
        Setting { key: "datafusion.catalog.information_schema", value: "true" },
    ];
    let mut planning_part = planning_settings();
    settings.append(&mut planning_part);
    assert(settings@ =~= seq![information_schema()] + planning());
    settings
}

/// Returns the settings under which a processor executes its partitions alone.
pub fn execution_settings() -> (r: Vec<Setting>)
    ensures
        r@ == execution(),
        r@.len() == 1,
        r@[0].key@ == "datafusion.execution.enable_file_stream_work_stealing"@,
        r@[0].value@ == "false"@,
{
    let settings = vec![
        Setting {
            key: "datafusion.execution.enable_file_stream_work_stealing",
            value: "false",
        },
    ];
    assert(settings@ =~= execution());
    settings
}

/// Returns the path of the directory that a listing table reads, marked as a directory.
pub fn listing_path(path: &str) -> (s: String)
    ensures
        s@ == path@ + "/"@,
{
    joined(path, "/")
}

} // verus!
