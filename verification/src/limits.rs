use vstd::prelude::*;

use crate::error::Error;

verus! {

/// A span of time in nanoseconds.
#[derive(Debug, Clone, Copy, PartialEq, Eq, Hash, Structural)]
pub struct Duration {
    pub nanos: u128,
}

/// The nanoseconds of one second.
pub const NANOS_PER_SECOND: u128 = 1_000_000_000;

/// The longest span that can be measured: all seconds that fit sixty-four bits
/// and all nanoseconds short of one more.
pub const MAX_DURATION_NANOS: u128 = 18_446_744_073_709_551_615_999_999_999;

impl Duration {
    /// A span of whole seconds.
    pub fn from_secs(seconds: u64) -> (result: Duration)
        ensures
            result.nanos == seconds * NANOS_PER_SECOND,
            result.nanos <= MAX_DURATION_NANOS,
    {
        Duration { nanos: seconds as u128 * NANOS_PER_SECOND }
    }

    /// Whether an operation may last so long: not no time at all, and short enough
    /// that twice the span and a second of grace can still be measured.
    pub open spec fn usable(self) -> bool {
        self.nanos > 0 && 2 * (self.nanos + NANOS_PER_SECOND) <= MAX_DURATION_NANOS
    }

    pub fn is_usable(&self) -> (result: bool)
        ensures
            result == self.usable(),
    {
        if self.nanos == 0 || self.nanos > MAX_DURATION_NANOS {
            return false;
        }
        2 * (self.nanos + NANOS_PER_SECOND) <= MAX_DURATION_NANOS
    }
}

/// Limits applied independently to each decoded Git object.
#[derive(Debug, Clone, Copy, PartialEq, Eq, Hash, Structural)]
pub struct ObjectLimits {
    pub max_packed_entry_bytes: u64,
    pub max_inflated_entry_bytes: u64,
    pub max_object_bytes: u64,
    pub max_pack_index_bytes: u64,
    pub max_commit_graph_bytes: u64,
    pub max_delta_depth: usize,
    pub max_tag_depth: usize,
}

/// Aggregate limits charged across one repository operation.
#[derive(Debug, Clone, Copy, PartialEq, Eq, Hash, Structural)]
pub struct OperationLimits {
    /// Maximum wall time from locator open through semantic completion.
    pub max_duration: Duration,
    pub max_logical_objects: u64,
    pub max_storage_requests: u64,
    pub max_fetched_bytes: u64,
    pub max_inflated_bytes: u64,
    pub max_depth: u64,
    pub max_entries: u64,
    pub max_history_commits: u64,
    pub max_diff_input_bytes: u64,
    pub max_diff_output_bytes: u64,
    pub max_blame_lines: u64,
    /// Maximum dynamic-programming cells used by line attribution.
    pub max_blame_comparison_cells: u64,
    pub max_archive_entries: u64,
    pub max_archive_bytes: u64,
    pub max_response_bytes: u64,
}

/// The object limits that apply unless others are chosen.
pub open spec fn default_object_limits() -> ObjectLimits {
    ObjectLimits {
        max_packed_entry_bytes: 67_108_864,
        max_inflated_entry_bytes: 67_108_864,
        max_object_bytes: 67_108_864,
        max_pack_index_bytes: 134_217_728,
        max_commit_graph_bytes: 134_217_728,
        max_delta_depth: 128,
        max_tag_depth: 32,
    }
}

/// The operation limits that apply unless others are chosen.
pub open spec fn default_operation_limits() -> OperationLimits {
    OperationLimits {
        max_duration: Duration { nanos: 300_000_000_000 },
        max_logical_objects: 10_000,
        max_storage_requests: 20_000,
        max_fetched_bytes: 536_870_912,
        max_inflated_bytes: 536_870_912,
        max_depth: 1_024,
        max_entries: 100_000,
        max_history_commits: 10_000,
        max_diff_input_bytes: 33_554_432,
        max_diff_output_bytes: 8_388_608,
        max_blame_lines: 100_000,
        max_blame_comparison_cells: 4_000_000,
        max_archive_entries: 100_000,
        max_archive_bytes: 2_147_483_648,
        max_response_bytes: 2_147_483_648,
    }
}

impl Default for ObjectLimits {
    fn default() -> (result: ObjectLimits)
        ensures
            result == default_object_limits(),
            object_fault(result) is None,
    {
        ObjectLimits {
            max_packed_entry_bytes: 64 * 1024 * 1024,
            max_inflated_entry_bytes: 64 * 1024 * 1024,
            max_object_bytes: 64 * 1024 * 1024,
            max_pack_index_bytes: 128 * 1024 * 1024,
            max_commit_graph_bytes: 128 * 1024 * 1024,
            max_delta_depth: 128,
            max_tag_depth: 32,
        }
    }
}

impl Default for OperationLimits {
    fn default() -> (result: OperationLimits)
        ensures
            result == default_operation_limits(),
            operation_fault(result) is None,
    {
        OperationLimits {
            max_duration: Duration::from_secs(5 * 60),
            max_logical_objects: 10_000,
            max_storage_requests: 20_000,
            max_fetched_bytes: 512 * 1024 * 1024,
            max_inflated_bytes: 512 * 1024 * 1024,
            max_depth: 1_024,
            max_entries: 100_000,
            max_history_commits: 10_000,
            max_diff_input_bytes: 32 * 1024 * 1024,
            max_diff_output_bytes: 8 * 1024 * 1024,
            max_blame_lines: 100_000,
            max_blame_comparison_cells: 4_000_000,
            max_archive_entries: 100_000,
            max_archive_bytes: 2 * 1024 * 1024 * 1024,
            max_response_bytes: 2 * 1024 * 1024 * 1024,
        }
    }
}

/// The error that names an unusable limit.
pub open spec fn limit_error(name: &'static str) -> Error {
    Error::InvalidLimit { name }
}

/// The first object limit that allows nothing, in the order of the fields.
pub open spec fn object_fault(limits: ObjectLimits) -> Option<Error> {
    if limits.max_packed_entry_bytes == 0 {
        Some(limit_error("max_packed_entry_bytes"))
    } else if limits.max_inflated_entry_bytes == 0 {
        Some(limit_error("max_inflated_entry_bytes"))
    } else if limits.max_object_bytes == 0 {
        Some(limit_error("max_object_bytes"))
    } else if limits.max_pack_index_bytes == 0 {
        Some(limit_error("max_pack_index_bytes"))
    } else if limits.max_commit_graph_bytes == 0 {
        Some(limit_error("max_commit_graph_bytes"))
    } else if limits.max_delta_depth == 0 {
        Some(limit_error("max_delta_depth"))
    } else if limits.max_tag_depth == 0 {
        Some(limit_error("max_tag_depth"))
    } else {
        None
    }
}

/// The first operation limit that cannot be used, in the order of the fields.
pub open spec fn operation_fault(limits: OperationLimits) -> Option<Error> {
    if !limits.max_duration.usable() {
        Some(limit_error("operation duration"))
    } else if limits.max_logical_objects == 0 {
        Some(limit_error("max_logical_objects"))
    } else if limits.max_storage_requests == 0 {
        Some(limit_error("max_storage_requests"))
    } else if limits.max_fetched_bytes == 0 {
        Some(limit_error("max_fetched_bytes"))
    } else if limits.max_inflated_bytes == 0 {
        Some(limit_error("max_inflated_bytes"))
    } else if limits.max_depth == 0 {
        Some(limit_error("max_depth"))
    } else if limits.max_entries == 0 {
        Some(limit_error("max_entries"))
    } else if limits.max_history_commits == 0 {
        Some(limit_error("max_history_commits"))
    } else if limits.max_diff_input_bytes == 0 {
        Some(limit_error("max_diff_input_bytes"))
    } else if limits.max_diff_output_bytes == 0 {
        Some(limit_error("max_diff_output_bytes"))
    } else if limits.max_blame_lines == 0 {
        Some(limit_error("max_blame_lines"))
    } else if limits.max_blame_comparison_cells == 0 {
        Some(limit_error("max_blame_comparison_cells"))
    } else if limits.max_archive_entries == 0 {
        Some(limit_error("max_archive_entries"))
    } else if limits.max_archive_bytes == 0 {
        Some(limit_error("max_archive_bytes"))
    } else if limits.max_response_bytes == 0 {
        Some(limit_error("max_response_bytes"))
    } else {
        None
    }
}

/// Limits are accepted exactly if none of them is zero and the duration can be measured
/// twice over with a second of grace each time.
pub proof fn when_limits_are_accepted(object: ObjectLimits, operation: OperationLimits)
    ensures
        object_fault(object) is None <==> {
            &&& object.max_packed_entry_bytes > 0
            &&& object.max_inflated_entry_bytes > 0
            &&& object.max_object_bytes > 0
            &&& object.max_pack_index_bytes > 0
            &&& object.max_commit_graph_bytes > 0
            &&& object.max_delta_depth > 0
            &&& object.max_tag_depth > 0
        },
        operation_fault(operation) is None <==> {
            &&& operation.max_duration.nanos > 0
            &&& 2 * (operation.max_duration.nanos + 1_000_000_000) <= u64::MAX * 1_000_000_000
                + 999_999_999
            &&& operation.max_logical_objects > 0
            &&& operation.max_storage_requests > 0
            &&& operation.max_fetched_bytes > 0
            &&& operation.max_inflated_bytes > 0
            &&& operation.max_depth > 0
            &&& operation.max_entries > 0
            &&& operation.max_history_commits > 0
            &&& operation.max_diff_input_bytes > 0
            &&& operation.max_diff_output_bytes > 0
            &&& operation.max_blame_lines > 0
            &&& operation.max_blame_comparison_cells > 0
            &&& operation.max_archive_entries > 0
            &&& operation.max_archive_bytes > 0
            &&& operation.max_response_bytes > 0
        },
        fault_result(object_fault(object)) is Ok <==> object_fault(object) is None,
        fault_result(operation_fault(operation)) is Ok <==> operation_fault(operation) is None,
{
}

/// Of several limits that allow nothing, the first in the order of the fields is named.
pub proof fn which_object_limit_is_named(limits: ObjectLimits, at: int)
    requires
        0 <= at < 7,
        ({
            let bounds: Seq<int> = seq![
                limits.max_packed_entry_bytes as int,
                limits.max_inflated_entry_bytes as int,
                limits.max_object_bytes as int,
                limits.max_pack_index_bytes as int,
                limits.max_commit_graph_bytes as int,
                limits.max_delta_depth as int,
                limits.max_tag_depth as int,
            ];
            bounds[at] == 0 && forall|i: int| 0 <= i < at ==> #[trigger] bounds[i] > 0
        }),
    ensures
        object_fault(limits) == Some(
            (Error::InvalidLimit {
                name: seq![
                    "max_packed_entry_bytes",
                    "max_inflated_entry_bytes",
                    "max_object_bytes",
                    "max_pack_index_bytes",
                    "max_commit_graph_bytes",
                    "max_delta_depth",
                    "max_tag_depth",
                ][at],
            }),
        ),
        fault_result(object_fault(limits)) == Err::<(), Error>(object_fault(limits)->0),
{
    let bounds: Seq<int> = seq![
        limits.max_packed_entry_bytes as int,
        limits.max_inflated_entry_bytes as int,
        limits.max_object_bytes as int,
        limits.max_pack_index_bytes as int,
        limits.max_commit_graph_bytes as int,
        limits.max_delta_depth as int,
        limits.max_tag_depth as int,
    ];
    assert(at > 0 ==> bounds[0] > 0);
    assert(at > 1 ==> bounds[1] > 0);
    assert(at > 2 ==> bounds[2] > 0);
    assert(at > 3 ==> bounds[3] > 0);
    assert(at > 4 ==> bounds[4] > 0);
    assert(at > 5 ==> bounds[5] > 0);
}

/// Unless others are chosen, an object may have sixty-four mebibytes in any form, an
/// index or a graph twice that, and deltas and tags go a hundred and twenty-eight and
/// thirty-two deep.
pub proof fn what_objects_may_have_by_default()
    ensures
        default_object_limits().max_packed_entry_bytes == 64 * 1024 * 1024,
        default_object_limits().max_inflated_entry_bytes == 64 * 1024 * 1024,
        default_object_limits().max_object_bytes == 64 * 1024 * 1024,
        default_object_limits().max_pack_index_bytes == 128 * 1024 * 1024,
        default_object_limits().max_commit_graph_bytes == 128 * 1024 * 1024,
        default_object_limits().max_delta_depth == 128,
        default_object_limits().max_tag_depth == 32,
{
}

/// Unless others are chosen, an operation has five minutes, half a gibibyte to fetch and
/// to inflate, two to archive and to answer with, and the counts given here.
pub proof fn what_operations_may_use_by_default()
    ensures
        default_operation_limits().max_duration.nanos == 5 * 60 * 1_000_000_000,
        default_operation_limits().max_logical_objects == 10_000,
        default_operation_limits().max_storage_requests == 20_000,
        default_operation_limits().max_fetched_bytes == 512 * 1024 * 1024,
        default_operation_limits().max_inflated_bytes == 512 * 1024 * 1024,
        default_operation_limits().max_depth == 1024,
        default_operation_limits().max_entries == 100_000,
        default_operation_limits().max_history_commits == 10_000,
        default_operation_limits().max_diff_input_bytes == 32 * 1024 * 1024,
        default_operation_limits().max_diff_output_bytes == 8 * 1024 * 1024,
        default_operation_limits().max_blame_lines == 100_000,
        default_operation_limits().max_blame_comparison_cells == 4_000_000,
        default_operation_limits().max_archive_entries == 100_000,
        default_operation_limits().max_archive_bytes == 2 * 1024 * 1024 * 1024,
        default_operation_limits().max_response_bytes == 2 * 1024 * 1024 * 1024,
{
}

pub open spec fn fault_result(fault: Option<Error>) -> Result<(), Error> {
    match fault {
        Some(error) => Err(error),
        None => Ok(()),
    }
}

/// Refuse a limit that allows nothing.
pub fn validate_non_zero(name: &'static str, value: u64) -> (result: Result<(), Error>)
    ensures
        result == (if value == 0 {
            Err::<(), Error>(limit_error(name))
        } else {
            Ok(())
        }),
{
    if value == 0 {
        return Err(Error::InvalidLimit { name });
    }
    Ok(())
}

/// Refuse object limits of which one allows nothing.
pub fn validate_object_limits(limits: ObjectLimits) -> (result: Result<(), Error>)
    ensures
        result == fault_result(object_fault(limits)),
{
    validate_non_zero("max_packed_entry_bytes", limits.max_packed_entry_bytes)?;
    validate_non_zero("max_inflated_entry_bytes", limits.max_inflated_entry_bytes)?;
    validate_non_zero("max_object_bytes", limits.max_object_bytes)?;
    validate_non_zero("max_pack_index_bytes", limits.max_pack_index_bytes)?;
    validate_non_zero("max_commit_graph_bytes", limits.max_commit_graph_bytes)?;
    validate_non_zero("max_delta_depth", limits.max_delta_depth as u64)?;
    validate_non_zero("max_tag_depth", limits.max_tag_depth as u64)?;
    Ok(())
}

/// Refuse operation limits of which one cannot be used.
pub fn validate_operation_limits(limits: OperationLimits) -> (result: Result<(), Error>)
    ensures
        result == fault_result(operation_fault(limits)),
{
    if !limits.max_duration.is_usable() {
        return Err(Error::InvalidLimit { name: "operation duration" });
    }
    validate_non_zero("max_logical_objects", limits.max_logical_objects)?;
    validate_non_zero("max_storage_requests", limits.max_storage_requests)?;
    validate_non_zero("max_fetched_bytes", limits.max_fetched_bytes)?;
    validate_non_zero("max_inflated_bytes", limits.max_inflated_bytes)?;
    validate_non_zero("max_depth", limits.max_depth)?;
    validate_non_zero("max_entries", limits.max_entries)?;
    validate_non_zero("max_history_commits", limits.max_history_commits)?;
    validate_non_zero("max_diff_input_bytes", limits.max_diff_input_bytes)?;
    validate_non_zero("max_diff_output_bytes", limits.max_diff_output_bytes)?;
    validate_non_zero("max_blame_lines", limits.max_blame_lines)?;
    validate_non_zero("max_blame_comparison_cells", limits.max_blame_comparison_cells)?;
    validate_non_zero("max_archive_entries", limits.max_archive_entries)?;
    validate_non_zero("max_archive_bytes", limits.max_archive_bytes)?;
    validate_non_zero("max_response_bytes", limits.max_response_bytes)?;
    Ok(())
}

/// Validated behavior and resource limits for opening a repository.
#[derive(Debug, Clone, Copy, PartialEq, Eq, Hash, Structural)]
pub struct RepositoryOptions {
    object: ObjectLimits,
    operation: OperationLimits,
}

impl RepositoryOptions {
    pub closed spec fn object(self) -> ObjectLimits {
        self.object
    }

    pub closed spec fn operation(self) -> OperationLimits {
        self.operation
    }

    /// Every limit can be used. Options are only made this way.
    #[verifier::type_invariant]
    spec fn valid(self) -> bool {
        object_fault(self.object) is None && operation_fault(self.operation) is None
    }

    /// Validate all object and aggregate bounds.
    pub fn new(object: ObjectLimits, operation: OperationLimits) -> (result: Result<
        RepositoryOptions,
        Error,
    >)
        ensures
            match result {
                Ok(options) => {
                    &&& object_fault(object) is None
                    &&& operation_fault(operation) is None
                    &&& options.object() == object
                    &&& options.operation() == operation
                },
                Err(error) => Some(error) == (if object_fault(object) is Some {
                    object_fault(object)
                } else {
                    operation_fault(operation)
                }),
            },
    {
        validate_object_limits(object)?;
        validate_operation_limits(operation)?;
        Ok(RepositoryOptions { object, operation })
    }

    /// The per-object limits, every one of them usable.
    pub fn object_limits(&self) -> (result: ObjectLimits)
        ensures
            result == self.object(),
            object_fault(result) is None,
    {
        proof {
            use_type_invariant(self);
        }
        self.object
    }

    /// The aggregate limits, every one of them usable.
    pub fn operation_limits(&self) -> (result: OperationLimits)
        ensures
            result == self.operation(),
            operation_fault(result) is None,
    {
        proof {
            use_type_invariant(self);
        }
        self.operation
    }
}

impl Default for RepositoryOptions {
    fn default() -> (result: RepositoryOptions)
        ensures
            result.object() == default_object_limits(),
            result.operation() == default_operation_limits(),
    {
        RepositoryOptions { object: ObjectLimits::default(), operation: OperationLimits::default() }
    }
}

} // verus!
