//! Batch evaluation policy: explicit worker and logical-memory limits, the
//! checked memory plan made before any allocation, and the deterministic
//! split of a batch into contiguous per-worker query ranges.
use vstd::prelude::*;

use crate::problem_ir::NonZeroCount;

verus! {

/// Bytes of one finite scalar value (`f64`).
pub const SCALAR_BYTES: usize = 8;

/// Explicit worker and logical-memory policy for one fitted-field batch.
#[derive(Clone, Copy, Debug, PartialEq, Eq, Hash)]
pub struct BatchEvaluationOptions {
    thread_count: NonZeroCount,
    memory_limit_bytes: NonZeroCount,
}

impl BatchEvaluationOptions {
    /// The requested maximum worker count.
    pub closed spec fn spec_thread_count(self) -> NonZeroCount {
        self.thread_count
    }

    /// The logical peak-memory limit.
    pub closed spec fn spec_memory_limit_bytes(self) -> NonZeroCount {
        self.memory_limit_bytes
    }

    /// Creates a batch policy with no implicit thread or memory choice.
    pub fn new(thread_count: NonZeroCount, memory_limit_bytes: NonZeroCount) -> (options: Self)
        ensures
            options.spec_thread_count() == thread_count,
            options.spec_memory_limit_bytes() == memory_limit_bytes,
    {
        BatchEvaluationOptions { thread_count, memory_limit_bytes }
    }

    /// Returns the requested maximum worker count.
    pub fn thread_count(self) -> (count: NonZeroCount)
        ensures
            count == self.spec_thread_count(),
    {
        self.thread_count
    }

    /// Returns the logical peak-memory limit checked before allocation.
    pub fn memory_limit_bytes(self) -> (limit: NonZeroCount)
        ensures
            limit == self.spec_memory_limit_bytes(),
    {
        self.memory_limit_bytes
    }
}

/// Checked logical-memory evidence for one value/gradient batch.
///
/// The estimate covers the output and scratch payloads. Operating system
/// thread stacks and thread bookkeeping are outside this logical estimate.
#[derive(Clone, Copy, Debug, PartialEq, Eq, Structural, Hash)]
pub struct BatchEvaluationMemoryDiagnostics {
    /// Number of original-coordinate query points.
    pub query_count: usize,
    /// Number of workers that will receive nonempty query ranges.
    pub worker_count: usize,
    /// Requested output payload bytes.
    pub output_bytes: usize,
    /// Scratch payload bytes requested for one worker.
    pub workspace_bytes_per_worker: usize,
    /// Scratch payload bytes requested across all workers.
    pub workspace_bytes: usize,
    /// Sum of output and worker scratch payloads.
    pub estimated_peak_bytes: usize,
    /// Explicit caller limit enforced before allocation.
    pub memory_limit_bytes: usize,
}

/// Deterministic work and memory evidence for a completed batch.
#[derive(Clone, Copy, Debug, PartialEq, Eq, Hash)]
pub struct BatchEvaluationDiagnostics {
    /// Number of evaluated query points.
    pub query_count: usize,
    /// Maximum worker count requested by the caller.
    pub requested_thread_count: NonZeroCount,
    /// Workers assigned nonempty deterministic contiguous ranges.
    pub worker_count: usize,
    /// Sum of center representers visited across all query points.
    pub center_evaluations: usize,
    /// Checked logical-memory evidence.
    pub memory: BatchEvaluationMemoryDiagnostics,
}

/// Storage role used by fallible batch allocation diagnostics.
#[derive(Clone, Copy, Debug, PartialEq, Eq, Structural, Hash)]
pub enum BatchEvaluationStorage {
    /// Per-worker reusable workspaces.
    Workspaces,
    /// Ordered batch output values.
    Evaluations,
    /// Scoped worker handles.
    WorkerHandles,
}

/// Batch failures decided before or around evaluation.
#[derive(Clone, Copy, Debug, PartialEq, Eq, Structural, Hash)]
pub enum BatchEvaluationError {
    /// Checked byte or work-count arithmetic overflowed.
    MemoryEstimateOverflow,
    /// The pre-allocation logical peak exceeds the explicit caller limit.
    MemoryLimitExceeded {
        /// Checked logical peak.
        estimated_peak_bytes: usize,
        /// Explicit caller limit.
        limit_bytes: usize,
    },
    /// Owned batch storage could not be reserved.
    AllocationFailed {
        /// Affected storage role.
        storage: BatchEvaluationStorage,
        /// Requested entry count.
        requested: usize,
    },
    /// A caller-owned workspace has incompatible scratch dimensions.
    IncompatibleWorkspace {
        /// Sparse center capacity required by the model.
        expected_sparse_center_capacity: usize,
        /// Sparse center capacity retained by the workspace.
        actual_sparse_center_capacity: usize,
        /// Polynomial term count required by the model.
        expected_polynomial_count: usize,
        /// Polynomial term count retained by the workspace.
        actual_polynomial_count: usize,
    },
    /// A worker panicked instead of returning a structured result.
    WorkerPanicked {
        /// Stable worker index.
        worker: usize,
    },
}

/// Scratch bytes of one worker: one index per sparse center, and one value
/// and one `dimension`-component gradient per polynomial term.
pub open spec fn spec_workspace_bytes(
    index_bytes: nat,
    dimension: nat,
    sparse_center_capacity: nat,
    polynomial_count: nat,
) -> nat {
    index_bytes * sparse_center_capacity + (SCALAR_BYTES as nat) * polynomial_count + (
    SCALAR_BYTES as nat) * dimension * polynomial_count
}

/// Checked scratch size of one worker, or `None` when a product or sum does
/// not fit in `usize`.
pub fn workspace_bytes(dimension: usize, sparse_center_capacity: usize, polynomial_count: usize) -> (bytes: Option<usize>)
    requires
        1 <= dimension <= 3,
    ensures
        ({
            let index_bytes = vstd::layout::size_of::<usize>();
            let total = spec_workspace_bytes(
                index_bytes,
                dimension as nat,
                sparse_center_capacity as nat,
                polynomial_count as nat,
            );
            &&& index_bytes * sparse_center_capacity <= usize::MAX && SCALAR_BYTES
                * polynomial_count <= usize::MAX && SCALAR_BYTES * dimension * polynomial_count
                <= usize::MAX && total <= usize::MAX ==> bytes == Some(total as usize)
            &&& !(index_bytes * sparse_center_capacity <= usize::MAX && SCALAR_BYTES
                * polynomial_count <= usize::MAX && SCALAR_BYTES * dimension * polynomial_count
                <= usize::MAX && total <= usize::MAX) ==> bytes is None
        }),
{
    let index_bytes = core::mem::size_of::<usize>();
    let center_bytes = match index_bytes.checked_mul(sparse_center_capacity) {
        Some(value) => value,
        None => {
            return None;
        },
    };
    let value_bytes = match SCALAR_BYTES.checked_mul(polynomial_count) {
        Some(value) => value,
        None => {
            return None;
        },
    };
    let gradient_bytes = match (SCALAR_BYTES * dimension).checked_mul(polynomial_count) {
        Some(value) => value,
        None => {
            return None;
        },
    };
    match center_bytes.checked_add(value_bytes) {
        Some(partial) => partial.checked_add(gradient_bytes),
        None => None,
    }
}

/// The checked pre-allocation logical-memory plan for a batch.
///
/// Worker count is `min(query_count, requested_threads)`; an empty batch uses
/// no worker workspace. `evaluation_bytes` is the size of one stored
/// evaluation and `workspace_bytes_per_worker` the scratch of one worker. The
/// plan fails with `MemoryEstimateOverflow` exactly when the total scratch,
/// the output bytes or their sum does not fit in `usize`.
pub fn try_batch_memory_diagnostics(
    query_count: usize,
    options: BatchEvaluationOptions,
    evaluation_bytes: usize,
    workspace_bytes_per_worker: usize,
) -> (result: Result<BatchEvaluationMemoryDiagnostics, BatchEvaluationError>)
    ensures
        ({
            let threads = options.spec_thread_count().spec_get();
            let workers = if query_count <= threads {
                query_count as nat
            } else {
                threads
            };
            let scratch = workspace_bytes_per_worker * workers;
            let output = evaluation_bytes * query_count;
            &&& scratch <= usize::MAX && output <= usize::MAX && output + scratch <= usize::MAX
                ==> result == Ok::<BatchEvaluationMemoryDiagnostics, BatchEvaluationError>(
                BatchEvaluationMemoryDiagnostics {
                    query_count,
                    worker_count: workers as usize,
                    output_bytes: output as usize,
                    workspace_bytes_per_worker,
                    workspace_bytes: scratch as usize,
                    estimated_peak_bytes: (output + scratch) as usize,
                    memory_limit_bytes: options.spec_memory_limit_bytes().spec_get() as usize,
                },
            )
            &&& !(scratch <= usize::MAX && output <= usize::MAX && output + scratch <= usize::MAX)
                ==> result == Err::<BatchEvaluationMemoryDiagnostics, BatchEvaluationError>(
                BatchEvaluationError::MemoryEstimateOverflow,
            )
        }),
{
    let threads = options.thread_count().get();
    let worker_count = if query_count <= threads {
        query_count
    } else {
        threads
    };
    let workspace_bytes = match workspace_bytes_per_worker.checked_mul(worker_count) {
        Some(bytes) => bytes,
        None => {
            return Err(BatchEvaluationError::MemoryEstimateOverflow);
        },
    };
    let output_bytes = match evaluation_bytes.checked_mul(query_count) {
        Some(bytes) => bytes,
        None => {
            return Err(BatchEvaluationError::MemoryEstimateOverflow);
        },
    };
    let estimated_peak_bytes = match output_bytes.checked_add(workspace_bytes) {
        Some(bytes) => bytes,
        None => {
            return Err(BatchEvaluationError::MemoryEstimateOverflow);
        },
    };
    Ok(
        BatchEvaluationMemoryDiagnostics {
            query_count,
            worker_count,
            output_bytes,
            workspace_bytes_per_worker,
            workspace_bytes,
            estimated_peak_bytes,
            memory_limit_bytes: options.memory_limit_bytes().get(),
        },
    )
}

/// Enforces the explicit memory limit of a plan before any allocation.
pub fn enforce_memory_limit(memory: BatchEvaluationMemoryDiagnostics) -> (result: Result<
    (),
    BatchEvaluationError,
>)
    ensures
        memory.estimated_peak_bytes <= memory.memory_limit_bytes ==> result == Ok::<
            (),
            BatchEvaluationError,
        >(()),
        memory.estimated_peak_bytes > memory.memory_limit_bytes ==> result == Err::<
            (),
            BatchEvaluationError,
        >(
            BatchEvaluationError::MemoryLimitExceeded {
                estimated_peak_bytes: memory.estimated_peak_bytes,
                limit_bytes: memory.memory_limit_bytes,
            },
        ),
{
    if memory.estimated_peak_bytes > memory.memory_limit_bytes {
        Err(
            BatchEvaluationError::MemoryLimitExceeded {
                estimated_peak_bytes: memory.estimated_peak_bytes,
                limit_bytes: memory.memory_limit_bytes,
            },
        )
    } else {
        Ok(())
    }
}

/// Rejects a reusable workspace whose scratch shape differs from the one the
/// model requires.
pub fn check_workspace_shape(
    expected_sparse_center_capacity: usize,
    expected_polynomial_count: usize,
    actual_sparse_center_capacity: usize,
    actual_polynomial_count: usize,
) -> (result: Result<(), BatchEvaluationError>)
    ensures
        (expected_sparse_center_capacity == actual_sparse_center_capacity
            && expected_polynomial_count == actual_polynomial_count) ==> result == Ok::<
            (),
            BatchEvaluationError,
        >(()),
        !(expected_sparse_center_capacity == actual_sparse_center_capacity
            && expected_polynomial_count == actual_polynomial_count) ==> result == Err::<
            (),
            BatchEvaluationError,
        >(
            BatchEvaluationError::IncompatibleWorkspace {
                expected_sparse_center_capacity,
                actual_sparse_center_capacity,
                expected_polynomial_count,
                actual_polynomial_count,
            },
        ),
{
    if actual_sparse_center_capacity != expected_sparse_center_capacity || actual_polynomial_count
        != expected_polynomial_count {
        Err(
            BatchEvaluationError::IncompatibleWorkspace {
                expected_sparse_center_capacity,
                actual_sparse_center_capacity,
                expected_polynomial_count,
                actual_polynomial_count,
            },
        )
    } else {
        Ok(())
    }
}

/// Number of queries of worker `worker` when `query_count` queries are split
/// over `worker_count` workers: the first `query_count % worker_count`
/// workers take one query more than the others.
pub open spec fn worker_share(query_count: nat, worker_count: nat, worker: nat) -> nat
    recommends
        worker_count > 0,
{
    query_count / worker_count + if worker < query_count % worker_count {
        1nat
    } else {
        0nat
    }
}

/// Queries assigned to the workers before `worker`.
pub open spec fn worker_start(query_count: nat, worker_count: nat, worker: nat) -> nat
    decreases worker,
{
    if worker == 0 {
        0
    } else {
        worker_start(query_count, worker_count, (worker - 1) as nat) + worker_share(
            query_count,
            worker_count,
            (worker - 1) as nat,
        )
    }
}

/// The deterministic contiguous query counts of the workers, in worker order.
pub fn worker_query_counts(query_count: usize, worker_count: usize) -> (counts: Vec<usize>)
    requires
        worker_count > 0,
    ensures
        counts@.len() == worker_count,
        forall|worker: int|
            0 <= worker < worker_count ==> #[trigger] counts@[worker] == worker_share(
                query_count as nat,
                worker_count as nat,
                worker as nat,
            ),
{
    let base = query_count / worker_count;
    let remainder = query_count % worker_count;
    let mut counts: Vec<usize> = Vec::new();
    let mut worker: usize = 0;
    proof {
        assert(base * worker_count + remainder == query_count) by (nonlinear_arith)
            requires
                worker_count > 0,
                base == query_count / worker_count,
                remainder == query_count % worker_count,
        ;
        assert(base <= query_count) by (nonlinear_arith)
            requires
                worker_count > 0,
                base * worker_count + remainder == query_count,
                remainder >= 0,
        ;
    }
    while worker < worker_count
        invariant
            worker <= worker_count,
            worker_count > 0,
            base == query_count / worker_count,
            remainder == query_count % worker_count,
            base <= query_count,
            counts@.len() == worker,
            forall|w: int|
                0 <= w < worker ==> #[trigger] counts@[w] == worker_share(
                    query_count as nat,
                    worker_count as nat,
                    w as nat,
                ),
        decreases worker_count - worker,
    {
        let count = if worker < remainder {
            proof {
                assert(base + 1 <= query_count) by (nonlinear_arith)
                    requires
                        worker_count > 0,
                        base == query_count / worker_count,
                        remainder == query_count % worker_count,
                        remainder > 0,
                ;
            }
            base + 1
        } else {
            base
        };
        counts.push(count);
        worker = worker + 1;
    }
    counts
}

/// The worker ranges tile the batch: their shares add up to the whole batch,
/// so consecutive ranges `[worker_start(w), worker_start(w + 1))` cover every
/// query exactly once and in input order, and every worker receives a
/// nonempty range when there are at least as many queries as workers.
pub proof fn lemma_worker_ranges_tile(query_count: nat, worker_count: nat)
    requires
        worker_count > 0,
    ensures
        worker_start(query_count, worker_count, worker_count) == query_count,
        query_count >= worker_count ==> forall|worker: nat|
            worker < worker_count ==> #[trigger] worker_share(query_count, worker_count, worker)
                > 0,
{
    let base = query_count / worker_count;
    let remainder = query_count % worker_count;
    assert(base * worker_count + remainder == query_count) by (nonlinear_arith)
        requires
            worker_count > 0,
            base == query_count / worker_count,
            remainder == query_count % worker_count,
    ;
    lemma_worker_start_closed_form(query_count, worker_count, worker_count);
    assert(worker_count * base == base * worker_count) by (nonlinear_arith);
    assert(worker_start(query_count, worker_count, worker_count) == base * worker_count
        + remainder);
    if query_count >= worker_count {
        assert(base >= 1) by (nonlinear_arith)
            requires
                worker_count > 0,
                base * worker_count + remainder == query_count,
                remainder < worker_count,
                query_count >= worker_count,
        ;
    }
}

/// Closed form of the start of worker `worker`:
/// `worker * base + min(worker, remainder)`.
pub proof fn lemma_worker_start_closed_form(query_count: nat, worker_count: nat, worker: nat)
    requires
        worker_count > 0,
    ensures
        worker_start(query_count, worker_count, worker) == worker * (query_count / worker_count)
            + if worker < query_count % worker_count {
            worker
        } else {
            query_count % worker_count
        },
    decreases worker,
{
    if worker > 0 {
        let previous = (worker - 1) as nat;
        lemma_worker_start_closed_form(query_count, worker_count, previous);
        let base = query_count / worker_count;
        assert(worker * base == previous * base + base) by (nonlinear_arith)
            requires
                worker == previous + 1,
        ;
        assert(worker_start(query_count, worker_count, worker) == worker_start(
            query_count,
            worker_count,
            previous,
        ) + worker_share(query_count, worker_count, previous));
    } else {
        let base = query_count / worker_count;
        assert(worker * base == 0) by (nonlinear_arith)
            requires
                worker == 0,
        ;
    }
}

} // verus!
