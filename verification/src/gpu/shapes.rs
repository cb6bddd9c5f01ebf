//! How many rows and bytes an operator asks of a device.

use crate::arith::{min_usize, saturated, saturating_product, spec_max, spec_min};
use crate::error::{fails_with, Error, ErrorCode, Result};
use vstd::prelude::*;

verus! {

/// Where a query runs.
#[derive(Clone, Copy, Debug, PartialEq, Eq, Structural)]
pub enum BackendKind {
    Cpu,
    Metal,
    Cuda,
}

/// The backend that was asked for, or a failure. The class of execution never changes.
pub fn resolve_backend(backend: BackendKind, metal_enabled: bool, cuda_enabled: bool) -> (result:
    Result<BackendKind>)
    ensures
        match backend {
            BackendKind::Metal => if metal_enabled {
                result == Ok::<BackendKind, Error>(backend)
            } else {
                fails_with(
                    result,
                    ErrorCode::GpuAdmissionFailure,
                    "Metal support is not enabled"@,
                )
            },
            BackendKind::Cuda => if cuda_enabled {
                result == Ok::<BackendKind, Error>(backend)
            } else {
                fails_with(result, ErrorCode::GpuAdmissionFailure, "CUDA support is not enabled"@)
            },
            BackendKind::Cpu => result == Ok::<BackendKind, Error>(backend),
        },
{
    match backend {
        BackendKind::Metal => if metal_enabled {
            Ok(backend)
        } else {
            Err(Error::new(ErrorCode::GpuAdmissionFailure, "Metal support is not enabled"))
        },
        BackendKind::Cuda => if cuda_enabled {
            Ok(backend)
        } else {
            Err(Error::new(ErrorCode::GpuAdmissionFailure, "CUDA support is not enabled"))
        },
        BackendKind::Cpu => Ok(backend),
    }
}

/// Rows in and out of an operator, and bytes for each of them.
#[derive(Clone, Copy, Debug, PartialEq, Eq, Structural)]
pub struct OperatorShape {
    pub input_rows: usize,
    pub input_bytes: usize,
    pub output_rows: usize,
    pub output_bytes: usize,
}

/// The result is the sum, or the failure where it does not fit.
pub open spec fn sums_to(result: Result<usize>, sum: int, message: Seq<char>) -> bool {
    if sum <= usize::MAX {
        result == Ok::<usize, Error>(sum as usize)
    } else {
        fails_with(result, ErrorCode::ResultBudgetExceeded, message)
    }
}

fn plus(left: usize, right: usize, message: &str) -> (result: Result<usize>)
    ensures
        sums_to(result, left + right, message@),
{
    match left.checked_add(right) {
        Some(sum) => Ok(sum),
        None => Err(Error::new(ErrorCode::ResultBudgetExceeded, message)),
    }
}

/// Rows and bytes of a join on integer properties.
pub open spec fn spec_join_shape(
    kind: BackendKind,
    left: int,
    right: int,
    max_pairs: int,
) -> OperatorShape {
    OperatorShape {
        input_rows: (left + right) as usize,
        input_bytes: if kind == BackendKind::Cuda {
            320
        } else {
            256
        },
        output_rows: spec_min(
            if left * right <= usize::MAX {
                spec_min(left * right, max_pairs)
            } else {
                max_pairs
            },
            u32::MAX - 1,
        ) as usize,
        output_bytes: 64,
    }
}

/// What a join of rows of two sides asks for.
pub fn join_shape(kind: BackendKind, left: usize, right: usize, max_pairs: usize) -> (result: Result<
    OperatorShape,
>)
    ensures
        if left + right <= usize::MAX {
            result == Ok::<OperatorShape, Error>(
                spec_join_shape(kind, left as int, right as int, max_pairs as int),
            )
        } else {
            fails_with(
                result,
                ErrorCode::ResultBudgetExceeded,
                if kind == BackendKind::Cuda {
                    "CUDA join scratch accounting overflow"@
                } else {
                    "Metal join scratch accounting overflow"@
                },
            )
        },
{
    let (message, input_bytes): (&str, usize) = match kind {
        BackendKind::Cuda => ("CUDA join scratch accounting overflow", 320),
        _ => ("Metal join scratch accounting overflow", 256),
    };
    let input_rows: usize = match plus(left, right, message) {
        Ok(rows) => rows,
        Err(error) => {
            return Err(error);
        },
    };
    let pairs: usize = match left.checked_mul(right) {
        Some(pairs) => min_usize(pairs, max_pairs),
        None => max_pairs,
    };
    let most: usize = u32::MAX as usize - 1;
    Ok(
        OperatorShape {
            input_rows,
            input_bytes,
            output_rows: min_usize(pairs, most),
            output_bytes: 64,
        },
    )
}

/// What a grouping of rows asks for. CUDA has no dispersion.
pub fn group_shape(kind: BackendKind, rows: usize, dispersion: bool) -> (result: Result<
    OperatorShape,
>)
    ensures
        if kind == BackendKind::Cuda && dispersion {
            fails_with(
                result,
                ErrorCode::GpuAdmissionFailure,
                "CUDA resident group aggregation does not support dispersion"@,
            )
        } else {
            result == Ok::<OperatorShape, Error>(
                OperatorShape {
                    input_rows: rows,
                    input_bytes: if kind == BackendKind::Cuda {
                        512
                    } else {
                        384
                    },
                    output_rows: rows,
                    output_bytes: 96,
                },
            )
        },
{
    let input_bytes: usize = match kind {
        BackendKind::Cuda => {
            if dispersion {
                return Err(
                    Error::new(
                        ErrorCode::GpuAdmissionFailure,
                        "CUDA resident group aggregation does not support dispersion",
                    ),
                );
            }
            512
        },
        _ => 384,
    };
    Ok(OperatorShape { input_rows: rows, input_bytes, output_rows: rows, output_bytes: 96 })
}

/// The sum of the first numbers.
pub open spec fn sum_of(numbers: Seq<usize>, count: int) -> int
    decreases count,
{
    if count <= 0 {
        0
    } else {
        sum_of(numbers, count - 1) + numbers[count - 1]
    }
}

proof fn lemma_sum_grows(numbers: Seq<usize>, low: int, high: int)
    requires
        0 <= low <= high <= numbers.len(),
    ensures
        0 <= sum_of(numbers, low) <= sum_of(numbers, high),
    decreases high,
{
    if low < high {
        lemma_sum_grows(numbers, low, high - 1);
    } else if low > 0 {
        lemma_sum_grows(numbers, low - 1, low - 1);
    }
}

/// The least of the first numbers, and zero where there is none.
pub open spec fn least_of(numbers: Seq<usize>, count: int) -> int
    decreases count,
{
    if count <= 0 {
        0
    } else if count == 1 {
        numbers[0] as int
    } else {
        spec_min(least_of(numbers, count - 1), numbers[count - 1] as int)
    }
}

/// What an intersection of sorted sets asks for: no more comes out than the smallest set holds.
pub fn intersection_shape(kind: BackendKind, sets: &[usize], max_output_rows: usize) -> (result:
    Result<OperatorShape>)
    ensures
        if sum_of(sets@, sets@.len() as int) <= usize::MAX {
            result == Ok::<OperatorShape, Error>(
                OperatorShape {
                    input_rows: sum_of(sets@, sets@.len() as int) as usize,
                    input_bytes: 160,
                    output_rows: spec_min(
                        least_of(sets@, sets@.len() as int),
                        saturated(max_output_rows + 1),
                    ) as usize,
                    output_bytes: 24,
                },
            )
        } else {
            fails_with(
                result,
                ErrorCode::ResultBudgetExceeded,
                if kind == BackendKind::Cuda {
                    "CUDA multiway-intersection input size overflow"@
                } else {
                    "Metal multiway-intersection input size overflow"@
                },
            )
        },
{
    let message: &str = match kind {
        BackendKind::Cuda => "CUDA multiway-intersection input size overflow",
        _ => "Metal multiway-intersection input size overflow",
    };
    let mut total: usize = 0;
    let mut least: usize = 0;
    for index in 0..sets.len()
        invariant
            total == sum_of(sets@, index as int),
            least == least_of(sets@, index as int),
            message@ == if kind == BackendKind::Cuda {
                "CUDA multiway-intersection input size overflow"@
            } else {
                "Metal multiway-intersection input size overflow"@
            },
    {
        proof {
            lemma_sum_grows(sets@, index + 1, sets@.len() as int);
        }
        total = match plus(total, sets[index], message) {
            Ok(total) => total,
            Err(error) => {
                return Err(error);
            },
        };
        least = if index == 0 {
            sets[index]
        } else {
            min_usize(least, sets[index])
        };
    }
    Ok(
        OperatorShape {
            input_rows: total,
            input_bytes: 160,
            output_rows: min_usize(least, max_output_rows.saturating_add(1)),
            output_bytes: 24,
        },
    )
}

/// What a sort on CUDA asks for.
pub fn sort_shape(row_count: usize, limit: Option<usize>) -> (shape: OperatorShape)
    ensures
        shape == (OperatorShape {
            input_rows: row_count,
            input_bytes: 256,
            output_rows: match limit {
                Some(limit) => spec_min(limit as int, row_count as int) as usize,
                None => row_count,
            },
            output_bytes: 16,
        }),
{
    let output_rows: usize = match limit {
        Some(limit) => min_usize(limit, row_count),
        None => row_count,
    };
    OperatorShape { input_rows: row_count, input_bytes: 256, output_rows, output_bytes: 16 }
}

/// Rows that a vector search reads and returns.
pub fn vector_rows(
    kind: BackendKind,
    nodes: usize,
    vectors: usize,
    limit: usize,
    queries: usize,
) -> (result: Result<(usize, usize)>)
    ensures
        if nodes + vectors > usize::MAX {
            fails_with(
                result,
                ErrorCode::ResultBudgetExceeded,
                if kind == BackendKind::Cuda {
                    "CUDA vector-pipeline scratch row count overflow"@
                } else {
                    "Metal vector-pipeline scratch row count overflow"@
                },
            )
        } else if limit * queries > usize::MAX {
            fails_with(
                result,
                ErrorCode::ResultBudgetExceeded,
                if kind == BackendKind::Cuda {
                    "CUDA vector result shape overflow"@
                } else {
                    "Metal vector result shape overflow"@
                },
            )
        } else {
            result == Ok::<(usize, usize), Error>(
                ((nodes + vectors) as usize, (limit * queries) as usize),
            )
        },
{
    let (rows_message, shape_message): (&str, &str) = match kind {
        BackendKind::Cuda => (
            "CUDA vector-pipeline scratch row count overflow",
            "CUDA vector result shape overflow",
        ),
        _ => (
            "Metal vector-pipeline scratch row count overflow",
            "Metal vector result shape overflow",
        ),
    };
    let input_rows: usize = match plus(nodes, vectors, rows_message) {
        Ok(rows) => rows,
        Err(error) => {
            return Err(error);
        },
    };
    match limit.checked_mul(queries) {
        Some(output_rows) => Ok((input_rows, output_rows)),
        None => Err(Error::new(ErrorCode::ResultBudgetExceeded, shape_message)),
    }
}

/// Bytes of one projected row: nine for an integer, one for a null mark, eight for a relationship and
/// four for the row.
pub open spec fn projected_bytes(integers: int, nulls: int, relationships: int) -> int {
    saturated(integers * 9 + nulls + relationships * 8 + 4)
}

/// What a node pipeline asks for.
pub fn pipeline_shape(
    kind: BackendKind,
    nodes: usize,
    maximum_rows: usize,
    integers: usize,
    nulls: usize,
    relationships: usize,
) -> (result: Result<OperatorShape>)
    ensures
        if nodes + maximum_rows <= usize::MAX {
            result == Ok::<OperatorShape, Error>(
                OperatorShape {
                    input_rows: (nodes + maximum_rows) as usize,
                    input_bytes: 160,
                    output_rows: maximum_rows,
                    output_bytes: projected_bytes(
                        integers as int,
                        nulls as int,
                        relationships as int,
                    ) as usize,
                },
            )
        } else {
            fails_with(
                result,
                ErrorCode::ResultBudgetExceeded,
                if kind == BackendKind::Cuda {
                    "CUDA resident-pipeline scratch row count overflow"@
                } else {
                    "Metal resident-pipeline scratch row count overflow"@
                },
            )
        },
{
    let message: &str = match kind {
        BackendKind::Cuda => "CUDA resident-pipeline scratch row count overflow",
        _ => "Metal resident-pipeline scratch row count overflow",
    };
    let output_bytes: usize = saturating_product(integers, 9).saturating_add(nulls).saturating_add(
        saturating_product(saturating_product(relationships, 2), 4),
    ).saturating_add(4);
    match plus(nodes, maximum_rows, message) {
        Ok(input_rows) => Ok(
            OperatorShape { input_rows, input_bytes: 160, output_rows: maximum_rows, output_bytes },
        ),
        Err(error) => Err(error),
    }
}

/// What the pipeline under a row program asks for. Its width must be exact.
pub fn row_program_shape(nodes: usize, maximum_rows: usize, relationships: usize) -> (result: Result<
    OperatorShape,
>)
    ensures
        if relationships * 8 + 4 > usize::MAX {
            fails_with(
                result,
                ErrorCode::ResultBudgetExceeded,
                "Metal typed-row wrapped-pipeline width overflow"@,
            )
        } else if nodes + maximum_rows > usize::MAX {
            fails_with(
                result,
                ErrorCode::ResultBudgetExceeded,
                "Metal typed-row wrapped-pipeline row count overflow"@,
            )
        } else {
            result == Ok::<OperatorShape, Error>(
                OperatorShape {
                    input_rows: (nodes + maximum_rows) as usize,
                    input_bytes: 160,
                    output_rows: maximum_rows,
                    output_bytes: (relationships * 8 + 4) as usize,
                },
            )
        },
{
    let width = match relationships.checked_mul(2) {
        Some(columns) => match columns.checked_mul(4) {
            Some(bytes) => bytes.checked_add(4),
            None => None,
        },
        None => None,
    };
    let output_bytes: usize = match width {
        Some(bytes) => bytes,
        None => {
            return Err(
                Error::new(
                    ErrorCode::ResultBudgetExceeded,
                    "Metal typed-row wrapped-pipeline width overflow",
                ),
            );
        },
    };
    match plus(nodes, maximum_rows, "Metal typed-row wrapped-pipeline row count overflow") {
        Ok(input_rows) => Ok(
            OperatorShape { input_rows, input_bytes: 160, output_rows: maximum_rows, output_bytes },
        ),
        Err(error) => Err(error),
    }
}

/// The greatest of the first numbers, and zero where there is none.
pub open spec fn greatest_of(numbers: Seq<usize>, count: int) -> int
    decreases count,
{
    if count <= 0 {
        0
    } else {
        spec_max(greatest_of(numbers, count - 1), numbers[count - 1] as int)
    }
}

/// What group pipelines over one input ask for. `edges` is there where the input is expanded.
pub fn group_pipeline_shape(
    kind: BackendKind,
    nodes: usize,
    edges: Option<usize>,
    max_groups: &[usize],
) -> (result: Result<OperatorShape>)
    ensures
        ({
            let rows = nodes + match edges {
                Some(edges) => edges as int,
                None => 0,
            };
            if rows <= usize::MAX {
                result == Ok::<OperatorShape, Error>(
                    OperatorShape {
                        input_rows: rows as usize,
                        input_bytes: 448,
                        output_rows: spec_min(
                            greatest_of(max_groups@, max_groups@.len() as int),
                            rows,
                        ) as usize,
                        output_bytes: 96,
                    },
                )
            } else {
                fails_with(
                    result,
                    ErrorCode::ResultBudgetExceeded,
                    if kind == BackendKind::Cuda {
                        "CUDA resident-group scratch row count overflow"@
                    } else {
                        "Metal resident-group scratch row count overflow"@
                    },
                )
            }
        }),
{
    let message: &str = match kind {
        BackendKind::Cuda => "CUDA resident-group scratch row count overflow",
        _ => "Metal resident-group scratch row count overflow",
    };
    let expanded: usize = match edges {
        Some(edges) => edges,
        None => 0,
    };
    let input_rows: usize = match plus(nodes, expanded, message) {
        Ok(rows) => rows,
        Err(error) => {
            return Err(error);
        },
    };
    let mut greatest: usize = 0;
    for index in 0..max_groups.len()
        invariant
            greatest == greatest_of(max_groups@, index as int),
    {
        if max_groups[index] > greatest {
            greatest = max_groups[index];
        }
    }
    Ok(
        OperatorShape {
            input_rows,
            input_bytes: 448,
            output_rows: min_usize(greatest, input_rows),
            output_bytes: 96,
        },
    )
}

/// What a temporal pipeline asks for.
pub fn temporal_shape(
    kind: BackendKind,
    nodes: usize,
    edges: Option<usize>,
    temporal_rows: usize,
    max_output_rows: usize,
) -> (result: Result<OperatorShape>)
    ensures
        ({
            let rows = nodes + match edges {
                Some(edges) => edges as int,
                None => 0,
            } + temporal_rows;
            if rows <= usize::MAX {
                result == Ok::<OperatorShape, Error>(
                    OperatorShape {
                        input_rows: rows as usize,
                        input_bytes: 416,
                        output_rows: spec_min(max_output_rows as int, rows) as usize,
                        output_bytes: 64,
                    },
                )
            } else {
                fails_with(
                    result,
                    ErrorCode::ResultBudgetExceeded,
                    if kind == BackendKind::Cuda {
                        "CUDA resident-temporal scratch row count overflow"@
                    } else {
                        "Metal resident-temporal scratch row count overflow"@
                    },
                )
            }
        }),
{
    let message: &str = match kind {
        BackendKind::Cuda => "CUDA resident-temporal scratch row count overflow",
        _ => "Metal resident-temporal scratch row count overflow",
    };
    let expanded: usize = match edges {
        Some(edges) => edges,
        None => 0,
    };
    let graph_rows: usize = match plus(nodes, expanded, message) {
        Ok(rows) => rows,
        Err(error) => {
            return Err(error);
        },
    };
    match plus(graph_rows, temporal_rows, message) {
        Ok(input_rows) => Ok(
            OperatorShape {
                input_rows,
                input_bytes: 416,
                output_rows: min_usize(max_output_rows, input_rows),
                output_bytes: 64,
            },
        ),
        Err(error) => Err(error),
    }
}

/// What a graph procedure on CUDA asks for.
pub fn procedure_shape(nodes: usize, edges: usize, max_output_rows: usize) -> (result: Result<
    OperatorShape,
>)
    ensures
        if nodes + edges <= usize::MAX {
            result == Ok::<OperatorShape, Error>(
                OperatorShape {
                    input_rows: (nodes + edges) as usize,
                    input_bytes: 512,
                    output_rows: spec_min(max_output_rows as int, nodes as int) as usize,
                    output_bytes: 32,
                },
            )
        } else {
            fails_with(
                result,
                ErrorCode::ResultBudgetExceeded,
                "CUDA graph-procedure scratch row count overflow"@,
            )
        },
{
    match plus(nodes, edges, "CUDA graph-procedure scratch row count overflow") {
        Ok(input_rows) => Ok(
            OperatorShape {
                input_rows,
                input_bytes: 512,
                output_rows: min_usize(max_output_rows, nodes),
                output_bytes: 32,
            },
        ),
        Err(error) => Err(error),
    }
}

/// Scratch of a filter on integers: nothing to do for no values, else ten bytes each.
pub fn filter_scratch_bytes(values: usize, validity: usize) -> (result: Result<Option<usize>>)
    ensures
        if values != validity {
            fails_with(
                result,
                ErrorCode::QueryType,
                "filter value and validity lengths differ"@,
            )
        } else if values == 0 {
            result == Ok::<Option<usize>, Error>(None)
        } else {
            result == Ok::<Option<usize>, Error>(Some(saturated(values * 10) as usize))
        },
{
    if values != validity {
        return Err(
            Error::new(ErrorCode::QueryType, "filter value and validity lengths differ"),
        );
    }
    if values == 0 {
        return Ok(None);
    }
    Ok(Some(saturating_product(values, 10)))
}

/// Scratch of exact distances: four bytes for each number of the matrix, the query and the result.
pub fn distance_scratch_bytes(matrix: usize, query: usize, rows: usize) -> (bytes: usize)
    ensures
        bytes == saturated((matrix + query + rows) * 4),
{
    saturating_product(matrix.saturating_add(query).saturating_add(rows), 4)
}

/// Bytes of the first inputs of a conversion to booleans: their text and six more each.
pub open spec fn boolean_bytes(texts: Seq<usize>, count: int) -> int
    decreases count,
{
    if count <= 0 {
        0
    } else {
        boolean_bytes(texts, count - 1) + saturated(texts[count - 1] + 6)
    }
}

proof fn lemma_boolean_bytes_grow(texts: Seq<usize>, low: int, high: int)
    requires
        0 <= low <= high <= texts.len(),
    ensures
        0 <= boolean_bytes(texts, low) <= boolean_bytes(texts, high),
    decreases high,
{
    if low < high {
        lemma_boolean_bytes_grow(texts, low, high - 1);
    } else if low > 0 {
        lemma_boolean_bytes_grow(texts, low - 1, low - 1);
    }
}

/// Scratch of a conversion to booleans. An input that is no text counts as an empty one.
pub fn to_boolean_scratch_bytes(texts: &[usize]) -> (result: Result<usize>)
    ensures
        if boolean_bytes(texts@, texts@.len() as int) <= usize::MAX {
            result == Ok::<usize, Error>(boolean_bytes(texts@, texts@.len() as int) as usize)
        } else {
            fails_with(
                result,
                ErrorCode::GpuAdmissionFailure,
                "Metal toBoolean scratch accounting overflow"@,
            )
        },
{
    let mut total: usize = 0;
    for index in 0..texts.len()
        invariant
            total == boolean_bytes(texts@, index as int),
    {
        proof {
            lemma_boolean_bytes_grow(texts@, index + 1, texts@.len() as int);
        }
        match total.checked_add(texts[index].saturating_add(6)) {
            Some(sum) => {
                total = sum;
            },
            None => {
                return Err(
                    Error::new(
                        ErrorCode::GpuAdmissionFailure,
                        "Metal toBoolean scratch accounting overflow",
                    ),
                );
            },
        }
    }
    Ok(total)
}

/// One reservation for several parts of a pipeline.
pub fn combined_scratch_bytes(parts: &[usize]) -> (result: Result<usize>)
    ensures
        sums_to(
            result,
            sum_of(parts@, parts@.len() as int),
            "Metal mutation/effect scratch reservation overflow"@,
        ),
{
    let mut total: usize = 0;
    for index in 0..parts.len()
        invariant
            total == sum_of(parts@, index as int),
    {
        proof {
            lemma_sum_grows(parts@, index + 1, parts@.len() as int);
        }
        total = match plus(
            total,
            parts[index],
            "Metal mutation/effect scratch reservation overflow",
        ) {
            Ok(total) => total,
            Err(error) => {
                return Err(error);
            },
        };
    }
    Ok(total)
}

/// A join never returns more pairs than it was allowed, nor more than the two sides have.
pub proof fn law_join_output_is_bounded(kind: BackendKind, left: int, right: int, max_pairs: int)
    requires
        0 <= left,
        0 <= right,
        0 <= max_pairs <= usize::MAX,
        left + right <= usize::MAX,
    ensures
        spec_join_shape(kind, left, right, max_pairs).output_rows <= max_pairs,
        left * right <= usize::MAX ==> spec_join_shape(kind, left, right, max_pairs).output_rows
            <= left * right,
{
    assert(left * right >= 0) by (nonlinear_arith)
        requires
            left >= 0,
            right >= 0,
    ;
}

/// The least of some numbers is one of them and none is below it; the greatest is one of them and none is
/// above it.
pub proof fn law_least_and_greatest(numbers: Seq<usize>, count: int, place: int)
    requires
        0 < count <= numbers.len(),
        0 <= place < count,
    ensures
        least_of(numbers, count) <= numbers[place] <= greatest_of(numbers, count),
        exists|i: int| 0 <= i < count && #[trigger] numbers[i] == least_of(numbers, count),
        exists|i: int| 0 <= i < count && #[trigger] numbers[i] == greatest_of(numbers, count),
    decreases count,
{
    if count == 1 {
        assert(numbers[0] == least_of(numbers, count));
        assert(greatest_of(numbers, 0) == 0);
        assert(numbers[0] == greatest_of(numbers, count));
    } else {
        law_least_and_greatest(
            numbers,
            count - 1,
            if place < count - 1 {
                place
            } else {
                0
            },
        );
        let low = choose|i: int|
            0 <= i < count - 1 && #[trigger] numbers[i] == least_of(numbers, count - 1);
        let high = choose|i: int|
            0 <= i < count - 1 && #[trigger] numbers[i] == greatest_of(numbers, count - 1);
        assert(numbers[low] == least_of(numbers, count - 1));
        assert(numbers[high] == greatest_of(numbers, count - 1));
        assert(numbers[count - 1] == numbers[count - 1]);
    }
}

/// A projected row takes nine bytes for an integer, one for a null and eight for a relationship, and four
/// besides.
pub proof fn law_bytes_of_projected_values(integers: int, nulls: int, relationships: int)
    requires
        0 <= integers,
        0 <= nulls,
        0 <= relationships,
        integers * 9 + nulls + relationships * 8 + 13 <= usize::MAX,
    ensures
        projected_bytes(0, 0, 0) == 4,
        projected_bytes(integers + 1, nulls, relationships) == projected_bytes(
            integers,
            nulls,
            relationships,
        ) + 9,
        projected_bytes(integers, nulls + 1, relationships) == projected_bytes(
            integers,
            nulls,
            relationships,
        ) + 1,
        projected_bytes(integers, nulls, relationships + 1) == projected_bytes(
            integers,
            nulls,
            relationships,
        ) + 8,
{
}

/// The texts of a boolean program take their own bytes and six each.
pub proof fn law_bytes_of_boolean_texts(texts: Seq<usize>, count: int)
    requires
        0 <= count <= texts.len(),
        forall|i: int| 0 <= i < count ==> (#[trigger] texts[i]) + 6 <= usize::MAX,
    ensures
        boolean_bytes(texts, count) == sum_of(texts, count) + 6 * count,
    decreases count,
{
    if count > 0 {
        law_bytes_of_boolean_texts(texts, count - 1);
    }
}

} // verus!
