//! Deterministic IVF-PQ parameters and the memory contract of a build.

use crate::arith::{max_usize, min_usize, saturating_product, spec_max, spec_min, saturated};
use crate::error::{fails_with, Error, ErrorCode, Result};
use vstd::prelude::*;

verus! {

/// Frozen deterministic IVF-PQ build and search parameters.
#[derive(Clone, Copy, Debug, PartialEq, Eq, Structural)]
pub struct IvfPqConfig {
    pub size_class_version: u16,
    pub coarse_centroids: usize,
    pub subquantizers: usize,
    pub bits_per_code: u8,
    pub probes: usize,
    pub candidate_budget: usize,
    pub iterations: usize,
    pub seed: u64,
}

/// Version of the deterministic row-count-to-IVF-PQ parameter table.
pub const IVF_PQ_SIZE_CLASS_VERSION: u16 = 1;

/// Minimum measured validation recall required before an IVF-PQ build may be planned.
pub const IVF_PQ_MIN_RECALL_BASIS_POINTS: u16 = 9000;

pub const MAX_IVF_PQ_TRAINING_ROWS: usize = 131072;

/// Fixed source-row batch used by device rebuild executors.
pub const IVF_PQ_BUILD_BATCH_ROWS: usize = 16384;

/// Hard upper bound for one device-resident assignment distance tile.
pub const IVF_PQ_ASSIGNMENT_TILE_BYTES: usize = 268435456;

/// Deterministic memory contract checked before an IVF-PQ rebuild starts. All values are bytes or row
/// counts and are independent of backend pointer widths and local device count.
#[derive(Clone, Copy, Debug, PartialEq, Eq, Structural)]
pub struct IvfPqBuildPlan {
    pub active_rows: u64,
    pub dimension: usize,
    pub training_rows: usize,
    pub batch_rows: usize,
    pub assignment_tile_bytes: usize,
    pub derived_bytes: u64,
    pub peak_scratch_bytes: u64,
}

/// The seed, the code width and the iterations that every build starts from.
pub open spec fn spec_default_config() -> IvfPqConfig {
    IvfPqConfig {
        size_class_version: 1,
        coarse_centroids: 64,
        subquantizers: 8,
        bits_per_code: 8,
        probes: 8,
        candidate_budget: 256,
        iterations: 16,
        seed: 0x4947_4956_4650_5101,
    }
}

impl Default for IvfPqConfig {
    fn default() -> (config: Self)
        ensures
            config == spec_default_config(),
    {
        IvfPqConfig {
            size_class_version: 1,
            coarse_centroids: 64,
            subquantizers: 8,
            bits_per_code: 8,
            probes: 8,
            candidate_budget: 256,
            iterations: 16,
            seed: 0x4947_4956_4650_5101,
        }
    }
}

/// Coarse centroids, probes, candidate budget and subquantizers aimed at, by number of rows.
pub open spec fn size_class(rows: int) -> (int, int, int, int) {
    if rows <= 9_999 {
        (64, 8, 256, 8)
    } else if rows <= 99_999 {
        (256, 12, 512, 12)
    } else if rows <= 999_999 {
        (1_024, 24, 1_024, 16)
    } else if rows <= 9_999_999 {
        (4_096, 48, 2_048, 32)
    } else if rows <= 99_999_999 {
        (16_384, 96, 4_096, 48)
    } else {
        (65_535, 128, 8_192, 48)
    }
}

/// The widths a vector may be split into, widest first.
pub open spec fn subquantizer_choices() -> Seq<int> {
    seq![64int, 48, 32, 24, 16, 12, 8, 4, 2, 1]
}

/// The choice fits: it is not above the aim, and divides the dimension.
pub open spec fn fits_dimension(choice: int, target: int, dimension: int) -> bool {
    choice <= target && choice <= dimension && dimension % choice == 0
}

/// The first choice, from `index` on, that fits; one where none does.
pub open spec fn best_subquantizers(index: int, target: int, dimension: int) -> int
    decreases 10 - index,
{
    if index < 0 || index >= 10 {
        1
    } else if fits_dimension(subquantizer_choices()[index], target, dimension) {
        subquantizer_choices()[index]
    } else {
        best_subquantizers(index + 1, target, dimension)
    }
}

/// The parameters for a number of rows and a dimension.
pub open spec fn spec_config_for_shape(row_count: int, dimension: int) -> IvfPqConfig {
    let rows = spec_max(row_count, 1);
    let class = size_class(rows);
    let coarse = spec_max(spec_min(class.0, rows), 1);
    IvfPqConfig {
        coarse_centroids: coarse as usize,
        probes: spec_max(spec_min(class.1, coarse), 1) as usize,
        candidate_budget: spec_max(class.2, 256) as usize,
        subquantizers: best_subquantizers(0, class.3, dimension) as usize,
        ..spec_default_config()
    }
}

pub fn ivf_config_for_shape(row_count: usize, dimension: usize) -> (config: IvfPqConfig)
    ensures
        config == spec_config_for_shape(row_count as int, dimension as int),
{
    let mut config = IvfPqConfig::default();
    let rows: usize = max_usize(row_count, 1);
    let (coarse, probes, budget, target): (usize, usize, usize, usize) = if rows <= 9_999 {
        (64, 8, 256, 8)
    } else if rows <= 99_999 {
        (256, 12, 512, 12)
    } else if rows <= 999_999 {
        (1_024, 24, 1_024, 16)
    } else if rows <= 9_999_999 {
        (4_096, 48, 2_048, 32)
    } else if rows <= 99_999_999 {
        (16_384, 96, 4_096, 48)
    } else {
        (65_535, 128, 8_192, 48)
    };
    config.coarse_centroids = max_usize(min_usize(coarse, rows), 1);
    config.probes = max_usize(min_usize(probes, config.coarse_centroids), 1);
    config.candidate_budget = max_usize(budget, 256);
    let choices: [usize; 10] = [64, 48, 32, 24, 16, 12, 8, 4, 2, 1];
    let mut chosen: usize = 1;
    let mut index: usize = 0;
    let mut found = false;
    while index < 10 && !found
        invariant
            index <= 10,
            choices@.len() == 10,
            forall|i: int|
                0 <= i < 10 ==> #[trigger] choices@[i] == subquantizer_choices()[i] && choices@[i]
                    >= 1,
            if found {
                chosen == best_subquantizers(0, target as int, dimension as int)
            } else {
                chosen == 1 && best_subquantizers(0, target as int, dimension as int)
                    == best_subquantizers(index as int, target as int, dimension as int)
            },
        decreases 10 - index, !found as int,
    {
        let choice: usize = choices[index];
        assert(choices@[index as int] == subquantizer_choices()[index as int]);
        if choice <= target && choice <= dimension && dimension % choice == 0 {
            chosen = choice;
            found = true;
        } else {
            index = index + 1;
        }
    }
    config.subquantizers = chosen;
    config
}

/// The parameters for a shape divide the vector evenly and probe no more lists than there are.
pub proof fn law_config_fits_shape(row_count: int, dimension: int)
    requires
        0 <= row_count <= usize::MAX,
        1 <= dimension <= usize::MAX,
    ensures
        ({
            let config = spec_config_for_shape(row_count, dimension);
            &&& 1 <= config.coarse_centroids <= spec_max(row_count, 1)
            &&& 1 <= config.probes <= config.coarse_centroids
            &&& 1 <= config.subquantizers <= dimension
            &&& dimension % (config.subquantizers as int) == 0
            &&& config.candidate_budget >= 256
        }),
{
    let target = size_class(spec_max(row_count, 1)).3;
    lemma_best_subquantizers(0, target, dimension);
}

proof fn lemma_best_subquantizers(index: int, target: int, dimension: int)
    requires
        0 <= index <= 10,
        1 <= dimension,
    ensures
        1 <= best_subquantizers(index, target, dimension) <= 64,
        best_subquantizers(index, target, dimension) <= dimension,
        dimension % best_subquantizers(index, target, dimension) == 0,
    decreases 10 - index,
{
    if index < 10 {
        lemma_best_subquantizers(index + 1, target, dimension);
        let choices = subquantizer_choices();
        assert(choices.len() == 10);
        assert(choices[0] == 64 && choices[1] == 48 && choices[2] == 32 && choices[3] == 24
            && choices[4] == 16 && choices[5] == 12 && choices[6] == 8 && choices[7] == 4
            && choices[8] == 2 && choices[9] == 1);
    }
}

/// Parameters that a search or build can use with vectors of this dimension.
pub open spec fn config_valid(dimension: int, config: IvfPqConfig) -> bool {
    &&& config.size_class_version == 1
    &&& 0 < config.coarse_centroids <= u16::MAX
    &&& 0 < config.subquantizers <= dimension
    &&& 0 < config.bits_per_code <= 8
    &&& config.probes > 0
    &&& config.candidate_budget > 0
    &&& config.iterations > 0
}

pub fn validate_ivf_config(dimension: usize, config: IvfPqConfig) -> (result: Result<()>)
    ensures
        if config_valid(dimension as int, config) {
            result is Ok
        } else {
            fails_with(result, ErrorCode::IndexUnavailable, "invalid IVF-PQ configuration"@)
        },
{
    if config.size_class_version != IVF_PQ_SIZE_CLASS_VERSION || config.coarse_centroids == 0
        || config.coarse_centroids > 65_535 || config.subquantizers == 0 || config.subquantizers
        > dimension || config.bits_per_code == 0 || config.bits_per_code > 8 || config.probes == 0
        || config.candidate_budget == 0 || config.iterations == 0 {
        return Err(Error::new(ErrorCode::IndexUnavailable, "invalid IVF-PQ configuration"));
    }
    Ok(())
}

/// The coordinates of one subspace.
pub fn subspace_bounds(dimension: usize, subquantizers: usize, subspace: usize) -> (bounds: (
    usize,
    usize,
))
    requires
        subquantizers > 0,
    ensures
        bounds.0 == saturated(dimension * subspace) / subquantizers as int,
        bounds.1 == saturated(dimension * saturated(subspace + 1)) / subquantizers as int,
{
    (
        saturating_product(dimension, subspace) / subquantizers,
        saturating_product(dimension, subspace.saturating_add(1)) / subquantizers,
    )
}

/// Subspaces follow each other without gap, the first starts at the first coordinate and the last ends
/// behind the last one.
pub proof fn law_subspaces_cover_dimension(dimension: int, subquantizers: int, subspace: int)
    requires
        0 < subquantizers,
        0 <= dimension,
        0 <= subspace < subquantizers,
        dimension * subquantizers <= usize::MAX,
        subquantizers <= usize::MAX,
    ensures
        saturated(dimension * 0) / subquantizers == 0,
        saturated(dimension * subspace) / subquantizers <= saturated(
            dimension * saturated(subspace + 1),
        ) / subquantizers,
        saturated(dimension * subquantizers) / subquantizers == dimension,
{
    assert(dimension * subspace <= dimension * (subspace + 1) <= dimension * subquantizers)
        by (nonlinear_arith)
        requires
            0 <= subspace < subquantizers,
            0 <= dimension,
    ;
    vstd::arithmetic::div_mod::lemma_div_is_ordered(
        dimension * subspace,
        dimension * (subspace + 1),
        subquantizers,
    );
    vstd::arithmetic::div_mod::lemma_div_multiples_vanish(dimension, subquantizers);
    assert(dimension * subquantizers == subquantizers * dimension) by (nonlinear_arith);
    assert(dimension * 0 == 0);
    assert(0int / subquantizers == 0) by (nonlinear_arith)
        requires
            0 < subquantizers,
    ;
}

/// Rows that a build trains on.
pub open spec fn training_rows(active_rows: int) -> int {
    spec_min(active_rows, MAX_IVF_PQ_TRAINING_ROWS as int)
}

/// Rows that a build encodes at a time.
pub open spec fn batch_rows(active_rows: int) -> int {
    spec_min(active_rows, IVF_PQ_BUILD_BATCH_ROWS as int)
}

/// Entries of one codebook.
pub open spec fn codebook_centroids(active_rows: int, config: IvfPqConfig) -> int {
    spec_min(power_of_two(config.bits_per_code as nat) as int, training_rows(active_rows))
}

pub open spec fn power_of_two(exponent: nat) -> nat
    decreases exponent,
{
    if exponent == 0 {
        1
    } else {
        2 * power_of_two((exponent - 1) as nat)
    }
}

/// Parameters that fit the training sample.
pub open spec fn config_fits(active_rows: int, dimension: int, config: IvfPqConfig) -> bool {
    &&& config.size_class_version == 1
    &&& 0 < config.coarse_centroids <= training_rows(active_rows)
    &&& 0 < config.subquantizers <= dimension
    &&& 0 < config.bits_per_code <= 8
    &&& 0 < config.probes <= config.coarse_centroids
    &&& config.candidate_budget > 0
    &&& config.iterations > 0
}

/// Bytes of the coarse centroids.
#[verifier::opaque]
pub open spec fn coarse_bytes(dimension: int, config: IvfPqConfig) -> int {
    (config.coarse_centroids * dimension) * 4
}

/// Bytes of the codebooks.
#[verifier::opaque]
pub open spec fn codebook_bytes(active_rows: int, dimension: int, config: IvfPqConfig) -> int {
    (codebook_centroids(active_rows, config) * dimension) * 4
}

/// Bytes of one row: its ordinal, codes, list position and version.
#[verifier::opaque]
pub open spec fn page_bytes(active_rows: int, config: IvfPqConfig) -> int {
    active_rows * (config.subquantizers + 16)
}

/// Bytes of the codebook offsets: one for each centroid of each subspace and one for each subspace,
/// and an end for each.
#[verifier::opaque]
pub open spec fn codebook_offsets_bytes(active_rows: int, config: IvfPqConfig) -> int {
    (codebook_centroids(active_rows, config) * config.subquantizers + 1) * 4 + (config.subquantizers
        + 1) * 4
}

/// Bytes of the finished index.
pub open spec fn derived_bytes(active_rows: int, dimension: int, config: IvfPqConfig) -> int {
    page_bytes(active_rows, config) + coarse_bytes(dimension, config) + codebook_bytes(
        active_rows,
        dimension,
        config,
    ) + (config.coarse_centroids + 1) * 4 + codebook_offsets_bytes(active_rows, config)
}

#[verifier::opaque]
pub open spec fn training_bytes(active_rows: int, dimension: int) -> int {
    (training_rows(active_rows) * dimension) * 4
}

#[verifier::opaque]
pub open spec fn widest_subspace(dimension: int, config: IvfPqConfig) -> int {
    if dimension % (config.subquantizers as int) == 0 {
        dimension / (config.subquantizers as int)
    } else {
        dimension / (config.subquantizers as int) + 1
    }
}

#[verifier::opaque]
pub open spec fn accumulator_bytes(dimension: int, config: IvfPqConfig) -> int {
    (config.coarse_centroids * dimension) * 8
}

#[verifier::opaque]
pub open spec fn subspace_bytes(active_rows: int, dimension: int, config: IvfPqConfig) -> int {
    (training_rows(active_rows) * widest_subspace(dimension, config)) * 4
}

/// Bytes of one batch: vectors, residuals and row metadata.
#[verifier::opaque]
pub open spec fn batch_bytes(active_rows: int, dimension: int, config: IvfPqConfig) -> int {
    (batch_rows(active_rows) * dimension) * 4 + (batch_rows(active_rows) * widest_subspace(
        dimension,
        config,
    )) * 4 + batch_rows(active_rows) * (config.subquantizers + 16)
}

/// Bytes of one assignment tile.
#[verifier::opaque]
pub open spec fn tile_bytes(active_rows: int, config: IvfPqConfig) -> int {
    spec_max(
        spec_min(
            (training_rows(active_rows) * spec_max(
                config.coarse_centroids as int,
                codebook_centroids(active_rows, config),
            )) * 4,
            IVF_PQ_ASSIGNMENT_TILE_BYTES as int,
        ),
        4,
    )
}

/// Bytes that a build holds at its peak. Unified-memory backends can hold the host sample and its
/// device tensor at a time, so the training matrix and the coarse centroids count twice.
pub open spec fn peak_bytes(active_rows: int, dimension: int, config: IvfPqConfig) -> int {
    training_bytes(active_rows, dimension) * 2 + coarse_bytes(dimension, config) * 2
        + codebook_bytes(active_rows, dimension, config) + accumulator_bytes(dimension, config)
        + subspace_bytes(active_rows, dimension, config) + batch_bytes(
        active_rows,
        dimension,
        config,
    ) + tile_bytes(active_rows, config)
}

/// Why no build of this shape can be planned.
pub open spec fn plan_fault(active_rows: int, dimension: int, config: IvfPqConfig) -> Option<
    Seq<char>,
> {
    if active_rows == 0 || active_rows > u32::MAX || dimension == 0 {
        Some("IVF-PQ build shape is empty or exceeds dense-row addressing"@)
    } else if !config_fits(active_rows, dimension, config) {
        Some("IVF-PQ build configuration does not fit its deterministic training sample"@)
    } else if config.subquantizers + 16 > u64::MAX {
        Some("IVF row bytes overflow"@)
    } else if page_bytes(active_rows, config) > u64::MAX {
        Some("IVF derived byte estimate overflow"@)
    } else if coarse_bytes(dimension, config) > u64::MAX {
        Some("coarse bytes overflow"@)
    } else if codebook_bytes(active_rows, dimension, config) > u64::MAX {
        Some("codebook bytes overflow"@)
    } else if codebook_offsets_bytes(active_rows, config) > u64::MAX {
        Some("codebook offsets overflow"@)
    } else if derived_bytes(active_rows, dimension, config) > u64::MAX {
        Some("IVF derived byte estimate overflow"@)
    } else if training_bytes(active_rows, dimension) > u64::MAX {
        Some("training bytes overflow"@)
    } else if accumulator_bytes(dimension, config) > u64::MAX {
        Some("training sums overflow"@)
    } else if subspace_bytes(active_rows, dimension, config) > u64::MAX {
        Some("PQ training bytes overflow"@)
    } else if batch_bytes(active_rows, dimension, config) > u64::MAX {
        Some("build batch bytes overflow"@)
    } else if peak_bytes(active_rows, dimension, config) > u64::MAX {
        Some("IVF scratch estimate overflow"@)
    } else {
        None
    }
}

fn unavailable<T>(message: &str) -> (result: Result<T>)
    ensures
        fails_with(result, ErrorCode::IndexUnavailable, message@),
{
    Err(Error::new(ErrorCode::IndexUnavailable, message))
}

/// A product of three numbers, where it fits.
fn product_of(left: u64, right: u64, factor: u64) -> (product: Option<u64>)
    requires
        0 < factor,
    ensures
        product == if (left * right) * factor <= u64::MAX {
            Some(((left * right) * factor) as u64)
        } else {
            None
        },
{
    let ghost whole = left * right;
    assert(whole <= whole * factor) by (nonlinear_arith)
        requires
            0 < factor,
            0 <= whole,
    ;
    match left.checked_mul(right) {
        Some(product) => product.checked_mul(factor),
        None => None,
    }
}

/// A sum, where it fits.
fn sum_of(total: Option<u64>, more: u64) -> (sum: Option<u64>)
    ensures
        sum == match total {
            Some(total) => if total + more <= u64::MAX {
                Some((total + more) as u64)
            } else {
                None
            },
            None => None,
        },
{
    match total {
        Some(total) => total.checked_add(more),
        None => None,
    }
}

fn codebook_entries(bits: u8, rows: u64) -> (entries: u64)
    requires
        0 < bits <= 8,
    ensures
        entries == spec_min(power_of_two(bits as nat) as int, rows as int),
{
    let mut power: u64 = 1;
    for step in 0..bits
        invariant
            bits <= 8,
            power == power_of_two(step as nat),
            power <= 256,
            step < bits ==> power <= 128,
    {
        power = power * 2;
        proof {
            reveal_with_fuel(power_of_two, 9);
        }
    }
    if power <= rows {
        power
    } else {
        rows
    }
}

/// A number of bytes, where it can be counted.
pub open spec fn counted(bytes: int) -> Option<u64> {
    if bytes <= u64::MAX {
        Some(bytes as u64)
    } else {
        None
    }
}

fn pages_of(active_rows: u64, config: IvfPqConfig) -> (bytes: Option<u64>)
    requires
        config.subquantizers + 16 <= u64::MAX,
    ensures
        bytes == counted(page_bytes(active_rows as int, config)),
        page_bytes(active_rows as int, config) >= 0,
{
    proof {
        reveal(page_bytes);
        assert(active_rows * (config.subquantizers + 16) >= 0) by (nonlinear_arith)
            requires
                active_rows >= 0,
                config.subquantizers >= 0,
        ;
    }
    active_rows.checked_mul(config.subquantizers as u64 + 16)
}

/// Bytes of `count` vectors of `width` coordinates of `size` bytes.
fn matrix_of(count: u64, width: u64, size: u64) -> (bytes: Option<u64>)
    requires
        0 < size,
    ensures
        bytes == counted((count * width) * size),
        (count * width) * size >= 0,
{
    assert(count * width >= 0) by (nonlinear_arith)
        requires
            count >= 0,
            width >= 0,
    ;
    assert((count * width) * size >= 0) by (nonlinear_arith)
        requires
            count * width >= 0,
            size > 0,
    ;
    product_of(count, width, size)
}

fn offsets_of(active_rows: u64, entries: u64, config: IvfPqConfig) -> (bytes: Option<u64>)
    requires
        entries == codebook_centroids(active_rows as int, config),
    ensures
        bytes == counted(codebook_offsets_bytes(active_rows as int, config)),
        codebook_offsets_bytes(active_rows as int, config) >= 0,
{
    let parts: u64 = config.subquantizers as u64;
    proof {
        reveal(codebook_offsets_bytes);
        assert(entries * parts >= 0) by (nonlinear_arith)
            requires
                entries >= 0,
                parts >= 0,
        ;
    }
    let part_offsets: u64 = match parts.checked_add(1) {
        Some(count) => match count.checked_mul(4) {
            Some(bytes) => bytes,
            None => {
                return None;
            },
        },
        None => {
            return None;
        },
    };
    let entry_offsets: Option<u64> = match entries.checked_mul(parts) {
        Some(count) => match count.checked_add(1) {
            Some(count) => count.checked_mul(4),
            None => None,
        },
        None => None,
    };
    sum_of(entry_offsets, part_offsets)
}

fn tile_of(active_rows: u64, training: u64, entries: u64, config: IvfPqConfig) -> (tile: u64)
    requires
        training == training_rows(active_rows as int),
        entries == codebook_centroids(active_rows as int, config),
        config.coarse_centroids <= training,
        0 < config.bits_per_code <= 8,
    ensures
        tile == tile_bytes(active_rows as int, config),
        4 <= tile <= 268435456,
{
    let coarse: u64 = config.coarse_centroids as u64;
    let wider: u64 = if coarse <= entries {
        entries
    } else {
        coarse
    };
    proof {
        reveal(tile_bytes);
        assert(0 <= training * wider <= 131072 * 131072) by (nonlinear_arith)
            requires
                0 <= training <= 131072,
                0 <= wider <= 131072,
        ;
    }
    let distances: u64 = training * wider * 4;
    let capped: u64 = if distances <= IVF_PQ_ASSIGNMENT_TILE_BYTES as u64 {
        distances
    } else {
        IVF_PQ_ASSIGNMENT_TILE_BYTES as u64
    };
    if capped <= 4 {
        4
    } else {
        capped
    }
}

fn widest_of(width: u64, config: IvfPqConfig) -> (widest: u64)
    requires
        0 < config.subquantizers,
    ensures
        widest == widest_subspace(width as int, config),
{
    let parts: u64 = config.subquantizers as u64;
    proof {
        reveal(widest_subspace);
    }
    if width % parts == 0 {
        width / parts
    } else {
        proof {
            assert(width as int / parts as int <= width) by (nonlinear_arith)
                requires
                    0 < parts,
                    0 <= width,
            ;
            if parts == 1 {
                assert(width % 1 == 0);
            }
            assert(parts > 1 && width >= 1 ==> width as int / parts as int <= width - 1)
                by (nonlinear_arith)
                requires
                    0 <= width,
            ;
        }
        width / parts + 1
    }
}

fn batch_of(active_rows: u64, dimension: usize, batch: u64, widest: u64, config: IvfPqConfig) -> (
    bytes: Option<u64>)
    requires
        batch == batch_rows(active_rows as int),
        widest == widest_subspace(dimension as int, config),
        config.subquantizers + 16 <= u64::MAX,
    ensures
        bytes == counted(batch_bytes(active_rows as int, dimension as int, config)),
        batch_bytes(active_rows as int, dimension as int, config) >= 0,
{
    proof {
        reveal(batch_bytes);
        assert(batch * (config.subquantizers + 16) >= 0) by (nonlinear_arith)
            requires
                batch >= 0,
                config.subquantizers >= 0,
        ;
    }
    let vectors: Option<u64> = matrix_of(batch, dimension as u64, 4);
    let residuals: Option<u64> = matrix_of(batch, widest, 4);
    let metadata: Option<u64> = batch.checked_mul(config.subquantizers as u64 + 16);
    match (vectors, residuals, metadata) {
        (Some(vectors), Some(residuals), Some(metadata)) => sum_of(
            sum_of(Some(vectors), residuals),
            metadata,
        ),
        _ => None,
    }
}

impl IvfPqBuildPlan {
    /// The memory that a build of this shape needs.
    #[verifier::rlimit(60)]
    #[verifier::spinoff_prover]
    pub fn for_shape(active_rows: u64, dimension: usize, config: IvfPqConfig) -> (result: Result<
        Self,
    >)
        ensures
            match plan_fault(active_rows as int, dimension as int, config) {
                Some(message) => fails_with(result, ErrorCode::IndexUnavailable, message),
                None => result matches Ok(plan) && {
                    &&& plan.active_rows == active_rows
                    &&& plan.dimension == dimension
                    &&& plan.training_rows == training_rows(active_rows as int)
                    &&& plan.batch_rows == batch_rows(active_rows as int)
                    &&& plan.assignment_tile_bytes == tile_bytes(active_rows as int, config)
                    &&& plan.derived_bytes == derived_bytes(
                        active_rows as int,
                        dimension as int,
                        config,
                    )
                    &&& plan.peak_scratch_bytes == peak_bytes(
                        active_rows as int,
                        dimension as int,
                        config,
                    )
                },
            },
    {
        if active_rows == 0 || active_rows > u32::MAX as u64 || dimension == 0 {
            return unavailable("IVF-PQ build shape is empty or exceeds dense-row addressing");
        }
        let training: u64 = if active_rows <= MAX_IVF_PQ_TRAINING_ROWS as u64 {
            active_rows
        } else {
            MAX_IVF_PQ_TRAINING_ROWS as u64
        };
        if config.size_class_version != IVF_PQ_SIZE_CLASS_VERSION || config.coarse_centroids == 0
            || config.coarse_centroids as u64 > training || config.subquantizers == 0
            || config.subquantizers > dimension || config.bits_per_code == 0 || config.bits_per_code
            > 8 || config.probes == 0 || config.probes > config.coarse_centroids
            || config.candidate_budget == 0 || config.iterations == 0 {
            return unavailable(
                "IVF-PQ build configuration does not fit its deterministic training sample",
            );
        }
        let ghost rows = active_rows as int;
        let ghost size = dimension as int;
        let coarse: u64 = config.coarse_centroids as u64;
        let width: u64 = dimension as u64;
        let entries: u64 = codebook_entries(config.bits_per_code, training);
        let tile: u64 = tile_of(active_rows, training, entries, config);
        if (config.subquantizers as u64).checked_add(16).is_none() {
            return unavailable("IVF row bytes overflow");
        }
        let pages: u64 = match pages_of(active_rows, config) {
            Some(bytes) => bytes,
            None => {
                return unavailable("IVF derived byte estimate overflow");
            },
        };
        let coarse_matrix: Option<u64> = matrix_of(coarse, width, 4);
        assert(coarse_matrix == counted(coarse_bytes(size, config)) && coarse_bytes(size, config)
            >= 0) by {
            reveal(coarse_bytes);
        }
        let coarse_size: u64 = match coarse_matrix {
            Some(bytes) => bytes,
            None => {
                return unavailable("coarse bytes overflow");
            },
        };
        let codebook_matrix: Option<u64> = matrix_of(entries, width, 4);
        assert(codebook_matrix == counted(codebook_bytes(rows, size, config)) && codebook_bytes(
            rows,
            size,
            config,
        ) >= 0) by {
            reveal(codebook_bytes);
        }
        let codebook_size: u64 = match codebook_matrix {
            Some(bytes) => bytes,
            None => {
                return unavailable("codebook bytes overflow");
            },
        };
        let list_offsets: u64 = (coarse + 1) * 4;
        let codebook_offsets: u64 = match offsets_of(active_rows, entries, config) {
            Some(bytes) => bytes,
            None => {
                return unavailable("codebook offsets overflow");
            },
        };
        let derived: u64 = match sum_of(
            sum_of(
                sum_of(sum_of(Some(pages), coarse_size), codebook_size),
                list_offsets,
            ),
            codebook_offsets,
        ) {
            Some(bytes) => bytes,
            None => {
                return unavailable("IVF derived byte estimate overflow");
            },
        };
        let training_matrix: Option<u64> = matrix_of(training, width, 4);
        assert(training_matrix == counted(training_bytes(rows, size)) && training_bytes(rows, size)
            >= 0) by {
            reveal(training_bytes);
        }
        let training_size: u64 = match training_matrix {
            Some(bytes) => bytes,
            None => {
                return unavailable("training bytes overflow");
            },
        };
        let sums: Option<u64> = matrix_of(coarse, width, 8);
        assert(sums == counted(accumulator_bytes(size, config)) && accumulator_bytes(size, config)
            >= 0) by {
            reveal(accumulator_bytes);
        }
        let accumulators: u64 = match sums {
            Some(bytes) => bytes,
            None => {
                return unavailable("training sums overflow");
            },
        };
        let widest: u64 = widest_of(width, config);
        let subspace_matrix: Option<u64> = matrix_of(training, widest, 4);
        assert(subspace_matrix == counted(subspace_bytes(rows, size, config)) && subspace_bytes(
            rows,
            size,
            config,
        ) >= 0) by {
            reveal(subspace_bytes);
        }
        let subspace_size: u64 = match subspace_matrix {
            Some(bytes) => bytes,
            None => {
                return unavailable("PQ training bytes overflow");
            },
        };
        let batch: u64 = if active_rows <= IVF_PQ_BUILD_BATCH_ROWS as u64 {
            active_rows
        } else {
            IVF_PQ_BUILD_BATCH_ROWS as u64
        };
        let batch_size: u64 = match batch_of(active_rows, dimension, batch, widest, config) {
            Some(bytes) => bytes,
            None => {
                return unavailable("build batch bytes overflow");
            },
        };
        let peak: u64 = match sum_of(
            sum_of(
                sum_of(
                    sum_of(
                        sum_of(
                            sum_of(
                                sum_of(sum_of(Some(training_size), training_size), coarse_size),
                                coarse_size,
                            ),
                            codebook_size,
                        ),
                        accumulators,
                    ),
                    subspace_size,
                ),
                batch_size,
            ),
            tile,
        ) {
            Some(bytes) => bytes,
            None => {
                return unavailable("IVF scratch estimate overflow");
            },
        };
        Ok(
            IvfPqBuildPlan {
                active_rows,
                dimension,
                training_rows: training as usize,
                batch_rows: batch as usize,
                assignment_tile_bytes: tile as usize,
                derived_bytes: derived,
                peak_scratch_bytes: peak,
            },
        )
    }
}

/// The parameters grow with the rows: from 10 000, 100 000, one million, ten million and a hundred million
/// rows on there are more lists, of which more are probed, more candidates, and finer codes. There are never
/// more lists than rows.
pub proof fn law_parameters_grow_with_the_rows(rows: int, dimension: int)
    requires
        1 <= rows <= usize::MAX,
        1 <= dimension <= usize::MAX,
    ensures
        ({
            let config = spec_config_for_shape(rows, dimension);
            let lists = if rows < 10_000 {
                64int
            } else if rows < 100_000 {
                256
            } else if rows < 1_000_000 {
                1_024
            } else if rows < 10_000_000 {
                4_096
            } else if rows < 100_000_000 {
                16_384
            } else {
                65_535
            };
            let probes = if rows < 10_000 {
                8int
            } else if rows < 100_000 {
                12
            } else if rows < 1_000_000 {
                24
            } else if rows < 10_000_000 {
                48
            } else if rows < 100_000_000 {
                96
            } else {
                128
            };
            let candidates = if rows < 100_000 {
                if rows < 10_000 {
                    256int
                } else {
                    512
                }
            } else if rows < 1_000_000 {
                1_024
            } else if rows < 10_000_000 {
                2_048
            } else if rows < 100_000_000 {
                4_096
            } else {
                8_192
            };
            &&& config.coarse_centroids == if rows < lists {
                rows
            } else {
                lists
            }
            &&& config.probes == if rows < probes {
                rows
            } else {
                probes
            }
            &&& config.candidate_budget == candidates
            &&& config.bits_per_code == 8
            &&& config.iterations == 16
            &&& config.size_class_version == 1
        }),
{
}

/// A vector is cut into as many even parts as the number of rows asks for at most: a number of the
/// choices that divides the dimension and is larger than the one taken is above that.
pub proof fn law_vectors_are_cut_evenly(rows: int, dimension: int, choice: int)
    requires
        1 <= rows <= usize::MAX,
        1 <= dimension <= usize::MAX,
        choice == 64 || choice == 48 || choice == 32 || choice == 24 || choice == 16 || choice == 12
            || choice == 8 || choice == 4 || choice == 2 || choice == 1,
        choice <= dimension,
        dimension % choice == 0,
        choice <= if rows < 10_000 {
            8int
        } else if rows < 100_000 {
            12
        } else if rows < 1_000_000 {
            16
        } else if rows < 10_000_000 {
            32
        } else {
            48
        },
    ensures
        choice <= spec_config_for_shape(rows, dimension).subquantizers,
        dimension % (spec_config_for_shape(rows, dimension).subquantizers as int) == 0,
{
    let target = size_class(spec_max(rows, 1)).3;
    lemma_best_subquantizers(0, target, dimension);
    let choices = subquantizer_choices();
    let place = if choice == 64 {
        0int
    } else if choice == 48 {
        1
    } else if choice == 32 {
        2
    } else if choice == 24 {
        3
    } else if choice == 16 {
        4
    } else if choice == 12 {
        5
    } else if choice == 8 {
        6
    } else if choice == 4 {
        7
    } else if choice == 2 {
        8
    } else {
        9
    };
    assert(choices[place] == choice);
    lemma_no_smaller_choice(0, place, target, dimension);
}

proof fn lemma_no_smaller_choice(index: int, place: int, target: int, dimension: int)
    requires
        0 <= index <= place < 10,
        fits_dimension(subquantizer_choices()[place], target, dimension),
    ensures
        subquantizer_choices()[place] <= best_subquantizers(index, target, dimension),
    decreases place - index,
{
    let choices = subquantizer_choices();
    assert(forall|i: int, j: int|
        #![trigger choices[i], choices[j]]
        0 <= i <= j < 10 ==> choices[j] <= choices[i]);
    if !fits_dimension(choices[index], target, dimension) {
        lemma_no_smaller_choice(index + 1, place, target, dimension);
    }
}

/// Parameters are valid where codes take at most a byte, there is a list, a part of the vector, a probe,
/// a candidate and an iteration, and no more parts than coordinates.
pub proof fn law_valid_parameters(dimension: int, config: IvfPqConfig)
    ensures
        config_valid(dimension, config) <==> config.size_class_version == 1 && 1
            <= config.coarse_centroids <= 65_535 && 1 <= config.subquantizers && config.subquantizers
            <= dimension && 1 <= config.bits_per_code <= 8 && config.probes >= 1
            && config.candidate_budget >= 1 && config.iterations >= 1,
{
}

/// What a finished index takes: a four-byte number for each coordinate of each centroid, for each
/// offset and for the ordinal and the list position of a row, eight bytes for the version of a row,
/// and a byte for each of its codes.
pub proof fn law_bytes_of_a_finished_index(
    rows: int,
    dimension: int,
    config: IvfPqConfig,
    codes: int,
)
    requires
        codes == codebook_centroids(rows, config),
    ensures
        derived_bytes(rows, dimension, config) == rows * (4 + 4 + 8 + config.subquantizers)
            + (config.coarse_centroids * dimension) * 4 + (codes * dimension) * 4
            + (config.coarse_centroids + 1) * 4 + (codes * config.subquantizers + 1) * 4
            + (config.subquantizers + 1) * 4,
{
    reveal(page_bytes);
    reveal(coarse_bytes);
    reveal(codebook_bytes);
    reveal(codebook_offsets_bytes);
}

/// A build holds its sample and its coarse centroids twice, and an assignment tile of at least one
/// number besides.
pub proof fn law_bytes_of_a_build(rows: int, dimension: int, config: IvfPqConfig)
    requires
        0 <= rows,
        0 <= dimension,
        0 < config.subquantizers,
    ensures
        rows <= 131072 ==> peak_bytes(rows, dimension, config) >= 2 * ((rows * dimension) * 4) + 2
            * ((config.coarse_centroids * dimension) * 4) + 4,
        rows > 131072 ==> peak_bytes(rows, dimension, config) >= 2 * ((131072 * dimension) * 4) + 2
            * ((config.coarse_centroids * dimension) * 4) + 4,
{
    reveal(training_bytes);
    reveal(coarse_bytes);
    reveal(codebook_bytes);
    reveal(accumulator_bytes);
    reveal(subspace_bytes);
    reveal(batch_bytes);
    reveal(tile_bytes);
    reveal(widest_subspace);
    let parts = config.subquantizers as int;
    assert(0 <= dimension / parts) by (nonlinear_arith)
        requires
            0 <= dimension,
            0 < parts,
    ;
    let wide = widest_subspace(dimension, config);
    let sample = training_rows(rows);
    let batch = batch_rows(rows);
    let codes = codebook_centroids(rows, config);
    let lists = config.coarse_centroids as int;
    let page = parts + 16;
    assert(sample * wide >= 0 && batch * dimension >= 0 && batch * wide >= 0 && batch * page >= 0
        && codes * dimension >= 0 && lists * dimension >= 0) by (nonlinear_arith)
        requires
            sample >= 0,
            wide >= 0,
            batch >= 0,
            dimension >= 0,
            page >= 0,
            codes >= 0,
            lists >= 0,
    ;
}

} // verus!
