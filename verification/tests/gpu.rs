use irongraph::error::ErrorCode;
use irongraph::gpu::host::available_bytes;
use irongraph::gpu::kernels::metal_kernel_sources_hash;
use irongraph::gpu::mutation::{
    metal_mutation_effect_scratch_bytes, MutationOperation, MutationProgram,
};
use irongraph::gpu::residency::{ResidentLedger, ResidentProject};
use irongraph::gpu::shapes::{
    combined_scratch_bytes, distance_scratch_bytes, filter_scratch_bytes, group_pipeline_shape,
    group_shape, intersection_shape, join_shape, pipeline_shape, procedure_shape,
    resolve_backend, row_program_shape, sort_shape, temporal_shape, to_boolean_scratch_bytes,
    vector_rows, BackendKind, OperatorShape,
};

#[test]
fn kernel_fingerprint_covers_every_source() {
    let sources = [
        ("operators.metal", "kernel void one() {}"),
        ("graph_paths.metal", "kernel void two() {}"),
        ("graph_components_metrics.metal", "kernel void three() {}"),
        ("graph_louvain.metal", "kernel void four() {}"),
    ];
    let whole = metal_kernel_sources_hash(&sources);
    for changed in 0..sources.len() {
        let mut others = sources;
        others[changed].1 = "deliberately changed source";
        assert_ne!(metal_kernel_sources_hash(&others), whole);
    }
    assert_ne!(
        metal_kernel_sources_hash(&[("ab", "c")]),
        metal_kernel_sources_hash(&[("a", "bc")])
    );
}

#[test]
fn host_memory_counts_reclaimable_pages() {
    let statistics = "Mach Virtual Memory Statistics: (page size of 16384 bytes)\n\
        Pages free:                               10.\n\
        Pages active:                            999.\n\
        Pages inactive:                           20.\n\
        \"Pages speculative\":                      3.\n";
    assert_eq!(available_bytes("16384\n", statistics), Some(33 * 16_384));
    assert_eq!(available_bytes("page", statistics), None);
    assert_eq!(available_bytes("4096", "Pages free: 10.\n"), None);
    assert_eq!(available_bytes("", statistics), None);
}

#[test]
fn mutation_effects_take_words_for_rows_intents_and_commands() {
    assert_eq!(
        metal_mutation_effect_scratch_bytes(None, 10).expect("nothing to do"),
        0
    );
    let program = MutationProgram {
        commands: vec![
            MutationOperation::AddLabels { labels: 2 },
            MutationOperation::RemoveProperty,
            MutationOperation::SetProperty,
        ],
        max_intents: 5,
    };
    assert_eq!(
        metal_mutation_effect_scratch_bytes(Some(&program), 10).expect("fits"),
        (10 * 4 + 5 + 48) * 8 + 64
    );
    let error = metal_mutation_effect_scratch_bytes(Some(&program), usize::MAX)
        .expect_err("does not fit");
    assert_eq!(error.code, ErrorCode::ResultBudgetExceeded);
}

fn resident(project: u128, allocated_bytes: usize) -> ResidentProject {
    ResidentProject {
        project,
        allocated_bytes,
        revision: project as u64,
        bookmark: 1,
        layout_version: 2,
    }
}

#[test]
fn ledger_announces_the_bytes_that_it_then_has() {
    let mut ledger = ResidentLedger::new();
    ledger.admit_project(resident(7, 100));
    ledger.admit_project(resident(3, 50));
    assert_eq!(ledger.total_after(7, 10), 60);
    ledger.admit_project(resident(7, 10));
    assert_eq!(ledger.total_after(9, 0), 60);
    assert_eq!(ledger.resident_revision(), Some(7));
    ledger.advance_bookmark(5);
    assert!(ledger.check_generation(3, 5, 3, 2).is_ok());
    assert!(ledger.check_generation(3, 1, 3, 2).is_err());
    ledger.evict(7);
    assert_eq!(ledger.resident_revision(), Some(3));
    let error = ledger.project("Metal", 7).expect_err("evicted");
    assert_eq!(error.code, ErrorCode::GpuAdmissionFailure);
    assert_eq!(
        error.message,
        "project 00000000-0000-0000-0000-000000000007 has no complete Metal-resident image"
    );
}

#[test]
fn snapshots_with_a_project_twice_are_refused() {
    let mut ledger = ResidentLedger::new();
    assert_eq!(
        ledger
            .replace_all(&[resident(2, 5), resident(1, 6)], "Metal")
            .expect("distinct"),
        11
    );
    let error = ledger
        .replace_all(&[resident(2, 5), resident(2, 6)], "Metal")
        .expect_err("twice");
    assert_eq!(error.code, ErrorCode::CorruptStorage);
    let error = ledger
        .replace_all(&[resident(2, usize::MAX), resident(3, 1)], "CUDA")
        .expect_err("too many bytes");
    assert_eq!(error.message, "replacement CUDA project bytes overflow");
    assert_eq!(ledger.projects.len(), 2);
    assert_eq!(ledger.projects[0].project, 1);
}

#[test]
fn operators_ask_for_rows_and_bytes() {
    assert_eq!(
        join_shape(BackendKind::Metal, 10, 20, 50).expect("fits"),
        OperatorShape {
            input_rows: 30,
            input_bytes: 256,
            output_rows: 50,
            output_bytes: 64,
        }
    );
    assert_eq!(
        join_shape(BackendKind::Cuda, 2, 3, 50).expect("fits").output_rows,
        6
    );
    assert_eq!(
        join_shape(BackendKind::Cuda, usize::MAX, 1, 1)
            .expect_err("too many rows")
            .message,
        "CUDA join scratch accounting overflow"
    );
    assert_eq!(
        intersection_shape(BackendKind::Metal, &[5, 2, 9], 100)
            .expect("fits")
            .output_rows,
        2
    );
    assert_eq!(
        intersection_shape(BackendKind::Metal, &[5, 2, 9], 0)
            .expect("fits")
            .output_rows,
        1
    );
    assert!(group_shape(BackendKind::Cuda, 4, true).is_err());
    assert_eq!(group_shape(BackendKind::Metal, 4, true).expect("fits").input_bytes, 384);
    assert_eq!(sort_shape(10, Some(3)).output_rows, 3);
    assert_eq!(sort_shape(10, None).output_rows, 10);
    assert_eq!(
        vector_rows(BackendKind::Metal, 5, 6, 7, 8).expect("fits"),
        (11, 56)
    );
    assert_eq!(
        vector_rows(BackendKind::Metal, 5, 6, usize::MAX, 2)
            .expect_err("too many rows")
            .message,
        "Metal vector result shape overflow"
    );
    assert_eq!(
        pipeline_shape(BackendKind::Metal, 5, 7, 2, 1, 3)
            .expect("fits")
            .output_bytes,
        2 * 9 + 1 + 24 + 4
    );
    assert_eq!(row_program_shape(1, 2, 3).expect("fits").output_bytes, 28);
    assert!(row_program_shape(1, 2, usize::MAX).is_err());
    assert_eq!(
        group_pipeline_shape(BackendKind::Metal, 4, Some(6), &[3, 20])
            .expect("fits")
            .output_rows,
        10
    );
    assert_eq!(
        temporal_shape(BackendKind::Cuda, 4, None, 5, 100)
            .expect("fits")
            .output_rows,
        9
    );
    assert_eq!(procedure_shape(4, 5, 100).expect("fits").output_rows, 4);
}

#[test]
fn scratch_sums_stop_at_the_address_space() {
    assert_eq!(filter_scratch_bytes(3, 3).expect("fits"), Some(30));
    assert_eq!(filter_scratch_bytes(0, 0).expect("fits"), None);
    assert_eq!(
        filter_scratch_bytes(1, 2).expect_err("lengths differ").code,
        ErrorCode::QueryType
    );
    assert_eq!(distance_scratch_bytes(8, 4, 2), 56);
    assert_eq!(distance_scratch_bytes(usize::MAX, 4, 2), usize::MAX);
    assert_eq!(to_boolean_scratch_bytes(&[0, 4]).expect("fits"), 16);
    assert_eq!(
        to_boolean_scratch_bytes(&[usize::MAX, 1])
            .expect_err("too many bytes")
            .code,
        ErrorCode::GpuAdmissionFailure
    );
    assert_eq!(combined_scratch_bytes(&[1, 2, 3]).expect("fits"), 6);
    assert!(combined_scratch_bytes(&[usize::MAX, 1]).is_err());
}

#[test]
fn backends_are_never_exchanged() {
    assert_eq!(
        resolve_backend(BackendKind::Cpu, false, false).expect("always there"),
        BackendKind::Cpu
    );
    assert_eq!(
        resolve_backend(BackendKind::Metal, true, false).expect("enabled"),
        BackendKind::Metal
    );
    assert_eq!(
        resolve_backend(BackendKind::Metal, false, true)
            .expect_err("not enabled")
            .message,
        "Metal support is not enabled"
    );
    assert_eq!(
        resolve_backend(BackendKind::Cuda, true, false)
            .expect_err("not enabled")
            .message,
        "CUDA support is not enabled"
    );
}
