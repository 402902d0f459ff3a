//! Launch geometry, target names and staging.

use maitria_kernels::cuda::host::{
    compute_arch, fill_grain, is_staged, launch_1d, launch_1d_grid_stride, next_stage, sm_target,
    stage_chunk, HostError, Stage, BLOCK_1D, DEFAULT_CHUNK, STAGE_BYPASS_BYTES,
};
use maitria_kernels::cuda::{CompileSpec, GpuError};

#[test]
fn grid_stride_config_clamps_and_floors() {
    let tiny = launch_1d_grid_stride(0);
    assert_eq!(tiny.grid_dim, (1, 1, 1));
    assert_eq!(tiny.block_dim, (BLOCK_1D, 1, 1));
    let mid = launch_1d_grid_stride(1000);
    assert_eq!(mid.grid_dim, (4, 1, 1));
    let huge = launch_1d_grid_stride(usize::MAX);
    assert_eq!(huge.grid_dim, (65_535, 1, 1));
}

#[test]
fn exact_config_refuses_inexpressible_grids() {
    let ok = launch_1d(1000).unwrap();
    assert_eq!(ok.grid_dim, (4, 1, 1));
    assert_eq!(ok.block_dim, (BLOCK_1D, 1, 1));
    assert!(matches!(launch_1d(usize::MAX), Err(HostError::Geometry(_))));
}

#[test]
fn exact_config_edges() {
    assert_eq!(launch_1d(0).unwrap().grid_dim, (0, 1, 1));
    assert_eq!(launch_1d(256).unwrap().grid_dim, (1, 1, 1));
    assert_eq!(launch_1d(257).unwrap().grid_dim, (2, 1, 1));
    let most = (i32::MAX as usize) * 256;
    assert_eq!(launch_1d(most).unwrap().grid_dim, (i32::MAX as u32, 1, 1));
    assert_eq!(launch_1d(most + 1), Err(HostError::Geometry("1-d grid")));
    assert_eq!(
        GpuError::from(HostError::Geometry("1-d grid")),
        GpuError::Geometry("1-d grid")
    );
}

#[test]
fn targets_are_named() {
    assert_eq!(compute_arch((8, 9), ""), "compute_89");
    assert_eq!(compute_arch((12, 0), "a"), "compute_120a");
    assert_eq!(sm_target((9, 0), ""), "sm_90");
    assert_eq!(sm_target((-1, 0), ""), "sm_-10");
}

#[test]
fn plain_builds_are_the_default() {
    let spec = CompileSpec::default();
    assert_eq!(spec.arch_suffix, "");
    assert!(spec.options.is_empty());
    assert_eq!(spec.dump_ptx_env, None);
}

#[test]
fn staging_buffers_are_rounded_up() {
    assert_eq!(stage_chunk(0), 4096);
    assert_eq!(stage_chunk(1), 4096);
    assert_eq!(stage_chunk(4096), 4096);
    assert_eq!(stage_chunk(4097), 8192);
    assert_eq!(stage_chunk(DEFAULT_CHUNK), 32 << 20);
    assert_eq!(STAGE_BYPASS_BYTES, 64 << 10);
}

#[test]
fn stages_cover_an_upload() {
    let mut off = 0;
    let mut turn = 5;
    let mut seen: Vec<Stage> = Vec::new();
    while let Some(s) = next_stage(10, 4, off, turn) {
        seen.push(s);
        off += s.n;
        turn += 1;
    }
    assert_eq!(
        seen,
        vec![
            Stage { off: 0, n: 4, buf: 1 },
            Stage { off: 4, n: 4, buf: 0 },
            Stage { off: 8, n: 2, buf: 1 },
        ]
    );
    assert_eq!(next_stage(0, 4, 0, 0), None);
}

#[test]
fn copies_are_shared_out_by_size() {
    assert!(!is_staged(STAGE_BYPASS_BYTES));
    assert!(is_staged(STAGE_BYPASS_BYTES + 1));
    assert_eq!(fill_grain((4 << 20) - 1, 8), None);
    assert_eq!(fill_grain(4 << 20, 8), Some(1 << 18));
    assert_eq!(fill_grain(1 << 30, 3), Some(699050));
    assert_eq!(fill_grain(1 << 30, (2 << 20) + 1), Some(1));
}
