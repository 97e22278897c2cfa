use galax::control::{
    bounds_refresh_due, bounds_stride, is_diagnostic_step, render_stride, steps_per_frame, use_n2,
    GpuError, N2_LIMIT,
};

#[test]
fn n2_is_used_below_the_limit_unless_forced() {
    assert!(use_n2(100, false, false));
    assert!(use_n2(19999, false, false));
    assert!(!use_n2(20000, false, false));
    assert!(!use_n2(100, true, false));
    assert!(use_n2(100_000, false, true));
    assert!(use_n2(100_000, true, true));
    assert_eq!(N2_LIMIT, 20000);
}

#[test]
fn diagnostics_every_k_steps() {
    let picked: Vec<u64> = (0..10).filter(|&s| is_diagnostic_step(s, 3)).collect();
    assert_eq!(picked, vec![2, 5, 8]);
    assert!(!(0..100).any(|s| is_diagnostic_step(s, 0)));
    assert!((0..5).all(|s| is_diagnostic_step(s, 1)));
}

#[test]
fn render_stride_caps_drawn_bodies() {
    assert_eq!(render_stride(1000, 0), 1);
    assert_eq!(render_stride(1000, 2000), 1);
    assert_eq!(render_stride(1000, 1000), 1);
    assert_eq!(render_stride(1000, 300), 3);
    assert_eq!(render_stride(1000, 999), 1);
}

#[test]
fn bounds_stride_samples_about_five_thousand() {
    assert_eq!(bounds_stride(0), 1);
    assert_eq!(bounds_stride(9999), 1);
    assert_eq!(bounds_stride(10000), 2);
    assert_eq!(bounds_stride(50000), 10);
}

#[test]
fn bounds_are_refreshed_after_ten_frames() {
    assert!(bounds_refresh_due(5, 0));
    assert!(!bounds_refresh_due(11, 1));
    assert!(bounds_refresh_due(12, 1));
    assert!(!bounds_refresh_due(7, 7));
}

#[test]
fn steps_per_frame_is_clamped() {
    assert_eq!(steps_per_frame(0, 5), 1);
    assert_eq!(steps_per_frame(3, 5), 3);
    assert_eq!(steps_per_frame(9, 5), 5);
    assert_eq!(steps_per_frame(9, 0), 1);
}

#[test]
fn gpu_error_messages() {
    assert_eq!(GpuError::InitFailed("no adapter".to_string()).message(), "GPU init failed: no adapter");
    assert_eq!(GpuError::ShaderCompilation("bad".to_string()).message(), "shader compilation: bad");
    assert_eq!(GpuError::BufferAllocation("oom".to_string()).message(), "buffer allocation: oom");
}
