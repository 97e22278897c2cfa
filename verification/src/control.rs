//! Small scheduling decisions of the simulation drivers: which force
//! method to use, when to record diagnostics, how densely to draw and
//! sample bodies, how many steps to run per frame, and the GPU errors.
use vstd::prelude::*;

verus! {

/// Body count from which the viewer switches from the direct sum to FMM.
pub const N2_LIMIT: usize = 20000;

/// Whether the direct (N²) sum is used for `n` bodies: forced by
/// `force_n2`, else ruled out by `force_fmm`, else for fewer than 20000
/// bodies.
pub fn use_n2(n: usize, force_fmm: bool, force_n2: bool) -> (r: bool)
    ensures
        r == (force_n2 || (!force_fmm && n < 20000)),
{
    if force_n2 {
        return true;
    }
    if force_fmm {
        return false;
    }
    n < N2_LIMIT
}

/// Whether diagnostics are recorded after step `step` (counted from 0):
/// every `energy_every` steps, never when `energy_every` is 0.
pub fn is_diagnostic_step(step: u64, energy_every: u64) -> (r: bool)
    requires
        step < u64::MAX,
    ensures
        r == (energy_every > 0 && (step + 1) % (energy_every as int) == 0),
{
    energy_every > 0 && (step + 1) % energy_every == 0
}

/// Stride with which bodies are drawn: every body unless a positive
/// `max_render` below `n` caps the count, then every `n / max_render`-th.
pub fn render_stride(n: usize, max_render: usize) -> (ds: usize)
    ensures
        ds >= 1,
        ds == if max_render > 0 && max_render < n {
            n / max_render
        } else {
            1
        },
{
    if max_render > 0 && max_render < n {
        let q: usize = n / max_render;
        proof {
            assert(q >= 1) by (nonlinear_arith)
                requires
                    q == n / max_render,
                    0 < max_render < n,
            ;
        }
        q
    } else {
        1
    }
}

/// Stride with which bodies are sampled to measure the world bounds: one
/// in `n / 5000`, every body below 10000.
pub fn bounds_stride(n: usize) -> (ss: usize)
    ensures
        ss == if n / 5000 > 1 {
            n / 5000
        } else {
            1
        },
{
    let q: usize = n / 5000;
    if q > 1 {
        q
    } else {
        1
    }
}

/// Whether the world bounds are measured again at frame `frame`, last
/// measured at frame `last` (0: never): when more than 10 frames have
/// passed, or when they were never measured.
pub fn bounds_refresh_due(frame: u64, last: u64) -> (r: bool)
    requires
        frame >= last,
    ensures
        r == (frame - last > 10 || last == 0),
{
    frame - last > 10 || last == 0
}

/// Physics steps to run in one frame: the steps the target rate asks for,
/// at most `max_steps_per_frame` and at least one.
pub fn steps_per_frame(target_steps: u64, max_steps_per_frame: usize) -> (s: u64)
    ensures
        s >= 1,
        s == if target_steps < max_steps_per_frame {
            if target_steps > 1 {
                target_steps as int
            } else {
                1
            }
        } else if max_steps_per_frame > 1 {
            max_steps_per_frame as int
        } else {
            1
        },
{
    let cap: u64 = max_steps_per_frame as u64;
    let capped: u64 = if target_steps < cap {
        target_steps
    } else {
        cap
    };
    if capped > 1 {
        capped
    } else {
        1
    }
}

/// Why the GPU backend could not be used.
#[derive(Debug)]
pub enum GpuError {
    /// No adapter or device, with the reason.
    InitFailed(String),
    /// A compute shader did not compile, with the reason.
    ShaderCompilation(String),
    /// A buffer could not be allocated, with the reason.
    BufferAllocation(String),
}

impl GpuError {
    /// The error as a sentence, as shown to a user.
    pub fn message(&self) -> (text: String)
        ensures
            match self {
                GpuError::InitFailed(m) => text@ == "GPU init failed: "@ + m@,
                GpuError::ShaderCompilation(m) => text@ == "shader compilation: "@ + m@,
                GpuError::BufferAllocation(m) => text@ == "buffer allocation: "@ + m@,
            },
    {
        match self {
            GpuError::InitFailed(m) => String::from_str("GPU init failed: ").concat(m.as_str()),
            GpuError::ShaderCompilation(m) => String::from_str("shader compilation: ").concat(
                m.as_str(),
            ),
            GpuError::BufferAllocation(m) => String::from_str("buffer allocation: ").concat(
                m.as_str(),
            ),
        }
    }
}

} // verus!
