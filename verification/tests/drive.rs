use stackaroni::drive::{Exposure, Halt};
use stackaroni::focus::{to_luma, MultiScaleLaplacian, WindowedLaplacian};
use stackaroni::fusion::{warp_rows, warp_span, LaplacianPyramidFusion, SelectionFusion};
use stackaroni::image::{FrameInfo, BAND_ROWS};
use stackaroni::pipeline::{Checkpoints, RunControl, Stage, Transform};
use stackaroni::plane::Plane;
use stackaroni::pyramid::Bitmap;
use stackaroni::sample::{Fixed, Sample};
use stackaroni::stacking::{label_map, WaveletStack};
use std::sync::atomic::{AtomicBool, AtomicUsize, Ordering};
use std::sync::Mutex;

/// Single-precision samples.
#[derive(Clone, Copy, Debug, PartialEq)]
struct F(f32);

impl Sample for F {
    fn spec_whole(n: i64) -> Self {
        F(n as f32)
    }
    fn spec_lowest() -> Self {
        F(f32::NEG_INFINITY)
    }
    fn spec_plus(self, other: Self) -> Self {
        F(self.0 + other.0)
    }
    fn spec_minus(self, other: Self) -> Self {
        F(self.0 - other.0)
    }
    fn spec_times(self, other: Self) -> Self {
        F(self.0 * other.0)
    }
    fn spec_over(self, other: Self) -> Self {
        F(self.0 / other.0)
    }
    fn spec_exceeds(self, other: Self) -> bool {
        self.0 > other.0
    }
    fn spec_floor(self) -> Self {
        F(self.0.floor())
    }
    fn spec_index(self) -> i64 {
        self.0 as i64
    }
    fn whole(n: i64) -> Self {
        Self::spec_whole(n)
    }
    fn lowest() -> Self {
        Self::spec_lowest()
    }
    fn plus(self, other: Self) -> Self {
        self.spec_plus(other)
    }
    fn minus(self, other: Self) -> Self {
        self.spec_minus(other)
    }
    fn times(self, other: Self) -> Self {
        self.spec_times(other)
    }
    fn over(self, other: Self) -> Self {
        self.spec_over(other)
    }
    fn exceeds(self, other: Self) -> bool {
        self.spec_exceeds(other)
    }
    fn floor(self) -> Self {
        self.spec_floor()
    }
    fn index(self) -> i64 {
        self.spec_index()
    }
}

/// Cancels once it has seen `after` progress reports, and records what it saw.
struct CancelAfter {
    after: usize,
    seen: AtomicUsize,
    cancelled: AtomicBool,
    stages: Mutex<Vec<(Stage, usize, usize)>>,
}

impl CancelAfter {
    fn new(after: usize) -> Self {
        Self {
            after,
            seen: AtomicUsize::new(0),
            cancelled: AtomicBool::new(false),
            stages: Mutex::new(Vec::new()),
        }
    }

    fn reports(&self) -> Vec<(Stage, usize, usize)> {
        self.stages.lock().unwrap().clone()
    }
}

impl RunControl for CancelAfter {
    fn cancelled(&self) -> bool {
        self.cancelled.load(Ordering::SeqCst)
    }

    fn progress(&self, stage: Stage, done: usize, total: usize) {
        self.stages.lock().unwrap().push((stage, done, total));
        if self.seen.fetch_add(1, Ordering::SeqCst) + 1 >= self.after {
            self.cancelled.store(true, Ordering::SeqCst);
        }
    }
}

fn info(width: u32, height: u32) -> FrameInfo {
    FrameInfo {
        width,
        height,
        samples: 3,
        bits_per_sample: 16,
    }
}

fn frame(seed: f32) -> Bitmap<F> {
    let mut data = Vec::new();
    for y in 0..48 {
        for x in 0..64 {
            let v = ((x as f32 * 0.3 + y as f32 * 0.2 + seed).sin() * 0.4 + 0.5).clamp(0.0, 1.0);
            data.extend([F(v), F(v), F(v)]);
        }
    }
    Bitmap {
        width: 64,
        height: 48,
        channels: 3,
        data,
    }
}

/// Six images, each of which counts how often it was read.
fn images() -> Vec<usize> {
    vec![0; 6]
}

/// Six frames under equal weights.
fn exposure(i: usize, reads: usize) -> (usize, Result<Exposure<F>, String>) {
    let exposure = Exposure {
        warped: frame(i as f32),
        weight: Bitmap {
            width: 64,
            height: 48,
            channels: 1,
            data: vec![F(1.0 / 6.0); 64 * 48],
        },
    };
    (reads + 1, Ok(exposure))
}

fn transforms() -> Vec<Transform<F>> {
    (0..6).map(|_| Transform::identity()).collect()
}

#[test]
fn fusion_stops_partway_through_the_stack() {
    // Cancel after two frames have been folded in. The run must not reach the sixth.
    let control = CancelAfter::new(2);
    let mut read = images();
    let Err(halt) = SelectionFusion::fuse(
        info(64, 48),
        8,
        2,
        &mut read,
        &transforms(),
        exposure,
        &mut Checkpoints::new(&control),
    ) else {
        panic!("expected the run to be cancelled");
    };
    assert_eq!(halt, Halt::Cancelled);
    assert_eq!(read, [1, 1, 0, 0, 0, 0], "no frame past the last report is read");

    let reports = control.reports();
    assert_eq!(reports.len(), 2, "should have stopped after two frames");
    assert!(reports.iter().all(|(stage, ..)| *stage == Stage::Fuse));
    assert_eq!(reports[1], (Stage::Fuse, 2, 6));
}

#[test]
fn the_blend_rule_stops_too() {
    let control = CancelAfter::new(1);
    let Err(halt) = LaplacianPyramidFusion::fuse(
        info(64, 48),
        8,
        &mut images(),
        &transforms(),
        exposure,
        &mut Checkpoints::new(&control),
    ) else {
        panic!("expected the run to be cancelled");
    };
    assert_eq!(halt, Halt::Cancelled);
    assert_eq!(control.reports().len(), 1);
}

#[test]
fn a_control_that_never_cancels_runs_to_completion() {
    let mut read = images();
    let fused = SelectionFusion::fuse(
        info(64, 48),
        8,
        2,
        &mut read,
        &transforms(),
        exposure,
        &mut Checkpoints::new(&()),
    );
    assert_eq!(fused.unwrap().data.len(), 64 * 48 * 3);
    assert_eq!(read, [1; 6]);
    let fused = LaplacianPyramidFusion::fuse(
        info(64, 48),
        8,
        &mut read,
        &transforms(),
        exposure,
        &mut Checkpoints::new(&()),
    );
    assert_eq!(fused.unwrap().data.len(), 64 * 48 * 3);
    assert_eq!(read, [2; 6]);
}

/// A frame that cannot be read ends the run with its own error.
#[test]
fn a_frame_that_cannot_be_read_ends_the_run() {
    let read = |i: usize, reads: usize| {
        if i == 3 {
            (reads, Err("frame 3 is gone".to_string()))
        } else {
            exposure(i, reads)
        }
    };
    let fused = SelectionFusion::fuse(
        info(64, 48),
        8,
        2,
        &mut images(),
        &transforms(),
        read,
        &mut Checkpoints::new(&()),
    );
    let Err(halt) = fused else {
        panic!("expected a failure");
    };
    assert_eq!(halt, Halt::Failed("frame 3 is gone".to_string()));
}

/// Six copies of one frame under equal weights blend to that frame.
#[test]
fn blending_copies_of_a_frame_returns_it() {
    let read = |_: usize, reads: usize| exposure(0, reads);
    let fused = LaplacianPyramidFusion::fuse(
        info(64, 48),
        8,
        &mut images(),
        &transforms(),
        read,
        &mut Checkpoints::new(&()),
    )
    .unwrap();
    let want = frame(0.0);
    for (a, b) in fused.data.iter().zip(&want.data) {
        assert!((a.0 - b.0).abs() < 1e-4, "{a:?} != {b:?}");
    }
}

#[test]
fn wavelet_stacking_copies_of_a_frame_returns_it() {
    let stack = WaveletStack::new(8, 4);
    let read = |_: usize| -> Result<Bitmap<F>, String> { Ok(frame(2.0)) };
    let out = stack
        .stack(info(64, 48), 4, read, &mut Checkpoints::new(&()))
        .unwrap();
    let want = frame(2.0);
    assert_eq!((out.width, out.height, out.channels), (64, 48, 3));
    for (a, b) in out.data.iter().zip(&want.data) {
        assert!((a.0 - b.0).abs() < 1e-4, "{a:?} != {b:?}");
    }
}

/// One exact frame comes back from the wavelet stack to the last bit.
#[test]
fn wavelet_stacking_one_exact_frame_returns_it() {
    let data: Vec<Fixed> = (0..20 * 12 * 3)
        .map(|i| Fixed {
            raw: (i * 7919 % 65536) as i64,
        })
        .collect();
    let held = data.clone();
    let read = move |_: usize| -> Result<Bitmap<Fixed>, String> {
        Ok(Bitmap {
            width: 20,
            height: 12,
            channels: 3,
            data: held.clone(),
        })
    };
    for (copies, threshold) in [(1, 4), (1, 0), (2, 4), (8, 1)] {
        let out = WaveletStack::new(4, threshold)
            .stack(info(20, 12), copies, read.clone(), &mut Checkpoints::new(&()))
            .unwrap();
        assert_eq!(out.data, data);
    }
}

/// Any number of copies of an exact frame comes back up to the rounding of their share.
#[test]
fn wavelet_stacking_exact_copies_comes_close() {
    let data: Vec<Fixed> = (0..20 * 12 * 3)
        .map(|i| Fixed {
            raw: (i * 7919 % 65536) as i64,
        })
        .collect();
    let held = data.clone();
    let read = move |_: usize| -> Result<Bitmap<Fixed>, String> {
        Ok(Bitmap {
            width: 20,
            height: 12,
            channels: 3,
            data: held.clone(),
        })
    };
    for copies in [3usize, 5, 7, 100] {
        let out = WaveletStack::new(4, 4)
            .stack(info(20, 12), copies, read.clone(), &mut Checkpoints::new(&()))
            .unwrap();
        // No coefficient of the coarsest level is four or more from zero.
        let bound = 4 * (65536 % copies as i64) + 1;
        for (a, b) in out.data.iter().zip(&data) {
            assert!((a.raw - b.raw).abs() <= bound, "{copies}: {a:?} != {b:?}");
        }
    }
}

/// A frame with all the weight comes back bit for bit from a blend, and so does one that
/// stands out everywhere from a selection.
#[test]
fn a_frame_that_wins_everywhere_is_returned_exactly() {
    let (width, height) = (21u32, 17u32);
    let textured: Vec<Fixed> = (0..width * height * 3)
        .map(|i| Fixed {
            raw: (i.wrapping_mul(2654435761) >> 16) as i64,
        })
        .collect();
    let held = textured.clone();
    let read = move |i: usize, (): ()| -> ((), Result<Exposure<Fixed>, String>) {
        let (data, weight) = if i == 1 {
            (held.clone(), Fixed { raw: 65536 })
        } else {
            let level = 100 * i as i64 + 7;
            (vec![Fixed { raw: level }; held.len()], Fixed { raw: 0 })
        };
        let exposure = Exposure {
            warped: Bitmap {
                width,
                height,
                channels: 3,
                data,
            },
            weight: Bitmap {
                width,
                height,
                channels: 1,
                data: vec![weight; (width * height) as usize],
            },
        };
        ((), Ok(exposure))
    };
    let still: Vec<Transform<Fixed>> = (0..3).map(|_| Transform::identity()).collect();
    let blended =
        LaplacianPyramidFusion::fuse(
            info(width, height),
            4,
            &mut vec![(); 3],
            &still,
            read.clone(),
            &mut Checkpoints::new(&()),
        )
        .unwrap();
    assert_eq!(blended.data, textured);
    let selected =
        SelectionFusion::fuse(
            info(width, height),
            4,
            2,
            &mut vec![(); 3],
            &still,
            read,
            &mut Checkpoints::new(&()),
        )
        .unwrap();
    assert_eq!(selected.data, textured);
}

/// A wavelet run reports every pass, and can be stopped in each.
#[test]
fn a_wavelet_run_can_be_stopped_in_every_pass() {
    let stack = WaveletStack::new(8, 4);
    let read = |i: usize| -> Result<Bitmap<F>, String> { Ok(frame(i as f32)) };
    let whole = CancelAfter::new(usize::MAX);
    assert!(stack
        .stack(info(64, 48), 3, read, &mut Checkpoints::new(&whole))
        .is_ok());
    let reports = whole.reports();
    assert_eq!(reports[0], (Stage::Focus, 1, 3));
    assert_eq!(reports[2], (Stage::Focus, 3, 3));
    assert_eq!(reports[3].0, Stage::Weights);
    assert_eq!(*reports.last().unwrap(), (Stage::Fuse, 3, 3));
    for after in 1..reports.len() {
        let control = CancelAfter::new(after);
        let Err(halt) = stack.stack(info(64, 48), 3, read, &mut Checkpoints::new(&control))
        else {
            panic!("expected the run to be cancelled after {after} reports");
        };
        assert_eq!(halt, Halt::Cancelled);
        assert_eq!(control.reports().len(), after);
    }
}

#[test]
fn label_maps_run_from_black_to_white() {
    let map: Vec<F> = label_map(&[0, 1, 2, 4], 5);
    let got: Vec<f32> = map.iter().map(|v| v.0).collect();
    assert_eq!(got, [0.0, 0.25, 0.5, 1.0]);
    let one: Vec<F> = label_map(&[0, 0], 1);
    assert_eq!(one, [F(0.0), F(0.0)]);
}

/// A frame warped by the identity is the frame, whatever the chunk it is warped in.
#[test]
fn the_identity_warp_changes_nothing() {
    let src = frame(1.0);
    let i = info(64, 48);
    let t = Transform::<F>::identity();
    let mut out = Vec::new();
    for y0 in [0u32, 16, 32] {
        let (from, to) = warp_span(t, i, y0, 16);
        let band = &src.data[from as usize * 192..to as usize * 192];
        out.extend(warp_rows(t, i, band, from, to - from, y0, 16));
    }
    for (a, b) in out.iter().zip(&src.data) {
        assert!((a.0 - b.0).abs() < 1e-6, "{a:?} != {b:?}");
    }
}

/// Interleaved grey rows of a picture given by a function.
fn grey(width: u32, height: u32, f: impl Fn(u32, u32) -> f32) -> Vec<F> {
    let mut out = Vec::new();
    for y in 0..height {
        for x in 0..width {
            out.extend([F(f(x, y)); 3]);
        }
    }
    out
}

/// Reads bands of a frame that is held in memory.
fn bands(rows: &[F], width: u32) -> impl Fn(u32, u32) -> Result<Vec<F>, String> + '_ {
    move |from, count| {
        let row = width as usize * 3;
        Ok(rows[from as usize * row..(from + count) as usize * row].to_vec())
    }
}

/// The single-scale measure of a whole frame, read band by band.
fn evaluate(rows: &[F], width: u32, height: u32, radius: u32) -> Vec<F> {
    WindowedLaplacian::new(radius)
        .measure_native(info(width, height), &bands(rows, width))
        .unwrap()
        .data
}

/// The multi-scale measure of a whole frame, band by band.
fn evaluate_scales(
    rows: &[F],
    width: u32,
    height: u32,
    radius: u32,
    scales: u32,
    decay: f32,
) -> Vec<F> {
    MultiScaleLaplacian::new(radius, scales, F(decay))
        .measure_native(info(width, height), &bands(rows, width))
        .unwrap()
        .unwrap()
        .data
}

#[test]
fn flat_regions_measure_zero_focus() {
    for v in evaluate(&grey(64, 48, |_, _| 0.4), 64, 48, 3) {
        assert!(
            v.0.abs() < 1e-6,
            "flat region should have no focus energy: {v:?}"
        );
    }
}

#[test]
fn sharp_edges_measure_more_than_soft_ones() {
    let sharp = grey(64, 48, |x, _| if x < 32 { 0.1 } else { 0.8 });
    let soft = grey(64, 48, |x, _| {
        (0.1 + 0.7 * (x as f32 / 63.0)).clamp(0.0, 1.0)
    });
    let total = |rows: &[F]| evaluate(rows, 64, 48, 3).iter().map(|v| v.0).sum::<f32>();
    let (sharp_total, soft_total) = (total(&sharp), total(&soft));
    assert!(
        sharp_total > soft_total * 10.0,
        "sharp {sharp_total:.4} should dominate soft {soft_total:.4}"
    );
}

/// One scale must be the single-scale metric, bit for bit.
#[test]
fn multi_scale_reduces_to_single_scale() {
    let rows = grey(128, 96, |x, y| {
        let fine = ((x * 7 + y * 3) % 11) as f32 / 11.0;
        let coarse = ((x / 16 + y / 16) % 2) as f32;
        0.2 + 0.5 * fine * 0.3 + 0.4 * coarse
    });
    let a = evaluate(&rows, 128, 96, 4);
    let b = evaluate_scales(&rows, 128, 96, 4, 1, 1.0);
    let differing = a
        .iter()
        .zip(&b)
        .filter(|(x, y)| x.0.to_bits() != y.0.to_bits())
        .count();
    assert_eq!(differing, 0, "{differing} of {} samples differ", a.len());
}

#[test]
fn more_scales_add_coarse_structure() {
    let rows = grey(128, 96, |x, y| {
        if (x / 24 + y / 24) % 2 == 0 {
            0.2
        } else {
            0.7
        }
    });
    let total = |scales| {
        evaluate_scales(&rows, 128, 96, 2, scales, 0.5)
            .iter()
            .map(|v| v.0)
            .sum::<f32>()
    };
    let (one, three) = (total(1), total(3));
    assert!(
        three > one,
        "coarse levels should add energy: {three} vs {one}"
    );
}

/// Bands must not show at their boundaries.
#[test]
fn band_boundaries_leave_no_seam() {
    let height = BAND_ROWS * 2 + 64;
    let rows = grey(64, height, |x, _| {
        if (x / 3) % 2 == 0 {
            0.25
        } else {
            0.75
        }
    });
    let map = evaluate_scales(&rows, 64, height, 3, 4, 0.5);

    // Skip the top and bottom, where clamping legitimately differs.
    let width = 64usize;
    let inner = &map[64 * width..(height as usize - 64) * width];
    let reference = &inner[..width];
    for (r, row) in inner.chunks(width).enumerate() {
        for (x, (got, want)) in row.iter().zip(reference).enumerate() {
            assert!(
                (got.0 - want.0).abs() <= want.0.abs() * 1e-5,
                "row {} column {x} differs: {got:?} vs {want:?}",
                64 + r
            );
        }
    }
}

#[test]
fn focus_map_follows_the_transform() {
    // Vertical edge at x = 20.
    let rows = grey(96, 32, |x, _| if x < 20 { 0.1 } else { 0.9 });
    let measured = |t: Transform<F>| {
        WindowedLaplacian::new(2)
            .evaluate(info(96, 32), t, &bands(&rows, 96))
            .unwrap()
    };
    let peak_column = |map: &Plane<F>| {
        map.data[16 * 96..17 * 96]
            .iter()
            .enumerate()
            .max_by(|a, b| a.1 .0.partial_cmp(&b.1 .0).unwrap())
            .unwrap()
            .0
    };
    let unshifted = peak_column(&measured(Transform::identity()));
    let moved = measured(Transform::translation(F(8.0), F(0.0)));
    let diff = peak_column(&moved) as i64 - unshifted as i64;
    assert!((diff + 8).abs() <= 1, "expected -8 px, got {diff}");
}

#[test]
fn luminance_weighs_green_most() {
    let rows = [F(1.0), F(0.0), F(0.0), F(0.0), F(1.0), F(0.0), F(0.0), F(0.0), F(1.0)];
    let got: Vec<f32> = to_luma(&rows).iter().map(|v| v.0).collect();
    assert!((got[0] - 0.2126).abs() < 1e-6);
    assert!((got[1] - 0.7152).abs() < 1e-6);
    assert!((got[2] - 0.0722).abs() < 1e-6);
}
