use rustfft::num_complex::Complex32;
use rustfft::{FftDirection, FftPlanner};
use stackaroni::correlate::{self, register_stack, Alignments};
use stackaroni::drive::Halt;
use stackaroni::grid::Grid;
use stackaroni::image::FrameInfo;
use stackaroni::pipeline::{Checkpoints, RunControl, Stage, Transform};
use stackaroni::registration::{
    chain, padded_edge, pairs, parabolic, scale_up, wrap, PhaseCorrelation, Phasor,
};
use stackaroni::sample::{Fixed, Sample};

/// Single-precision samples.
#[derive(Clone, Copy, Debug, PartialEq)]
struct F(f32);

impl Sample for F {
    fn spec_whole(n: i64) -> Self {
        F(n as f32)
    }
    fn spec_lowest() -> Self {
        F(f32::NEG_INFINITY)
    }
    fn spec_plus(self, other: Self) -> Self {
        F(self.0 + other.0)
    }
    fn spec_minus(self, other: Self) -> Self {
        F(self.0 - other.0)
    }
    fn spec_times(self, other: Self) -> Self {
        F(self.0 * other.0)
    }
    fn spec_over(self, other: Self) -> Self {
        F(self.0 / other.0)
    }
    fn spec_exceeds(self, other: Self) -> bool {
        self.0 > other.0
    }
    fn spec_floor(self) -> Self {
        F(self.0.floor())
    }
    fn spec_index(self) -> i64 {
        self.0 as i64
    }
    fn whole(n: i64) -> Self {
        Self::spec_whole(n)
    }
    fn lowest() -> Self {
        Self::spec_lowest()
    }
    fn plus(self, other: Self) -> Self {
        self.spec_plus(other)
    }
    fn minus(self, other: Self) -> Self {
        self.spec_minus(other)
    }
    fn times(self, other: Self) -> Self {
        self.spec_times(other)
    }
    fn over(self, other: Self) -> Self {
        self.spec_over(other)
    }
    fn exceeds(self, other: Self) -> bool {
        self.spec_exceeds(other)
    }
    fn floor(self) -> Self {
        self.spec_floor()
    }
    fn index(self) -> i64 {
        self.spec_index()
    }
}

/// A raised-cosine window.
fn hann(n: u32) -> Vec<F> {
    if n <= 1 {
        return vec![F(1.0); n as usize];
    }
    (0..n)
        .map(|i| {
            let t = i as f32 / (n - 1) as f32;
            F(0.5 - 0.5 * (std::f32::consts::TAU * t).cos())
        })
        .collect()
}

fn fft2(data: &mut [Complex32], w: usize, h: usize, direction: FftDirection) {
    let mut planner = FftPlanner::<f32>::new();
    let rows = planner.plan_fft(w, direction);
    rows.process(data);
    let columns = planner.plan_fft(h, direction);
    let mut column = vec![Complex32::new(0.0, 0.0); h];
    for x in 0..w {
        for y in 0..h {
            column[y] = data[y * w + x];
        }
        columns.process(&mut column);
        for y in 0..h {
            data[y * w + x] = column[y];
        }
    }
}

fn correlate(a: &Grid<F>, b: &Grid<F>) -> (f32, f32) {
    let fw = padded_edge(a.width) as usize;
    let fh = padded_edge(a.height) as usize;
    let fourier = |bins: Vec<Phasor<F>>, back: bool| -> Vec<Phasor<F>> {
        let mut data: Vec<Complex32> = bins
            .iter()
            .map(|p| Complex32::new(p.re.0, p.im.0))
            .collect();
        let direction = if back {
            FftDirection::Inverse
        } else {
            FftDirection::Forward
        };
        fft2(&mut data, fw, fh, direction);
        data.iter()
            .map(|c| Phasor {
                re: F(c.re),
                im: F(c.im),
            })
            .collect()
    };
    let norm = |p: Phasor<F>| F(Complex32::new(p.re.0, p.im.0).norm());
    let (across, down) = (hann(a.width), hann(a.height));
    let (dx, dy) = correlate::correlate(a, b, &across, &down, fw, fh, &fourier, &norm);
    (dx.0, dy.0)
}

/// Broadband texture, defined analytically so that a shifted copy has no empty edge.
fn texture_at(x: f32, y: f32) -> f32 {
    let mut seed = 0x9e3779b9u32;
    let mut next = || {
        seed = seed.wrapping_mul(1664525).wrapping_add(1013904223);
        (seed >> 8) as f32 / (1 << 24) as f32
    };
    (0..48)
        .map(|_| {
            let fx = (next() - 0.5) * 2.4;
            let fy = (next() - 0.5) * 2.4;
            let phase = next() * std::f32::consts::TAU;
            (fx * x + fy * y + phase).sin()
        })
        .sum::<f32>()
        / 48.0
}

/// Grid of `texture_at`, displaced by `(dx, dy)`.
fn textured(width: u32, height: u32, dx: f32, dy: f32) -> Grid<F> {
    let mut g = Grid::new(width, height);
    for y in 0..height {
        for x in 0..width {
            g.data[y as usize * width as usize + x as usize] =
                F(texture_at(x as f32 - dx, y as f32 - dy));
        }
    }
    g
}

#[test]
fn recovers_whole_pixel_shifts() {
    let a = textured(128, 96, 0.0, 0.0);
    for &(dx, dy) in &[(0.0, 0.0), (5.0, 0.0), (0.0, -4.0), (-7.0, 3.0)] {
        let b = textured(128, 96, dx, dy);
        let (gx, gy) = correlate(&a, &b);
        assert!(
            (gx - dx).abs() < 0.1 && (gy - dy).abs() < 0.1,
            "want ({dx},{dy}) got ({gx:.3},{gy:.3})"
        );
    }
}

#[test]
fn recovers_sub_pixel_shifts() {
    let a = textured(128, 96, 0.0, 0.0);
    for &(dx, dy) in &[(2.5, 0.0), (0.0, 1.25), (-3.4, 2.6), (0.75, -0.25)] {
        let b = textured(128, 96, dx, dy);
        let (gx, gy) = correlate(&a, &b);
        assert!(
            (gx - dx).abs() < 0.2 && (gy - dy).abs() < 0.2,
            "want ({dx},{dy}) got ({gx:.3},{gy:.3})"
        );
    }
}

#[test]
fn sub_pixel_refinement_beats_integer_argmax() {
    let a = textured(128, 96, 0.0, 0.0);
    let (dx, dy) = (3.4, -2.6);
    let b = textured(128, 96, dx, dy);
    let (gx, gy) = correlate(&a, &b);
    let integer_err = (gx.round() - dx).abs().max((gy.round() - dy).abs());
    let refined_err = (gx - dx).abs().max((gy - dy).abs());
    assert!(
        refined_err < integer_err,
        "refined {refined_err:.3} should beat integer {integer_err:.3}"
    );
}

#[test]
fn correlation_is_antisymmetric() {
    let a = textured(128, 96, 0.0, 0.0);
    let b = textured(128, 96, 3.5, -2.25);
    let (fx, fy) = correlate(&a, &b);
    let (rx, ry) = correlate(&b, &a);
    assert!(
        (fx + rx).abs() < 0.1 && (fy + ry).abs() < 0.1,
        "forward ({fx:.3},{fy:.3}) reverse ({rx:.3},{ry:.3})"
    );
}

#[test]
fn parabolic_offset_is_zero_at_a_symmetric_peak() {
    let p = |mid, left, right| parabolic(F(mid), F(left), F(right)).0;
    assert!(p(1.0, 0.5, 0.5).abs() < 1e-9);
    assert!(p(1.0, 0.5, 0.9) > 0.0, "peak leans right");
    assert!(p(1.0, 0.9, 0.5) < 0.0, "peak leans left");
}

/// A displacement past the middle is a negative one.
#[test]
fn displacements_wrap_around_the_middle() {
    assert_eq!(wrap(F(3.0), 16).0, 3.0);
    assert_eq!(wrap(F(13.0), 16).0, -3.0);
    // The range leaves out its upper end.
    assert_eq!(wrap(F(4.0), 8).0, -4.0);
    assert_eq!(wrap(F(3.5), 8).0, 3.5);
    assert_eq!(wrap(F(4.5), 9).0, -4.5);
}

/// A shift that was measured at a level counts for more pixels at full size.
#[test]
fn a_shift_is_scaled_up_by_its_level() {
    let t = scale_up(F(1.5), F(-2.0), 3);
    assert_eq!((t.scale.0, t.dx.0, t.dy.0), (1.0, 12.0, -16.0));
}

#[test]
fn frames_are_aligned_outward_from_the_middle() {
    assert_eq!(pairs(5).len(), 4);
    let steps: Vec<Transform<F>> = pairs(5)
        .iter()
        .map(|_| Transform::translation(F(1.0), F(0.0)))
        .collect();
    let placed = chain(&steps, 5);
    let shifts: Vec<f32> = placed.iter().map(|t| t.dx.0).collect();
    assert_eq!(shifts, [2.0, 1.0, 0.0, 1.0, 2.0]);
}

#[test]
fn spectra_are_padded_to_a_power_of_two() {
    assert_eq!(padded_edge(128), 256);
    assert_eq!(padded_edge(96), 256);
    assert_eq!(padded_edge(1), 1);
}

/// A frame that moved by a whole block is found to have moved by the block's size.
#[test]
fn frames_are_aligned_through_their_readers() {
    let (width, height) = (256u32, 192u32);
    let frame = |dx: f32| -> Vec<F> {
        (0..height)
            .flat_map(|y| (0..width).map(move |x| (x, y)))
            .flat_map(|(x, y)| [F(texture_at((x as f32 - dx) / 4.0, y as f32 / 4.0)); 3])
            .collect()
    };
    let (still, moved) = (frame(0.0), frame(12.0));
    let info = FrameInfo {
        width,
        height,
        samples: 3,
        bits_per_sample: 16,
    };
    let row = width as usize * 3;
    let read = |data: &Vec<F>, from: u32, count: u32| -> Result<Vec<F>, String> {
        Ok(data[from as usize * row..(from + count) as usize * row].to_vec())
    };
    let (fw, fh) = (padded_edge(width / 4) as usize, padded_edge(height / 4) as usize);
    let fourier = |bins: Vec<Phasor<F>>, back: bool| -> Vec<Phasor<F>> {
        let mut data: Vec<Complex32> = bins
            .iter()
            .map(|p| Complex32::new(p.re.0, p.im.0))
            .collect();
        let direction = if back {
            FftDirection::Inverse
        } else {
            FftDirection::Forward
        };
        fft2(&mut data, fw, fh, direction);
        data.iter()
            .map(|c| Phasor {
                re: F(c.re),
                im: F(c.im),
            })
            .collect()
    };
    let norm = |p: Phasor<F>| F(Complex32::new(p.re.0, p.im.0).norm());
    let found = PhaseCorrelation::new(2)
        .align(
            info,
            &|from, count| read(&still, from, count),
            &|from, count| read(&moved, from, count),
            &hann,
            &fourier,
            &norm,
        )
        .unwrap();
    assert_eq!(found.scale, F(1.0));
    assert!((found.dx.0 - 12.0).abs() < 1.0, "{found:?}");
    assert!(found.dy.0.abs() < 1.0, "{found:?}");

    let torn = PhaseCorrelation::new(2).align(
        info,
        &|from, count| read(&still, from, count),
        &|_, _| Err("torn".to_string()),
        &hann,
        &fourier,
        &norm,
    );
    assert_eq!(torn, Err("torn".to_string()));
}

struct Stop;

impl RunControl for Stop {
    fn cancelled(&self) -> bool {
        true
    }
}

/// Never stops a run, and keeps what it is told.
#[derive(Default)]
struct Heard {
    reports: std::sync::Mutex<Vec<(Stage, usize, usize)>>,
}

impl RunControl for Heard {
    fn progress(&self, stage: Stage, done: usize, total: usize) {
        self.reports.lock().unwrap().push((stage, done, total));
    }
}

/// Steps add up outward from the middle frame; failing and cancelling stop the chain.
#[test]
fn a_stack_is_registered_outward_from_its_middle() {
    let aligned = std::cell::RefCell::new(Vec::new());
    // Frame k stands at 10k, so each pair is ten apart, in the direction of the pair.
    let align = |reference: usize, target: usize| -> Result<Transform<F>, String> {
        aligned.borrow_mut().push((reference, target));
        let d = 10.0 * (target as f32 - reference as f32);
        Ok(Transform::translation(F(d), F(0.0)))
    };
    let run = Heard::default();
    let mut made = Alignments::new(&align);
    let placed = register_stack(5, &mut made, &mut Checkpoints::new(&run)).unwrap();
    let xs: Vec<f32> = placed.iter().map(|t| t.dx.0).collect();
    assert_eq!(xs, [-20.0, -10.0, 0.0, 10.0, 20.0]);
    assert_eq!(*aligned.borrow(), [(2, 3), (3, 4), (2, 1), (1, 0)]);
    let reports = [1, 2, 3, 4].map(|done| (Stage::Register, done, 4));
    assert_eq!(*run.reports.lock().unwrap(), reports);

    let alone = register_stack(1, &mut made, &mut Checkpoints::new(&Stop));
    assert_eq!(alone, Ok(vec![Transform::identity()]));
    let stopped = register_stack(5, &mut made, &mut Checkpoints::new(&Stop));
    assert_eq!(stopped, Err(Halt::Cancelled));
    assert_eq!(aligned.borrow().len(), 4, "neither of these aligned anything");
    let failing = |_: usize, target: usize| -> Result<Transform<F>, usize> { Err(target) };
    let failed = register_stack(
        5,
        &mut Alignments::new(&failing),
        &mut Checkpoints::new(&()),
    );
    assert_eq!(failed, Err(Halt::Failed(3)));
}

/// Exact peaks lean towards their larger neighbour, by no more than half a pixel.
#[test]
fn an_exact_peak_leans_to_its_larger_neighbour() {
    let at = |v: i64| Fixed { raw: v };
    assert_eq!(parabolic(at(100), at(40), at(40)), at(0));
    assert_eq!(parabolic(at(100), at(40), at(100)), at(32768));
    assert_eq!(parabolic(at(100), at(100), at(40)), at(-32768));
    assert_eq!(parabolic(at(100), at(40), at(80)), at(16384));
}
