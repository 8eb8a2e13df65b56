use stackaroni::drive::Halt;
use stackaroni::focus::{MultiScaleLaplacian, WindowedLaplacian};
use stackaroni::guided::GuidedWeights;
use stackaroni::image::FrameInfo;
use stackaroni::error::Error;
use stackaroni::pipeline::{Checkpoints, RunControl, Transform};
use stackaroni::plane::Plane;
use stackaroni::sample::{Fixed, Sample};
use stackaroni::thumbnail::thumbnail;
use stackaroni::tiff_io::Unread;
use stackaroni::warp::warp_frame;
use stackaroni::weights::{guided_filter, selection_mask, GuideSpace};

/// Single-precision samples.
#[derive(Clone, Copy, Debug, PartialEq)]
struct F(f32);

impl Sample for F {
    fn spec_whole(n: i64) -> Self {
        F(n as f32)
    }
    fn spec_lowest() -> Self {
        F(f32::NEG_INFINITY)
    }
    fn spec_plus(self, other: Self) -> Self {
        F(self.0 + other.0)
    }
    fn spec_minus(self, other: Self) -> Self {
        F(self.0 - other.0)
    }
    fn spec_times(self, other: Self) -> Self {
        F(self.0 * other.0)
    }
    fn spec_over(self, other: Self) -> Self {
        F(self.0 / other.0)
    }
    fn spec_exceeds(self, other: Self) -> bool {
        self.0 > other.0
    }
    fn spec_floor(self) -> Self {
        F(self.0.floor())
    }
    fn spec_index(self) -> i64 {
        self.0 as i64
    }
    fn whole(n: i64) -> Self {
        Self::spec_whole(n)
    }
    fn lowest() -> Self {
        Self::spec_lowest()
    }
    fn plus(self, other: Self) -> Self {
        self.spec_plus(other)
    }
    fn minus(self, other: Self) -> Self {
        self.spec_minus(other)
    }
    fn times(self, other: Self) -> Self {
        self.spec_times(other)
    }
    fn over(self, other: Self) -> Self {
        self.spec_over(other)
    }
    fn exceeds(self, other: Self) -> bool {
        self.spec_exceeds(other)
    }
    fn floor(self) -> Self {
        self.spec_floor()
    }
    fn index(self) -> i64 {
        self.spec_index()
    }
}

fn info(width: u32, height: u32) -> FrameInfo {
    FrameInfo {
        width,
        height,
        samples: 3,
        bits_per_sample: 16,
    }
}

/// A frame of something that changes everywhere.
fn frame<S>(width: u32, height: u32, f: impl Fn(u32) -> S) -> Vec<S> {
    (0..width * height * 3)
        .map(|i| f(i.wrapping_mul(2654435761) >> 20))
        .collect()
}

fn bands<S: Copy>(data: &[S], row: usize) -> impl Fn(u32, u32) -> Result<Vec<S>, String> + '_ {
    move |from, count| Ok(data[from as usize * row..(from + count) as usize * row].to_vec())
}

fn fixed(v: u32) -> Fixed {
    Fixed { raw: v as i64 * 16 }
}

/// A frame of one colour has nothing in focus, wherever it is measured.
#[test]
fn an_exactly_flat_frame_measures_zero() {
    let (width, height) = (9, 530);
    let data = frame(width, height, |_| Fixed { raw: 12345 });
    let focus = WindowedLaplacian::new(4)
        .measure_native(info(width, height), &bands(&data, 27))
        .unwrap();
    assert_eq!(focus.data.len(), 9 * 530);
    assert!(focus.data.iter().all(|v| *v == Fixed { raw: 0 }));
}

/// Bands join without a seam: reading by bands gives what one band over everything does.
#[test]
fn a_measured_frame_has_no_seam() {
    let (width, height) = (5, 600);
    let data = frame(width, height, fixed);
    let by_bands = WindowedLaplacian::new(3)
        .measure_native(info(width, height), &bands(&data, 15))
        .unwrap();

    let luma = stackaroni::focus::to_luma(&data);
    let energy = stackaroni::focus::laplacian_energy(&luma, width, height);
    let whole = stackaroni::filter::box_sum(&energy, width, height, 3);
    assert_eq!(by_bands.data, whole);
}

/// A frame warped in chunks is the frame warped at once.
#[test]
fn a_warped_frame_has_no_seam() {
    let (width, height) = (4, 700);
    let data = frame(width, height, fixed);
    let t = Transform {
        scale: Fixed { raw: 65000 },
        dx: Fixed { raw: 40000 },
        dy: Fixed { raw: -170000 },
    };
    let warped = warp_frame(info(width, height), t, &bands(&data, 12)).unwrap();
    let whole = stackaroni::fusion::warp_rows(t, info(width, height), &data, 0, height, 0, height);
    assert_eq!(warped.data, whole);
    assert_eq!((warped.width, warped.height, warped.channels), (4, 700, 3));

    let same = warp_frame(
        info(width, height),
        Transform::identity(),
        &bands(&data, 12),
    )
    .unwrap();
    assert_eq!(same.data, data);
}

/// A weight refined in bands is the weight refined at once.
#[test]
fn a_refined_frame_has_no_seam() {
    let (width, height) = (6u32, 520u32);
    let guide = Plane {
        width,
        height,
        data: frame(width, height, fixed)[..(width * height) as usize].to_vec(),
    };
    let labels: Vec<usize> = (0..(width * height) as usize).map(|i| i / 7 % 3).collect();
    let epsilon = Fixed { raw: 700 };
    let weights = GuidedWeights::new(2, epsilon, GuideSpace::Linear);
    let refined = weights.refine(1, &guide, &bands(&labels, 6)).unwrap();

    let mask: Vec<Fixed> = selection_mask(&labels, 1);
    let whole = guided_filter(&guide.data, &mask, width, height, 2, epsilon);
    let whole: Vec<Fixed> = whole
        .iter()
        .map(|v| if v.raw > 0 { *v } else { Fixed { raw: 0 } })
        .collect();
    assert_eq!(refined.data, whole);
    assert!(refined.data.iter().any(|v| v.raw > 0));
}

/// The guide is luminance; only the perceptual one is encoded, and never below zero.
#[test]
fn a_guide_is_encoded_where_the_eye_measures() {
    let data: Vec<F> = (0..8).flat_map(|i| [F(i as f32 - 1.0); 3]).collect();
    let tone = |v: F| F(v.0 * 100.0);
    let read = bands(&data, 12);
    let guide = |space| {
        GuidedWeights::new(1, F(0.1), space)
            .guide(info(4, 2), Transform::identity(), &read, &tone)
            .unwrap()
            .data
    };
    let linear = guide(GuideSpace::Linear);
    let perceptual = guide(GuideSpace::Perceptual);
    for (i, (l, p)) in linear.iter().zip(&perceptual).enumerate() {
        let v = i as f32 - 1.0;
        assert!((l.0 - v).abs() < 1e-5, "{l:?}");
        assert!((p.0 - v.max(0.0) * 100.0).abs() < 1e-3, "{p:?}");
    }
}

/// A thumbnail averages the first rows of each block, channel by channel.
#[test]
fn a_thumbnail_is_read_in_bands() {
    let (width, height) = (256u32, 64u32);
    let data: Vec<F> = (0..height)
        .flat_map(|y| (0..width).map(move |x| (x, y)))
        .flat_map(|(x, y)| [F(x as f32), F(y as f32), F(1.0)])
        .collect();
    let small = thumbnail(info(width, height), &bands(&data, 768)).unwrap();
    assert_eq!((small.width, small.height, small.channels), (128, 32, 3));
    let at = (5 * 128 + 9) * 3;
    assert_eq!(small.data[at..at + 3], [F(18.5), F(10.5), F(1.0)]);
}

/// A frame lower than the rows read for an output row has no thumbnail.
#[test]
fn a_frame_lower_than_a_band_has_no_thumbnail() {
    let data = vec![F(0.5); 1024 * 8 * 3];
    let small = |height: u32| thumbnail(info(1024, height), &bands(&data, 3072));
    assert!(matches!(
        small(2),
        Err(Unread::Refused(Error::BufferSize {
            got: 12288,
            want: 6144
        }))
    ));
    assert!(matches!(
        small(0),
        Err(Unread::Refused(Error::BufferSize {
            got: 12288,
            want: 0
        }))
    ));
    let low = small(4).unwrap();
    assert_eq!((low.width, low.height), (128, 1));
}

/// A band that cannot be read is reported.
#[test]
fn a_band_that_cannot_be_read_is_reported() {
    let torn = |from: u32, _: u32| -> Result<Vec<F>, u32> { Err(from) };
    let wide = info(4, 300);
    assert!(matches!(thumbnail(wide, &torn), Err(Unread::Failed(0))));
    assert!(matches!(warp_frame(wide, Transform::identity(), &torn), Err(0)));
    assert!(matches!(
        WindowedLaplacian::new(1).measure_native(wide, &torn),
        Err(0)
    ));

    let halfway = |from: u32, count: u32| -> Result<Vec<F>, u32> {
        if from > 0 {
            Err(from)
        } else {
            Ok(vec![F(0.5); 12 * count as usize])
        }
    };
    assert!(matches!(
        WindowedLaplacian::new(1).measure_native(wide, &halfway),
        Err(254)
    ));
}

/// Stops a run at a chosen checkpoint.
struct StopAt {
    checkpoint: usize,
    seen: std::sync::atomic::AtomicUsize,
}

impl StopAt {
    fn new(checkpoint: usize) -> Self {
        StopAt {
            checkpoint,
            seen: std::sync::atomic::AtomicUsize::new(0),
        }
    }
}

impl RunControl for StopAt {
    fn cancelled(&self) -> bool {
        let seen = self.seen.fetch_add(1, std::sync::atomic::Ordering::SeqCst);
        seen >= self.checkpoint
    }
}

/// Each pixel is labelled with the frame that is sharpest there, the first of equals.
#[test]
fn labels_follow_the_sharpest_frame_across_bands() {
    let (width, height) = (3u32, 600u32);
    let maps: Vec<Vec<Fixed>> = (0..4u32)
        .map(|k| {
            (0..width * height)
                .map(|i| fixed((i.wrapping_mul(2654435761) >> (k * 3)) % 5))
                .collect()
        })
        .collect();
    let read = |k: usize, from: u32, count: u32| -> Result<Vec<Fixed>, String> {
        Ok(maps[k][from as usize * 3..(from + count) as usize * 3].to_vec())
    };
    let weights = GuidedWeights::new(1, fixed(1), GuideSpace::Linear);
    let labels = weights
        .labels(4, width, height, &read, &mut Checkpoints::new(&()))
        .unwrap();

    for i in 0..(width * height) as usize {
        let values: Vec<i64> = maps.iter().map(|m| m[i].raw).collect();
        let most = *values.iter().max().unwrap();
        assert_eq!(labels[i], values.iter().position(|v| *v == most).unwrap());
    }
    assert!((0..4).all(|k| labels.contains(&k)));
}

/// A run can be stopped before any band of the labels, and a map that cannot be read ends
/// it.
#[test]
fn labelling_stops_where_it_is_told_to() {
    let weights = GuidedWeights::new(1, fixed(1), GuideSpace::Linear);
    let asked = std::cell::RefCell::new(Vec::new());
    let read = |k: usize, from: u32, count: u32| -> Result<Vec<Fixed>, String> {
        asked.borrow_mut().push((k, from, count));
        Ok(vec![fixed(1); count as usize * 2])
    };
    let stopped = weights.labels(2, 2, 600, &read, &mut Checkpoints::new(&StopAt::new(1)));
    assert!(matches!(stopped, Err(Halt::Cancelled)));
    assert_eq!(*asked.borrow(), [(0, 0, 256), (1, 0, 256)]);

    let fails = |k: usize, from: u32, count: u32| -> Result<Vec<Fixed>, String> {
        if k == 1 && from == 512 {
            return Err(format!("no rows {from}..{}", from + count));
        }
        Ok(vec![fixed(1); count as usize * 2])
    };
    let failed = weights.labels(2, 2, 600, &fails, &mut Checkpoints::new(&()));
    assert!(matches!(failed, Err(Halt::Failed(why)) if why == "no rows 512..600"));
}

fn linear_to_srgb(v: f32) -> f32 {
    if v <= 0.0031308 {
        v * 12.92
    } else {
        1.055 * v.powf(1.0 / 2.4) - 0.055
    }
}

#[test]
fn perceptual_guide_lifts_dark_edges_relative_to_highlights() {
    // A dark-on-mid edge and a highlight-region edge that look comparable to the eye do not
    // have comparable linear-domain magnitudes.
    let edges = [0.02f32, 0.10, 0.70, 0.90];
    let data: Vec<F> = edges.iter().flat_map(|v| [F(*v); 3]).collect();
    let guide = |space: GuideSpace| -> Vec<f32> {
        GuidedWeights::new(1, F(1e-4), space)
            .guide(
                info(4, 1),
                Transform::identity(),
                &bands(&data, 12),
                &|v: F| F(linear_to_srgb(v.0)),
            )
            .unwrap()
            .data
            .iter()
            .map(|v| v.0)
            .collect()
    };
    let linear = guide(GuideSpace::Linear);
    let perceptual = guide(GuideSpace::Perceptual);

    assert!(
        linear[1] - linear[0] < linear[3] - linear[2],
        "linear light understates the dark edge"
    );
    assert!(
        perceptual[1] - perceptual[0] > perceptual[3] - perceptual[2],
        "gamma encoding should restore its precedence"
    );
}

/// A frame whose rows are alike measures alike on every row, across bands and scales.
#[test]
fn several_scales_leave_no_seam_on_columns() {
    let (width, height) = (29u32, 2 * 256 + 64u32);
    let line: Vec<Fixed> = (0..width)
        .flat_map(|x| [fixed(if (x / 3) % 2 == 0 { 1000 } else { 3100 }); 3])
        .collect();
    let data: Vec<Fixed> = (0..height).flat_map(|_| line.clone()).collect();
    let map = MultiScaleLaplacian::new(3, 4, Fixed { raw: 32768 })
        .measure_native(info(width, height), &bands(&data, 87))
        .unwrap()
        .unwrap();
    let rows: Vec<&[Fixed]> = map.data.chunks(29).collect();
    assert_eq!(rows.len(), height as usize);
    assert!(rows.iter().all(|row| *row == rows[0]));
    assert!(rows[0].iter().any(|v| v.raw > 0));
}
