use stackaroni::filter::{box_mean, box_sum};
use stackaroni::fusion::{
    accumulate_weighted, every_frame_covers, normalize_uncovered, select_more_salient, FusionKind,
};
use stackaroni::grid::{
    alignment_views, downsample_for_view, is_viewable, stretch, Grid, MAX_EDGE,
};
use stackaroni::guided::GuidedWeights;
use stackaroni::image::{Coverage, FrameInfo};
use stackaroni::labels::verify_consistency;
use stackaroni::pipeline::{Checkpoints, Transform};
use stackaroni::plane::{span, Plane};
use stackaroni::error::Error;
use stackaroni::pyramid::{
    expand, gaussian_pyramid, laplacian_pyramid, level_count, reconstruct, Bitmap,
};
use stackaroni::sample::{Fixed, Sample};
use stackaroni::stacking::activity;
use stackaroni::wavelet::{
    analyze_1d, forward, grids, inverse, mirror, synthesize_1d, Details,
};
use stackaroni::weights::{guided_filter, normalize, selection_mask, GuideSpace};

/// Single-precision samples.
#[derive(Clone, Copy, Debug, PartialEq)]
struct F(f32);

impl Sample for F {
    fn spec_whole(n: i64) -> Self {
        F(n as f32)
    }
    fn spec_lowest() -> Self {
        F(f32::NEG_INFINITY)
    }
    fn spec_plus(self, other: Self) -> Self {
        F(self.0 + other.0)
    }
    fn spec_minus(self, other: Self) -> Self {
        F(self.0 - other.0)
    }
    fn spec_times(self, other: Self) -> Self {
        F(self.0 * other.0)
    }
    fn spec_over(self, other: Self) -> Self {
        F(self.0 / other.0)
    }
    fn spec_exceeds(self, other: Self) -> bool {
        self.0 > other.0
    }
    fn spec_floor(self) -> Self {
        F(self.0.floor())
    }
    fn spec_index(self) -> i64 {
        self.0 as i64
    }
    fn whole(n: i64) -> Self {
        Self::spec_whole(n)
    }
    fn lowest() -> Self {
        Self::spec_lowest()
    }
    fn plus(self, other: Self) -> Self {
        self.spec_plus(other)
    }
    fn minus(self, other: Self) -> Self {
        self.spec_minus(other)
    }
    fn times(self, other: Self) -> Self {
        self.spec_times(other)
    }
    fn over(self, other: Self) -> Self {
        self.spec_over(other)
    }
    fn exceeds(self, other: Self) -> bool {
        self.spec_exceeds(other)
    }
    fn floor(self) -> Self {
        self.spec_floor()
    }
    fn index(self) -> i64 {
        self.spec_index()
    }
}

fn floats(data: &[F]) -> Vec<f32> {
    data.iter().map(|v| v.0).collect()
}

fn naive_box_sum(data: &[F], w: u32, h: u32, r: u32, x: i64, y: i64) -> f32 {
    let mut want = 0.0;
    for dy in -(r as i64)..=r as i64 {
        for dx in -(r as i64)..=r as i64 {
            let cy = (y + dy).clamp(0, h as i64 - 1);
            let cx = (x + dx).clamp(0, w as i64 - 1);
            want += data[(cy * w as i64 + cx) as usize].0;
        }
    }
    want
}

#[test]
fn box_sum_matches_a_naive_sum() {
    let (w, h, r) = (9u32, 7u32, 2u32);
    let data: Vec<F> = (0..w * h).map(|i| F((i % 5) as f32)).collect();
    let got = box_sum(&data, w, h, r);
    for y in 0..h as i64 {
        for x in 0..w as i64 {
            let want = naive_box_sum(&data, w, h, r, x, y);
            let have = got[(y * w as i64 + x) as usize].0;
            assert!((have - want).abs() < 1e-3, "at {x},{y}: {have} != {want}");
        }
    }
}

/// Wide enough that any blocking of the columns would have a boundary.
#[test]
fn blocks_join_without_a_seam() {
    let (w, h, r) = (256u32 * 2 + 37, 9u32, 3u32);
    let data: Vec<F> = (0..w * h).map(|i| F(((i * 7) % 13) as f32)).collect();
    let got = box_sum(&data, w, h, r);
    for y in 0..h as i64 {
        for x in 0..w as i64 {
            let want = naive_box_sum(&data, w, h, r, x, y);
            let have = got[(y * w as i64 + x) as usize].0;
            assert!((have - want).abs() < 1e-2, "at {x},{y}: {have} != {want}");
        }
    }
}

#[test]
fn box_mean_of_a_constant_is_that_constant() {
    let data = vec![F(0.75); 40];
    for v in box_mean(&data, 8, 5, 2) {
        assert!((v.0 - 0.75).abs() < 1e-5, "{v:?}");
    }
}

/// A window that reaches past the edge reads the edge again.
#[test]
fn box_sum_clamps_at_the_edges() {
    let data = vec![F(1.0), F(2.0), F(3.0)];
    assert_eq!(floats(&box_sum(&data, 3, 1, 1)), [12.0, 18.0, 24.0]);
}

/// Every token round-trips, and the sets cannot drift apart.
#[test]
fn fusion_tokens_round_trip() {
    assert_eq!(FusionKind::all().len(), FusionKind::TOKENS.len());
    for kind in FusionKind::all() {
        assert_eq!(FusionKind::from_token(kind.token()), Some(kind));
        assert!(FusionKind::TOKENS.contains(&kind.token()));
    }
    assert_eq!(FusionKind::from_token("Selection"), None);
    assert_eq!(FusionKind::from_token(""), None);
}

/// The strings a user sees are distinct from the ones a user types.
#[test]
fn labels_and_tokens_are_separate_vocabularies() {
    let select = FusionKind::Select { salience_radius: 2 };
    assert_eq!(select.token(), "select");
    assert_eq!(FusionKind::Blend.token(), "blend");
    assert_eq!(select.label(), "Local");
    assert_eq!(FusionKind::Blend.label(), "Blend");
    for kind in FusionKind::all() {
        assert!(!kind.summary().is_empty());
    }
}

/// A rule's parameters belong to the rule.
#[test]
fn only_the_rule_that_reads_a_radius_carries_one() {
    let tuned = FusionKind::from_token("select")
        .unwrap()
        .with_salience_radius(4);
    assert_eq!(tuned, FusionKind::Select { salience_radius: 4 });

    let blend = FusionKind::from_token("blend")
        .unwrap()
        .with_salience_radius(4);
    assert_eq!(blend, FusionKind::Blend, "blend must not gain a parameter");
}

fn bitmap<S>(width: u32, height: u32, channels: usize, data: Vec<S>) -> Bitmap<S> {
    Bitmap {
        width,
        height,
        channels,
        data,
    }
}

fn copy(b: &Bitmap<F>) -> Bitmap<F> {
    bitmap(b.width, b.height, b.channels, b.data.clone())
}

fn at(b: &Bitmap<F>, x: u32, y: u32) -> usize {
    (y as usize * b.width as usize + x as usize) * b.channels
}

fn textured(width: u32, height: u32, channels: usize) -> Bitmap<F> {
    let mut b = Bitmap::new(width, height, channels);
    for y in 0..height {
        for x in 0..width {
            let i = at(&b, x, y);
            for ch in 0..channels {
                b.data[i + ch] = F(
                    ((x as f32 * 0.31).sin() * (y as f32 * 0.17).cos() + 0.3 * ch as f32).abs(),
                );
            }
        }
    }
    b
}

fn worst(a: &[F], b: &[F]) -> f32 {
    a.iter()
        .zip(b)
        .map(|(a, b)| (a.0 - b.0).abs())
        .fold(0.0f32, f32::max)
}

#[test]
fn levels_derive_from_the_smaller_edge() {
    // 900 -> 450 -> 225 -> 112 -> 56 -> 28, so it stops with 56 above the floor.
    assert_eq!(level_count(1200, 900, 32), 5);
    assert_eq!(level_count(8664, 5784, 32), 8);
    // A tiny image supports exactly one level.
    assert_eq!(level_count(40, 40, 32), 1);
}

#[test]
fn expanding_a_constant_preserves_it() {
    let flat = bitmap(16, 16, 1, vec![F(0.7); 256]);
    for v in expand(&flat, 32, 32).data {
        assert!((v.0 - 0.7).abs() < 1e-4, "{v:?}");
    }
}

#[test]
fn pyramid_reconstructs_the_original() {
    let base = textured(64, 48, 3);
    let levels = level_count(64, 48, 8);
    let back = reconstruct(&laplacian_pyramid(copy(&base), levels));

    assert_eq!(back.data.len(), base.data.len());
    let worst = worst(&base.data, &back.data);
    assert!(worst < 1e-4, "reconstruction error {worst}");
}

#[test]
fn odd_sizes_reconstruct_too() {
    let base = textured(37, 29, 3);
    let levels = level_count(37, 29, 8);
    let back = reconstruct(&laplacian_pyramid(copy(&base), levels));
    let worst = worst(&base.data, &back.data);
    assert!(worst < 1e-4, "reconstruction error {worst}");
}

/// With exact samples the pyramid comes back to the last bit.
#[test]
fn an_exact_pyramid_reconstructs_exactly() {
    let data: Vec<Fixed> = (0..37 * 29 * 3)
        .map(|i| Fixed {
            raw: (i * 7919 % 65536) as i64,
        })
        .collect();
    let base = Bitmap {
        width: 37,
        height: 29,
        channels: 3,
        data: data.clone(),
    };
    let back = reconstruct(&laplacian_pyramid(base, 3));
    assert_eq!(back.data, data);
}

#[test]
fn all_weight_on_one_frame_returns_that_frame() {
    let a = textured(32, 32, 3);
    let levels = level_count(32, 32, 8);

    let ones = bitmap(32, 32, 1, vec![F(1.0); 32 * 32]);
    let weight_levels = gaussian_pyramid(ones, levels);
    let bands = laplacian_pyramid(copy(&a), levels);

    let mut acc = gaussian_pyramid(Bitmap::<F>::new(32, 32, 3), levels);
    for level in 0..levels {
        let mut tally = vec![F(0.0); weight_levels[level].data.len()];
        let cover = full_cover(&bands[level]);
        accumulate_weighted(
            &mut acc[level],
            &mut tally,
            &weight_levels[level],
            &bands[level],
            cover,
        );
    }

    let worst = worst(&a.data, &reconstruct(&acc).data);
    assert!(worst < 1e-4, "should return frame a unchanged: {worst}");
}

/// Coverage over the whole of a band.
fn full_cover(b: &Bitmap<F>) -> Coverage {
    Coverage {
        x0: 0,
        y0: 0,
        x1: b.width,
        y1: b.height,
    }
}

/// A frame that had to be sampled outside itself must not win in its replicated margin,
/// and must still win everywhere it covers.
#[test]
fn a_frame_cannot_win_outside_the_region_it_covers() {
    let (w, h) = (32u32, 16u32);
    let smooth = Bitmap::<F>::new(w, h, 3);
    let replicated = detail_in(0..w, w, h);

    let mut dst = Bitmap::new(w, h, 3);
    let mut best = vec![F(-1.0); (w * h) as usize];
    select_more_salient(&mut dst, &mut best, &smooth, 1, full_cover(&smooth));
    select_more_salient(
        &mut dst,
        &mut best,
        &replicated,
        1,
        Coverage {
            x0: 0,
            y0: 0,
            x1: 16,
            y1: h,
        },
    );

    for y in 2..h - 2 {
        let inside = at(&dst, 8, y);
        assert_eq!(
            dst.data[inside], replicated.data[inside],
            "inside its coverage the frame must still win, at (8,{y})"
        );
        let outside = at(&dst, 24, y);
        assert_eq!(
            dst.data[outside],
            F(0.0),
            "outside its coverage the replicated margin must not win, at (24,{y})"
        );
    }
}

/// A band with checkerboard detail in one half and nothing in the other.
fn detail_in(half: std::ops::Range<u32>, width: u32, height: u32) -> Bitmap<F> {
    let mut b = Bitmap::new(width, height, 3);
    for y in 0..height {
        for x in half.clone() {
            let i = at(&b, x, y);
            let v = if (x + y) % 2 == 0 { 0.5 } else { -0.5 };
            b.data[i..i + 3].fill(F(v));
        }
    }
    b
}

#[test]
fn selection_takes_the_more_salient_source_at_each_position() {
    let (w, h) = (32u32, 16u32);
    let left = detail_in(0..16, w, h);
    let right = detail_in(16..32, w, h);

    let mut dst = Bitmap::new(w, h, 3);
    let mut best = vec![F(-1.0); (w * h) as usize];
    let cover = full_cover(&dst);
    select_more_salient(&mut dst, &mut best, &left, 1, cover);
    select_more_salient(&mut dst, &mut best, &right, 1, cover);

    for y in 2..h - 2 {
        for x in [4u32, 27] {
            let i = at(&dst, x, y);
            let want = if x < 16 { &left } else { &right };
            assert_eq!(dst.data[i], want.data[i], "at ({x},{y})");
            assert_eq!(dst.data[i].0.abs(), 0.5, "at ({x},{y})");
        }
    }
}

#[test]
fn selection_is_joint_across_channels_never_per_channel() {
    let (w, h) = (16u32, 16u32);
    let mut broad = Bitmap::<F>::new(w, h, 3);
    let mut blue = Bitmap::<F>::new(w, h, 3);
    for i in 0..(w * h) as usize {
        broad.data[i * 3..i * 3 + 3].copy_from_slice(&[F(0.4), F(0.4), F(0.4)]);
        blue.data[i * 3..i * 3 + 3].copy_from_slice(&[F(0.0), F(0.0), F(0.6)]);
    }

    let mut dst = Bitmap::new(w, h, 3);
    let mut best = vec![F(-1.0); (w * h) as usize];
    let cover = full_cover(&dst);
    select_more_salient(&mut dst, &mut best, &blue, 1, cover);
    select_more_salient(&mut dst, &mut best, &broad, 1, cover);

    // 0.48 total beats 0.36, so `broad` wins, in every channel.
    for i in 0..(w * h) as usize {
        assert_eq!(
            &dst.data[i * 3..i * 3 + 3],
            &[F(0.4), F(0.4), F(0.4)],
            "at {i}"
        );
    }
}

#[test]
fn the_salience_window_loses_to_structure_against_an_isolated_spike() {
    let (w, h) = (32u32, 16u32);
    let structure = detail_in(0..32, w, h);
    let mut spike = Bitmap::<F>::new(w, h, 3);
    let si = at(&spike, 10, 8);
    spike.data[si..si + 3].fill(F(2.0));

    let mut dst = Bitmap::new(w, h, 3);
    let mut best = vec![F(-1.0); (w * h) as usize];
    let cover = full_cover(&dst);
    select_more_salient(&mut dst, &mut best, &structure, 2, cover);
    select_more_salient(&mut dst, &mut best, &spike, 2, cover);

    assert_eq!(
        dst.data[si], structure.data[si],
        "an isolated spike should lose to surrounding structure"
    );
}

#[test]
fn selection_reconstructs_a_frame_that_dominates_every_level() {
    let sharp = textured(32, 32, 3);
    let mut dim = copy(&sharp);
    for v in &mut dim.data {
        v.0 *= 0.1;
    }
    let levels = level_count(32, 32, 8);

    let mut result = gaussian_pyramid(Bitmap::<F>::new(32, 32, 3), levels);
    let mut best: Vec<Vec<F>> = result[..levels - 1]
        .iter()
        .map(|b| vec![F(-1.0); (b.width * b.height) as usize])
        .collect();
    for source in [&dim, &sharp] {
        let bands = laplacian_pyramid(copy(source), levels);
        for level in 0..levels - 1 {
            let cover = full_cover(&bands[level]);
            select_more_salient(
                &mut result[level],
                &mut best[level],
                &bands[level],
                2,
                cover,
            );
        }
        result[levels - 1] = copy(&bands[levels - 1]);
    }

    let worst = worst(&sharp.data, &reconstruct(&result).data);
    assert!(
        worst < 1e-4,
        "should return the sharp frame unchanged: {worst}"
    );
}

/// In the margin the weight that was applied is made up for; elsewhere nothing changes.
#[test]
fn the_margin_is_rescaled_and_nothing_else() {
    let mut dst = bitmap(2, 1, 3, vec![F(0.25); 6]);
    let tally = vec![F(0.5), F(0.5)];
    let every = Coverage {
        x0: 0,
        y0: 0,
        x1: 1,
        y1: 1,
    };
    normalize_uncovered(&mut dst, &tally, every);
    assert_eq!(floats(&dst.data), [0.25, 0.25, 0.25, 0.5, 0.5, 0.5]);
}

/// A grid of a grey frame, at a pyramid level.
fn grid_of(width: u32, height: u32, level: u32, f: impl Fn(u32, u32) -> f32) -> Grid<F> {
    let frame: Vec<F> = (0..height)
        .flat_map(|y| (0..width).map(move |x| (x, y)))
        .flat_map(|(x, y)| [F(f(x, y)); 3])
        .collect();
    let info = FrameInfo {
        width,
        height,
        samples: 3,
        bits_per_sample: 16,
    };
    let row = width as usize * 3;
    let read = |from: u32, count: u32| -> Result<Vec<F>, String> {
        Ok(frame[from as usize * row..(from + count) as usize * row].to_vec())
    };
    Grid::from_image(info, level, &read).unwrap()
}

#[test]
fn luma_of_grey_is_the_grey_value() {
    let grid = grid_of(8, 4, 0, |_, _| 0.25);
    assert_eq!((grid.width, grid.height), (8, 4));
    for v in &grid.data {
        assert!((v.0 - 0.25).abs() < 1e-3, "{v:?}");
    }
}

#[test]
fn downsampling_averages_blocks() {
    let grid = grid_of(8, 4, 1, |x, _| x as f32 / 16.0);
    assert_eq!((grid.width, grid.height), (4, 2));
    for ox in 0..4u32 {
        let want = ((2 * ox) as f32 / 16.0 + (2 * ox + 1) as f32 / 16.0) / 2.0;
        assert!((grid.at(ox, 0).0 - want).abs() < 1e-3, "{ox}");
    }
}

#[test]
fn shifting_by_whole_pixels_moves_content() {
    let mut g = Grid::<F>::new(4, 3);
    g.data[4 + 2] = F(1.0);

    let s = g.shifted(F(1.0), F(0.0));
    assert!((s.at(3, 1).0 - 1.0).abs() < 1e-6);
    assert!(s.at(2, 1).0.abs() < 1e-6);
}

#[test]
fn shifting_by_half_a_pixel_splits_between_neighbours() {
    let mut g = Grid::<F>::new(4, 3);
    g.data[4 + 1] = F(1.0);

    let s = g.shifted(F(0.5), F(0.0));
    assert!((s.at(1, 1).0 - 0.5).abs() < 1e-6);
    assert!((s.at(2, 1).0 - 0.5).abs() < 1e-6);
}

#[test]
fn downsamples_oversized_grids_for_viewing() {
    let grid = Grid::<F>::new(MAX_EDGE * 3, MAX_EDGE);
    let view = downsample_for_view(&grid);
    assert!(view.width <= MAX_EDGE, "{}", view.width);
}

/// In a grid narrower than a block, a block's rows run on into the next ones; past the last
/// sample there is nothing to run on into.
#[test]
fn a_narrow_grid_is_viewable_where_its_blocks_end_inside_it() {
    let tall = |height: u32| Grid {
        width: 1,
        height,
        data: (0..height).map(|v| F(v as f32)).collect(),
    };
    // Three to a block: the last one ends two past the last sample.
    assert!(!is_viewable(&tall(4200)));
    assert!(is_viewable(&tall(1400)) && !is_viewable(&tall(2800)));
    assert!(is_viewable(&tall(2801)));
    assert!(!is_viewable(&Grid::<F>::new(2801, 1)));
    let slack = tall(3 * 950 + 2);
    assert!(is_viewable(&slack));
    let view = downsample_for_view(&slack);
    assert_eq!((view.width, view.height), (1, 950));
    assert!((view.data[0].0 - 2.0).abs() < 1e-6);
}

#[test]
fn stretching_fills_the_range_from_zero_to_one() {
    let grid = Grid {
        width: 3,
        height: 1,
        data: vec![F(2.0), F(4.0), F(3.0)],
    };
    assert_eq!(floats(&stretch(&grid).data), [0.0, 1.0, 0.5]);
    let flat = Grid {
        width: 2,
        height: 1,
        data: vec![F(2.0), F(2.0)],
    };
    assert_eq!(floats(&stretch(&flat).data), [2.0, 2.0]);
}

/// An overlay of a frame and a shifted copy of it, brought back by the shift, shows the
/// same picture twice.
#[test]
fn an_aligned_overlay_shows_the_same_picture_twice() {
    let mut a = Grid::<F>::new(32, 24);
    for (i, v) in a.data.iter_mut().enumerate() {
        *v = F((i % 7) as f32);
    }
    let b = a.shifted(F(2.0), F(1.0));
    let (r, g) = alignment_views(&a, &b, Transform::translation(F(2.0), F(1.0)));
    assert_eq!((r.width, r.height), (32, 24));
    assert_eq!((g.width, g.height), (32, 24));
    for y in 4..20 {
        for x in 4..28 {
            assert!((r.at(x, y).0 - g.at(x, y).0).abs() < 1e-5, "at {x},{y}");
        }
    }
}

#[test]
fn analysis_and_synthesis_round_trip() {
    for n in 1..40usize {
        let x: Vec<F> = (0..n)
            .map(|i| F(((i * 37 % 19) as f32) * 0.1 - 0.7))
            .collect();
        let coeffs = analyze_1d(&x);
        let back = synthesize_1d(&coeffs);
        for (a, b) in x.iter().zip(&back) {
            assert!((a.0 - b.0).abs() < 1e-5, "n={n}: {a:?} != {b:?}");
        }
    }
}

#[test]
fn constant_signal_has_no_detail() {
    let x = vec![F(0.25); 16];
    let coeffs = analyze_1d(&x);
    assert!(coeffs[8..].iter().all(|d| d.0.abs() < 1e-6), "{coeffs:?}");
    assert!(coeffs[..8].iter().all(|a| (a.0 - 0.25).abs() < 1e-6));
}

fn ramp(width: u32, height: u32) -> Plane<F> {
    let mut p = Plane::new(width, height);
    for (i, v) in p.data.iter_mut().enumerate() {
        *v = F(((i * 31 % 97) as f32) * 0.01 - 0.4);
    }
    p
}

#[test]
fn two_dimensional_round_trip() {
    for (w, h) in [(1, 1), (2, 3), (7, 5), (16, 16), (33, 17), (5, 40)] {
        let src = ramp(w, h);
        let back = inverse(&forward(&src, 4));
        assert_eq!((back.width, back.height), (w, h));
        for (i, (a, b)) in src.data.iter().zip(&back.data).enumerate() {
            assert!((a.0 - b.0).abs() < 1e-4, "{w}x{h} at {i}: {a:?} != {b:?}");
        }
    }
}

/// With exact samples the transform comes back to the last bit.
#[test]
fn an_exact_transform_round_trips_exactly() {
    let data: Vec<Fixed> = (0..33 * 17)
        .map(|i| Fixed {
            raw: (i * 104_729 % 65536) as i64,
        })
        .collect();
    let src = Plane {
        width: 33,
        height: 17,
        data: data.clone(),
    };
    assert_eq!(inverse(&forward(&src, 4)).data, data);
}

#[test]
fn depth_is_capped_by_size() {
    let d = forward(&ramp(4, 4), 10);
    assert_eq!(d.details.len(), 2);
    assert_eq!((d.approx.width, d.approx.height), (1, 1));
}

#[test]
fn grid_sizes_agree_with_the_decomposition() {
    for (w, h) in [(33, 17), (64, 64), (5, 40), (3, 3)] {
        let levels = 6;
        let d = forward(&ramp(w, h), levels);
        let expected = grids(w, h, levels);
        assert_eq!(d.details.len(), expected.len(), "{w}x{h}");
        for (level, (gw, gh)) in expected.iter().enumerate() {
            let hl = &d.details[level].hl;
            let lh = &d.details[level].lh;
            assert_eq!(*gw, lh.width.max(hl.width), "{w}x{h} level {level} width");
            assert_eq!(
                *gh,
                hl.height.max(lh.height),
                "{w}x{h} level {level} height"
            );
        }
    }
}

#[test]
fn two_frames_reduce_to_the_published_majority() {
    // Centre says frame 1; six of its eight neighbours say frame 0.
    let mut labels = vec![0u16, 0, 0, 0, 1, 0, 0, 1, 1];
    let changed = verify_consistency(&mut labels, 3, 3, 5);
    assert_eq!(changed, 1);
    assert_eq!(labels[4], 0, "a 6-of-8 majority should override the centre");

    // An even 4-4 split is not a majority, so at threshold 5 the centre stands.
    let mut split = vec![0u16, 0, 0, 0, 1, 1, 1, 1, 1];
    verify_consistency(&mut split, 3, 3, 5);
    assert_eq!(split[4], 1, "a 4-4 split must not override the centre");
}

#[test]
fn plurality_acts_where_no_majority_exists() {
    // Eight distinct neighbours: no label reaches even 2.
    let mut scattered: Vec<u16> = vec![1, 2, 3, 4, 99, 5, 6, 7, 8];
    assert_eq!(verify_consistency(&mut scattered, 3, 3, 4), 0);
    assert_eq!(scattered[4], 99);

    // Four agree, which is short of a majority but reaches the default threshold.
    let mut plurality: Vec<u16> = vec![7, 7, 7, 7, 99, 1, 2, 3, 4];
    assert_eq!(verify_consistency(&mut plurality, 3, 3, 4), 1);
    assert_eq!(plurality[4], 7);
}

/// A threshold of zero disables the verification.
#[test]
fn a_threshold_of_zero_changes_nothing() {
    let mut labels = vec![0u16, 0, 0, 0, 1, 0, 0, 0, 0];
    assert_eq!(verify_consistency(&mut labels, 3, 3, 0), 0);
    assert_eq!(labels, [0, 0, 0, 0, 1, 0, 0, 0, 0]);
    assert_eq!(verify_consistency(&mut labels, 3, 3, 1), 1);
}

/// Activity is the energy of the luminance: colour that has none counts for nothing, and
/// each orientation's energy adds.
#[test]
fn activity_is_measured_on_luminance() {
    let plane = |v: f32| Plane {
        width: 1,
        height: 1,
        data: vec![F(v)],
    };
    let details = |hl: f32, lh: f32, hh: f32| Details {
        hl: plane(hl),
        lh: plane(lh),
        hh: plane(hh),
    };
    let colour = activity(
        &details(0.7152, 0.7152, 0.7152),
        &details(-0.2126, -0.2126, -0.2126),
        &details(0.0, 0.0, 0.0),
        (1, 1),
    );
    assert!(colour[0].0.abs() < 1e-6, "{colour:?}");

    let grey = || details(1.0, 2.0, 3.0);
    let found = activity(&grey(), &grey(), &grey(), (1, 1));
    // Nine copies of the one position, through the window.
    assert!((found[0].0 - 9.0 * 14.0).abs() < 1e-3, "{found:?}");
}

#[test]
fn consistency_reads_from_a_snapshot() {
    let mut row = vec![5u16; 12];
    row[6] = 9;
    let mut once = row.clone();
    verify_consistency(&mut once, 12, 1, 4);
    // Only the one odd cell flips; its neighbours were already 5.
    assert_eq!(once.iter().filter(|&&l| l == 9).count(), 0);
    assert!(once.iter().all(|&l| l == 5));
}

#[test]
fn mirror_is_whole_point_symmetric() {
    assert_eq!(mirror(-1, 5), 1);
    assert_eq!(mirror(5, 5), 3);
    assert_eq!(mirror(0, 1), 0);
    for i in -23..23 {
        assert_eq!(mirror(-i, 5), mirror(i, 5));
        assert_eq!(mirror(4 + i, 5), mirror(4 - i, 5));
        assert_eq!(mirror(i + 8, 5), mirror(i, 5));
    }
}

#[test]
fn guided_filter_of_a_constant_input_is_that_constant() {
    let guide: Vec<F> = (0..400).map(|i| F((i % 17) as f32 / 17.0)).collect();
    let input = vec![F(0.3); 400];
    for v in guided_filter(&guide, &input, 20, 20, 3, F(1e-3)) {
        assert!((v.0 - 0.3).abs() < 1e-4, "{v:?}");
    }
}

#[test]
fn guided_filter_keeps_an_edge_the_guide_shares() {
    // Guide and input both step at x = 10; the step must survive.
    let (w, h) = (20u32, 20u32);
    let mut guide = vec![F(0.0); 400];
    let mut input = vec![F(0.0); 400];
    for y in 0..h {
        for x in 0..w {
            let step = if x < 10 { 0.0 } else { 1.0 };
            guide[(y * w + x) as usize] = F(step);
            input[(y * w + x) as usize] = F(step);
        }
    }

    let q = guided_filter(&guide, &input, w, h, 3, F(1e-6));
    let left = q[(10 * w + 6) as usize].0;
    let right = q[(10 * w + 13) as usize].0;
    assert!(left < 0.05, "left of edge should stay low: {left}");
    assert!(right > 0.95, "right of edge should stay high: {right}");
}

#[test]
fn guided_filter_smooths_where_the_guide_is_featureless() {
    let (w, h) = (20u32, 20u32);
    let guide = vec![F(0.5); 400];
    let input: Vec<F> = (0..400)
        .map(|i| if i % 2 == 0 { F(1.0) } else { F(0.0) })
        .collect();

    let q = guided_filter(&guide, &input, w, h, 3, F(1e-3));
    let interior = q[(10 * w + 10) as usize].0;
    assert!(
        (interior - 0.5).abs() < 0.1,
        "should average toward 0.5, got {interior}"
    );
}

/// The sharpest frame is picked, the first of equals, and its mask is one there.
#[test]
fn the_sharpest_frame_is_picked_and_masked() {
    let maps = vec![
        vec![F(1.0), F(2.0), F(3.0)],
        vec![F(1.0), F(5.0), F(2.0)],
    ];
    let weights = GuidedWeights::new(1, F(0.01), GuideSpace::Linear);
    let read = |k: usize, from: u32, count: u32| -> Result<Vec<F>, String> {
        Ok(maps[k][from as usize * 3..(from + count) as usize * 3].to_vec())
    };
    let labels = weights.labels(2, 3, 1, &read, &mut Checkpoints::new(&())).unwrap();
    assert_eq!(labels, [0, 1, 0]);
    assert_eq!(floats(&selection_mask::<F>(&labels, 0)), [1.0, 0.0, 1.0]);
    assert_eq!(floats(&selection_mask::<F>(&labels, 1)), [0.0, 1.0, 0.0]);
}

/// Weights are brought to a sum of one; where there is no weight, every frame has the same.
#[test]
fn weights_are_normalized_to_one() {
    let planes = vec![vec![F(1.0), F(0.0)], vec![F(3.0), F(0.0)]];
    let out = normalize(&planes, 2);
    assert_eq!(floats(&out[0]), [0.25, 0.5]);
    assert_eq!(floats(&out[1]), [0.75, 0.5]);
}

/// Exact weights sum to one, but for less than a unit each in the last place.
#[test]
fn exact_weights_sum_to_one() {
    let raw = |v: i64| Fixed { raw: v };
    let planes = vec![
        vec![raw(1), raw(0), raw(5), raw(70_000)],
        vec![raw(1), raw(0), raw(0), raw(3)],
        vec![raw(1), raw(0), raw(9), raw(40_000)],
    ];
    let out = normalize(&planes, 4);
    for i in 0..4 {
        let sum: i64 = out.iter().map(|plane| plane[i].raw).sum();
        assert!(65536 - 3 < sum && sum <= 65536, "{sum}");
    }
    assert_eq!(out[0][0], raw(21845));
    assert_eq!(out[2][1], raw(21845));
    assert_eq!(out[1][2], raw(0));
}

/// Constants survive: exactly where a picture is expanded or summed over a window, and but
/// for rounding where it is averaged.
#[test]
fn exact_constants_survive() {
    for raw in [45875, -7, 1 << 40] {
        let v = Fixed { raw };
        let flat = bitmap(5, 3, 2, vec![v; 30]);
        assert_eq!(expand(&flat, 9, 6).data, vec![v; 108]);
        assert_eq!(
            box_sum(&vec![v; 35], 7, 5, 2),
            vec![Fixed { raw: 25 * raw }; 35]
        );
    }
    assert_eq!(
        Fixed::whole(-7).over(Fixed::whole(-2)),
        Fixed { raw: 229376 }
    );
    assert_eq!(Fixed::whole(7).over(Fixed::whole(-2)), Fixed { raw: -229376 });
    assert_eq!(Fixed::whole(7).over(Fixed::whole(0)), Fixed { raw: 0 });
    for mean in box_mean(&vec![Fixed { raw: 45875 }; 35], 7, 5, 1) {
        let lost = 45875 - mean.raw;
        assert!(lost >= 0 && 65536 * lost < 9 * 45875 + 65536, "{lost}");
    }
}

/// Row requests on a plane: inside, past the end, and past any end.
#[test]
fn scratch_plane_rejects_out_of_bounds() {
    assert!(matches!(span(4, 3, 2, 2), Err(Error::Bounds { .. })));
    assert!(matches!(span(4, 3, 3, 1), Err(Error::Bounds { .. })));
    assert!(matches!(span(4, 3, 0, u32::MAX), Err(Error::Bounds { .. })));
    assert_eq!(span(4, 3, 1, 1), Ok((4, 4)));
    assert_eq!(span(4, 3, 0, 3), Ok((0, 12)));
}

/// The region that every frame covers is as tight as the frame that covers least.
#[test]
fn the_common_region_is_what_every_frame_covers() {
    let info = FrameInfo {
        width: 40,
        height: 30,
        samples: 3,
        bits_per_sample: 16,
    };
    let stack = [
        Transform::identity(),
        Transform::translation(F(6.0), F(0.0)),
        Transform::translation(F(0.0), F(-5.0)),
    ];
    let each = stack.map(|t| Coverage::of(t, info));
    let common = every_frame_covers(&stack, info, 0);
    assert_eq!(common, each[0].intersect(each[1]).intersect(each[2]));
    assert_ne!(common, Coverage::full(info));
    assert_eq!(every_frame_covers(&stack, info, 1), common.reduced(40, 30));
    assert_eq!(
        every_frame_covers::<F>(&[], info, 2),
        Coverage::full(info).reduced(40, 30).reduced(20, 15)
    );
}

#[test]
fn a_crop_is_a_copy_of_its_rectangle() {
    let grid = Grid {
        width: 4,
        height: 3,
        data: (0..12).map(|v| F(v as f32)).collect(),
    };
    let crop = grid.crop(1, 1, 2, 2);
    assert_eq!((crop.width, crop.height), (2, 2));
    assert_eq!(floats(&crop.data), [5.0, 6.0, 9.0, 10.0]);
}
