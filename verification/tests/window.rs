use stackaroni::cli::{
    at_level, debug_samples, destination, overlay_level, reports, scale_range, Destination,
};
use stackaroni::defaults;
use stackaroni::fusion::FusionKind;
use stackaroni::image::FrameInfo;
use stackaroni::pipeline::{Method, Stage, Transform};
use stackaroni::reap::{owner_pid, Reaped};
use stackaroni::run::{stopped, Job, Progress, Settings, Step, Walk, Work};
use stackaroni::sample::Sample;
use stackaroni::scratch::{
    check_room, cleanup, clock, decimal, needed, run_name, run_output_name, stack_name, Ending,
};
use stackaroni::session::{
    choose_method, control_label, control_range, group_label, included_count, included_paths,
    parameters, rows, Control, Entry, Loaded, Note, Outcome, Pane, Phase, RunButton, Session, Status, Thumbnail,
};
use stackaroni::thumbnail::{band, cell, shrink, stops, stride};
use stackaroni::view::{fit_within, Rect, Region, View};
use stackaroni::weights::GuideSpace;

/// Single-precision samples.
#[derive(Clone, Copy, Debug, PartialEq)]
struct F(f32);

impl Sample for F {
    fn spec_whole(n: i64) -> Self {
        F(n as f32)
    }
    fn spec_lowest() -> Self {
        F(f32::NEG_INFINITY)
    }
    fn spec_plus(self, other: Self) -> Self {
        F(self.0 + other.0)
    }
    fn spec_minus(self, other: Self) -> Self {
        F(self.0 - other.0)
    }
    fn spec_times(self, other: Self) -> Self {
        F(self.0 * other.0)
    }
    fn spec_over(self, other: Self) -> Self {
        F(self.0 / other.0)
    }
    fn spec_exceeds(self, other: Self) -> bool {
        self.0 > other.0
    }
    fn spec_floor(self) -> Self {
        F(self.0.floor())
    }
    fn spec_index(self) -> i64 {
        self.0 as i64
    }
    fn whole(n: i64) -> Self {
        Self::spec_whole(n)
    }
    fn lowest() -> Self {
        Self::spec_lowest()
    }
    fn plus(self, other: Self) -> Self {
        self.spec_plus(other)
    }
    fn minus(self, other: Self) -> Self {
        self.spec_minus(other)
    }
    fn times(self, other: Self) -> Self {
        self.spec_times(other)
    }
    fn over(self, other: Self) -> Self {
        self.spec_over(other)
    }
    fn exceeds(self, other: Self) -> bool {
        self.spec_exceeds(other)
    }
    fn floor(self) -> Self {
        self.spec_floor()
    }
    fn index(self) -> i64 {
        self.spec_index()
    }
}

fn info(width: u32, height: u32) -> FrameInfo {
    FrameInfo {
        width,
        height,
        samples: 3,
        bits_per_sample: 16,
    }
}

fn loaded(n: usize) -> Loaded {
    let files = (0..n)
        .map(|i| (format!("/s/f{i}.tif"), format!("f{i}.tif")))
        .collect();
    Loaded::new("blossom".to_string(), info(32, 16), files, 7)
}

fn session() -> Session<F> {
    Session::new(Reaped {
        entries: 0,
        bytes: 0,
    })
}

/// What the panel draws for a method: the method's label, and the panel's entries.
fn panel_text(method: Method) -> Vec<String> {
    let mut drawn = vec![method.label().to_string()];
    drawn.extend(parameters(method).into_iter().map(|entry| {
        match entry {
            Entry::Summary => method.summary(),
            Entry::Heading(group) => group_label(group),
            Entry::Control(control) => control_label(control),
        }
        .to_string()
    }));
    drawn
}

/// Every group stands under its heading, in the order of the pipeline.
#[test]
fn the_panel_is_grouped() {
    assert_eq!(
        panel_text(Method::from_token("wavelet").unwrap())[2..],
        [
            "Registration",
            "level",
            "Coefficient selection",
            "consistency threshold",
            "decomposition floor",
        ]
    );
    assert_eq!(
        panel_text(Method::Local {
            fusion: FusionKind::Blend
        })[2..],
        [
            "Registration",
            "level",
            "Focus measure",
            "radius",
            "Weight refinement",
            "guide radius",
            "epsilon",
            "guide:",
            "Fusion",
            "decomposition floor",
        ]
    );
}

/// Blend stays out of the window until it earns a place.
#[test]
fn the_app_does_not_offer_blend() {
    for method in Method::all() {
        if let Method::Local { fusion } = method {
            assert!(
                fusion.is_select(),
                "blend measured worse on both real stacks"
            );
        }
    }
}

/// Every method the list offers has to be one a run can execute.
#[test]
fn every_offered_method_is_runnable() {
    for method in Method::all() {
        assert!(
            Method::from_token(method.token()) == Some(method),
            "{} does not round-trip through its token",
            method.label()
        );
        assert!(!method.summary().is_empty(), "{}", method.label());
    }
    assert_eq!(Method::all().len(), Method::TOKENS.len());
}

/// The panel swaps when the method changes: a control of a stage that the method never
/// runs must not be on screen.
#[test]
fn the_panel_swaps_with_the_method() {
    let local = panel_text(defaults::method());
    let wavelet = panel_text(Method::Wavelet {
        consistency_threshold: defaults::CONSISTENCY_THRESHOLD,
    });
    let has = |texts: &[String], needle: &str| texts.iter().any(|t| t.contains(needle));

    for dead in ["radius", "epsilon", "guide", "salience"] {
        assert!(!has(&wavelet, dead), "{dead:?} on screen: {wavelet:?}");
    }
    assert!(has(&wavelet, "consistency threshold"));

    for live in ["radius", "epsilon", "guide", "salience radius"] {
        assert!(has(&local, live), "{live:?} missing: {local:?}");
    }
    assert!(!has(&local, "consistency threshold"));

    for texts in [&local, &wavelet] {
        assert!(has(texts, "decomposition floor"));
    }

    assert!(has(&local, defaults::method().label()));
    assert!(has(&wavelet, "Wavelet"));
    assert!(has(&wavelet, "2/4/2"), "{wavelet:?}");
    assert!(has(&wavelet, "defocus spread"), "{wavelet:?}");
    assert!(has(&local, "5/5/5"), "{local:?}");
}

/// The fusion rule swaps the salience slider within `Local`.
#[test]
fn the_salience_slider_follows_the_fusion_rule() {
    let has = |method, needle: &str| panel_text(method).iter().any(|t| t.contains(needle));
    assert!(has(defaults::method(), "salience radius"));
    assert!(!has(
        Method::Local {
            fusion: FusionKind::Blend
        },
        "salience radius"
    ));
}

#[test]
fn controls_offer_the_values_they_should() {
    assert_eq!(control_range(Control::RegistrationLevel), Some((0, 5)));
    assert_eq!(control_range(Control::PyramidFloor), Some((8, 128)));
    assert_eq!(control_range(Control::GuideEpsilon), None);
}

/// Clicking the selected method keeps its tuned parameters.
#[test]
fn choosing_the_current_method_keeps_its_parameters() {
    let tuned = Method::Local {
        fusion: FusionKind::Select { salience_radius: 4 },
    };
    assert_eq!(choose_method(tuned, defaults::method()), tuned);
    let wavelet = Method::from_token("wavelet").unwrap();
    assert_eq!(choose_method(tuned, wavelet), wavelet);
}

/// An error stands first in the toolbar, and goes when it is acknowledged.
#[test]
fn an_error_appears_in_a_modal_with_a_dismiss_button() {
    let mut s = session();
    assert_eq!(s.toolbar().note, Note::Empty);
    s.open_folder(Err("the sky is falling".to_string()));
    assert_eq!(
        s.toolbar().note,
        Note::Error(&"the sky is falling".to_string())
    );
    s.dismiss_error();
    assert_eq!(s.toolbar().note, Note::Empty);
}

#[test]
fn a_run_uses_the_included_frames_in_order() {
    let mut stack = loaded(4);
    stack.toggle(1);
    stack.toggle(9);
    assert_eq!(included_count(&stack.frames), 3);
    assert_eq!(
        included_paths(&stack.frames),
        ["/s/f0.tif", "/s/f2.tif", "/s/f3.tif"]
    );
    stack.toggle(1);
    assert_eq!(included_count(&stack.frames), 4);
}

#[test]
fn a_run_needs_two_frames() {
    let mut s = session();
    assert_eq!(s.plan_run(), None, "no stack, no run");
    assert_eq!(s.error, None);
    s.open_folder(Ok(loaded(2)));
    s.toggle(0);
    assert_eq!(s.plan_run(), None);
    assert_eq!(
        s.error.as_deref(),
        Some("a run needs at least two included frames")
    );
    s.toggle(0);
    assert_eq!(s.plan_run().unwrap().len(), 2);
    assert_eq!(s.run_sequence, 1);
}

/// From pressing Run to a saved result.
#[test]
fn a_run_goes_from_start_to_export() {
    let mut s = session();
    s.open_folder(Ok(loaded(3)));
    assert_eq!(s.toolbar().run, RunButton::Run { enabled: true });
    s.plan_run().unwrap();
    s.run_started(Ok(()));
    assert_eq!(s.status(), Status::Stacking);
    {
        let bar = s.toolbar();
        assert!(!bar.open && !bar.export);
        assert_eq!(bar.run, RunButton::Cancel { enabled: true });
    }
    s.cancel();
    assert_eq!(s.toolbar().run, RunButton::Cancel { enabled: false });
    s.run_ended(
        Outcome::Done("/tmp/out.tif".to_string()),
        5000,
        vec![Some(1), Some(2), Some(3), Some(4)],
    );
    assert_eq!(s.pane(), Pane::Result(&"/tmp/out.tif".to_string()));
    let summary = s.summary.as_ref().unwrap();
    assert_eq!((summary.title(), summary.detail()), ("Finished", None));
    s.dismiss_summary();
    assert!(s.toolbar().export);
    assert_eq!(s.suggested_name().as_deref(), Some("blossom_stacked.tif"));
    s.export_started(Err("it would be an extra frame".to_string()));
    assert!(!s.exporting && s.error.is_some());
    s.export_started(Ok(()));
    assert_eq!(s.status(), Status::Exporting);
    assert!(!s.toolbar().export);
    s.export_ended(Ok("/photos/out.tif".to_string()));
    assert_eq!(s.status(), Status::Saved(&"/photos/out.tif".to_string()));
    assert_eq!(s.pane(), Pane::Result(&"/photos/out.tif".to_string()));
    s.select(1);
    assert!(matches!(s.pane(), Pane::Frame { index: 1, .. }));
    // The run is still there to export; it is just no longer what the pane shows.
    assert!(s.toolbar().export);
    assert_eq!(s.suggested_name().as_deref(), Some("blossom_stacked.tif"));
    s.run_started(Ok(()));
    assert_eq!(s.suggested_name(), None);
}

#[test]
fn controls_stand_in_the_order_of_the_stages() {
    let controls = |method: Method| -> Vec<Control> {
        parameters(method)
            .into_iter()
            .filter_map(|entry| match entry {
                Entry::Control(control) => Some(control),
                _ => None,
            })
            .collect()
    };
    assert_eq!(
        controls(defaults::method()),
        [
            Control::RegistrationLevel,
            Control::FocusRadius,
            Control::GuideRadius,
            Control::GuideEpsilon,
            Control::GuideSpace,
            Control::SalienceRadius,
            Control::PyramidFloor,
        ]
    );
    assert_eq!(
        controls(Method::Wavelet {
            consistency_threshold: 0
        }),
        [
            Control::RegistrationLevel,
            Control::ConsistencyThreshold,
            Control::PyramidFloor,
        ]
    );
}

#[test]
fn a_preview_takes_every_so_many_pixels() {
    assert_eq!(stride(1000, 300), 3);
    assert_eq!(stride(100, 300), 1);
    assert_eq!(stride(100, 0), 100);
    assert_eq!(stops(10, 3), [0, 3, 6, 9]);
    assert_eq!(stops(9, 3), [0, 3, 6]);
    assert!(stops(0, 3).is_empty());
}

/// A cancelled run leaves the view as it was; a failed one says why.
#[test]
fn runs_that_do_not_finish_say_so() {
    let mut s = session();
    s.open_folder(Ok(loaded(3)));
    s.run_started(Ok(()));
    s.run_ended(Outcome::Cancelled, 10, vec![None; 4]);
    let summary = s.summary.as_ref().unwrap();
    assert_eq!(summary.title(), "Cancelled");
    assert_eq!(
        summary.detail(),
        Some("stopped before the output was written")
    );
    assert_eq!(s.error, None);
    s.run_started(Ok(()));
    s.run_ended(Outcome::Failed("no disk".to_string()), 10, vec![None; 4]);
    let summary = s.summary.as_ref().unwrap();
    assert_eq!((summary.title(), summary.detail()), ("Failed", Some("no disk")));
    assert_eq!(s.error.as_deref(), Some("no disk"));
    let before = s.result.clone();
    s.run_started(Err("not enough room".to_string()));
    assert_eq!(s.result, before);
    assert!(!s.running);
}

#[test]
fn the_status_line_counts_thumbnails() {
    let mut s = session();
    assert_eq!(s.status(), Status::Ready);
    assert_eq!(s.pane(), Pane::Welcome);
    let mut stack = loaded(2);
    assert!(stack.is_loading());
    stack.arrive(6, 0, Thumbnail::Ready);
    assert_eq!(stack.decoded, 0, "a superseded load is dropped");
    stack.arrive(7, 1, Thumbnail::Ready);
    s.open_folder(Ok(stack));
    assert_eq!(
        s.status(),
        Status::Decoding {
            decoded: 1,
            total: 2
        }
    );
    let mut stack = s.stack.take().unwrap();
    stack.arrive(7, 0, Thumbnail::Failed("bad strip".to_string()));
    assert!(!stack.is_loading());
    let mut twice = loaded(2);
    twice.arrive(7, 1, Thumbnail::Ready);
    twice.arrive(7, 1, Thumbnail::Ready);
    assert_eq!(twice.decoded, 2, "every message counts");
    assert!(!twice.is_loading());
    s.open_folder(Ok(stack));
    assert_eq!(s.status(), Status::Decoded(2));

    let swept = Reaped {
        entries: 1,
        bytes: 38,
    };
    assert_eq!(Session::<F>::new(swept).status(), Status::Reclaimed(swept));
}

#[test]
fn the_toolbar_says_what_a_run_would_use() {
    let mut s = session();
    s.open_folder(Ok(loaded(3)));
    s.toggle(2);
    assert_eq!(
        s.toolbar().note,
        Note::Stack {
            name: &"blossom".to_string(),
            included: 2,
            total: 3,
            partial: true,
            info: info(32, 16),
        }
    );
}

/// Every stage shows at once, with only the current one moving.
#[test]
fn the_run_dialog_shows_every_stage() {
    let times = vec![Some(10), None, None, None];
    let live = rows(1, Some((3, 9)), &times);
    let phases: Vec<Phase> = live.iter().map(|r| r.phase).collect();
    assert_eq!(phases, [Phase::Done, Phase::Now, Phase::Todo, Phase::Todo]);
    assert_eq!(live[0].took, Some(10));
    assert_eq!(live[1].progress, Some((3, 9)));
    assert_eq!(live[2].progress, None);
    let over = rows(4, None, &times);
    assert!(over.iter().all(|r| r.phase == Phase::Done));
}

/// Stage times are each stage's own, and add up to the whole.
#[test]
fn stage_times_are_differenced() {
    let mut p = Progress::new();
    p.report(Stage::Register, 1, 4, 100);
    p.report(Stage::Focus, 1, 4, 1000);
    p.report(Stage::Weights, 1, 4, 4000);
    p.report(Stage::Fuse, 2, 4, 9000);
    assert_eq!(
        p.stage_times(),
        [Some(1000), Some(3000), Some(5000), None]
    );
    p.finish(12000);
    assert_eq!(
        p.stage_times(),
        [Some(1000), Some(3000), Some(5000), Some(3000)]
    );
    assert_eq!((p.stage, p.done, p.total), (3, 2, 4));
}

/// A stage that reported nothing still gets a time when a later one starts.
#[test]
fn a_silent_stage_is_stamped_by_the_next() {
    let mut p = Progress::new();
    p.report(Stage::Fuse, 1, 4, 50);
    assert_eq!(p.stage_times(), [Some(50), Some(0), Some(0), None]);
    let mut at_once = Progress::new();
    at_once.finish(0);
    assert_eq!(at_once.stage_times(), [Some(1), None, None, None]);
}

/// A job is over when its thread has exited, not when it has sent its result.
#[test]
fn a_job_is_over_when_its_thread_has_exited() {
    let mut job = Job::new();
    assert_eq!(job.poll(Some(1), false, 0), None);
    assert_eq!(job.poll(None, true, 0), Some(1));
    assert_eq!(job.poll(None, true, 0), None, "collected once");
    let mut silent = Job::new();
    assert_eq!(silent.poll(None, true, 9), Some(9));
}

#[test]
fn a_walk_stops_where_it_is_cancelled() {
    let mut walk = Walk::new(3);
    assert_eq!(walk.next(false), Step::Frame(0));
    assert_eq!(walk.next(true), Step::Stop);
    assert!(stopped(Step::Stop).is_err());
    assert_eq!(walk.next(false), Step::Frame(1));
    assert_eq!(walk.next(false), Step::Frame(2));
    assert_eq!(walk.next(true), Step::Finished);
    assert!(stopped(Step::Finished).is_ok());
}

/// Each method does the work it needs, in order, under its own settings.
#[test]
fn a_run_is_planned_from_its_settings() {
    let mut s = Settings::<F>::standard();
    s.registration_level = 3;
    s.focus_radius = 7;
    s.guide_radius = 11;
    s.pyramid_floor = 24;
    s.method = Method::Local {
        fusion: FusionKind::Blend,
    };
    assert_eq!(
        s.plan(),
        [
            Work::Register { level: 3 },
            Work::Measure { radius: 7 },
            Work::Weigh {
                radius: 11,
                epsilon: F(1e-4),
                space: GuideSpace::Perceptual,
            },
            Work::Fuse {
                fusion: FusionKind::Blend,
                floor: 24,
            },
        ]
    );
    s.method = Method::Wavelet {
        consistency_threshold: 5,
    };
    assert_eq!(
        s.plan(),
        [
            Work::Register { level: 3 },
            Work::Stack {
                threshold: 5,
                floor: 24,
            },
        ]
    );
}

#[test]
fn settings_know_when_they_were_moved() {
    let mut s = Settings::<F>::standard();
    assert!(!s.is_modified());
    assert_eq!(s.guide_epsilon, F(1e-4));
    assert_eq!(s.guide_space, GuideSpace::Perceptual);
    s.guide_epsilon = F(1e-3);
    assert!(s.is_modified());
    s = Settings::standard();
    s.method = Method::from_token("wavelet").unwrap();
    assert!(s.is_modified());
}

#[test]
fn clocks_read_in_minutes_and_hours() {
    assert_eq!(clock(0), "0:00");
    assert_eq!(clock(65), "1:05");
    assert_eq!(clock(3599), "59:59");
    assert_eq!(clock(3600), "1:00:00");
    assert_eq!(clock(36_061), "10:01:01");
    assert_eq!(decimal(u64::MAX), u64::MAX.to_string());
}

/// What a run names its files is what a sweep reads the pid from.
#[test]
fn a_runs_files_are_attributed_to_it() {
    assert_eq!(run_name(48612, 1), "stackaroni-run-48612-1");
    assert_eq!(run_output_name(48612, 1), "stackaroni-run-48612-1.tif");
    assert_eq!(owner_pid(&run_name(48612, 1)), Some(48612));
    assert_eq!(owner_pid(&run_output_name(48612, 1)), Some(48612));
    assert_eq!(stack_name("my-odd-stack", 1234), "stackaroni-my-odd-stack-1234");
    for stack in ["blossom", "my-odd-stack", "run", "été-2026", ""] {
        assert_eq!(owner_pid(&stack_name(stack, 1234)), Some(1234), "{stack}");
    }
    assert_eq!(owner_pid(&stack_name("run-7", 1234)), Some(7));
}

#[test]
fn a_run_is_refused_without_room_for_it() {
    let frames = info(8664, 5784);
    let bytes = 2 * 100 * 8664u64 * 5784 * 4;
    assert_eq!(needed(100, frames), bytes);
    assert_eq!(check_room(100, frames, bytes), Ok(()));
    assert_eq!(check_room(100, frames, bytes - 1), Err(bytes));
    assert_eq!(needed(0, frames), 0);
    assert_eq!(needed(usize::MAX, info(u32::MAX, u32::MAX)), u64::MAX);
}

#[test]
fn only_a_failed_run_keeps_its_scratch() {
    assert!(cleanup(Ending::Done).scratch && !cleanup(Ending::Done).output);
    assert!(cleanup(Ending::Cancelled).scratch && cleanup(Ending::Cancelled).output);
    assert!(!cleanup(Ending::Failed).scratch && !cleanup(Ending::Failed).output);
}

#[test]
fn results_go_where_they_were_asked_to() {
    assert_eq!(destination(true, true, 1, "b"), Destination::Given);
    assert_eq!(
        destination(true, false, 1, "b"),
        Destination::Inside("b.tif".to_string())
    );
    assert_eq!(
        destination(true, false, 3, "b"),
        Destination::Inside("b.tif".to_string())
    );
    assert_eq!(
        destination(false, true, 1, "b"),
        Destination::Here("b_fused.tif".to_string())
    );
}

#[test]
fn every_tenth_frame_is_reported() {
    assert!(reports(true, 10, 25) && reports(true, 25, 25) && reports(true, 0, 25));
    assert!(!reports(true, 11, 25));
    assert!(!reports(false, 10, 25));
}

#[test]
fn debug_images_cover_the_range() {
    assert_eq!(debug_samples(100), [0, 50, 99]);
    assert_eq!(debug_samples(1), [0, 0, 0]);
}

#[test]
fn overlays_are_legible() {
    assert_eq!(overlay_level(info(1200, 900)), 0);
    assert_eq!(overlay_level(info(8664, 5784)), 3);
    assert_eq!(overlay_level(info(2800, 10)), 1);
    assert_eq!(overlay_level(info(u32::MAX, 1)), 22);
    let t = at_level(
        Transform {
            scale: F(1.5),
            dx: F(16.0),
            dy: F(-8.0),
        },
        3,
    );
    assert_eq!((t.scale, t.dx, t.dy), (F(1.5), F(2.0), F(-1.0)));
}

#[test]
fn the_range_of_scales_is_reported() {
    let of = |scale| Transform {
        scale: F(scale),
        dx: F(0.0),
        dy: F(0.0),
    };
    let (lo, hi) = scale_range(&[of(1.0), of(0.97), of(1.02), of(1.01)]);
    assert_eq!((lo, hi), (F(0.97), F(1.02)));
}

#[test]
fn thumbnail_downsamples_and_keeps_the_aspect_ratio() {
    // 512 / 128 = 4, so both edges shrink by the same factor.
    let s = shrink(info(512, 256));
    assert_eq!([s.width, s.height], [128, 64]);
}

#[test]
fn thumbnail_handles_a_frame_smaller_than_one_thumbnail() {
    let s = shrink(info(64, 32));
    assert_eq!([s.width, s.height], [64, 32]);
    let flat = shrink(info(8000, 3));
    assert_eq!((flat.factor, flat.height, flat.rows), (62, 1, 4));
    assert_eq!(band(info(8000, 3), 0), (0, 3));
}

/// Each channel of a thumbnail is the average of that channel.
#[test]
fn thumbnail_averages_each_channel() {
    let i = info(256, 128);
    let s = shrink(i);
    assert_eq!((s.factor, s.rows), (2, 2));
    let row: Vec<F> = (0..256)
        .flat_map(|x| [F(x as f32), F(0.5), F(-(x as f32))])
        .collect();
    let rows: Vec<F> = [row.clone(), row].concat();
    assert_eq!(band(i, 5), (10, 2));
    assert_eq!(cell(&rows, i, 2, 3, 0), F(6.5));
    assert_eq!(cell(&rows, i, 2, 3, 1), F(0.5));
    assert_eq!(cell(&rows, i, 2, 3, 2), F(-6.5));
}

fn pane(w: f32, h: f32) -> Rect<F> {
    Rect {
        left: F(0.0),
        top: F(0.0),
        right: F(w),
        bottom: F(h),
    }
}

#[test]
fn a_frame_is_fitted_and_centred() {
    let v = View::fit(pane(800.0, 600.0), info(1600, 600));
    assert_eq!((v.scale, v.x, v.y), (F(0.5), F(0.0), F(150.0)));
    assert!(!v.is_pannable(pane(800.0, 600.0), info(1600, 600)));
    let placed = v.source_to_screen(Region {
        x: 100,
        y: 0,
        w: 200,
        h: 100,
    });
    assert_eq!((placed.left, placed.right), (F(50.0), F(150.0)));
    assert_eq!((placed.top, placed.bottom), (F(150.0), F(200.0)));
}

/// What is under the pointer stays under it, and the zoom has its ends.
#[test]
fn zooming_keeps_the_pointer_where_it_is() {
    let rect = pane(800.0, 600.0);
    let i = info(1600, 1200);
    let mut v = View::fit(rect, i);
    v.zoom(rect, i, F(200.0), F(100.0), F(2.0));
    assert_eq!((v.scale, v.x, v.y), (F(1.0), F(-200.0), F(-100.0)));
    v.zoom(rect, i, F(200.0), F(100.0), F(100.0));
    assert_eq!(v.scale, F(4.0), "no further than four to one");
    v.zoom(rect, i, F(200.0), F(100.0), F(0.001));
    assert_eq!(v.scale, F(0.5), "no further than fitting");
}

/// No panning past the edge; a frame that fits goes back to the middle.
#[test]
fn panning_stops_at_the_edge() {
    let rect = pane(800.0, 600.0);
    let i = info(1600, 600);
    let mut v = View {
        scale: F(1.0),
        x: F(0.0),
        y: F(0.0),
    };
    assert!(v.is_pannable(rect, i));
    v.pan(F(50.0), F(70.0));
    v.settle(rect, i);
    assert_eq!((v.x, v.y), (F(0.0), F(0.0)));
    v.pan(F(-2000.0), F(0.0));
    v.settle(rect, i);
    assert_eq!(v.x, F(-800.0));
}

/// Only what is visible is decoded, padded and snapped so that small pans reuse it.
#[test]
fn the_wanted_region_is_snapped() {
    let rect = pane(800.0, 600.0);
    let i = info(8000, 6000);
    let v = View {
        scale: F(1.0),
        x: F(-1000.0),
        y: F(-1000.0),
    };
    let (region, target) = v.wanted_region(rect, i);
    assert_eq!(
        region,
        Region {
            x: 768,
            y: 832,
            w: 1344,
            h: 1024
        }
    );
    assert_eq!(target, 1344);
    let moved = View {
        scale: F(1.0),
        x: F(-1010.0),
        y: F(-1010.0),
    };
    assert_eq!(moved.wanted_region(rect, i).0, region);
    let fitted = View::fit(rect, i);
    let (all, _) = fitted.wanted_region(rect, i);
    assert_eq!((all.x, all.y, all.w, all.h), (0, 0, 8000, 6000));
}

#[test]
fn pictures_are_shrunk_to_fit_and_never_enlarged() {
    assert_eq!(
        fit_within(F(200.0), F(100.0), F(100.0), F(100.0)),
        (F(100.0), F(50.0))
    );
    assert_eq!(
        fit_within(F(20.0), F(10.0), F(100.0), F(100.0)),
        (F(20.0), F(10.0))
    );
}
