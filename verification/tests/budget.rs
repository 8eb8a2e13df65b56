use rayon::iter::{IntoParallelIterator, ParallelIterator};
use stackaroni::budget::{
    concurrency_for, estimate, fit, fit_within, limit_bytes, limit_for, private_pool, ram_of, Machine,
    run_bounded, workers_for, Workload,
};
use stackaroni::defaults;
use stackaroni::image::FrameInfo;

const GIB: u64 = 1 << 30;
/// 8664x5784 RGB16 in one strip, and the same file in one-row strips.
const SINGLE_STRIP: u64 = 8664 * 5784 * 3 * 2;
const STRIPED: u64 = 8664 * 3 * 2 * 256;

fn blossom(cache_bytes_per_frame: u64, frames: usize) -> Workload {
    Workload {
        frames,
        info: FrameInfo {
            width: 8664,
            height: 5784,
            samples: 3,
            bits_per_sample: 16,
        },
        cache_bytes_per_frame,
        guide_radius: defaults::GUIDE_RADIUS,
        registration_level: defaults::REGISTRATION_LEVEL,
    }
}

/// The estimate must never come in under a measurement, and must not exceed it by more
/// than 35%.
#[test]
fn the_estimate_brackets_every_measured_run() {
    let measured: [(&str, u64, usize, f64); 4] = [
        ("striped 8", STRIPED, 8, 5.880e9),
        ("striped 33", STRIPED, 33, 6.255e9),
        ("single-strip 8", SINGLE_STRIP, 8, 5.716e9),
        ("single-strip 33", SINGLE_STRIP, 33, 10.096e9),
    ];
    for (name, cache, frames, actual) in measured {
        let workload = blossom(cache, frames);
        // Concurrency is bounded by the work available: 8 frames is 7 pairs.
        let concurrency = (frames - 1).min(14);
        let predicted = estimate(&workload, concurrency, 14) as f64;
        assert!(
            predicted >= actual,
            "{name}: predicted {:.3} GB is under the measured {:.3} GB",
            predicted / 1e9,
            actual / 1e9
        );
        assert!(
            predicted <= actual * 1.35,
            "{name}: predicted {:.3} GB exceeds the measured {:.3} GB by over 35%",
            predicted / 1e9,
            actual / 1e9
        );
    }
}

#[test]
fn the_limit_has_a_floor_and_a_ceiling() {
    assert_eq!(limit_for(36 * GIB), 16 * GIB, "this Mac");
    assert_eq!(limit_for(64 * GIB), 16 * GIB, "the Windows reporter's");
    assert_eq!(
        limit_for(128 * GIB),
        32 * GIB,
        "the share takes over above 64 GB"
    );
    // The clamp that stops the floor exceeding a small machine's own RAM.
    assert!(limit_for(8 * GIB) < 8 * GIB);
}

/// Striped input never has to give up parallelism.
#[test]
fn a_striped_stack_fits_at_full_width() {
    let fitted = fit_within(&blossom(STRIPED, 100), 14, 16 * GIB);
    assert!(fitted.fits());
    assert!(!fitted.reduced);
    assert_eq!(fitted.concurrency, 14);
}

#[test]
fn a_single_strip_stack_gives_up_parallelism_rather_than_the_run() {
    let workload = blossom(SINGLE_STRIP, 100);
    let threads = rayon::current_num_threads();
    let fitted = fit(&workload, &Machine::ask());
    assert!(fitted.concurrency >= 1);
    assert!(fitted.peak_bytes <= estimate(&workload, threads, threads));
    if fitted.reduced && fitted.concurrency > 1 {
        assert!(
            fitted.fits(),
            "reducing parallelism should have been enough"
        );
    }
}

/// A workload too large even single-threaded is reported, not made unrunnable.
#[test]
fn an_impossible_workload_is_reported_rather_than_refused() {
    let mut workload = blossom(SINGLE_STRIP, 10);
    workload.info.width = 60_000;
    workload.info.height = 40_000;
    let fitted = fit_within(&workload, 14, 16 * GIB);
    assert_eq!(fitted.concurrency, 1);
    assert!(!fitted.fits(), "a 2.4 gigapixel frame should not fit 16 GB");
}

#[test]
fn the_widest_parallelism_that_fits_is_the_one_picked() {
    let workload = blossom(SINGLE_STRIP, 10);
    let limit = estimate(&workload, 12, 14);
    let fitted = fit_within(&workload, 14, limit);
    assert_eq!(fitted.concurrency, 12);
    assert_eq!(fitted.peak_bytes, limit);
    assert!(fitted.reduced && fitted.fits());
}

#[test]
fn the_machine_has_a_limit_and_at_least_one_worker() {
    let machine = Machine::ask();
    assert!(limit_bytes(&machine) >= limit_for(GIB));
    assert!(concurrency_for(1, &machine) <= rayon::current_num_threads().max(1));
    assert_eq!(concurrency_for(u64::MAX, &machine), 1);
}

/// A machine is asked once: every later call goes by its first answer.
#[test]
fn the_first_answer_is_kept() {
    let machine = Machine::ask();
    let first = limit_bytes(&machine);
    assert_eq!(limit_bytes(&machine), first);
    assert_eq!(limit_for(machine.total_ram()), first);
    assert_eq!(fit(&blossom(STRIPED, 10), &machine).limit_bytes, first);
    assert_eq!(limit_bytes(&Machine::reporting(Some(128 * GIB))), 32 * GIB);
}

#[test]
fn a_task_larger_than_the_limit_runs_alone() {
    assert_eq!(workers_for(300, 1000, 8), 3);
    assert_eq!(workers_for(5000, 1000, 8), 1);
    assert_eq!(workers_for(0, 1000, 8), 8);
}

#[test]
fn a_cap_that_does_not_bind_needs_no_pool_of_its_own() {
    assert_eq!(private_pool(8, 8), None);
    assert_eq!(private_pool(3, 8), Some(3));
    assert_eq!(private_pool(0, 8), Some(1));
}

#[test]
fn bounded_work_still_runs_and_returns() {
    let sum: u64 = run_bounded(1, || (0u64..1000).into_par_iter().sum());
    assert_eq!(sum, 499_500);
    assert_eq!(run_bounded(2, rayon::current_num_threads), rayon::current_num_threads().min(2));
}

/// A machine has what it reports, and no less than a gibibyte.
#[test]
fn the_reported_memory_is_what_counts() {
    assert_eq!(ram_of(Some(64 * GIB)), 64 * GIB);
    assert_eq!(ram_of(Some(GIB - 1)), GIB);
    assert_eq!(ram_of(Some(0)), GIB);
    assert_eq!(ram_of(None), GIB);
    assert_eq!(limit_for(ram_of(None)), 966_367_641);
    assert_eq!(limit_bytes(&Machine::reporting(None)), 966_367_641);
    assert!(limit_bytes(&Machine::ask()) >= 966_367_641);
}

/// The prediction grows with what runs at once, with the cache, and by fifteen mebibytes a
/// frame; with nothing running it is what fusion holds.
#[test]
fn larger_runs_cost_more() {
    let w = blossom(STRIPED, 20);
    assert!(estimate(&w, 3, 4) <= estimate(&w, 5, 4));
    assert!(estimate(&w, 3, 4) <= estimate(&w, 3, 9));
    assert_eq!(
        estimate(&blossom(STRIPED, 21), 3, 4),
        estimate(&w, 3, 4) + (15 << 20)
    );
    assert!(estimate(&blossom(SINGLE_STRIP, 20), 3, 4) >= estimate(&w, 3, 4));
    assert_eq!(
        estimate(&w, 0, 0),
        20 * (15 << 20) + 5 * 3 * 8664 * 5784 * 4 + STRIPED
    );
}
