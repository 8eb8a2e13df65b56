use stackaroni::error::{Error, Found};
use stackaroni::image::FrameInfo;
use stackaroni::tiff_io::{
    cache_bytes_max, check_request, chunk_limits, output_header, probe, row_in_linear_light,
    rows_in_strip, strip_of, FrameLayout, Header, StripCache, CACHE_ROWS, MAX_CHUNK_BYTES,
    OUT_ROWS_PER_STRIP,
};
use stackaroni::sample::Fixed;

fn header(width: u32, height: u32, rows_per_strip: u32) -> Header {
    Header {
        path: "f.tif".to_string(),
        width,
        height,
        other_color: None,
        rows_per_strip,
    }
}

fn info(width: u32, height: u32) -> FrameInfo {
    FrameInfo {
        width,
        height,
        samples: 3,
        bits_per_sample: 16,
    }
}

/// The budget clears what the decoder's own default would have rejected.
#[test]
fn a_large_single_chunk_is_allowed_where_the_default_refuses_it() {
    let chunk = 8000u64 * 6000 * 3 * 2;
    let default = tiff::decoder::Limits::default().decoding_buffer_size as u64;
    assert!(chunk > default, "fixture no longer exceeds the default");

    let budget = chunk_limits(chunk).expect("288 MB is within the cap");
    assert!(budget > chunk);
}

/// A small file does not get a smaller budget than the decoder's default.
#[test]
fn a_small_chunk_keeps_the_default_budget() {
    let default = tiff::decoder::Limits::default();
    let budget = chunk_limits(4096).unwrap();
    assert_eq!(budget, default.decoding_buffer_size as u64);
}

/// Sized to the file, so a corrupt header cannot ask for an arbitrary allocation.
#[test]
fn an_absurd_chunk_is_refused() {
    assert!(chunk_limits(MAX_CHUNK_BYTES).is_some());
    assert!(chunk_limits(MAX_CHUNK_BYTES + 1).is_none());
}

/// A single-strip frame charges the whole frame; a striped one charges a band.
#[test]
fn a_single_strip_frame_costs_a_whole_frame_to_hold() {
    let row_bytes = 64u64 * 3 * 2;
    let single = cache_bytes_max(header(64, 300, 300)).unwrap();
    assert_eq!(single, row_bytes * 300);

    let striped = cache_bytes_max(header(64, 300, OUT_ROWS_PER_STRIP)).unwrap();
    assert_eq!(striped, row_bytes * (CACHE_ROWS - CACHE_ROWS % OUT_ROWS_PER_STRIP) as u64);
    assert!(single > striped);
}

/// Releasing frees what is held, and what is inserted again is found again.
#[test]
fn a_released_cache_can_be_filled_again() {
    let mut cache = StripCache::new(2);
    cache.insert(4, vec![1, 2, 3]);
    let k = cache.position(4).unwrap();
    assert_eq!(cache.strip(k), [1, 2, 3]);
    cache.release();
    assert_eq!(cache.position(4), None);
    cache.insert(4, vec![1, 2, 3]);
    let k = cache.position(4).unwrap();
    assert_eq!(cache.strip(k), [1, 2, 3]);
}

/// A full cache lets the oldest strip go.
#[test]
fn a_full_cache_drops_the_oldest_strip() {
    let mut cache = StripCache::new(2);
    cache.insert(0, vec![10]);
    cache.insert(1, vec![11]);
    cache.insert(2, vec![12]);
    assert_eq!(cache.position(0), None);
    assert!(cache.position(1).is_some());
    assert!(cache.position(2).is_some());
}

#[test]
fn requests_outside_the_frame_are_refused() {
    let i = info(7, 20);
    assert!(matches!(
        check_request(i, 18, 5, 7 * 3 * 5),
        Err(Error::Bounds { .. })
    ));
    assert!(matches!(
        check_request(i, 0, 4, 7 * 3 * 5),
        Err(Error::BufferSize { .. })
    ));
    assert_eq!(check_request(i, 15, 5, 7 * 3 * 5), Ok(()));
}

#[test]
fn headers_that_are_not_accepted_say_why() {
    let mut grey = header(8, 8, 8);
    grey.other_color = Some("Gray(8)".to_string());
    assert_eq!(
        FrameLayout::open(grey),
        Err(Error::UnsupportedFormat {
            path: "f.tif".to_string(),
            found: Found::Color {
                color: "Gray(8)".to_string()
            }
        })
    );
    assert_eq!(
        probe(header(8, 8, 0)),
        Err(Error::UnsupportedFormat {
            path: "f.tif".to_string(),
            found: Found::ZeroHeightStrips
        })
    );
    assert_eq!(
        probe(header(65535, 65535, 65535)),
        Err(Error::UnsupportedFormat {
            path: "f.tif".to_string(),
            found: Found::ChunkTooLarge { megabytes: 24575 }
        })
    );
    assert_eq!(probe(header(8, 6, 2)), Ok(info(8, 6)));
    let mut four = info(8, 6);
    four.samples = 4;
    assert_eq!(
        output_header("out.tif".to_string(), four),
        Err(Error::UnsupportedFormat {
            path: "out.tif".to_string(),
            found: Found::OutputSamples { samples: 4 }
        })
    );
}

/// The header of what is written is accepted with the frame's own geometry, whatever the
/// height.
#[test]
fn a_written_frame_is_accepted() {
    for (width, height) in [(8, 6), (1, 1), (8664, 5784), (64, 128), (5_592_405, 65)] {
        let header = output_header("out.tif".to_string(), info(width, height)).unwrap();
        assert_eq!(header.rows_per_strip, 64);
        assert_eq!(probe(header), Ok(info(width, height)));
    }
    let wide = output_header("out.tif".to_string(), info(5_592_406, 1)).unwrap();
    assert!(probe(wide).is_err(), "its strips are past what may be allocated");
}

#[test]
fn rows_are_found_in_their_strips() {
    assert_eq!(strip_of(0, 36), (0, 0));
    assert_eq!(strip_of(75, 36), (2, 3));
    let table: Vec<Fixed> = (0..=65535).map(|v| Fixed { raw: v }).collect();
    let strip = [1u16, 2, 3, 40, 50, 60];
    let row = row_in_linear_light(&strip, 1, 3, &table);
    assert_eq!(
        row,
        [Fixed { raw: 40 }, Fixed { raw: 50 }, Fixed { raw: 60 }]
    );
}

/// An output strip holds whole rows.
#[test]
fn output_strips_hold_whole_rows() {
    assert_eq!(rows_in_strip(96, 24), Ok(4));
    assert!(rows_in_strip(95, 24).is_err());
}
