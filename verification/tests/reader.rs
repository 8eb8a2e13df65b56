use std::cell::RefCell;
use std::io::Cursor;

use stackaroni::drive::Exposure;
use stackaroni::error::{Error, Found};
use stackaroni::fusion::{LaplacianPyramidFusion, SelectionFusion};
use stackaroni::image::FrameInfo;
use stackaroni::pipeline::{Checkpoints, Transform};
use stackaroni::pyramid::Bitmap;
use stackaroni::sample::Sample;
use stackaroni::tiff_io::{FrameReader, Header, Unread, OUT_ROWS_PER_STRIP};
use tiff::decoder::{Decoder, DecodingResult};
use tiff::encoder::{colortype, TiffEncoder};
use tiff::TiffError;

/// Single-precision samples.
#[derive(Clone, Copy, Debug, PartialEq)]
struct F(f32);

impl Sample for F {
    fn spec_whole(n: i64) -> Self {
        F(n as f32)
    }
    fn spec_lowest() -> Self {
        F(f32::NEG_INFINITY)
    }
    fn spec_plus(self, other: Self) -> Self {
        F(self.0 + other.0)
    }
    fn spec_minus(self, other: Self) -> Self {
        F(self.0 - other.0)
    }
    fn spec_times(self, other: Self) -> Self {
        F(self.0 * other.0)
    }
    fn spec_over(self, other: Self) -> Self {
        F(self.0 / other.0)
    }
    fn spec_exceeds(self, other: Self) -> bool {
        self.0 > other.0
    }
    fn spec_floor(self) -> Self {
        F(self.0.floor())
    }
    fn spec_index(self) -> i64 {
        self.0 as i64
    }
    fn whole(n: i64) -> Self {
        Self::spec_whole(n)
    }
    fn lowest() -> Self {
        Self::spec_lowest()
    }
    fn plus(self, other: Self) -> Self {
        self.spec_plus(other)
    }
    fn minus(self, other: Self) -> Self {
        self.spec_minus(other)
    }
    fn times(self, other: Self) -> Self {
        self.spec_times(other)
    }
    fn over(self, other: Self) -> Self {
        self.spec_over(other)
    }
    fn exceeds(self, other: Self) -> bool {
        self.spec_exceeds(other)
    }
    fn floor(self) -> Self {
        self.spec_floor()
    }
    fn index(self) -> i64 {
        self.spec_index()
    }
}

fn srgb_to_linear(v: f32) -> f32 {
    if v <= 0.04045 {
        v / 12.92
    } else {
        ((v + 0.055) / 1.055).powf(2.4)
    }
}

fn linear_to_srgb(v: f32) -> f32 {
    if v <= 0.0031308 {
        v * 12.92
    } else {
        1.055 * v.powf(1.0 / 2.4) - 0.055
    }
}

fn table() -> Vec<F> {
    (0..=u16::MAX)
        .map(|v| F(srgb_to_linear(v as f32 / u16::MAX as f32)))
        .collect()
}

fn frame(width: u32, height: u32) -> FrameInfo {
    FrameInfo {
        width,
        height,
        samples: 3,
        bits_per_sample: 16,
    }
}

/// A gradient that exercises shadows, midtones and highlights.
fn sample(x: u32, y: u32, c: usize) -> f32 {
    let v = (x as f32 * 0.05 + y as f32 * 0.11 + c as f32 * 0.3) % 1.0;
    srgb_to_linear(v)
}

fn encoded(width: u32, height: u32, rows_per_strip: u32, data: &[u16]) -> Vec<u8> {
    let mut bytes = Cursor::new(Vec::new());
    let mut encoder = TiffEncoder::new(&mut bytes).unwrap();
    let mut image = encoder
        .new_image::<colortype::RGB16>(width, height)
        .unwrap();
    image.rows_per_strip(rows_per_strip).unwrap();
    image.write_data(data).unwrap();
    bytes.into_inner()
}

fn fixture(info: FrameInfo) -> Vec<u8> {
    let mut data = Vec::new();
    for y in 0..info.height {
        for x in 0..info.width {
            for c in 0..3 {
                let v = linear_to_srgb(sample(x, y, c)).clamp(0.0, 1.0);
                data.push((v * u16::MAX as f32).round() as u16);
            }
        }
    }
    encoded(info.width, info.height, OUT_ROWS_PER_STRIP, &data)
}

/// A TIFF in memory, its reader, and how many strips have been decoded.
struct File {
    decoder: RefCell<Decoder<Cursor<Vec<u8>>>>,
    decoded: RefCell<Vec<u32>>,
    reader: FrameReader,
    table: Vec<F>,
}

impl File {
    fn open(bytes: Vec<u8>) -> Self {
        let mut decoder = Decoder::new(Cursor::new(bytes)).unwrap();
        let (width, height) = decoder.dimensions().unwrap();
        let header = Header {
            path: "frame.tif".to_string(),
            width,
            height,
            other_color: None,
            rows_per_strip: decoder.chunk_dimensions().1,
        };
        File {
            decoder: RefCell::new(decoder),
            decoded: RefCell::new(Vec::new()),
            reader: FrameReader::open(header).unwrap(),
            table: table(),
        }
    }

    fn read(&mut self, y0: u32, count: u32, out: &mut Vec<F>) -> Result<(), Unread<TiffError>> {
        let (decoder, decoded) = (&self.decoder, &self.decoded);
        let decode = |index: u32| -> Result<Option<Vec<u16>>, TiffError> {
            decoded.borrow_mut().push(index);
            match decoder.borrow_mut().read_chunk(index)? {
                DecodingResult::U16(raw) => Ok(Some(raw)),
                _ => Ok(None),
            }
        };
        self.reader.read_rows(y0, count, out, &self.table, decode)
    }

    fn warp(&mut self, transform: Transform<F>) -> Result<Bitmap<F>, Unread<TiffError>> {
        let (decoder, decoded) = (&self.decoder, &self.decoded);
        let decode = |index: u32| -> Result<Option<Vec<u16>>, TiffError> {
            decoded.borrow_mut().push(index);
            match decoder.borrow_mut().read_chunk(index)? {
                DecodingResult::U16(raw) => Ok(Some(raw)),
                _ => Ok(None),
            }
        };
        self.reader.warp(transform, &self.table, decode)
    }

    fn rows(&mut self, y0: u32, count: u32) -> Vec<F> {
        let mut out = vec![F(-1.0); self.reader.info().row_len() * count as usize];
        assert!(self.read(y0, count, &mut out).is_ok());
        out
    }
}

/// A frame in one strip decodes.
#[test]
fn reads_a_single_strip_frame() {
    let data: Vec<u16> = (0..48u32)
        .flat_map(|y| (0..64u32).flat_map(move |x| (0..3).map(move |c| ((x + y + c) % 65536) as u16)))
        .collect();
    let mut file = File::open(encoded(64, 48, 48, &data));
    assert_eq!(file.reader.info().height, 48);
    assert_eq!(
        file.reader.layout.rows_per_strip, 48,
        "fixture is not a single strip"
    );
    let got = file.rows(0, 48);
    assert!(got.iter().all(|v| v.0.is_finite()));
    assert_eq!(got[3], F(srgb_to_linear(1.0 / 65535.0)));
}

#[test]
fn round_trips_through_disk() {
    let info = frame(7, 100);
    let mut file = File::open(fixture(info));
    assert_eq!(file.reader.info(), info);
    let got = file.rows(0, info.height);
    for y in 0..info.height {
        for x in 0..info.width {
            for c in 0..3 {
                let want = sample(x, y, c);
                let have = got[y as usize * info.row_len() + x as usize * 3 + c].0;
                assert!(
                    (have - want).abs() < 1e-3,
                    "at {x},{y},{c}: {have} != {want}"
                );
            }
        }
    }
}

/// Overlapping, backwards bands agree with the single full read.
#[test]
fn reads_bands_out_of_order_consistently() {
    let info = frame(7, 100);
    let mut file = File::open(fixture(info));
    let whole = file.rows(0, info.height);
    for &(y0, n) in &[(90u32, 10u32), (40, 25), (55, 20), (0, 1)] {
        let band = file.rows(y0, n);
        assert_eq!(band, whole[y0 as usize * info.row_len()..][..band.len()]);
    }
}

/// Releasing is a memory operation: the same rows come back afterwards.
#[test]
fn a_released_frame_still_reads_the_same_pixels() {
    let info = frame(48, 40);
    let mut file = File::open(fixture(info));
    let before = file.rows(8, 4);
    assert!(file.reader.cache_bytes() > 0);
    assert!(file.reader.cache_bytes() as u64 <= file.reader.cache_bytes_max());

    file.reader.release_cache();
    assert_eq!(file.reader.cache_bytes(), 0);
    assert_eq!(file.rows(8, 4), before);
}

/// Releasing is a memory operation, not a correctness one: the same rows come back.
#[test]
fn releasing_the_cache_frees_it_and_changes_nothing() {
    let mut file = File::open(fixture(frame(7, 40)));
    let first = file.rows(16, 8);
    assert!(file.reader.cache_bytes() > 0);
    assert!(file.reader.cache_bytes() as u64 <= file.reader.cache_bytes_max());

    file.reader.release_cache();
    assert_eq!(file.reader.cache_bytes(), 0);
    assert_eq!(first, file.rows(16, 8));
}

/// Five frames of 40 rows, under a strip's 64, so that each lands in a single strip.
fn stack() -> Vec<File> {
    (0..5u32)
        .map(|k| {
            let data: Vec<u16> = (0..40u32)
                .flat_map(|y| (0..48u32).map(move |x| ((x + y + k * 7) % 16) as f32 / 16.0))
                .flat_map(|v| {
                    let level = (linear_to_srgb(v) * u16::MAX as f32).round() as u16;
                    [level; 3]
                })
                .collect();
            File::open(encoded(48, 40, OUT_ROWS_PER_STRIP, &data))
        })
        .collect()
}

fn held_bytes(images: &[File]) -> usize {
    images.iter().map(|i| i.reader.cache_bytes()).sum()
}

/// Both fusion rules leave nothing cached, and the check is not vacuous.
#[test]
fn fusing_leaves_no_frame_cached() {
    let info = frame(48, 40);
    let transforms: Vec<Transform<F>> = (0..5).map(|_| Transform::identity()).collect();
    let read = |k: usize, mut file: File| {
        let exposure = file.warp(transforms[k]).map(|warped| Exposure {
            warped,
            weight: Bitmap {
                width: 48,
                height: 40,
                channels: 1,
                data: vec![F(1.0 / 5.0); 48 * 40],
            },
        });
        (file, exposure)
    };
    for name in ["blend", "select"] {
        let mut images = stack();
        // Warm every reader, so that "nothing is held" cannot pass by nothing being read.
        for image in &mut images {
            image.rows(0, 1);
        }
        let warm = held_bytes(&images);
        assert!(warm > 0, "{name}: readers hold nothing before fusing");

        let mut run = Checkpoints::new(&());
        let fused = if name == "blend" {
            LaplacianPyramidFusion::fuse(info, 8, &mut images, &transforms, read, &mut run)
        } else {
            SelectionFusion::fuse(info, 8, 2, &mut images, &transforms, read, &mut run)
        };
        assert!(fused.is_ok());
        assert_eq!(
            held_bytes(&images),
            0,
            "{name}: fusion left frame caches resident"
        );
    }
}

/// A frame warped straight from its file is the frame, and leaves nothing cached.
#[test]
fn warping_a_frame_releases_it() {
    let mut file = File::open(fixture(frame(7, 600)));
    let whole = file.rows(0, 600);
    let warped = file.warp(Transform::identity()).unwrap();
    assert_eq!((warped.width, warped.height, warped.channels), (7, 600, 3));
    for (a, b) in warped.data.iter().zip(&whole) {
        assert!((a.0 - b.0).abs() < 1e-6, "{a:?} != {b:?}");
    }
    assert_eq!(file.reader.cache_bytes(), 0);
    let down = file.warp(Transform::translation(F(0.0), F(3.0))).unwrap();
    assert_eq!(down.data[7 * 3 * 10], whole[7 * 3 * 13]);
}

/// A sequential walk decodes each strip once.
#[test]
fn a_walk_decodes_each_strip_once() {
    let info = frame(3, 200);
    let mut file = File::open(fixture(info));
    for y in 0..200 {
        file.rows(y, 1);
    }
    assert_eq!(*file.decoded.borrow(), [0, 1, 2, 3]);
}

#[test]
fn rejects_reads_past_the_end() {
    let mut file = File::open(fixture(frame(7, 20)));
    let mut buf = vec![F(9.0); file.reader.info().row_len() * 5];
    assert!(matches!(
        file.read(18, 5, &mut buf),
        Err(Unread::Refused(Error::Bounds {
            start: 18,
            end: 23,
            height: 20
        }))
    ));
    assert!(matches!(
        file.read(0, 4, &mut buf),
        Err(Unread::Refused(Error::BufferSize { got: 105, want: 84 }))
    ));
    assert!(buf.iter().all(|v| *v == F(9.0)));
    assert!(file.decoded.borrow().is_empty());
}

/// A strip that cannot be decoded is reported; what came before it has been read.
#[test]
fn a_failing_strip_stops_the_read() {
    let header = Header {
        path: "torn.tif".to_string(),
        width: 1,
        height: 4,
        other_color: None,
        rows_per_strip: 2,
    };
    let mut reader = FrameReader::open(header).unwrap();
    assert_eq!(reader.path(), "torn.tif");
    let table = table();
    let mut out = vec![F(9.0); 12];
    let outcome = reader.read_rows(0, 4, &mut out, &table, |index| {
        if index == 0 {
            Ok(Some(vec![65535; 6]))
        } else {
            Err("torn")
        }
    });
    assert_eq!(outcome, Err(Unread::Failed("torn")));
    assert_eq!(out[..6], [F(1.0); 6]);
    assert_eq!(out[6..], [F(9.0); 6]);

    // The first strip is still cached; the second now turns out to be of another depth.
    let outcome = reader.read_rows(0, 4, &mut out, &table, |_| Ok::<_, &str>(None));
    assert_eq!(
        outcome,
        Err(Unread::Refused(Error::UnsupportedFormat {
            path: "torn.tif".to_string(),
            found: Found::OtherDepth
        }))
    );
}
