use stackaroni::discovery::{
    discover_stack, discover_test_set, ensure_output_outside_stack, is_frame, probe, Entry, Listing,
};
use stackaroni::error::Error;
use stackaroni::image::FrameInfo;
use stackaroni::natural::natural_cmp;
use std::cmp::Ordering;

fn files(names: &[&str]) -> Vec<Entry> {
    names
        .iter()
        .map(|name| Entry {
            name: Some(name.to_string()),
            is_file: true,
        })
        .collect()
}

fn found(names: &[&str]) -> Vec<String> {
    discover_stack("stack".to_string(), "/stack".to_string(), &files(names))
        .unwrap()
        .frames
}

fn info(width: u32, height: u32) -> FrameInfo {
    FrameInfo {
        width,
        height,
        samples: 3,
        bits_per_sample: 16,
    }
}

#[test]
fn finds_and_sorts_frames() {
    let names = found(&["f_003.tiff", "f_001.tiff", "f_002.tif"]);
    assert_eq!(names, ["f_001.tiff", "f_002.tif", "f_003.tiff"]);
}

/// A fused result saved beside the frames it came from.
#[test]
fn refuses_an_output_inside_the_stack_directory() {
    let refused = ensure_output_outside_stack(
        "/data/blossom/blossom_stacked_local.tif".to_string(),
        "/data/blossom".to_string(),
        Some(b"/data/blossom"),
        Some(b"/data/blossom"),
    );
    assert!(matches!(refused, Err(Error::OutputInsideStack { .. })));
}

/// The paths differ as text and agree once they are canonical.
#[test]
fn refuses_an_output_reaching_the_stack_by_a_roundabout_path() {
    for output in ["/data/blossom/../blossom/out.tif", "/data/./blossom/./out.tif"] {
        let refused = ensure_output_outside_stack(
            output.to_string(),
            "/data/blossom/".to_string(),
            Some(b"/data/blossom"),
            Some(b"/data/blossom"),
        );
        assert!(
            matches!(refused, Err(Error::OutputInsideStack { .. })),
            "should have been refused: {output}"
        );
    }
}

#[test]
fn allows_an_output_elsewhere() {
    // A sibling directory, a parent, and a directory that does not exist yet.
    let parents: [Option<&[u8]>; 3] = [Some(b"/data/out"), Some(b"/data"), None];
    for parent in parents {
        let allowed = ensure_output_outside_stack(
            "blossom.tif".to_string(),
            "/data/blossom".to_string(),
            parent,
            Some(b"/data/blossom"),
        );
        assert_eq!(allowed, Ok(()));
    }
}

#[test]
fn equal_numbers_with_different_padding_order_deterministically() {
    assert_eq!(natural_cmp("frame_1.tif", "frame_001.tif"), Ordering::Equal);

    let first = found(&["f_2.tif", "f_002.tif", "f_10.tif"]);
    let second = found(&["f_10.tif", "f_002.tif", "f_2.tif"]);
    assert_eq!(first, second, "repeated discovery must agree");
    assert!(
        first.last().unwrap().ends_with("f_10.tif"),
        "10 sorts last whatever the padding: {first:?}"
    );
}

#[test]
fn excludes_non_frames() {
    let names = found(&[
        "frame_001.tiff",
        "ground_truth_all_in_focus.tiff",
        "depth_map.tiff",
        "_contact_sheet_preview.png",
        "README.md",
        ".DS_Store",
        "._frame_001.tiff",
        "stackaroni_fused.tif",
        "reference_pmax.tif",
    ]);
    assert_eq!(names, ["frame_001.tiff"]);
}

#[test]
fn a_frame_is_a_file_with_a_tiff_extension() {
    assert!(is_frame(Some("a.tif"), true));
    assert!(is_frame(Some("A.TIFF"), true));
    assert!(is_frame(Some("a.b.TiF"), true));
    assert!(!is_frame(Some("a.tif"), false), "a directory is not a frame");
    assert!(!is_frame(None, true), "a name that is no text is not a frame");
    assert!(!is_frame(Some("tif"), true), "no extension");
    assert!(!is_frame(Some("a.tif.png"), true));
    assert!(!is_frame(Some(""), true));
    assert!(is_frame(Some("depth_map_2.tif"), true), "the whole stem counts");
}

#[test]
fn probe_accepts_consistent_frames() {
    let probe = probe(vec![
        ("f_001.tif".to_string(), info(8, 4)),
        ("f_002.tif".to_string(), info(8, 4)),
    ])
    .unwrap();
    assert_eq!(probe.frames.len(), 2);
    assert_eq!((probe.info.width, probe.info.height), (8, 4));
}

#[test]
fn probe_rejects_mismatched_frames() {
    let err = probe(vec![
        ("f_001.tif".to_string(), info(8, 4)),
        ("f_002.tif".to_string(), info(8, 5)),
    ])
    .unwrap_err();
    assert_eq!(
        err,
        Error::Geometry {
            path: "f_002.tif".to_string(),
            width: 8,
            height: 5,
            bits: 16,
            reference: "f_001.tif".to_string(),
            ref_width: 8,
            ref_height: 4,
            ref_bits: 16,
        },
        "should name the odd frame"
    );
}

#[test]
fn errors_on_directory_without_frames() {
    let err = discover_stack("s".to_string(), "/s".to_string(), &files(&["notes.txt"]));
    assert_eq!(
        err.unwrap_err(),
        Error::NoFrames {
            dir: "/s".to_string()
        }
    );
}

fn listing(name: &str, entries: Option<&[&str]>) -> Listing {
    Listing {
        name: name.to_string(),
        dir: format!("/root/{name}"),
        entries: entries.map(files),
    }
}

#[test]
fn test_set_skips_non_stack_directories() {
    let stacks = discover_test_set(
        "/root".to_string(),
        vec![
            listing("stack_b", Some(&["f1.tif"])),
            listing("stack_a", Some(&["f1.tif"])),
            listing("empty", Some(&[])),
            listing("closed", None),
        ],
    )
    .unwrap();
    let names: Vec<_> = stacks.iter().map(|s| s.name.as_str()).collect();
    assert_eq!(names, ["stack_a", "stack_b"]);
}

#[test]
fn a_root_without_stacks_is_an_error() {
    let err = discover_test_set("/root".to_string(), vec![listing("empty", Some(&[]))]);
    assert_eq!(
        err.unwrap_err(),
        Error::NoStacks {
            root: "/root".to_string()
        }
    );
}
