use stackaroni::icc::{s15_fixed_16, srgb_profile, TRC_ENTRIES};

fn srgb_to_linear(v: f32) -> f32 {
    if v <= 0.04045 {
        v / 12.92
    } else {
        ((v + 0.055) / 1.055).powf(2.4)
    }
}

fn profile() -> Vec<u8> {
    let samples: Vec<u16> = (0..TRC_ENTRIES)
        .map(|i| {
            let encoded = i as f32 / (TRC_ENTRIES - 1) as f32;
            (srgb_to_linear(encoded).clamp(0.0, 1.0) * 65535.0).round() as u16
        })
        .collect();
    srgb_profile(&samples)
}

fn be32(profile: &[u8], at: usize) -> usize {
    u32::from_be_bytes(profile[at..at + 4].try_into().unwrap()) as usize
}

/// The header's own size field is what a reader trusts to find the end of the profile.
#[test]
fn the_header_describes_the_profile_that_follows() {
    let profile = profile();
    assert_eq!(
        be32(&profile, 0),
        profile.len(),
        "size field must match the actual length"
    );
    assert_eq!(&profile[36..40], b"acsp", "profile signature");
    assert_eq!(&profile[16..20], b"RGB ");
    assert_eq!(profile.len() % 4, 0, "profiles are 4-byte aligned");
}

/// Every tag must name data that lies inside the profile and starts on a word boundary.
#[test]
fn every_tag_points_inside_the_profile() {
    let profile = profile();
    let count = be32(&profile, 128);
    assert_eq!(
        count, 9,
        "nine tags: desc, wtpt, three primaries, three TRCs, cprt"
    );

    let mut seen = Vec::new();
    for i in 0..count {
        let entry = 132 + i * 12;
        let signature = &profile[entry..entry + 4];
        let offset = be32(&profile, entry + 4);
        let size = be32(&profile, entry + 8);

        assert_eq!(offset % 4, 0, "tag {i} is not word-aligned");
        assert!(offset + size <= profile.len(), "tag {i} runs past the end");
        seen.push(String::from_utf8_lossy(signature).into_owned());
    }
    assert_eq!(
        seen,
        ["desc", "wtpt", "rXYZ", "gXYZ", "bXYZ", "rTRC", "gTRC", "bTRC", "cprt"]
    );
}

/// The three curve tags share one curve, and it is the transfer function itself.
#[test]
fn the_tone_curve_is_the_pipelines_own() {
    let profile = profile();
    let tag = |name: &[u8]| {
        (0..be32(&profile, 128))
            .map(|i| 132 + i * 12)
            .find(|&e| &profile[e..e + 4] == name)
            .map(|e| be32(&profile, e + 4))
            .unwrap()
    };
    let (r, g, b) = (tag(b"rTRC"), tag(b"gTRC"), tag(b"bTRC"));
    assert_eq!((r, g), (r, b), "the three curves share one element");

    let entries = be32(&profile, r + 8);
    assert_eq!(entries, TRC_ENTRIES);
    let at = |i: usize| {
        let o = r + 12 + i * 2;
        u16::from_be_bytes(profile[o..o + 2].try_into().unwrap()) as f32 / 65535.0
    };
    assert_eq!(at(0), 0.0, "black stays black");
    assert!((at(entries - 1) - 1.0).abs() < 1e-4, "white stays white");
    for i in [1, 8, 64, 512, 900] {
        let want = srgb_to_linear(i as f32 / (TRC_ENTRIES - 1) as f32);
        assert!(
            (at(i) - want).abs() < 1e-4,
            "entry {i}: {} != {want}",
            at(i)
        );
    }
}

/// The fixed-point coordinates are the rounded ones of the published decimals.
#[test]
fn coordinates_are_rounded_to_the_nearest() {
    let published = [
        43607u32, 22249, 1392, 38515, 71687, 9708, 14307, 6061, 71410, 96420, 100000, 82491,
    ];
    for v in published {
        let want = (v as f64 / 100000.0 * 65536.0).round() as u32;
        assert_eq!(s15_fixed_16(v), want, "{v}");
    }
}

/// The texts that the profile carries.
#[test]
fn the_profile_names_itself() {
    let profile = profile();
    assert_eq!(&profile[240..244], b"desc");
    assert_eq!(be32(&profile, 248), 18);
    assert_eq!(&profile[252..269], b"sRGB IEC61966-2.1");
    assert_eq!(&profile[2488..2492], b"text");
    assert_eq!(&profile[2496..2510], b"Public domain\0");
    assert_eq!(profile.len(), 2512);
    assert_eq!(&profile[24..30], &[0x07, 0xea, 0, 8, 0, 18]);
}
