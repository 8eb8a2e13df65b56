use stackaroni::natural::natural_cmp;
use std::cmp::Ordering;

#[test]
fn natural_order_puts_frame_2_before_frame_10() {
    let mut names = vec![
        "frame_10.tif",
        "frame_1.tif",
        "frame_100.tif",
        "frame_2.tif",
    ];
    names.sort_by(|a, b| natural_cmp(a, b));
    assert_eq!(
        names,
        [
            "frame_1.tif",
            "frame_2.tif",
            "frame_10.tif",
            "frame_100.tif"
        ]
    );
    let mut lexicographic = names.clone();
    lexicographic.sort();
    assert_ne!(lexicographic, names);
}

/// Padded stacks must sort exactly as byte order sorts them.
#[test]
fn padded_stacks_sort_identically_to_the_old_lexicographic_order() {
    for pattern in ["A1_{:05}.tif", "A1_{:05}_01.tif", "frame_{:03}.tiff"] {
        let names: Vec<String> = (1..=120)
            .map(|i| {
                pattern
                    .replace("{:05}", &format!("{i:05}"))
                    .replace("{:03}", &format!("{i:03}"))
            })
            .collect();

        let mut natural = names.clone();
        natural.sort_by(|a, b| natural_cmp(a, b));
        let mut lexicographic = names.clone();
        lexicographic.sort();

        assert_eq!(natural, lexicographic, "pattern {pattern}");
        assert_eq!(
            natural, names,
            "pattern {pattern} should already be in order"
        );
    }
}

/// Names with no digits at all fall back to byte order.
#[test]
fn names_without_digits_keep_byte_order() {
    let mut names = vec!["zulu.tif", "alpha.tif", "Mike.tif"];
    names.sort_by(|a, b| natural_cmp(a, b));
    let mut expected = names.clone();
    expected.sort();
    assert_eq!(names, expected);
}

/// A digit run longer than any integer type must sort rather than overflow.
#[test]
fn absurdly_long_digit_runs_do_not_overflow() {
    let long = format!("f_{}.tif", "9".repeat(40));
    let longer = format!("f_{}.tif", "9".repeat(41));
    assert_eq!(natural_cmp(&long, &longer), Ordering::Less);
}

/// Padding does not count, and neither does a digit against a letter.
#[test]
fn padding_does_not_count() {
    assert_eq!(natural_cmp("a7b12.tif", "a7b0012.tif"), Ordering::Equal);
    assert_eq!(natural_cmp("000", "0"), Ordering::Equal);
    assert_eq!(natural_cmp("frame.tif", "frame1.tif"), "frame.tif".cmp("frame1.tif"));
    assert_eq!(natural_cmp("a_01_x", "a_01"), "a_01_x".cmp("a_01"));
}
