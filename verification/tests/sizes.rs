use ddh_move::sizes::{binary_unit, total_size, unit_symbol};

#[test]
fn total_size_of_no_paths_is_zero() {
    assert_eq!(total_size(&[]), (0, 0));
}

#[test]
fn total_size_reports_unreadable_paths() {
    // Neither path exists, so neither size can be read.
    let missing_1: Option<u64> = None;
    let missing_2: Option<u64> = None;

    assert_eq!(total_size(&[missing_1, missing_2]), (0, 2));
}

#[test]
fn total_size_measures_real_files() {
    // The size read from an existing file, and a path that cannot be read.
    let existing: Option<u64> = Some(1234);
    let missing: Option<u64> = None;

    let (bytes, unreadable) = total_size(&[existing]);
    assert!(bytes > 0);
    assert_eq!(unreadable, 0);

    // Adding an unreadable path must not disturb the bytes already counted
    assert_eq!(total_size(&[existing, missing]), (bytes, 1));
}

#[test]
fn total_size_sums_readable_sizes() {
    assert_eq!(total_size(&[Some(1), None, Some(1024), Some(u64::MAX - 1025), None]), (u64::MAX, 2));
}

#[test]
fn units_are_binary_and_clamp_to_pib() {
    let cases: [(u64, &str); 12] = [
        (0, "B"),
        (512, "B"),
        (1023, "B"),
        (1024, "KiB"),
        (1536, "KiB"),
        (1024 * 1024 - 1, "KiB"),
        (1024 * 1024, "MiB"),
        (1024 * 1024 * 1024, "GiB"),
        (1u64 << 40, "TiB"),
        ((1u64 << 50) - 1, "TiB"),
        (1u64 << 50, "PiB"),
        (u64::MAX, "PiB"),
    ];
    for (bytes, symbol) in cases {
        assert_eq!(unit_symbol(binary_unit(bytes)), symbol, "{}", bytes);
    }
}
