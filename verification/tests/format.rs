use len::format::{magnitude_of, tenths_of, unit_str, LAST_UNIT};
use len::{format_bytes, format_number, is_large};

#[test]
fn format_bytes_zero() {
    assert_eq!(format_bytes(0), "0.0 B");
}

#[test]
fn format_bytes_one_byte() {
    assert_eq!(format_bytes(1), "1.0 B");
}

#[test]
fn format_bytes_below_one_thousand() {
    assert_eq!(format_bytes(999), "999.0 B");
}

#[test]
fn format_bytes_one_thousand() {
    assert_eq!(format_bytes(1000), "1.0 KB");
}

#[test]
fn format_bytes_megabytes() {
    assert_eq!(format_bytes(1_500_000), "1.5 MB");
}

#[test]
fn format_bytes_petabytes() {
    assert_eq!(format_bytes(1_000_000_000_000_000), "1.0 PB");
}

#[test]
fn format_bytes_every_unit_in_reach() {
    assert_eq!(format_bytes(1_000_000), "1.0 MB");
    assert_eq!(format_bytes(1_000_000_000), "1.0 GB");
    assert_eq!(format_bytes(1_000_000_000_000), "1.0 TB");
    assert_eq!(format_bytes(1_000_000_000_000_000_000), "1.0 EB");
}

#[test]
fn format_bytes_largest_count() {
    assert_eq!(format_bytes(u64::MAX), "18.4 EB");
}

#[test]
fn format_bytes_rounds_to_nearest_tenth() {
    assert_eq!(format_bytes(1_049), "1.0 KB");
    assert_eq!(format_bytes(1_051), "1.1 KB");
    assert_eq!(format_bytes(1_949), "1.9 KB");
    assert_eq!(format_bytes(1_951), "2.0 KB");
}

#[test]
fn format_bytes_ties_follow_double_precision() {
    assert_eq!(format_bytes(1_050), "1.1 KB");
    assert_eq!(format_bytes(1_150), "1.1 KB");
    assert_eq!(format_bytes(1_250), "1.2 KB");
    assert_eq!(format_bytes(1_350), "1.4 KB");
    assert_eq!(format_bytes(1_450), "1.4 KB");
    assert_eq!(format_bytes(1_850), "1.9 KB");
    assert_eq!(format_bytes(1_950), "1.9 KB");
}

#[test]
fn format_bytes_agrees_with_double_precision() {
    let units = ["B", "KB", "MB", "GB", "TB", "PB", "EB"];
    let mut n: u64 = 1;
    let mut seen = 0;
    while seen < 20_000 {
        let p = magnitude_of(n);
        let expected = format!("{:.1} {}", n as f64 / 1000f64.powi(p as i32), units[p]);
        assert_eq!(format_bytes(n), expected, "{n}");
        n = n.wrapping_mul(6364136223846793005).wrapping_add(1442695040888963407);
        seen += 1;
    }
}

#[test]
fn format_bytes_ties_of_every_unit_agree_with_double_precision() {
    let units = ["B", "KB", "MB", "GB", "TB", "PB", "EB"];
    let mut unit: u64 = 1;
    for p in 1..7 {
        unit *= 1000;
        let mut j: u64 = 0;
        while j < 2_000 {
            let n = unit + (unit / 20) * (2 * j + 1);
            if n / unit >= 18 {
                break;
            }
            let expected = format!("{:.1} {}", n as f64 / unit as f64, units[p]);
            assert_eq!(format_bytes(n), expected, "{n}");
            j += 1;
        }
    }
}

#[test]
fn format_bytes_holds_large_counts_with_53_binary_digits() {
    assert_eq!(format_bytes(9_007_199_254_740_993), "9.0 PB");
    assert_eq!(format_bytes(999_999_999_999_999_999), "1000.0 PB");
    assert_eq!(format_bytes(1_050_000_000_000_000_000), "1.1 EB");
    assert_eq!(format_bytes(1_150_000_000_000_000_000), "1.1 EB");
}

#[test]
fn format_bytes_rounding_may_reach_one_thousand() {
    assert_eq!(format_bytes(999_949), "999.9 KB");
    assert_eq!(format_bytes(999_950), "1000.0 KB");
    assert_eq!(format_bytes(999_999), "1000.0 KB");
}

#[test]
fn format_bytes_several_digits() {
    assert_eq!(format_bytes(12), "12.0 B");
    assert_eq!(format_bytes(123_456), "123.5 KB");
    assert_eq!(format_bytes(35), "35.0 B");
}

#[test]
fn magnitude_steps_at_powers_of_one_thousand() {
    assert_eq!(magnitude_of(0), 0);
    assert_eq!(magnitude_of(999), 0);
    assert_eq!(magnitude_of(1_000), 1);
    assert_eq!(magnitude_of(999_999), 1);
    assert_eq!(magnitude_of(1_000_000), 2);
    assert_eq!(magnitude_of(999_999_999_999_999), 4);
    assert_eq!(magnitude_of(1_000_000_000_000_000), 5);
    assert_eq!(magnitude_of(u64::MAX), 6);
}

#[test]
fn magnitude_never_passes_the_last_unit() {
    assert!(magnitude_of(u64::MAX) <= LAST_UNIT);
    assert_eq!(LAST_UNIT, 8);
}

#[test]
fn tenths_of_exact_values() {
    assert_eq!(tenths_of(0), 0);
    assert_eq!(tenths_of(999), 9_990);
    assert_eq!(tenths_of(1_500_000), 15);
    assert_eq!(tenths_of(999_950), 10_000);
    assert_eq!(tenths_of(1_050), 11);
    assert_eq!(tenths_of(1_150), 11);
    assert_eq!(tenths_of(u64::MAX), 184);
}

#[test]
fn unit_names_in_order() {
    let names = ["B", "KB", "MB", "GB", "TB", "PB", "EB", "ZB", "YB"];
    for (p, name) in names.iter().enumerate() {
        assert_eq!(unit_str(p), *name);
    }
    assert_eq!(unit_str(9), "YB");
}

#[test]
fn format_number_leaves_the_unit_out() {
    assert_eq!(format_number(0), "0.0");
    assert_eq!(format_number(1_500_000), "1.5");
    assert_eq!(format_number(999_950), "1000.0");
}

#[test]
fn number_and_unit_make_up_the_text() {
    for n in [0, 7, 999, 1_000, 123_456_789, u64::MAX] {
        let parts = format!("{} {}", format_number(n), unit_str(magnitude_of(n)));
        assert_eq!(format_bytes(n), parts);
    }
}

#[test]
fn large_begins_at_gigabytes() {
    assert!(!is_large(0));
    assert!(!is_large(999_999_999));
    assert!(is_large(1_000_000_000));
    assert!(is_large(u64::MAX));
}

#[test]
fn number_shown_is_within_a_tenth_of_the_count() {
    let mut unit: u128 = 1;
    for p in 0..7 {
        for n in [unit, unit + unit / 3, 17 * unit + 1, 999 * unit + unit / 2] {
            if n > u64::MAX as u128 {
                continue;
            }
            assert_eq!(magnitude_of(n as u64), p);
            let shown = tenths_of(n as u64) as u128 * unit;
            assert!(shown < 10 * n + unit && 10 * n < shown + unit, "{n}");
        }
        unit *= 1000;
    }
}
