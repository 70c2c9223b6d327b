//! Sizes as texts, held against the formatting of floating point numbers.
use rootkitty::format::{
    format_size, megabytes_text, signed_megabytes_text, units_text, GB, KB, MB, TB,
};

fn by_float(bytes: u64) -> String {
    if bytes >= TB {
        format!("{:.2} TB", bytes as f64 / TB as f64)
    } else if bytes >= GB {
        format!("{:.2} GB", bytes as f64 / GB as f64)
    } else if bytes >= MB {
        format!("{:.2} MB", bytes as f64 / MB as f64)
    } else if bytes >= KB {
        format!("{:.2} KB", bytes as f64 / KB as f64)
    } else {
        format!("{} B", bytes)
    }
}

#[test]
fn sizes_in_their_units() {
    assert_eq!(format_size(0), "0 B");
    assert_eq!(format_size(1023), "1023 B");
    assert_eq!(format_size(1024), "1.00 KB");
    assert_eq!(format_size(1536), "1.50 KB");
    assert_eq!(format_size(1_048_575), "1024.00 KB");
    assert_eq!(format_size(MB), "1.00 MB");
    assert_eq!(format_size(GB), "1.00 GB");
    assert_eq!(format_size(5 * TB / 2), "2.50 TB");
    assert_eq!(format_size(u64::MAX), "16777216.00 TB");
}

#[test]
fn sizes_round_as_floats_do() {
    let mut bytes: u64 = 1;
    for step in 0..20_000u64 {
        assert_eq!(format_size(bytes), by_float(bytes));
        bytes = bytes.wrapping_mul(6364136223846793005).wrapping_add(1442695040888963407) >> (step % 60);
    }
}

#[test]
fn halves_go_to_the_even_digit() {
    // A multiple of 128 bytes is a whole number of eighths of a kilobyte.
    for eighths in 8..20_000u64 {
        let bytes = eighths * 128;
        assert_eq!(format_size(bytes), by_float(bytes));
    }
    assert_eq!(units_text(1024 + 128, KB), "1.12");
    assert_eq!(units_text(1024 + 384, KB), "1.38");
}

#[test]
fn sizes_beyond_the_precision_of_a_double() {
    for shift in 0..11u64 {
        for near in [0u64, 1, 2, 3, 511, 512, 513, 1023, 1024, 1025] {
            let bytes = ((1u64 << 53) << shift).wrapping_add(near);
            assert_eq!(format_size(bytes), by_float(bytes));
            let bytes = u64::MAX - near;
            assert_eq!(format_size(bytes), by_float(bytes));
        }
    }
}

#[test]
fn signed_megabytes() {
    for n in [0i64, 1, -1, 5_242, -5_242, 1_048_576, -1_572_864, i64::MAX, i64::MIN] {
        let mb = n as f64 / 1_048_576.0;
        assert_eq!(megabytes_text(n), format!("{:.2}", mb));
        assert_eq!(signed_megabytes_text(n), format!("{:+.2}", mb));
    }
    assert_eq!(megabytes_text(-1_572_864), "-1.50");
    assert_eq!(signed_megabytes_text(1_572_864), "+1.50");
}
