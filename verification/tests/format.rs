use dirstat::format::{format_size, GB, KB, MB};

fn as_float_prints(size: u64) -> String {
    if size >= GB {
        format!("{:.2} GB", size as f64 / GB as f64)
    } else if size >= MB {
        format!("{:.2} MB", size as f64 / MB as f64)
    } else if size >= KB {
        format!("{:.2} KB", size as f64 / KB as f64)
    } else {
        format!("{} bytes", size)
    }
}

#[test]
fn formats_bytes_below_one_kilobyte() {
    assert_eq!(format_size(0), "0 bytes");
    assert_eq!(format_size(1), "1 bytes");
    assert_eq!(format_size(512), "512 bytes");
    assert_eq!(format_size(1023), "1023 bytes");
}

#[test]
fn formats_kilobytes() {
    assert_eq!(format_size(1024), "1.00 KB");
    assert_eq!(format_size(2048), "2.00 KB");
    assert_eq!(format_size(1536), "1.50 KB");
    assert_eq!(format_size(10 * 1024 + 103), "10.10 KB");
}

#[test]
fn formats_megabytes() {
    assert_eq!(format_size(1_048_576), "1.00 MB");
    assert_eq!(format_size(1_572_864), "1.50 MB");
}

#[test]
fn formats_gigabytes() {
    assert_eq!(format_size(1_073_741_824), "1.00 GB");
    assert_eq!(format_size(5 * 1_073_741_824 + 1_073_741_824 / 4), "5.25 GB");
    assert_eq!(format_size(1024 * 1_073_741_824), "1024.00 GB");
}

#[test]
fn largest_unit_that_is_reached_is_chosen() {
    assert_eq!(format_size(KB - 1), "1023 bytes");
    assert_eq!(format_size(MB - 1), "1024.00 KB");
    assert_eq!(format_size(GB - 1), "1024.00 MB");
    assert_eq!(format_size(MB), "1.00 MB");
    assert_eq!(format_size(GB), "1.00 GB");
}

#[test]
fn last_place_rounds_to_nearest() {
    // 1029 / 1024 = 1.00488..., 1030 / 1024 = 1.00585...
    assert_eq!(format_size(1029), "1.00 KB");
    assert_eq!(format_size(1030), "1.01 KB");
}

#[test]
fn equally_near_rounds_to_even_digit() {
    // 1152 / 1024 = 1.125 and 1408 / 1024 = 1.375, both exactly.
    assert_eq!(format_size(1152), "1.12 KB");
    assert_eq!(format_size(1408), "1.38 KB");
    assert_eq!(format_size(1152), as_float_prints(1152));
    assert_eq!(format_size(1408), as_float_prints(1408));
}

#[test]
fn largest_size_is_formatted() {
    assert_eq!(format_size(u64::MAX), "17179869184.00 GB");
    assert_eq!(format_size(u64::MAX), as_float_prints(u64::MAX));
}

#[test]
fn agrees_with_float_formatting_on_small_sizes() {
    let mut size: u64 = 0;
    while size < 3 * MB {
        assert_eq!(format_size(size), as_float_prints(size), "size {}", size);
        size += 7;
    }
}

#[test]
fn agrees_with_float_formatting_around_unit_bounds() {
    for unit in [KB, MB, GB] {
        for delta in 0..2000u64 {
            assert_eq!(format_size(unit + delta), as_float_prints(unit + delta));
            assert_eq!(format_size(unit - delta), as_float_prints(unit - delta));
        }
    }
}

#[test]
fn agrees_with_float_formatting_on_scattered_sizes() {
    // A multiplicative walk through the whole range of sizes.
    let mut seed: u64 = 0x9E37_79B9_7F4A_7C15;
    for _ in 0..200_000 {
        seed = seed.wrapping_mul(6364136223846793005).wrapping_add(1442695040888963407);
        let shift = (seed >> 58) as u32;
        let size = seed >> shift;
        assert_eq!(format_size(size), as_float_prints(size), "size {}", size);
    }
}

#[test]
fn agrees_with_float_formatting_beyond_exact_doubles() {
    // From 2 to the 53 on, a double holds only every second number, then
    // every fourth, and so on.
    let exact: u64 = 1 << 53;
    for delta in 0..5000u64 {
        let size = exact + delta;
        assert_eq!(format_size(size), as_float_prints(size), "size {}", size);
    }
    for power in 53..64u32 {
        let base: u64 = 1 << power;
        for delta in 0..3000u64 {
            assert_eq!(format_size(base + delta), as_float_prints(base + delta));
            assert_eq!(format_size(base - delta), as_float_prints(base - delta));
        }
    }
    for delta in 0..5000u64 {
        let size = u64::MAX - delta;
        assert_eq!(format_size(size), as_float_prints(size), "size {}", size);
    }
}

#[test]
fn agrees_with_float_formatting_near_hundredths_of_large_sizes() {
    // Sizes next to the middle between two hundredths of a gigabyte, where
    // rounding the size as a double decides the last digit.
    let half_hundredth: u128 = (GB as u128) / 2;
    let mut n: u128 = 1_000_000_000_001;
    while n * half_hundredth / 100 + 4096 < u64::MAX as u128 {
        let middle = (n * half_hundredth / 100) as u64;
        for delta in 0..64u64 {
            assert_eq!(format_size(middle + delta), as_float_prints(middle + delta));
            assert_eq!(format_size(middle - delta), as_float_prints(middle - delta));
        }
        n += 97_654_321_013;
    }
}
