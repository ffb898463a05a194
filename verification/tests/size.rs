use mole::size::format_size;

#[test]
fn bytes_below_one_kilobyte_are_whole() {
    assert_eq!(format_size(0), "0 B");
    assert_eq!(format_size(1), "1 B");
    assert_eq!(format_size(10), "10 B");
    assert_eq!(format_size(999), "999 B");
    assert_eq!(format_size(1023), "1023 B");
}

#[test]
fn each_threshold_starts_its_unit() {
    assert_eq!(format_size(1024), "1.00 KB");
    assert_eq!(format_size(1048576), "1.00 MB");
    assert_eq!(format_size(1073741824), "1.00 GB");
}

#[test]
fn the_largest_unit_reached_is_used() {
    assert_eq!(format_size(1048575), "1024.00 KB");
    assert_eq!(format_size(1073741823), "1024.00 MB");
    assert_eq!(format_size(5 * 1024 * 1024 * 1024), "5.00 GB");
    assert_eq!(format_size(3 * 1024 * 1024 * 1024 * 1024), "3072.00 GB");
}

#[test]
fn two_decimal_places_are_rounded_to_nearest() {
    assert_eq!(format_size(1536), "1.50 KB");
    assert_eq!(format_size(1034), "1.01 KB");
    assert_eq!(format_size(1029), "1.00 KB");
    assert_eq!(format_size(1030), "1.01 KB");
    assert_eq!(format_size(2047), "2.00 KB");
    assert_eq!(format_size(123456789), "117.74 MB");
    assert_eq!(format_size(1500000000), "1.40 GB");
}

#[test]
fn a_quotient_between_two_hundredths_goes_to_the_even_one() {
    // 1152 / 1024 = 1.125, 1408 / 1024 = 1.375
    assert_eq!(format_size(1152), "1.12 KB");
    assert_eq!(format_size(1408), "1.38 KB");
    // 1.625 MB
    assert_eq!(format_size(1703936), "1.62 MB");
}

#[test]
fn the_largest_count_is_formatted() {
    assert_eq!(format_size(u64::MAX), "17179869184.00 GB");
}

#[test]
fn every_text_ends_in_one_unit() {
    let samples: Vec<u64> = vec![0, 7, 1023, 1024, 4096, 1048575, 1048576, 99999999, 1073741823, 1073741824, u64::MAX];
    for bytes in samples {
        let text = format_size(bytes);
        let unit = if bytes >= 1073741824 {
            " GB"
        } else if bytes >= 1048576 {
            " MB"
        } else if bytes >= 1024 {
            " KB"
        } else {
            " B"
        };
        assert!(text.ends_with(unit), "{}", text);
        let spaces = text.chars().filter(|c| *c == ' ').count();
        assert_eq!(spaces, 1);
    }
}

#[test]
fn scaled_sizes_agree_with_floating_point_division() {
    let mut bytes: u64 = 1024;
    let mut seen = 0;
    while bytes < (1u64 << 52) {
        let expected = if bytes >= 1073741824 {
            format!("{:.2} GB", bytes as f64 / 1073741824.0)
        } else if bytes >= 1048576 {
            format!("{:.2} MB", bytes as f64 / 1048576.0)
        } else {
            format!("{:.2} KB", bytes as f64 / 1024.0)
        };
        assert_eq!(format_size(bytes), expected);
        bytes = bytes + bytes / 7 + 13;
        seen += 1;
    }
    assert!(seen > 100);
    for bytes in 1024u64..6000 {
        assert_eq!(format_size(bytes), format!("{:.2} KB", bytes as f64 / 1024.0));
    }
}
