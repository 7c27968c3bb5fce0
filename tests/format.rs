use yadex::format::{format_utc, from_mtimestamp, humanize_size, UtcTime};

#[test]
fn size_examples() {
    assert_eq!(humanize_size(1023), "1023 B");
    assert_eq!(humanize_size(1024), "1.00 KiB");
    assert_eq!(humanize_size(1048576), "1.00 MiB");
    assert_eq!(humanize_size(1073741824), "1.00 GiB");
    assert_eq!(humanize_size(0), "0 B");
    assert_eq!(humanize_size(1536), "1.50 KiB");
}

fn float_form(s: u64) -> String {
    if s >= 1 << 30 {
        format!("{:.2} GiB", s as f64 / (1u64 << 30) as f64)
    } else if s >= 1 << 20 {
        format!("{:.2} MiB", s as f64 / (1u64 << 20) as f64)
    } else if s >= 1 << 10 {
        format!("{:.2} KiB", s as f64 / (1u64 << 10) as f64)
    } else {
        format!("{} B", s)
    }
}

#[test]
fn size_matches_float_formatting() {
    let mut samples: Vec<u64> = vec![1152, 1029, 1034, 5 * 1024 + 128, u64::MAX, (1 << 53) + 1, (1 << 53) + 3];
    samples.extend([(1u64 << 60) + 12345, 999_999_999_999, 1 << 63, 123_456_789_012_345_678]);
    let mut x: u64 = 1;
    for _ in 0..4000 {
        x = x.wrapping_mul(6364136223846793005).wrapping_add(1442695040888963407);
        samples.push(x >> (x % 61));
    }
    for s in 1000..5000u64 {
        samples.push(s);
    }
    for s in samples {
        assert_eq!(humanize_size(s), float_form(s), "size {s}");
    }
}

#[test]
fn timestamp_examples() {
    assert_eq!(from_mtimestamp(0), "1970-01-01 00:00:00");
    assert_eq!(from_mtimestamp(-1), "1969-12-31 23:59:59");
    assert_eq!(from_mtimestamp(i64::MAX), "Invalid timestamp");
    let u = UtcTime { year: 12345, month: 1, day: 2, hour: 3, minute: 4, second: 5 };
    assert_eq!(format_utc(&u), "+12345-01-02 03:04:05");
    let u = UtcTime { year: -7, month: 11, day: 30, hour: 23, minute: 0, second: 9 };
    assert_eq!(format_utc(&u), "-0007-11-30 23:00:09");
}

#[test]
fn timestamp_matches_chrono() {
    let samples: [i64; 9] = [0, 1_700_000_000, -62_135_596_800, -62_135_596_801, 253_402_300_799, 253_402_300_800, 8_000_000_000_000, -8_000_000_000_000, 951_782_400];
    for t in samples {
        let expected = match chrono::DateTime::from_timestamp(t, 0) {
            Some(dt) => dt.format("%Y-%m-%d %H:%M:%S").to_string(),
            None => "Invalid timestamp".to_string(),
        };
        assert_eq!(from_mtimestamp(t), expected, "timestamp {t}");
    }
}
