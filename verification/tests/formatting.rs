use resmon::readable::{chrono_lite_timestamp, format_delta_kb, format_human};

#[test]
fn test_format_human() {
    assert_eq!(format_human(0), "0.0 MiB");
    assert_eq!(format_human(1024), "1.0 MiB");
    assert_eq!(format_human(1048576), "1.0 GiB");
}

#[test]
fn test_delta_format() {
    assert_eq!(format_delta_kb(1000, 800), "+0.2 MiB");
    assert_eq!(format_delta_kb(800, 1000), "-0.2 MiB");
}

fn human_in_floats(kb: u64) -> String {
    let mb = kb as f64 / 1024.0;
    if mb >= 1024.0 {
        format!("{:.1} GiB", mb / 1024.0)
    } else {
        format!("{:.1} MiB", mb)
    }
}

#[test]
fn amounts_round_half_to_even() {
    assert_eq!(format_human(256), "0.2 MiB");
    assert_eq!(format_human(768), "0.8 MiB");
    assert_eq!(format_human(1048576 + 262144), "1.2 GiB");
    assert_eq!(format_human(1048576 + 786432), "1.8 GiB");
    assert_eq!(format_human(1048575), "1024.0 MiB");
}

#[test]
fn small_amounts_agree_with_floats() {
    for kb in 0..200_000u64 {
        assert_eq!(format_human(kb), human_in_floats(kb));
    }
}

#[test]
fn all_sizes_of_amounts_agree_with_floats() {
    let mut x: u64 = 88172645463325252;
    for i in 0..200_000u32 {
        x ^= x << 13;
        x ^= x >> 7;
        x ^= x << 17;
        let kb = x >> (i % 64);
        assert_eq!(format_human(kb), human_in_floats(kb));
    }
    for kb in [
        u64::MAX,
        u64::MAX - 1024,
        1 << 53,
        (1 << 53) + 1,
        (1 << 53) + 3,
        1 << 63,
        (1 << 63) + 1024,
        (1 << 63) + 3072,
    ] {
        assert_eq!(format_human(kb), human_in_floats(kb));
    }
}

#[test]
fn changes_have_signs() {
    assert_eq!(format_delta_kb(5, 5), "0.0 MiB");
    assert_eq!(format_delta_kb(-1, i64::MAX), "-8796093022208.0 GiB");
    assert_eq!(format_delta_kb(i64::MAX, 0), "+8796093022208.0 GiB");
    assert_eq!(format_delta_kb(0, 2097152), "-2.0 GiB");
}

#[test]
fn changes_are_opposite_both_ways() {
    for (a, b) in [(10i64, 5000i64), (0, 1), (-700, 700)] {
        let there = format_delta_kb(a, b);
        let back = format_delta_kb(b, a);
        assert!(there.starts_with('-'));
        assert!(back.starts_with('+'));
        assert_eq!(there[1..], back[1..]);
    }
}

#[test]
fn clock_shows_hours_minutes_seconds() {
    assert_eq!(chrono_lite_timestamp(0), "00:00:00");
    assert_eq!(chrono_lite_timestamp(86_399), "23:59:59");
    assert_eq!(chrono_lite_timestamp(1_700_000_000), "22:13:20");
    assert_eq!(chrono_lite_timestamp(3_661), "01:01:01");
    assert_eq!(chrono_lite_timestamp(u64::MAX).len(), 8);
}

#[test]
fn clock_repeats_every_day() {
    for secs in [0u64, 59, 60, 3599, 3600, 86_399, 1_234_567] {
        assert_eq!(chrono_lite_timestamp(secs), chrono_lite_timestamp(secs + 86_400));
    }
}
