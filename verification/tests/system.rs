//! Sizes, points in time, memory use and architecture.
use chunkah::clock::{
    epoch_of_timestamp, epoch_since, get_current_epoch, parse_rfc3339_epoch, ClockError,
    TimestampError,
};
use chunkah::host::{get_goarch, get_peak_rss, peak_rss_kb, split_words, PeakRssError};
use chunkah::number::{parse_u64, push_decimal};
use chunkah::size::format_size;
use std::time::{Duration, SystemTime, UNIX_EPOCH};

#[test]
fn test_parse_rfc3339_epoch() {
    assert_eq!(
        parse_rfc3339_epoch("2023-11-14T22:13:20Z").unwrap(),
        1700000000
    );
    assert_eq!(parse_rfc3339_epoch("1970-01-01T00:00:00Z").unwrap(), 0);
    assert!(parse_rfc3339_epoch("not-a-date").is_err());
    assert!(parse_rfc3339_epoch("1969-12-31T23:59:59Z").is_err());
}

#[test]
fn timestamps_fail_in_two_ways() {
    match parse_rfc3339_epoch("not-a-date") {
        Err(TimestampError::Parse { text, .. }) => assert_eq!(text, "not-a-date"),
        other => panic!("{other:?}"),
    }
    match parse_rfc3339_epoch("1969-12-31T23:59:59Z") {
        Err(TimestampError::Negative { text }) => assert_eq!(text, "1969-12-31T23:59:59Z"),
        other => panic!("{other:?}"),
    }
    assert_eq!(
        parse_rfc3339_epoch("2023-11-15T00:13:20.9+02:00").unwrap(),
        1700000000
    );
    assert_eq!(epoch_of_timestamp("t", Ok(7)).unwrap(), 7);
    assert!(epoch_of_timestamp("t", Ok(-1)).is_err());
}

#[test]
fn the_current_epoch_is_that_of_the_clock() {
    let seconds = || SystemTime::now().duration_since(UNIX_EPOCH).unwrap().as_secs();
    let before = seconds();
    let now = get_current_epoch().unwrap();
    let after = seconds();
    assert!(before <= now && now <= after);
    assert_eq!(epoch_since(Ok(3)).unwrap(), 3);
    let early = UNIX_EPOCH.duration_since(UNIX_EPOCH + Duration::from_secs(1));
    match epoch_since(early.map(|d| d.as_secs())) {
        Err(ClockError::BeforeEpoch(e)) => assert_eq!(e.duration().as_secs(), 1),
        Ok(secs) => panic!("{secs}"),
    }
}

#[test]
fn test_format_size() {
    assert_eq!(format_size(0), "0 B");
    assert_eq!(format_size(512), "512 B");
    assert_eq!(format_size(1023), "1023 B");
    assert_eq!(format_size(1024), "1.0 KiB");
    assert_eq!(format_size(1536), "1.5 KiB");
    assert_eq!(format_size(1048576), "1.0 MiB");
    assert_eq!(format_size(1073741824), "1.0 GiB");
    assert_eq!(format_size(1610612736), "1.5 GiB");
}

fn by_division(bytes: u64) -> String {
    let n = bytes as f64;
    let kib = 1024.0;
    if n >= kib * kib * kib {
        format!("{:.1} GiB", n / (kib * kib * kib))
    } else if n >= kib * kib {
        format!("{:.1} MiB", n / (kib * kib))
    } else if n >= kib {
        format!("{:.1} KiB", n / kib)
    } else {
        format!("{} B", bytes)
    }
}

#[test]
fn sizes_are_rounded_to_the_nearest_tenth() {
    assert_eq!(format_size(1280), "1.2 KiB");
    assert_eq!(format_size(1792), "1.8 KiB");
    assert_eq!(format_size(1048575), "1024.0 KiB");
    assert_eq!(format_size(u64::MAX), "17179869184.0 GiB");
    for bytes in 0..20000 {
        assert_eq!(format_size(bytes), by_division(bytes), "{bytes}");
    }
    // around the powers of two, and at ties of the last digit
    for shift in 10..64 {
        let at = 1u64 << shift;
        for off in 0..50 {
            for bytes in [at - off, at + off, at + (at >> 2) + off, at + (at >> 2) - off] {
                assert_eq!(format_size(bytes), by_division(bytes), "{bytes}");
            }
        }
    }
    // spread over the whole range
    let mut bytes: u64 = 0x9e37_79b9_7f4a_7c15;
    for _ in 0..20000 {
        bytes = bytes.wrapping_mul(6364136223846793005).wrapping_add(1442695040888963407);
        for n in [bytes, bytes >> 11, bytes >> 25, bytes >> 40, bytes | 0x7ff, bytes & !0x3ff] {
            assert_eq!(format_size(n), by_division(n), "{n}");
        }
    }
}

#[test]
fn numbers_are_read_and_written() {
    let decimal = |n: u64| {
        let mut s = "n".to_string();
        push_decimal(&mut s, n);
        s
    };
    for n in [0, 7, 10, 99, 100, 65535, u64::MAX] {
        assert_eq!(decimal(n), format!("n{n}"));
        assert_eq!(parse_u64(&decimal(n)[1..]), Some(n));
    }
    for s in [
        "", "+", "-", "-0", "+7", "++7", "007", "7 ", "a", "1a", "18446744073709551615",
        "18446744073709551616", "99999999999999999999999", "\u{661}",
    ] {
        assert_eq!(parse_u64(s), s.parse::<u64>().ok(), "{s}");
    }
}

#[test]
fn test_get_goarch() {
    let host = "s390x";
    assert_eq!(get_goarch(Some("x86_64"), host), "amd64");
    assert_eq!(get_goarch(Some("aarch64"), host), "arm64");
    assert_eq!(get_goarch(Some("powerpc64"), host), "ppc64le");
    assert_eq!(get_goarch(Some("amd64"), host), "amd64"); // passthrough
    assert_eq!(get_goarch(Some("unknown"), host), "unknown"); // passthrough
    assert_eq!(get_goarch(None, host), "s390x");
    assert_eq!(get_goarch(None, "x86_64"), "amd64");
    for arch in ["x86_64", "aarch64", "powerpc64", "riscv64", ""] {
        let name = get_goarch(Some(arch), host);
        assert_eq!(get_goarch(Some(name), host), name);
    }
}

#[test]
fn words_stand_between_white_space() {
    let own = |s: &str| split_words(s);
    let std = |s: &str| -> Vec<String> { s.split_whitespace().map(|w| w.to_string()).collect() };
    for s in ["", " ", "a", " a", "a ", "\t a  b\n\nc ", "a\u{a0}b"] {
        assert_eq!(own(s), std(s), "{s:?}");
    }
    for n in 0..0x11000u32 {
        if let Some(c) = char::from_u32(n) {
            let s = format!("a{c}b");
            assert_eq!(own(&s).len(), std(&s).len(), "{n:x}");
        }
    }
}

#[test]
fn the_peak_memory_use_is_read_from_the_status() {
    let status = "Name:\tcat\nVmPeak:\t  9000 kB\nVmHWM:\t    1234 kB\nVmHWM:\t 1 kB\n";
    assert_eq!(peak_rss_kb(status).unwrap(), 1234);
    assert_eq!(get_peak_rss(status).unwrap(), 1234 * 1024);
    assert_eq!(get_peak_rss("VmHWM:5 kB").unwrap(), 5120);
    assert_eq!(get_peak_rss("VmHWM:\t+5\tkB\r\n").unwrap(), 5120);
}

#[test]
fn the_peak_memory_use_is_refused() {
    match get_peak_rss("Name:\tcat\n VmHWM: 1 kB\n") {
        Err(PeakRssError::NotFound) => {}
        other => panic!("{other:?}"),
    }
    match get_peak_rss("Name:\tcat\nVmHWM:\t \n") {
        Err(PeakRssError::Malformed { line }) => assert_eq!(line, "VmHWM:\t "),
        other => panic!("{other:?}"),
    }
    for value in [" 1", " 1 MB", " 1 kB x", " x y"] {
        match get_peak_rss(&format!("VmHWM:{value}\n")) {
            Err(PeakRssError::UnexpectedFormat { value: v }) => assert_eq!(v, value),
            other => panic!("{other:?}"),
        }
    }
    match get_peak_rss("VmHWM: -1 kB\n") {
        Err(PeakRssError::Number { text }) => assert_eq!(text, "-1"),
        other => panic!("{other:?}"),
    }
}
