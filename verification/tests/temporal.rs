use friendly::duration;
use friendly::seconds;
use friendly::Num;

#[test]
fn test_ms() {
    let ms = seconds(Num::from_parts(false, 324, -3));
    assert_eq!(ms.render().as_str(), "324.0ms");
}

#[test]
fn test_seconds() {
    let d = seconds(Num::from_parts(false, 529314, -5));
    assert_eq!(d.render().as_str(), "5.293s");
}

#[test]
fn test_hms() {
    let d = seconds(Num::from_parts(false, 199305, -1));
    assert_eq!(d.render().as_str(), "5h32m10.50s");
}

#[test]
fn test_hm() {
    let d = seconds(Num::from_parts(false, 199305, -1)).parts(2);
    assert_eq!(d.render().as_str(), "5h32m");
}

#[test]
fn test_hms_full() {
    let d = seconds(Num::from_parts(false, 199305, -1)).compact(false);
    assert_eq!(d.render().as_str(), "5 hours 32 minutes 10.50 seconds");
}

#[test]
fn test_chrono() {
    let dur = chrono::Duration::seconds(1042) + chrono::Duration::milliseconds(314);
    let ms = dur.num_milliseconds();
    assert_eq!(ms, 1_042_314);
    let d = duration(Num::from_parts(ms < 0, ms.unsigned_abs(), -3));
    assert_eq!(d.render().as_str(), "17m22.31s");
}

#[test]
fn test_weeks_unlimited_parts() {
    // Eight days and one minute: a week, a day, no whole hour, one minute.
    let d = seconds(Num::from_u64(8 * 86400 + 60)).parts(0);
    assert_eq!(d.render().as_str(), "1w1d0h1m0.00s");
}

#[test]
fn test_parts_limit_truncates() {
    let d = seconds(Num::from_u64(8 * 86400 + 60)).parts(3);
    assert_eq!(d.render().as_str(), "1w1d0h");
}

#[test]
fn test_negative_duration() {
    // A negative duration skips the larger parts and keeps its sign on the
    // seconds.
    let d = seconds(Num::from_parts(true, 125, 0));
    assert_eq!(d.render().as_str(), "-5.00s");
    let d = seconds(Num::from_parts(true, 55, -1));
    assert_eq!(d.render().as_str(), "-5.500s");
}

#[test]
fn test_exact_minute_boundary() {
    // Exactly sixty seconds is not below a minute, and the minute itself is
    // not exceeded, so only the seconds slot appears.
    let d = seconds(Num::from_u64(60));
    assert_eq!(d.render().as_str(), "0.00s");
    let d = seconds(Num::from_parts(false, 601, -1));
    assert_eq!(d.render().as_str(), "1m0.10s");
}

#[test]
fn test_duration_verbose_spacing() {
    let d = seconds(Num::from_parts(false, 324, -3)).compact(false);
    assert_eq!(d.render().as_str(), "324.0 ms");
}

#[test]
fn test_duration_repeatable() {
    let d = seconds(Num::from_parts(false, 199305, -1));
    assert_eq!(d.render(), d.render());
}

#[test]
fn test_std_duration() {
    let sd = std::time::Duration::new(1042, 314_000_000);
    let nanos: u64 = sd.subsec_nanos() as u64;
    let d = duration(Num::from_parts(false, sd.as_secs() * 1_000_000_000 + nanos, -9));
    assert_eq!(d.render().as_str(), "17m22.31s");
}

#[test]
fn test_chrono_negative() {
    let dur = chrono::Duration::seconds(-90);
    let ms = dur.num_milliseconds();
    let d = duration(Num::from_parts(ms < 0, ms.unsigned_abs(), -3));
    assert_eq!(d.render().as_str(), "-30.00s");
}
