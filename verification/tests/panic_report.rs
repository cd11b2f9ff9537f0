//! The panic report and the disposition of nested panics.
use kcore::panic::{enter, is_panicking, write_report, Location, PanicDisposition, PanicState};

#[test]
fn report_format_is_stable() {
    let mut text = String::new();
    let location = Location {
        file: "kernel/kcore/src/panic.rs".to_string(),
        line: 96,
        column: 24,
    };
    write_report(
        &mut text,
        "frame allocator exhausted",
        Some(location),
        Some(9),
    );
    assert!(
        text.starts_with("\n[9 kcore::panic] KERNEL PANIC at "),
        "{text}"
    );
    assert!(text.contains("panic.rs"));
    assert!(text.ends_with(" — frame allocator exhausted\n"), "{text}");
    // One message, one line: the report body is 2 lines only because of the
    // leading break that gets it off a partial one.
    assert_eq!(text.trim_start_matches('\n').lines().count(), 1, "{text}");
}

#[test]
fn missing_location_is_explicit() {
    let mut text = String::new();
    write_report(&mut text, "x", None, None);
    assert!(text.contains("at unknown location"));
    assert!(text.contains("[- kcore::panic]"));
}

#[test]
fn report_spells_numbers_in_decimal() {
    let mut text = String::from("half a line");
    let location = Location {
        file: "a.rs".to_string(),
        line: 120,
        column: 7,
    };
    write_report(&mut text, "gone", Some(location), Some(u64::MAX));
    assert_eq!(
        text,
        "half a line\n[18446744073709551615 kcore::panic] KERNEL PANIC at a.rs:120:7 — gone\n"
    );
}

#[test]
fn a_nested_panic_skips_the_report() {
    let mut state = PanicState::new();
    assert!(!is_panicking(&state));
    assert_eq!(enter(&mut state), PanicDisposition::Report);
    assert!(is_panicking(&state));
    assert_eq!(enter(&mut state), PanicDisposition::ExitImmediately);
    assert_eq!(enter(&mut state), PanicDisposition::ExitImmediately);
    assert!(is_panicking(&state));
}
