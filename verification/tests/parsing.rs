use zsnap::retention::{counts_within, parse_spec};
use zsnap::{RotationSpec, SpecError, Transport};
use zsnap::remote::parse_remote;

#[test]
fn parse_full_spec() {
    let sp = parse_spec("1m2w3d4h5f").unwrap();
    assert_eq!(
        sp,
        RotationSpec { monthly: 1, weekly: 2, daily: 3, hourly: 4, frequently: 5 },
    );
}

#[test]
fn parse_single_category() {
    let sp = parse_spec("10d").unwrap();
    assert_eq!(
        sp,
        RotationSpec { monthly: 0, weekly: 0, daily: 10, hourly: 0, frequently: 0 },
    );
}

#[test]
fn later_group_overwrites_earlier() {
    let sp = parse_spec("1d2d").unwrap();
    assert_eq!(sp.daily, 2);
}

#[test]
fn trailing_digits_are_ignored() {
    let sp = parse_spec("3d12").unwrap();
    assert_eq!(
        sp,
        RotationSpec { monthly: 0, weekly: 0, daily: 3, hourly: 0, frequently: 0 },
    );
}

#[test]
fn letter_without_digits_is_rejected() {
    assert_eq!(parse_spec("d"), Err(SpecError::BadCount));
    assert_eq!(parse_spec("3dh"), Err(SpecError::BadCount));
}

#[test]
fn oversized_count_is_rejected() {
    assert_eq!(parse_spec("99999999999999999999d"), Err(SpecError::BadCount));
    // the largest 64-bit count still parses
    let sp = parse_spec("18446744073709551615d").unwrap();
    assert_eq!(sp.daily, u64::MAX);
}

#[test]
fn unknown_unit_is_rejected() {
    assert_eq!(parse_spec("5x"), Err(SpecError::UnknownUnit('x')));
    assert_eq!(parse_spec("3d 4h"), Err(SpecError::UnknownUnit(' ')));
}

#[test]
fn keeping_nothing_is_rejected() {
    assert_eq!(parse_spec("0d"), Err(SpecError::KeepsNothing));
    assert_eq!(parse_spec(""), Err(SpecError::KeepsNothing));
    assert_eq!(parse_spec("0m0w0d0h0f"), Err(SpecError::KeepsNothing));
}

#[test]
fn counts_cap_guards_the_engine() {
    assert!(counts_within(&RotationSpec {
        monthly: 1_000_000,
        weekly: 0,
        daily: 3,
        hourly: 0,
        frequently: 0,
    }));
    assert!(!counts_within(&RotationSpec {
        monthly: 1_000_001,
        weekly: 0,
        daily: 3,
        hourly: 0,
        frequently: 0,
    }));
}

#[test]
fn parse_local_remote() {
    let r = parse_remote("tank/data");
    assert_eq!(r.dataset, "tank/data");
    assert!(matches!(r.transport, Transport::Local));
}

#[test]
fn parse_shell_remote() {
    let r = parse_remote("box:tank/data");
    assert_eq!(r.dataset, "tank/data");
    match r.transport {
        Transport::Ssh(host) => assert_eq!(host, "box"),
        _ => panic!("expected the shell transport"),
    }
}

#[test]
fn last_colon_splits_the_locator() {
    let r = parse_remote("user@box:extra:tank/data");
    assert_eq!(r.dataset, "tank/data");
    match r.transport {
        Transport::Ssh(host) => assert_eq!(host, "user@box:extra"),
        _ => panic!("expected the shell transport"),
    }
}
