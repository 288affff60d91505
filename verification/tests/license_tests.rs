use albion_translator::license::{
    trial_status, validation_of_reply, LicenseMode, LicenseReply, LicenseState, LicenseStatus,
    StoredLicense, Timestamp, Validation, BUY_URL,
};

const DAY: i64 = 86_400;

fn at(secs: i64) -> Timestamp {
    Timestamp { secs, nanos: 0 }
}

fn empty_store() -> StoredLicense {
    StoredLicense {
        license_key: None,
        instance_id: None,
        license_status: None,
        last_validated: None,
        first_seen: None,
    }
}

fn reply(success: Option<bool>, error: Option<&str>, status: Option<&str>, instance: Option<&str>) -> LicenseReply {
    LicenseReply {
        success,
        error: error.map(|e| e.to_string()),
        key_status: status.map(|e| e.to_string()),
        instance_id: instance.map(|e| e.to_string()),
    }
}

#[test]
fn status_unlocks_unless_locked() {
    assert!(LicenseStatus::new(LicenseMode::Trial { days_remaining: 3 }).is_unlocked());
    assert!(LicenseStatus::new(LicenseMode::Licensed { status: "active".to_string() }).is_unlocked());
    assert!(!LicenseStatus::new(LicenseMode::Locked).is_unlocked());
    assert_eq!(LicenseStatus::new(LicenseMode::Locked).buy_url, BUY_URL);
}

#[test]
fn trial_counts_whole_days() {
    let start = at(1_000_000);
    assert!(matches!(trial_status(Some(start), start).mode, LicenseMode::Trial { days_remaining: 7 }));
    assert!(matches!(
        trial_status(Some(start), at(1_000_000 + DAY - 1)).mode,
        LicenseMode::Trial { days_remaining: 7 }
    ));
    assert!(matches!(
        trial_status(Some(start), at(1_000_000 + 7 * DAY - 1)).mode,
        LicenseMode::Trial { days_remaining: 1 }
    ));
    assert!(matches!(trial_status(Some(start), at(1_000_000 + 7 * DAY)).mode, LicenseMode::Locked));
    assert!(matches!(trial_status(Some(start), at(1_000_000 + 8 * DAY)).mode, LicenseMode::Locked));
    // A clock that went backwards rounds toward zero.
    assert!(matches!(
        trial_status(Some(start), at(1_000_000 - DAY - 5)).mode,
        LicenseMode::Trial { days_remaining: 8 }
    ));
    assert!(matches!(trial_status(None, start).mode, LicenseMode::Trial { days_remaining: 7 }));
}

#[test]
fn new_state_starts_the_trial_clock_once() {
    let s = LicenseState::new(empty_store(), at(50));
    assert_eq!(s.stored.first_seen, Some(at(50)));
    let mut stored = empty_store();
    stored.first_seen = Some(at(10));
    let s2 = LicenseState::new(stored, at(50));
    assert_eq!(s2.stored.first_seen, Some(at(10)));
    assert!(!s2.has_key());
}

#[test]
fn revalidation_and_grace_windows() {
    let mut stored = empty_store();
    stored.license_key = Some("KEY".to_string());
    stored.last_validated = Some(at(0));
    let s = LicenseState::new(stored, at(0));
    assert!(!s.needs_validation(at(24 * 3600)));
    assert!(s.needs_validation(Timestamp { secs: 24 * 3600, nanos: 1 }));
    match s.offline_status(at(7 * DAY)).mode {
        LicenseMode::Licensed { status } => assert_eq!(status, "active"),
        _ => panic!("expected licensed"),
    }
    assert!(matches!(s.offline_status(Timestamp { secs: 7 * DAY, nanos: 1 }).mode, LicenseMode::Locked));
    let fresh = LicenseState::new(empty_store(), at(0));
    assert!(fresh.needs_validation(at(0)));
    assert!(matches!(fresh.offline_status(at(0)).mode, LicenseMode::Locked));
}

#[test]
fn validation_outcomes() {
    match validation_of_reply(reply(Some(true), None, Some("active"), None)) {
        Validation::Valid(s) => assert_eq!(s, "active"),
        _ => panic!("valid expected"),
    }
    match validation_of_reply(reply(Some(false), None, None, None)) {
        Validation::Refused(e) => assert_eq!(e, "inactive"),
        _ => panic!("refused expected"),
    }
    let mut s = LicenseState::new(empty_store(), at(0));
    let st = s.apply_validation(Validation::Valid("active".to_string()), at(100));
    assert!(st.is_unlocked());
    assert_eq!(s.stored.last_validated, Some(at(100)));
    assert!(!s.apply_validation(Validation::Refused("disabled".to_string()), at(200)).is_unlocked());
    assert!(s.apply_validation(Validation::Offline("timeout".to_string()), at(300)).is_unlocked());
    assert!(!s.apply_validation(Validation::Offline("timeout".to_string()), at(100 + 8 * DAY)).is_unlocked());
}

#[test]
fn activation_replies() {
    let mut s = LicenseState::new(empty_store(), at(0));
    assert_eq!(
        s.apply_activation("   ", reply(Some(true), None, None, Some("i")), at(1)).err().unwrap(),
        "License key cannot be empty"
    );
    assert_eq!(
        s.apply_activation("K", reply(None, None, None, None), at(1)).err().unwrap(),
        "Invalid license key"
    );
    assert_eq!(
        s.apply_activation("K", reply(Some(false), Some("expired"), None, None), at(1)).err().unwrap(),
        "expired"
    );
    assert_eq!(
        s.apply_activation("K", reply(Some(true), None, None, None), at(1)).err().unwrap(),
        "Licensing server returned no instance"
    );
    assert!(s.stored.license_key.is_none());
    let st = s.apply_activation("  K-1 ", reply(Some(true), None, None, Some("inst")), at(5)).unwrap();
    match st.mode {
        LicenseMode::Licensed { status } => assert_eq!(status, "active"),
        _ => panic!("licensed expected"),
    }
    assert_eq!(s.stored.license_key.as_deref(), Some("K-1"));
    assert_eq!(s.stored.instance_id.as_deref(), Some("inst"));
    assert_eq!(s.stored.last_validated, Some(at(5)));
    s.deactivate();
    assert!(s.stored.license_key.is_none());
    assert_eq!(s.stored.first_seen, Some(at(0)));
}

#[test]
fn locked_notice_is_given_once() {
    let mut s = LicenseState::new(empty_store(), at(0));
    assert!(s.take_locked_notice());
    assert!(!s.take_locked_notice());
    assert!(!s.take_locked_notice());
}
