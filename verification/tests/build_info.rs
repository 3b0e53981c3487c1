use herdr::build_info::{
    build_id, channel, is_preview, non_empty, version, BASE_VERSION, FORK_OWNER, FORK_REPO,
};

#[test]
fn stable_version_defaults_to_cargo_version() {
    assert!(!version(None, None).is_empty());
}

#[test]
fn fork_identity_is_dihak() {
    assert_eq!(FORK_OWNER, "dihak");
    assert!(FORK_REPO.contains("dihak/herdr"));
}

#[test]
fn unset_channel_is_stable_and_version_is_base() {
    assert_eq!(channel(None), "stable");
    assert_eq!(version(None, None), BASE_VERSION);
    assert_eq!(version(None, Some("1234")), BASE_VERSION);
    assert!(!is_preview(None));
}

#[test]
fn blank_values_count_as_unset() {
    assert_eq!(non_empty(Some("   \t\n")), None);
    assert_eq!(non_empty(Some("")), None);
    assert_eq!(non_empty(None), None);
    assert_eq!(channel(Some("  ")), "stable");
    assert_eq!(build_id(Some(" ")), None);
}

#[test]
fn values_are_trimmed() {
    assert_eq!(non_empty(Some("  preview \n")), Some("preview"));
    assert_eq!(non_empty(Some("\u{3000}a b\u{a0}")), Some("a b"));
    assert_eq!(build_id(Some(" 42 ")), Some("42"));
    assert_eq!(channel(Some(" nightly ")), "nightly");
}

#[test]
fn preview_version_carries_channel_and_build_id() {
    assert_eq!(
        version(Some("preview"), Some("abc123")),
        format!("{}-preview.abc123", BASE_VERSION)
    );
    assert_eq!(version(Some("preview"), None), format!("{}-preview", BASE_VERSION));
    assert_eq!(version(Some("preview"), Some("  ")), format!("{}-preview", BASE_VERSION));
    assert_eq!(version(Some(" stable "), Some("7")), BASE_VERSION);
}

#[test]
fn preview_channel_is_detected() {
    assert!(is_preview(Some("preview")));
    assert!(is_preview(Some(" preview ")));
    assert!(!is_preview(Some("Preview")));
    assert!(!is_preview(Some("stable")));
}

#[test]
fn cleaning_twice_is_cleaning_once() {
    for raw in ["  a  ", "b", " \t ", "", "\u{2003}c d\n"] {
        let once = non_empty(Some(raw));
        assert_eq!(non_empty(once), once);
    }
}
