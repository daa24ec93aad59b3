use snapcall::SnapError;

#[test]
fn tests_snap_error_display() {
    let e = SnapError::InvalidCard("Xz".into());
    assert!(e.message().contains("Xz"));

    let e = SnapError::InvalidHand("bad".into());
    assert!(e.message().contains("bad"));

    let e = SnapError::InvalidRange("r".into());
    assert!(e.message().contains("r"));
}

#[test]
fn types_snap_error_display() {
    let e = SnapError::InvalidCard("Xz".into());
    assert!(e.message().contains("Xz"));

    let e = SnapError::InvalidHand("bad".into());
    assert!(e.message().contains("bad"));

    let e = SnapError::InvalidRange("r".into());
    assert!(e.message().contains("r"));
}

#[test]
fn tests_snap_error_is_std_error() {
    let e = SnapError::InvalidCard("x".into());
    assert!(!e.message().is_empty());
}

#[test]
fn types_snap_error_is_std_error() {
    let e = SnapError::InvalidCard("x".into());
    assert!(!e.message().is_empty());
}
