//! Hints and warnings for clones that failed.
use sprout::clonefile::{clone_warning, explain, Fault};

#[test]
fn hints() {
    assert_eq!(
        explain(Some(18)),
        Some("source and destination are on different volumes — clonefile requires the same APFS volume (is the repo on an external drive?)")
    );
    assert_eq!(
        explain(Some(45)),
        Some("filesystem does not support cloning — the repo must live on an APFS volume")
    );
    assert_eq!(explain(Some(2)), None);
    assert_eq!(explain(None), None);
}

#[test]
fn clone_warnings() {
    let plain = Fault { code: Some(2), message: "No such file or directory (os error 2)".to_string() };
    assert_eq!(
        clone_warning(b"dist", &plain),
        "warn: could not clone dist: No such file or directory (os error 2)"
    );
    let hinted = Fault { code: Some(45), message: "Operation not supported (os error 45)".to_string() };
    assert_eq!(
        clone_warning(b"a/\xff", &hinted),
        "warn: could not clone a/\u{fffd}: Operation not supported (os error 45) (filesystem does not support cloning — the repo must live on an APFS volume)"
    );
}
