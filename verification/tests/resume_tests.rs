use instant_file_search::resume::{checkpoints_can_resume, content_enabled, JournalKind};

#[test]
fn windows_resume_requires_the_same_usn_journal() {
    let volumes = vec!["C:\\".to_string()];
    assert!(checkpoints_can_resume(
        JournalKind::Windows,
        &volumes,
        &[("C:\\".into(), 7, 100)],
        &[("C:\\".into(), 7, 200)],
    ));
    assert!(!checkpoints_can_resume(
        JournalKind::Windows,
        &volumes,
        &[("C:\\".into(), 7, 100)],
        &[("C:\\".into(), 8, 200)],
    ));
    assert!(!checkpoints_can_resume(
        JournalKind::Windows,
        &volumes,
        &[("C:\\".into(), 7, 300)],
        &[("C:\\".into(), 7, 200)],
    ));
}

#[test]
fn macos_resume_accepts_an_older_fsevents_id() {
    let volumes = vec!["/".to_string()];
    assert!(checkpoints_can_resume(
        JournalKind::MacOs,
        &volumes,
        &[("/".into(), 100, 0)],
        &[("/".into(), 200, 0)],
    ));
}

#[test]
fn linux_never_resumes_and_counts_must_match() {
    let volumes = vec!["/".to_string()];
    assert!(!checkpoints_can_resume(JournalKind::Other, &volumes, &[("/".into(), 1, 0)], &[("/".into(), 1, 0)]));
    assert!(!checkpoints_can_resume(JournalKind::MacOs, &volumes, &[], &[("/".into(), 1, 0)]));
    assert!(!checkpoints_can_resume(
        JournalKind::MacOs,
        &volumes,
        &[("/x".into(), 1, 0)],
        &[("/".into(), 1, 0)],
    ));
}

#[test]
fn content_switch_values() {
    assert!(content_enabled(None));
    assert!(content_enabled(Some("on")));
    assert!(content_enabled(Some("1")));
    assert!(content_enabled(Some("true")));
    assert!(!content_enabled(Some("TRUE")));
    assert!(!content_enabled(Some("off")));
}
