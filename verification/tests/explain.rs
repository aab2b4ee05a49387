use space::explain::{render, render_lowered, ExplainError};
use space::model::MountView;
use space::model::StorageReport;

fn view(target: &str, filesystem: &str, reason: Option<&str>, backing: Option<&str>) -> MountView {
    MountView {
        source: "src".into(),
        target: target.into(),
        filesystem: filesystem.into(),
        device_id: None,
        backing_storage_id: backing.map(Into::into),
        independent: false,
        hidden_reason: reason.map(Into::into),
        total_bytes: 0,
        used_bytes: 0,
        available_bytes: 0,
    }
}

fn report() -> StorageReport {
    let mut r = StorageReport::empty();
    r.hidden_mounts = vec![
        view("/dev/shm", "tmpfs", Some("virtual filesystem"), None),
        view("/var/lib/Docker/overlay2/x", "overlay", Some("container overlay"), Some("0:45")),
        view("/System/Volumes/Preboot", "apfs", Some("macOS system-derived mount"), Some("apfs:main")),
    ];
    r
}

#[test]
fn explains_a_mount_by_its_filesystem() {
    let text = render(&report(), "TMPFS").unwrap();
    assert_eq!(
        text,
        "Temporary memory filesystem\n\nType\n  virtual filesystem\n\nBacked by\n  memory or system storage\n\nIndependent disk\n  No\n\nWhy it exists\n  This mount is provided by the operating system.\n\nDisk usage\n  Its capacity is not counted as an additional disk.\n"
    );
}

#[test]
fn explains_a_mount_whose_target_contains_the_query() {
    let text = render(&report(), "docker").unwrap();
    assert!(text.starts_with("Docker overlay\n\nType\n  container overlay\n\nBacked by\n  0:45\n"), "{text}");
    let text = render(&report(), "preboot").unwrap();
    assert!(text.starts_with("macOS system-derived mount\n\nType\n  macOS system-derived mount\n\nBacked by\n  apfs:main\n"), "{text}");
}

#[test]
fn tmpfs_is_explained_even_without_a_tmpfs_mount() {
    let text = render(&StorageReport::empty(), "tmpfs").unwrap();
    assert!(text.starts_with("Temporary memory filesystem\n\nIndependent disk\n  No\n"), "{text}");
    assert!(text.contains("tmpfs stores temporary data in memory"), "{text}");
}

#[test]
fn unmatched_query_is_an_error_naming_it() {
    let e = render(&report(), "Nowhere").unwrap_err();
    assert_eq!(e, ExplainError::NoMatch("Nowhere".to_string()));
    assert_eq!(e.message(), "No mount or category matches 'Nowhere'");
}

#[test]
fn lowered_forms_decide_the_match() {
    let r = report();
    let lowered = vec![
        ("/dev/shm".to_string(), "tmpfs".to_string()),
        ("/var/lib/docker/overlay2/x".to_string(), "overlay".to_string()),
        ("/system/volumes/preboot".to_string(), "apfs".to_string()),
    ];
    assert!(render_lowered(&r, "X", "apfs", &lowered).unwrap().starts_with("macOS system-derived mount"));
    assert_eq!(
        render_lowered(&r, "X", "zzz", &lowered),
        Err(ExplainError::NoMatch("X".to_string()))
    );
}

#[test]
fn every_hidden_mount_can_be_asked_about() {
    let r = report();
    for m in &r.hidden_mounts {
        assert!(render(&r, &m.target).is_ok(), "{}", m.target);
        assert!(render(&r, &m.filesystem.to_uppercase()).is_ok(), "{}", m.filesystem);
    }
}
