use space::classify::known_rules;
use space::model::{Confidence, Estimate, Reclaimability};
use space::platform::{Discovery, FilesystemStats, RawMount};
use space::scan::{measurements_fit, owning_volume_index, scan_report, WalkEvent, WalkStep, WalkTally};
use space::storage::topology::normalize_for_environment;

fn mount(device: &str, filesystem: &str, target: &str, total: u64, used: u64) -> RawMount {
    RawMount {
        mount_id: 1,
        parent_id: 0,
        device_id: device.into(),
        root: "/".into(),
        target: target.into(),
        mount_options: vec![],
        filesystem: filesystem.into(),
        source: device.into(),
        super_options: vec![],
        stats: Some(FilesystemStats {
            total_bytes: total,
            used_bytes: used,
            available_bytes: total - used,
        }),
        stats_error: None,
        backing_id: Some(device.into()),
        volume_name: None,
        removable: false,
    }
}

fn discovery() -> Discovery {
    Discovery {
        mounts: vec![
            mount("0:53", "nfs4", "/home/me", 150_000, 70_000),
            mount("8:1", "ext4", "/", 230_000, 14_000),
            mount("8:32", "xfs", "/workspace", 549_000, 95_000),
        ],
        warnings: vec![],
    }
}

#[test]
fn known_rules_cover_personal_and_developer_locations() {
    let rules = known_rules("/home/me");
    let names: Vec<_> = rules.iter().map(|r| r.name).collect();
    assert_eq!(
        names,
        ["Downloads", "Documents", "Photos", "Rust", "Gradle", "npm", "Android", "Nix", "Homebrew"]
    );
    assert_eq!(rules[2].path, "/home/me/Pictures");
    assert_eq!(rules[2].category, "Personal");
    assert_eq!(rules[2].reclaimability, Reclaimability::UserOwned);
    assert_eq!(rules[6].path, "/home/me/Android/Sdk");
    assert_eq!(rules[6].category, "Developer");
    assert_eq!(rules[6].reclaimability, Reclaimability::Cache);
    assert!(rules.iter().all(|r| r.confidence == Confidence::High));
    assert_eq!(known_rules("/root/")[0].path, "/root/Downloads");
    assert_eq!(known_rules("")[3].path, ".cargo");
}

#[test]
fn paths_go_to_the_volume_with_the_longest_mount() {
    let report = normalize_for_environment(discovery(), false);
    let name = |p: &str| owning_volume_index(&report, p).map(|i| report.storage[i].representative_mount.clone());
    assert_eq!(name("/home/me/.cargo").as_deref(), Some("/home/me"));
    assert_eq!(name("/home/meat").as_deref(), Some("/"));
    assert_eq!(name("/workspace/x/y").as_deref(), Some("/workspace"));
    assert_eq!(name("relative/path"), None);
}

#[test]
fn scan_places_measured_locations_and_the_remainder() {
    let mut report = normalize_for_environment(discovery(), false);
    let rules = known_rules("/home/me");
    let mut found = vec![None; rules.len()];
    found[0] = Some(Estimate::exact(1_000));
    found[3] = Some(Estimate::lower_bound(2_500, 2));
    assert!(measurements_fit(&report, &rules, &found));
    scan_report(&mut report, &rules, &found);
    let home = report
        .storage
        .iter()
        .find(|v| v.representative_mount == "/home/me")
        .unwrap();
    let names: Vec<_> = home.categories.iter().map(|c| c.name.as_str()).collect();
    assert_eq!(names, ["Downloads", "Rust", "Other"]);
    assert_eq!(home.categories[0].path, vec!["Personal".to_string(), "Downloads".to_string()]);
    assert_eq!(home.categories[1].estimate, Estimate::lower_bound(2_500, 2));
    assert_eq!(home.categories[1].reclaimability, Reclaimability::Cache);
    assert_eq!(home.categories[2].path, vec!["Other".to_string()]);
    assert_eq!(home.categories[2].estimate, Estimate::exact(70_000 - 3_500));
    assert_eq!(home.categories[2].confidence, Confidence::Unknown);
    let total: u64 = home.categories.iter().map(|c| c.estimate.bytes).sum();
    assert_eq!(total, home.used_bytes);
    for v in report.storage.iter().filter(|v| v.representative_mount != "/home/me") {
        assert!(v.categories.is_empty());
    }
}

#[test]
fn remainder_is_empty_when_named_sizes_exceed_the_used_bytes() {
    let mut report = normalize_for_environment(discovery(), false);
    let rules = known_rules("/home/me");
    let mut found = vec![None; rules.len()];
    found[1] = Some(Estimate::exact(90_000));
    scan_report(&mut report, &rules, &found);
    let home = report.storage.iter().find(|v| v.representative_mount == "/home/me").unwrap();
    assert_eq!(home.categories.len(), 2);
    assert_eq!(home.categories[1].estimate.bytes, 0);
}

#[test]
fn locations_outside_every_volume_are_dropped() {
    let mut report = normalize_for_environment(discovery(), false);
    let rules = known_rules("");
    let found = vec![Some(Estimate::exact(5)); rules.len()];
    scan_report(&mut report, &rules, &found);
    assert!(report.storage.iter().all(|v| v.categories.is_empty()));
}

#[test]
fn sizes_that_overflow_are_refused_before_the_scan() {
    let report = normalize_for_environment(discovery(), false);
    let rules = known_rules("/home/me");
    let mut found = vec![None; rules.len()];
    found[0] = Some(Estimate::exact(u64::MAX));
    assert!(measurements_fit(&report, &rules, &found));
    found[1] = Some(Estimate::exact(1));
    assert!(!measurements_fit(&report, &rules, &found));
}

#[test]
fn walk_tally_counts_files_and_unreadable_paths() {
    let mut t = WalkTally::new();
    assert_eq!(t.record(WalkEvent::Directory), WalkStep::Descend);
    assert_eq!(t.record(WalkEvent::File(100)), WalkStep::Continue);
    assert_eq!(t.record(WalkEvent::Symlink), WalkStep::Continue);
    assert_eq!(t.record(WalkEvent::File(23)), WalkStep::Continue);
    assert_eq!(t.estimate(), Estimate::exact(123));
    assert_eq!(t.record(WalkEvent::UnreadableEntry), WalkStep::Continue);
    assert_eq!(t.record(WalkEvent::UnlistableDirectory), WalkStep::Stop);
    assert_eq!(t.record(WalkEvent::OutOfTime), WalkStep::Stop);
    assert_eq!(t.estimate(), Estimate::lower_bound(123, 3));
    assert_eq!(WalkTally::new().estimate(), Estimate::exact(0));
}
