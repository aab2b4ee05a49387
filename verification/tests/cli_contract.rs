use space::app::{answer, run, RunError, RunOutput};
use space::classify::known_rules;
use space::model::Estimate;
use space::platform::{FilesystemStats, RawMount};
use space::storage::topology::{is_container_environment, normalize, normalize_for_environment};
use space::cli::{Cli, OutputMode, ScanMode};
use space::explain::ExplainError;
use space::model::StorageReport;
use space::platform::{discover, DiscoveryError, MountTable};

fn cli() -> Cli {
    Cli {
        all: false,
        why: None,
        reclaimable: false,
        json: false,
        no_scan: false,
    }
}

#[test]
fn flags_select_output_and_scan_modes() {
    assert_eq!(cli().output_mode(), OutputMode::Terminal);
    assert_eq!(cli().scan_mode(), ScanMode::KnownPaths);
    assert_eq!(Cli { json: true, ..cli() }.output_mode(), OutputMode::Json);
    assert_eq!(Cli { no_scan: true, ..cli() }.scan_mode(), ScanMode::Skip);
    assert_eq!(Cli { why: Some("tmpfs".into()), ..cli() }.scan_mode(), ScanMode::Skip);
}

#[test]
fn run_answers_the_query_the_json_or_the_dashboard() {
    let report = StorageReport::empty();
    let why = Cli { why: Some("tmpfs".into()), json: true, ..cli() };
    match run(&why, &report, None, false, false, None) {
        Ok(RunOutput::Text(t)) => assert!(t.starts_with("Temporary memory filesystem")),
        other => panic!("{other:?}"),
    }
    let unknown = Cli { why: Some("nothing".into()), ..cli() };
    assert_eq!(
        run(&unknown, &report, None, false, false, None),
        Err(ExplainError::NoMatch("nothing".into()))
    );
    assert_eq!(
        run(&Cli { json: true, ..cli() }, &report, None, false, false, None),
        Ok(RunOutput::Json)
    );
    assert_eq!(
        run(&cli(), &report, Some("dumb"), false, true, None),
        Ok(RunOutput::Text("\n0 system mounts hidden | --all details | --why explain\n".into()))
    );
}

#[test]
fn unsupported_systems_are_refused() {
    let e = discover(MountTable::Unsupported).unwrap_err();
    assert_eq!(e, DiscoveryError::UnsupportedOs);
    assert_eq!(e.message(), "unsupported operating system");
}

fn discovery() -> space::platform::Discovery {
    let mount = |device: &str, fs: &str, target: &str| RawMount {
        mount_id: 1,
        parent_id: 0,
        device_id: device.into(),
        root: "/".into(),
        target: target.into(),
        mount_options: vec![],
        filesystem: fs.into(),
        source: device.into(),
        super_options: vec![],
        stats: Some(FilesystemStats {
            total_bytes: 100_000,
            used_bytes: 60_000,
            available_bytes: 40_000,
        }),
        stats_error: None,
        backing_id: Some(device.into()),
        volume_name: None,
        removable: false,
    };
    space::platform::Discovery {
        mounts: vec![mount("8:1", "ext4", "/"), mount("0:5", "tmpfs", "/dev/shm")],
        warnings: vec![],
    }
}

#[test]
fn answer_runs_discovery_normalization_scan_and_output() {
    let rules = known_rules("/home/me");
    let none = vec![None; rules.len()];
    assert_eq!(
        answer(&cli(), Err(DiscoveryError::UnsupportedOs), false, &rules, &none, None, false, false, None),
        Err(RunError::Discovery(DiscoveryError::UnsupportedOs))
    );
    let mut found = none.clone();
    found[3] = Some(Estimate::exact(1_000));
    match answer(&Cli { json: true, ..cli() }, Ok(discovery()), false, &rules, &found, None, false, false, None) {
        Ok((RunOutput::Json, report)) => {
            let names: Vec<_> = report.storage[0].categories.iter().map(|c| c.name.clone()).collect();
            assert_eq!(names, ["Rust".to_string(), "Other".to_string()]);
            assert_eq!(report.hidden_mounts.len(), 1);
        }
        other => panic!("{other:?}"),
    }
    match answer(&Cli { json: true, no_scan: true, ..cli() }, Ok(discovery()), false, &rules, &found, None, false, false, None) {
        Ok((RunOutput::Json, report)) => assert!(report.storage[0].categories.is_empty()),
        other => panic!("{other:?}"),
    }
    match answer(&Cli { why: Some("SHM".into()), ..cli() }, Ok(discovery()), false, &rules, &found, None, false, false, None) {
        Ok((RunOutput::Text(t), report)) => {
            assert!(t.starts_with("Temporary memory filesystem\n\nType\n  virtual filesystem"), "{t}");
            assert!(report.storage[0].categories.is_empty());
        }
        other => panic!("{other:?}"),
    }
    let mut huge = none.clone();
    huge[3] = Some(Estimate::exact(u64::MAX));
    huge[4] = Some(Estimate::exact(1));
    assert_eq!(
        answer(&cli(), Ok(discovery()), false, &rules, &huge, None, false, false, None),
        Err(RunError::Overflow)
    );
    match answer(&cli(), Ok(discovery()), false, &rules, &found, Some("dumb"), false, false, None) {
        Ok((RunOutput::Text(t), _)) => assert!(t.starts_with("Main disk"), "{t}"),
        other => panic!("{other:?}"),
    }
}

#[test]
fn normalizing_is_normalizing_for_the_judged_environment() {
    for marker in [false, true] {
        let d = discovery();
        let judged = is_container_environment(&d, marker);
        assert_eq!(normalize(discovery(), marker), normalize_for_environment(d, judged));
    }
}
