use space::{
    model::{Confidence, Estimate, MountView, Percent, Reclaimability, SemanticCategory},
    output::terminal::{can_render, format_bytes, render, render_options, render_with_options, RenderOptions},
    platform::{Discovery, FilesystemStats, RawMount},
    storage::topology::normalize_for_environment,
};

fn mount(device: &str, filesystem: &str, target: &str, total: u64, used: u64) -> RawMount {
    RawMount {
        mount_id: 1,
        parent_id: 0,
        device_id: device.into(),
        root: "/".into(),
        target: target.into(),
        mount_options: vec![],
        filesystem: filesystem.into(),
        source: device.into(),
        super_options: vec![],
        stats: Some(FilesystemStats {
            total_bytes: total,
            used_bytes: used,
            available_bytes: total - used,
        }),
        stats_error: None,
        backing_id: Some(device.into()),
        volume_name: None,
        removable: false,
    }
}

#[test]
fn workspace_and_separate_home_identify_a_container_environment() {
    assert!(space::storage::topology::is_container_environment(
        &container_discovery(),
        false,
    ));
}

#[test]
fn semantic_paths_belong_to_their_longest_mount_prefix() {
    let report = normalize_for_environment(container_discovery(), true);
    let index = space::scan::owning_volume_index(&report, "/home/cesarferreira/.cargo/registry");

    assert_eq!(index.map(|i| report.storage[i].name.as_str()), Some("Home"));
}

fn container_discovery() -> Discovery {
    Discovery {
        mounts: vec![
            mount("0:20", "configfs", "/sys/kernel/config", 0, 0),
            mount("0:22", "mqueue", "/dev/mqueue", 0, 0),
            mount(
                "0:51",
                "fuse",
                "/mnt/remote/azure_session_dir",
                173_200_000_000,
                4_100,
            ),
            mount(
                "0:53",
                "nfs4",
                "/home/cesarferreira",
                150_300_000_000,
                70_800_000_000,
            ),
            mount("259:0", "ext4", "/boot", 923_000_000, 122_000_000),
            mount("8:1", "ext4", "/", 230_800_000_000, 14_500_000_000),
            mount("8:17", "ext4", "/mnt", 315_900_000_000, 41_000),
            mount("8:32", "xfs", "/workspace", 549_600_000_000, 95_700_000_000),
        ],
        warnings: vec![],
    }
}

fn category(name: &str, parent: &str, bytes: u64) -> SemanticCategory {
    SemanticCategory {
        name: name.into(),
        path: vec![parent.into(), name.into()],
        estimate: Estimate::exact(bytes),
        confidence: Confidence::Exact,
        reclaimability: Reclaimability::Unknown,
        children: vec![],
    }
}

#[test]
fn hybrid_output_is_compact_and_groups_semantic_children() {
    let mut report = normalize_for_environment(container_discovery(), true);
    report.storage[0].categories = vec![
        category("Rust", "Developer", 1_900_000_000),
        category("Gradle", "Developer", 900_700_000),
        category("Android", "Developer", 2_700_000_000),
        category("Other", "Other", 65_300_000_000),
    ];
    let text = render_with_options(
        &report,
        false,
        RenderOptions {
            ascii: false,
            color: false,
            width: 80,
        },
    );

    let expected = [
        "Home               70.8 / 150.3 GB  47.1%  ██████░░░░░░  79.5 GB free\n\n",
        "  Developer     5.5 GB\n",
        "    Android     2.7 GB\n",
        "    Rust        1.9 GB\n",
        "  Other         65.3 GB\n\n",
        "Workspace          95.7 / 549.6 GB  17.4%  ██░░░░░░░░░░  453.9 GB free\n",
        "Container root     14.5 / 230.8 GB   6.3%  █░░░░░░░░░░░  216.3 GB free\n",
        "Mounted data    41.0 KB / 315.9 GB   0.0%  ░░░░░░░░░░░░  315.9 GB free\n\n",
        "4 system mounts hidden · --all details · --why explain\n",
        "⚠ Container environment: visible storage may not be physical disks.\n",
    ]
    .concat();
    assert_eq!(text, expected);
}

#[test]
fn usage_bars_use_green_yellow_and_red_thresholds() {
    let mut report = normalize_for_environment(container_discovery(), true);
    report.storage[0].used_percent = Percent { used: 471, total: 1000 };
    report.storage[1].used_percent = Percent { used: 750, total: 1000 };
    report.storage[2].used_percent = Percent { used: 900, total: 1000 };
    let text = render_with_options(
        &report,
        false,
        RenderOptions {
            ascii: false,
            color: true,
            width: 80,
        },
    );

    assert!(text.contains("\u{1b}[32m"));
    assert!(text.contains("\u{1b}[33m"));
    assert!(text.contains("\u{1b}[31m"));
    assert!(text.contains("\u{1b}[32m██████\u{1b}[0m\u{1b}[2m░░░░░░\u{1b}[0m"));
}

#[test]
fn narrow_dashboard_never_exceeds_the_terminal_width() {
    let mut report = normalize_for_environment(container_discovery(), true);
    report.storage[0].categories = vec![
        category("Android development tools", "Developer", 2_700_000_000),
        category("Other", "Other", 68_100_000_000),
    ];

    let text = render_with_options(
        &report,
        false,
        RenderOptions {
            ascii: false,
            color: false,
            width: 48,
        },
    );

    assert!(
        text.lines().all(|line| line.chars().count() <= 48),
        "{text}"
    );
    assert!(text.contains("Developer"), "{text}");
    assert!(text.contains("\n    Android development tools"), "{text}");
    assert!(text.contains('…'), "{text}");
}

#[test]
fn container_output_contains_only_meaningful_storage_roles() {
    let report = normalize_for_environment(container_discovery(), true);
    let names: Vec<_> = report
        .storage
        .iter()
        .map(|volume| volume.name.as_str())
        .collect();

    assert_eq!(
        names,
        ["Home", "Workspace", "Container root", "Mounted data"]
    );
    assert_eq!(report.hidden_mounts.len(), 4);
}

#[test]
fn byte_counts_use_decimal_units_with_one_decimal() {
    assert_eq!(format_bytes(0), "0 B");
    assert_eq!(format_bytes(999), "999 B");
    assert_eq!(format_bytes(1_000), "1.0 KB");
    assert_eq!(format_bytes(41_000), "41.0 KB");
    assert_eq!(format_bytes(1_240_000), "1.2 MB");
    assert_eq!(format_bytes(1_260_000), "1.3 MB");
    assert_eq!(format_bytes(70_800_000_000), "70.8 GB");
    assert_eq!(format_bytes(999_999_999_999), "1000.0 GB");
    assert_eq!(format_bytes(1_500_000_000_000), "1.5 TB");
}

#[test]
fn environment_decides_ascii_color_and_width() {
    let dumb = render_options(Some("dumb"), false, true, None);
    assert!(dumb.ascii && !dumb.color);
    assert_eq!(dumb.width, 80);
    let plain = render_options(Some("xterm"), true, true, Some("120"));
    assert!(!plain.ascii && !plain.color);
    assert_eq!(plain.width, 120);
    let piped = render_options(None, false, false, Some("abc"));
    assert!(!piped.color);
    assert_eq!(piped.width, 80);
    let tty = render_options(Some("xterm"), false, true, Some("+60"));
    assert!(tty.color);
    assert_eq!(tty.width, 60);
}

#[test]
fn dumb_terminal_dashboard_is_ascii() {
    let mut report = normalize_for_environment(container_discovery(), true);
    report.storage[0].categories = vec![
        category("Android development tools", "Developer", 2_700_000_000),
        category("Other", "Other", 68_100_000_000),
    ];
    assert!(can_render(&report));
    let text = render(&report, true, Some("dumb"), false, true, Some("40"));
    assert!(text.contains('#'), "{text}");
    for unicode in ['█', '░', '·', '…', '⚠', '├'] {
        assert!(!text.contains(unicode), "found {unicode:?} in {text}");
    }
    assert!(text.contains("|- /dev/mqueue  virtual filesystem\n"), "{text}");
    assert!(text.lines().all(|line| line.chars().count() <= 40), "{text}");
}

#[test]
fn full_listing_names_each_hidden_mount_and_its_reason() {
    let report = normalize_for_environment(container_discovery(), true);
    let text = render_with_options(
        &report,
        true,
        RenderOptions {
            ascii: false,
            color: false,
            width: 100,
        },
    );
    assert!(text.contains("├─ /boot  system partition\n"), "{text}");
    assert!(text.contains("├─ /mnt/remote/azure_session_dir  temporary session mount\n"), "{text}");
    assert!(text.contains("├─ /dev/mqueue  virtual filesystem\n"), "{text}");
}

#[test]
fn dashboard_requires_group_totals_to_fit() {
    let mut report = normalize_for_environment(container_discovery(), true);
    report.storage[0].categories = vec![
        category("A", "Developer", u64::MAX),
        category("B", "Developer", 1),
    ];
    assert!(!can_render(&report));
    report.storage[0].categories = vec![SemanticCategory {
        path: vec![],
        ..category("A", "Developer", 1)
    }];
    assert!(!can_render(&report));
    report.storage[0].categories = vec![category("A", "Developer", u64::MAX), category("Other", "Other", 1)];
    assert!(can_render(&report));
}

#[test]
fn hidden_mount_view_keeps_the_mount_figures() {
    let report = normalize_for_environment(container_discovery(), true);
    let boot: &MountView = report.hidden_mounts.iter().find(|m| m.target == "/boot").unwrap();
    assert_eq!(boot.filesystem, "ext4");
    assert_eq!(boot.total_bytes, 923_000_000);
    assert_eq!(boot.used_bytes, 122_000_000);
    assert_eq!(boot.hidden_reason.as_deref(), Some("system partition"));
    assert!(!boot.independent);
}

#[test]
fn each_backing_storage_is_one_volume() {
    let mut d = container_discovery();
    d.mounts.push(mount("8:32", "xfs", "/workspace/cache", 549_600_000_000, 95_700_000_000));
    let report = normalize_for_environment(d, true);
    let mut ids: Vec<_> = report.storage.iter().map(|v| v.id.clone()).collect();
    ids.sort();
    ids.dedup();
    assert_eq!(ids.len(), report.storage.len());
    let workspace = report.storage.iter().find(|v| v.name == "Workspace").unwrap();
    assert_eq!(workspace.mounts, vec!["/workspace".to_string(), "/workspace/cache".to_string()]);
    assert_eq!(report.mount_count, 9);
    assert_eq!(report.independent_storage_count, 4);
}
