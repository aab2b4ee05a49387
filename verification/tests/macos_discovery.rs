use space::platform::macos::{apfs_info, discover, parse_apfs_list, ApfsListError, MountTableEntry};
use space::platform::{Discovery, FilesystemStats, MountTable, RawMount};
use space::storage::topology::normalize_for_environment;

const APFS_LIST: &[u8] = br#"<?xml version="1.0" encoding="UTF-8"?>
<!DOCTYPE plist PUBLIC "-//Apple//DTD PLIST 1.0//EN" "http://www.apple.com/DTDs/PropertyList-1.0.dtd">
<plist version="1.0">
<dict>
  <key>Containers</key>
  <array>
    <dict>
      <key>APFSContainerUUID</key><string>AAAAAAAA-BBBB-CCCC-DDDD-EEEEEEEEEEEE</string>
      <key>ContainerReference</key><string>disk3</string>
      <key>Volumes</key>
      <array>
        <dict>
          <key>DeviceIdentifier</key><string>disk3s1</string>
          <key>Name</key><string>Macintosh HD</string>
          <key>Roles</key><array><string>System</string></array>
        </dict>
        <dict>
          <key>DeviceIdentifier</key><string>disk3s5</string>
          <key>Roles</key><array><string>Data</string></array>
        </dict>
      </array>
    </dict>
  </array>
</dict>
</plist>"#;

#[test]
fn apfs_views_share_their_container_identity() {
    let volumes = parse_apfs_list(APFS_LIST).expect("parse diskutil plist");

    assert_eq!(
        volumes.get("disk3s1").unwrap().backing_id,
        "apfs:AAAAAAAA-BBBB-CCCC-DDDD-EEEEEEEEEEEE"
    );
    assert_eq!(
        volumes.get("disk3s5").unwrap().backing_id,
        volumes.get("disk3s1").unwrap().backing_id
    );
    assert_eq!(volumes.get("disk3s5").unwrap().roles, vec!["Data"]);
    assert_eq!(
        volumes.get("disk3s1").unwrap().name.as_deref(),
        Some("Macintosh HD")
    );
}

fn entry(source: &str, target: &str, filesystem: &str) -> MountTableEntry {
    MountTableEntry {
        source: source.to_owned(),
        filesystem: filesystem.to_owned(),
        target: target.to_owned(),
        block_size: 4096,
        blocks: 1_000,
        free_blocks: 400,
        available_blocks: 300,
    }
}

#[test]
fn native_discovery_returns_the_root_mount() {
    let discovery = space::platform::discover(MountTable::Macos {
        entries: vec![
            entry("/dev/disk3s1s1", "/", "apfs"),
            entry("devfs", "/dev", "devfs"),
        ],
        apfs: parse_apfs_list(APFS_LIST).map_err(|e| format!("{e:?}")),
    })
    .expect("discover macOS mounts");

    assert!(discovery.mounts.iter().any(|mount| mount.target == "/"));
}

fn mount(source: &str, target: &str, filesystem: &str, backing_id: &str) -> RawMount {
    RawMount {
        mount_id: 1,
        parent_id: 0,
        device_id: source.trim_start_matches("/dev/").to_owned(),
        root: "/".to_owned(),
        target: target.to_owned(),
        mount_options: vec![],
        filesystem: filesystem.to_owned(),
        source: source.to_owned(),
        super_options: vec![],
        stats: Some(FilesystemStats {
            total_bytes: 1_000,
            used_bytes: 600,
            available_bytes: 400,
        }),
        stats_error: None,
        backing_id: Some(backing_id.to_owned()),
        volume_name: None,
        removable: false,
    }
}

#[test]
fn derived_macos_mounts_are_hidden_from_primary_storage() {
    let discovery = Discovery {
        mounts: vec![
            mount("/dev/disk3s1s1", "/", "apfs", "apfs:main"),
            mount(
                "/dev/disk1s2",
                "/System/Volumes/xarts",
                "apfs",
                "apfs:firmware",
            ),
            mount(
                "/dev/disk9s1",
                "/private/var/run/com.apple.security.cryptexd/mnt/runtime",
                "apfs",
                "apfs:cryptex",
            ),
            mount(
                "/Users/me/Downloads/App.app",
                "/private/var/folders/xx/T/AppTranslocation/ABC",
                "nullfs",
                "/Users/me/Downloads/App.app",
            ),
        ],
        warnings: vec![],
    };

    let report = normalize_for_environment(discovery, false);

    assert_eq!(report.storage.len(), 1);
    assert_eq!(report.storage[0].representative_mount, "/");
    assert_eq!(report.hidden_mounts.len(), 3);
}

#[test]
fn native_root_label_names_the_primary_volume() {
    let mut root = mount("/dev/disk3s1s1", "/", "apfs", "apfs:main");
    root.volume_name = Some("Macintosh HD".to_owned());
    let mut external = mount("/dev/disk36s1", "/Volumes/External", "hfs", "/dev/disk36s1");
    external.volume_name = Some("External".to_owned());

    let report = normalize_for_environment(
        Discovery {
            mounts: vec![external, root],
            warnings: vec![],
        },
        false,
    );

    assert_eq!(report.storage[0].name, "Macintosh HD");
    assert_eq!(report.storage[1].name, "External");
}

#[test]
fn apfs_listing_errors() {
    assert_eq!(parse_apfs_list(b"not a plist").err(), Some(ApfsListError::Parse));
    let no_containers: &[u8] = br#"<?xml version="1.0" encoding="UTF-8"?>
<plist version="1.0"><dict><key>Other</key><array/></dict></plist>"#;
    assert_eq!(
        parse_apfs_list(no_containers).err(),
        Some(ApfsListError::NoContainers)
    );
}

#[test]
fn apfs_reference_stands_in_for_a_missing_uuid_and_later_entries_win() {
    let listing: &[u8] = br#"<?xml version="1.0" encoding="UTF-8"?>
<plist version="1.0"><dict><key>Containers</key><array>
  <dict><key>ContainerReference</key><string>disk5</string>
    <key>Volumes</key><array>
      <dict><key>DeviceIdentifier</key><string>disk5s1</string></dict>
      <string>not a volume</string>
      <dict><key>Name</key><string>no device</string></dict>
    </array></dict>
  <dict><key>Volumes</key><array>
      <dict><key>DeviceIdentifier</key><string>disk9s1</string></dict>
    </array></dict>
  <dict><key>APFSContainerUUID</key><string>U2</string>
    <key>Volumes</key><array>
      <dict><key>DeviceIdentifier</key><string>disk5s1</string><key>Name</key><string>Later</string></dict>
    </array></dict>
</array></dict></plist>"#;
    let volumes = parse_apfs_list(listing).unwrap();
    assert_eq!(volumes.len(), 1);
    let info = volumes.get("disk5s1").unwrap();
    assert_eq!(info.backing_id, "apfs:U2");
    assert_eq!(info.name.as_deref(), Some("Later"));
    assert!(info.roles.is_empty());
    assert!(volumes.get("disk9s1").is_none());
}

#[test]
fn a_slice_takes_the_apfs_identity_of_its_volume() {
    let volumes = parse_apfs_list(APFS_LIST).unwrap();
    let info = apfs_info("disk3s1s1", &volumes).unwrap();
    assert_eq!(info.name.as_deref(), Some("Macintosh HD"));
    assert!(apfs_info("disk3s1x", &volumes).is_none());
    assert!(apfs_info("disk3s1s", &volumes).is_none());
    assert!(apfs_info("disk4s1", &volumes).is_none());
}

#[test]
fn macos_discovery_enriches_mounts_with_apfs_identity() {
    let d = discover(
        vec![
            entry("/dev/disk3s1s1", "/", "apfs"),
            entry("map auto_home", "/System/Volumes/Data/home", "autofs"),
            entry("", "/nowhere", "nullfs"),
        ],
        parse_apfs_list(APFS_LIST).map_err(|e| format!("{e:?}")),
    );
    assert_eq!(d.mounts.len(), 3);
    assert_eq!(d.mounts[0].mount_id, 1);
    assert_eq!(d.mounts[0].device_id, "disk3s1s1");
    assert_eq!(
        d.mounts[0].backing_id.as_deref(),
        Some("apfs:AAAAAAAA-BBBB-CCCC-DDDD-EEEEEEEEEEEE")
    );
    assert_eq!(d.mounts[0].volume_name.as_deref(), Some("Macintosh HD"));
    assert_eq!(
        d.mounts[0].stats,
        Some(FilesystemStats {
            total_bytes: 4_096_000,
            used_bytes: 2_457_600,
            available_bytes: 1_228_800,
        })
    );
    assert_eq!(d.mounts[1].backing_id.as_deref(), Some("map auto_home"));
    assert_eq!(d.mounts[2].backing_id, None);
    assert!(d.warnings.is_empty());

    let without = discover(vec![entry("/dev/disk3s1s1", "/", "apfs")], Err("diskutil failed".to_string()));
    assert_eq!(without.warnings, vec!["APFS enrichment unavailable: diskutil failed".to_string()]);
    assert_eq!(without.mounts[0].backing_id.as_deref(), Some("/dev/disk3s1s1"));
}
