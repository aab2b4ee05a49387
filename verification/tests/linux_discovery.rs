use space::platform::linux::{discover, filesystem_stats, parse_mountinfo, MountinfoError};
use space::platform::{Discovery, FilesystemStats, MountTable};
use space::storage::topology::normalize;
use space::lex::NumberError;
use space::binary64::from_u64;

fn fixture(input: &str) -> Discovery {
    let mut mounts = parse_mountinfo(input).unwrap();
    for m in &mut mounts {
        let (t, u) = if m.device_id == "259:2" {
            (1_000, 650)
        } else {
            (2_000, 1_000)
        };
        m.stats = Some(FilesystemStats {
            total_bytes: t,
            used_bytes: u,
            available_bytes: t - u,
        });
        m.backing_id = Some(m.device_id.clone());
    }
    Discovery {
        mounts,
        warnings: vec![],
    }
}

#[test]
fn virtual_and_duplicate_views_are_not_disks() {
    let text = "29 1 259:2 / / rw - ext4 /dev/nvme0n1p2 rw\n30 29 0:5 / /proc rw - proc proc rw\n31 29 0:45 / /docker rw - overlay overlay rw\n32 29 259:2 /home /home rw - ext4 /dev/nvme0n1p2 rw\n40 29 8:1 / /mnt/data rw - mysteryfs /dev/sda1 rw";
    let r = normalize(fixture(text), false);
    assert_eq!(r.storage.len(), 2);
    assert_eq!(r.hidden_mounts.len(), 2);
    assert_eq!(
        r.storage
            .iter()
            .find(|v| v.id.contains("259:2"))
            .unwrap()
            .used_percent
            .value(),
        from_u64(65)
    );
    assert!(r.storage.iter().any(|v| v.filesystem == "mysteryfs"));
}

#[test]
fn decodes_proc_mount_escapes() {
    let m = parse_mountinfo("1 0 8:1 / /mnt/My\\040Disk rw - ext4 /dev/sda1 rw").unwrap();
    assert_eq!(m[0].target, "/mnt/My Disk");
}

#[test]
fn decodes_every_mountinfo_escape() {
    let m = parse_mountinfo("1 0 8:1 /a\\011b /x\\012y\\134z rw - ext4 /dev/s\\040a rw,relatime").unwrap();
    assert_eq!(m[0].root, "/a\tb");
    assert_eq!(m[0].target, "/x\ny\\z");
    assert_eq!(m[0].source, "/dev/s a");
    assert_eq!(m[0].super_options, vec!["rw".to_string(), "relatime".to_string()]);
}

#[test]
fn reads_every_field_of_a_mountinfo_line() {
    let m = parse_mountinfo("36 35 98:0 /mnt1 /mnt2 rw,noatime master:1 - ext3 /dev/root rw,errors=continue").unwrap();
    assert_eq!(m.len(), 1);
    assert_eq!(m[0].mount_id, 36);
    assert_eq!(m[0].parent_id, 35);
    assert_eq!(m[0].device_id, "98:0");
    assert_eq!(m[0].root, "/mnt1");
    assert_eq!(m[0].target, "/mnt2");
    assert_eq!(m[0].mount_options, vec!["rw".to_string(), "noatime".to_string()]);
    assert_eq!(m[0].filesystem, "ext3");
    assert_eq!(m[0].source, "/dev/root");
    assert_eq!(m[0].stats, None);
    assert_eq!(m[0].backing_id, None);
    assert!(!m[0].removable);
}

#[test]
fn mountinfo_errors_name_the_first_bad_line() {
    assert_eq!(
        parse_mountinfo("1 0 8:1 / / rw - ext4 /dev/sda1 rw\n2 1 8:2 / /x rw ext4"),
        Err(MountinfoError::MissingSeparator(2))
    );
    assert_eq!(
        parse_mountinfo("1 0 8:1 / / - ext4 /dev/sda1 rw"),
        Err(MountinfoError::Incomplete(1))
    );
    assert_eq!(
        parse_mountinfo("1 0 8:1 / / rw - ext4 /dev/sda1"),
        Err(MountinfoError::Incomplete(1))
    );
    assert_eq!(
        parse_mountinfo("x 0 8:1 / / rw - ext4 /dev/sda1 rw"),
        Err(MountinfoError::InvalidNumber(NumberError::InvalidDigit))
    );
    assert_eq!(
        parse_mountinfo("1 99999999999999999999 8:1 / / rw - ext4 /dev/sda1 rw"),
        Err(MountinfoError::InvalidNumber(NumberError::TooLarge))
    );
    assert_eq!(parse_mountinfo("").map(|m| m.len()), Ok(0));
}

#[test]
fn statvfs_figures_become_capacities() {
    assert_eq!(
        filesystem_stats(100, 40, 30, 4096, 0),
        FilesystemStats {
            total_bytes: 409_600,
            used_bytes: 245_760,
            available_bytes: 122_880,
        }
    );
    assert_eq!(
        filesystem_stats(100, 40, 30, 4096, 512),
        FilesystemStats {
            total_bytes: 51_200,
            used_bytes: 30_720,
            available_bytes: 15_360,
        }
    );
    assert_eq!(filesystem_stats(u64::MAX, 1, 1, 2, 0).total_bytes, u64::MAX);
}

#[test]
fn linux_discovery_records_capacity_backing_and_removability() {
    let mounts = parse_mountinfo(
        "1 0 8:1 / / rw - ext4 /dev/sda1 rw\n2 1 8:17 / /media/usb rw - vfat /dev/sdb1 rw\n3 1 8:33 / /run/media/me/x rw - vfat /dev/sdc1 rw\n4 1 8:49 / /mediax rw - vfat /dev/sdd1 rw",
    )
    .unwrap();
    let s = FilesystemStats {
        total_bytes: 10,
        used_bytes: 4,
        available_bytes: 6,
    };
    let d = discover(
        mounts,
        vec![Ok(s), Err("denied".to_string()), Ok(s), Ok(s)],
    );
    assert_eq!(d.mounts.len(), 4);
    assert_eq!(d.mounts[0].stats, Some(s));
    assert_eq!(d.mounts[1].stats, None);
    assert_eq!(d.mounts[1].stats_error.as_deref(), Some("denied"));
    assert_eq!(d.mounts[0].backing_id.as_deref(), Some("8:1"));
    assert!(!d.mounts[0].removable);
    assert!(d.mounts[1].removable);
    assert!(d.mounts[2].removable);
    assert!(!d.mounts[3].removable);
    assert!(d.warnings.is_empty());

    let again = space::platform::discover(MountTable::Linux {
        mounts: parse_mountinfo("1 0 8:1 / / rw - ext4 /dev/sda1 rw").unwrap(),
        stats: vec![Ok(s)],
    })
    .unwrap();
    assert_eq!(again.mounts[0].stats, Some(s));
}
