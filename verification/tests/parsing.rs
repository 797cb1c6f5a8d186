use ballast::disk::DeviceKind;
use ballast::disk_io::{parse_disk_stats, RawDiskStats};
use ballast::platform::{
    build_device, classify_block_device, first_mountpoint, is_loop_device, parse_mount_map,
    parse_partition_number, parse_removable, parse_sector_count, partition_kind, sectors_to_bytes, udev_db_path,
    udev_fs_type, used_bytes,
};

const DISKSTATS: &str = "   8       0 sda 4001 12 300000 2500 900 30 70000 4000 1 3000 6500 5 0 40 7 20 9\n   8       1 sda1 100 0 2000 50 10 0 80 4 0 60 54\n   7       0 loop0 1 2 3\n";

#[test]
fn diskstats_full_line_reads_every_counter() {
    let m = parse_disk_stats(DISKSTATS);
    let sda = m.get(&"sda".to_string()).expect("sda parsed");
    assert_eq!(
        *sda,
        RawDiskStats {
            reads_completed: 4001,
            reads_merged: 12,
            sectors_read: 300000,
            read_time_ms: 2500,
            writes_completed: 900,
            writes_merged: 30,
            sectors_written: 70000,
            write_time_ms: 4000,
            io_in_progress: 1,
            io_time_ms: 3000,
            weighted_io_time_ms: 6500,
            discards_completed: 5,
            discards_merged: 0,
            sectors_discarded: 40,
            discard_time_ms: 7,
            flushes_completed: 20,
            flush_time_ms: 9,
        }
    );
}

#[test]
fn diskstats_old_kernel_line_zero_fills_discard_and_flush() {
    let m = parse_disk_stats(DISKSTATS);
    let p = m.get(&"sda1".to_string()).expect("sda1 parsed");
    assert_eq!(p.reads_completed, 100);
    assert_eq!(p.weighted_io_time_ms, 54);
    assert_eq!(p.discards_completed, 0);
    assert_eq!(p.sectors_discarded, 0);
    assert_eq!(p.flushes_completed, 0);
    assert_eq!(p.flush_time_ms, 0);
}

#[test]
fn diskstats_short_line_skipped() {
    let m = parse_disk_stats(DISKSTATS);
    assert!(m.get(&"loop0".to_string()).is_none());
    assert_eq!(m.len(), 2);
}

#[test]
fn diskstats_later_line_wins_and_bad_numbers_read_zero() {
    let text = "8 0 sda 1 1 1 1 1 1 1 1 1 1 1\n8 0 sda 2 x 2 2 2 2 2 2 2 2 99999999999999999999\r\n";
    let m = parse_disk_stats(text);
    assert_eq!(m.len(), 1);
    let sda = m.get(&"sda".to_string()).unwrap();
    assert_eq!(sda.reads_completed, 2);
    assert_eq!(sda.reads_merged, 0);
    assert_eq!(sda.weighted_io_time_ms, 0);
    assert_eq!(sda.io_time_ms, 2);
}

#[test]
fn diskstats_empty_text_gives_empty_table() {
    assert_eq!(parse_disk_stats("").len(), 0);
    assert_eq!(parse_disk_stats("\n\n").len(), 0);
}

#[test]
fn diskstats_plus_sign_and_tabs() {
    let m = parse_disk_stats("259\t0\tnvme0n1\t+7 0 0 0 0 0 0 0 0 0 0");
    let d = m.get(&"nvme0n1".to_string()).unwrap();
    assert_eq!(d.reads_completed, 7);
}

const MOUNTS: &str = "sysfs /sys sysfs rw 0 0\n/dev/sda1 / ext4 rw,relatime 0 0\n/dev/sda1 /snap btrfs rw 0 0\n/dev/sdb2 /home xfs rw 0 0\ntmpfs /tmp tmpfs rw 0 0\n/dev/short /x\n";

#[test]
fn mount_map_keeps_order_per_device() {
    let mm = parse_mount_map(MOUNTS);
    let sda1 = mm.mounts(&"sda1".to_string());
    assert_eq!(sda1, vec![("/".to_string(), "ext4".to_string()), ("/snap".to_string(), "btrfs".to_string())]);
    assert_eq!(mm.mounts(&"sdb2".to_string()), vec![("/home".to_string(), "xfs".to_string())]);
    assert!(mm.mounts(&"tmpfs".to_string()).is_empty());
    assert!(mm.mounts(&"short".to_string()).is_empty());
    assert_eq!(first_mountpoint(&mm, &"sda1".to_string()), Some("/".to_string()));
    assert_eq!(first_mountpoint(&mm, &"sdc".to_string()), None);
}

#[test]
fn build_device_prefers_udev_fstype() {
    let mm = parse_mount_map(MOUNTS);
    let d = build_device("sda1".to_string(), DeviceKind::Disk, false, &mm, Some("vfat".to_string()), Some(1024), Some(512));
    assert_eq!(d.id, "sda1");
    assert_eq!(d.fstype, Some("vfat".to_string()));
    assert_eq!(d.mountpoints, vec!["/".to_string(), "/snap".to_string()]);
    assert_eq!(d.size, Some(1024));
    assert_eq!(d.used, Some(512));
    assert!(!d.removable);
}

#[test]
fn build_device_falls_back_to_first_mount() {
    let mm = parse_mount_map(MOUNTS);
    let d = build_device("sda1".to_string(), DeviceKind::Disk, true, &mm, None, None, None);
    assert_eq!(d.fstype, Some("ext4".to_string()));
    assert!(d.removable);
    let e = build_device("sdz".to_string(), DeviceKind::Disk, false, &mm, None, None, None);
    assert_eq!(e.fstype, None);
    assert!(e.mountpoints.is_empty());
}

#[test]
fn udev_entry_fs_type() {
    let entry = "S:disk/by-uuid/abcd\nE:ID_FS_UUID=abcd\nE:ID_FS_TYPE=ext4\r\nE:ID_FS_TYPE=xfs\n";
    assert_eq!(udev_fs_type(entry), Some("ext4".to_string()));
    assert_eq!(udev_fs_type("E:ID_FS_TYPE=\n"), Some(String::new()));
    assert_eq!(udev_fs_type("E:ID_FS_UUID=1\n"), None);
    assert_eq!(udev_fs_type(" E:ID_FS_TYPE=ext4"), None);
}

#[test]
fn udev_path_from_devno() {
    assert_eq!(udev_db_path("8:1\n"), "/run/udev/data/b8:1");
}

#[test]
fn classify_disks_and_loops() {
    assert!(is_loop_device("loop0"));
    assert!(!is_loop_device("sda"));
    assert!(!is_loop_device("loo"));
    assert!(matches!(classify_block_device("sda", Some("x")), DeviceKind::Disk));
    match classify_block_device("loop3", Some("  /var/img.iso\n")) {
        DeviceKind::Loopback { backing_file } => assert_eq!(backing_file, Some("/var/img.iso".to_string())),
        _ => panic!("loop device"),
    }
    match classify_block_device("loop4", None) {
        DeviceKind::Loopback { backing_file } => assert_eq!(backing_file, None),
        _ => panic!("loop device"),
    }
}

#[test]
fn partition_numbers() {
    assert_eq!(parse_partition_number("3\n"), Some(3));
    assert_eq!(parse_partition_number("x\n"), None);
    assert_eq!(parse_partition_number("4294967295"), Some(u32::MAX));
    assert_eq!(parse_partition_number("4294967296"), None);
    match partition_kind("sda", Some(3)) {
        DeviceKind::Partition { parent, part_num } => {
            assert_eq!(parent, "sda");
            assert_eq!(part_num, 3);
        }
        _ => panic!("partition"),
    }
    match partition_kind("nvme0n1", None) {
        DeviceKind::Partition { parent, part_num } => {
            assert_eq!(parent, "nvme0n1");
            assert_eq!(part_num, 0);
        }
        _ => panic!("partition"),
    }
}

#[test]
fn removable_flag() {
    assert!(parse_removable("1\n"));
    assert!(!parse_removable("0\n"));
    assert!(!parse_removable("11\n"));
    assert!(!parse_removable(""));
}

#[test]
fn sizes_and_usage() {
    assert_eq!(parse_sector_count("1953525168\n"), Some(1953525168));
    assert_eq!(parse_sector_count("-1"), None);
    assert_eq!(parse_sector_count("+"), None);
    assert_eq!(parse_sector_count("18446744073709551616"), None);
    assert_eq!(sectors_to_bytes(1953525168), 1000204886016);
    assert_eq!(used_bytes(1000, 250, 4096), 3072000);
    assert_eq!(used_bytes(7, 7, 4096), 0);
}
