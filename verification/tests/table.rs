use ballast::disk::{DeviceKind, DiskDevice};
use ballast::table::{device_row_labels, format_bytes, format_used_total_col};
use ballast::tree::build_dev_tree;

fn reference_format_bytes(bytes: u64) -> String {
    const UNITS: [&str; 5] = ["B", "KiB", "MiB", "GiB", "TiB"];
    let mut size = bytes as f64;
    let mut unit_idx = 0;
    while size >= 1024.0 && unit_idx < UNITS.len() - 1 {
        size /= 1024.0;
        unit_idx += 1;
    }
    format!("{:.1} {}", size, UNITS[unit_idx])
}

#[test]
fn format_bytes_examples() {
    assert_eq!(format_bytes(None), "-");
    assert_eq!(format_bytes(Some(0)), "0.0 B");
    assert_eq!(format_bytes(Some(1023)), "1023.0 B");
    assert_eq!(format_bytes(Some(1024)), "1.0 KiB");
    assert_eq!(format_bytes(Some(1536)), "1.5 KiB");
    assert_eq!(format_bytes(Some(12_897_485)), "12.3 MiB");
    assert_eq!(format_bytes(Some(1_048_575)), "1024.0 KiB");
    assert_eq!(format_bytes(Some(1u64 << 40)), "1.0 TiB");
    assert_eq!(format_bytes(Some(u64::MAX)), "16777216.0 TiB");
}

#[test]
fn format_bytes_matches_float_formatting() {
    let mut values: Vec<u64> = Vec::new();
    for i in 0..5000u64 {
        values.push(i);
        values.push(i * 256);
        values.push(i * 51_201);
        values.push(i * 104_857 + 13);
    }
    for k in 1..54u32 {
        let p = 1u64 << k;
        values.extend_from_slice(&[p - 1, p, p + 1, p + p / 2, p / 2 * 3 + p / 20]);
    }
    for &v in &values {
        assert_eq!(format_bytes(Some(v)), reference_format_bytes(v), "bytes {v}");
    }
}

#[test]
fn format_bytes_ties_round_to_even() {
    assert_eq!(format_bytes(Some(1280)), reference_format_bytes(1280));
    assert_eq!(format_bytes(Some(1280)), "1.2 KiB");
    assert_eq!(format_bytes(Some(1792)), "1.8 KiB");
}

#[test]
fn used_total_column_aligns_slash() {
    assert_eq!(format_used_total_col(Some(1536), Some(1 << 30)), "   1.5 KiB/   1.0 GiB");
    assert_eq!(format_used_total_col(None, None), "         -/         -");
    assert_eq!(format_used_total_col(Some(u64::MAX), None), "16777216.0 TiB/         -");
}

fn dev(id: &str, kind: DeviceKind) -> DiskDevice {
    DiskDevice { id: id.to_string(), kind, fstype: None, mountpoints: vec![], removable: false, size: None, used: None }
}

fn part(id: &str, parent: &str, n: u32) -> DiskDevice {
    dev(id, DeviceKind::Partition { parent: parent.to_string(), part_num: n })
}

fn sample_devices() -> Vec<DiskDevice> {
    vec![
        part("sdb2", "sdb", 2),
        dev("sdb", DeviceKind::Disk),
        dev("loop0", DeviceKind::Loopback { backing_file: None }),
        part("sda10", "sda", 10),
        dev("sda", DeviceKind::Disk),
        part("sdb1", "sdb", 1),
        part("sda2", "sda", 2),
        part("sdz1", "sdz", 1),
    ]
}

fn tree(devs: &[DiskDevice], p: bool, l: bool) -> Vec<(String, String)> {
    build_dev_tree(devs, p, l).into_iter().map(|(d, pre)| (pre.to_string(), d.id.clone())).collect()
}

#[test]
fn dev_tree_sorted_groups_with_partitions() {
    let devs = sample_devices();
    assert_eq!(
        tree(&devs, true, false),
        vec![
            ("".to_string(), "sda".to_string()),
            ("├─".to_string(), "sda2".to_string()),
            ("└─".to_string(), "sda10".to_string()),
            ("".to_string(), "sdb".to_string()),
            ("├─".to_string(), "sdb1".to_string()),
            ("└─".to_string(), "sdb2".to_string()),
        ]
    );
}

#[test]
fn dev_tree_loopback_shown_and_partitions_hidden() {
    let devs = sample_devices();
    assert_eq!(
        tree(&devs, false, true),
        vec![
            ("".to_string(), "loop0".to_string()),
            ("".to_string(), "sda".to_string()),
            ("".to_string(), "sdb".to_string()),
        ]
    );
}

#[test]
fn dev_tree_ties_keep_given_order() {
    let mut a = dev("sda", DeviceKind::Disk);
    a.size = Some(1);
    let mut b = dev("sda", DeviceKind::Disk);
    b.size = Some(2);
    let mut p = part("sda1", "sda", 1);
    p.size = Some(3);
    let mut q = part("sda1", "sda", 1);
    q.size = Some(4);
    let devs = vec![a, p, b, q];
    let rows = build_dev_tree(&devs, true, false);
    let sizes: Vec<(&str, Option<u64>)> = rows.iter().map(|(d, pre)| (*pre, d.size)).collect();
    assert_eq!(
        sizes,
        vec![("", Some(1)), ("├─", Some(3)), ("└─", Some(4)), ("", Some(2)), ("├─", Some(3)), ("└─", Some(4))]
    );
}

#[test]
fn dev_tree_empty() {
    assert!(build_dev_tree(&[], true, true).is_empty());
}

#[test]
fn row_labels() {
    let mut d = dev("sda1", DeviceKind::Disk);
    d.fstype = Some("ext4".to_string());
    d.mountpoints = vec!["/".to_string(), "/snap".to_string()];
    d.used = Some(2048);
    d.size = Some(4096);
    let l = device_row_labels(&d, "└─");
    assert_eq!(l.name, "└─sda1");
    assert_eq!(l.fstype, "ext4");
    assert_eq!(l.used_total, "   2.0 KiB/   4.0 KiB");
    assert_eq!(l.mount, "/");
    let e = device_row_labels(&dev("sdb", DeviceKind::Disk), "");
    assert_eq!(e.name, "sdb");
    assert_eq!(e.fstype, "-");
    assert_eq!(e.mount, "-");
}

#[test]
fn full_tree_holds_every_device_once() {
    let devs: Vec<DiskDevice> = sample_devices().into_iter().filter(|d| d.id != "sdz1").collect();
    let rows = build_dev_tree(&devs, true, true);
    assert_eq!(rows.len(), devs.len());
    for d in &devs {
        assert_eq!(rows.iter().filter(|(r, _)| r.id == d.id).count(), 1);
    }
}

#[test]
fn partition_of_hidden_parent_is_left_out() {
    let devs = vec![
        dev("loop1", DeviceKind::Loopback { backing_file: None }),
        part("loop1p1", "loop1", 1),
        dev("sda", DeviceKind::Disk),
    ];
    assert_eq!(tree(&devs, true, false), vec![("".to_string(), "sda".to_string())]);
    assert_eq!(
        tree(&devs, true, true),
        vec![
            ("".to_string(), "loop1".to_string()),
            ("└─".to_string(), "loop1p1".to_string()),
            ("".to_string(), "sda".to_string()),
        ]
    );
}

#[test]
fn used_total_slash_lines_up_below_one_pib() {
    for (u, s) in [(Some(0), Some(1)), (Some(1023), None), (Some((1u64 << 50) - 1), Some(5_000_000)), (None, Some(1 << 45))] {
        let cell = format_used_total_col(u, s);
        assert_eq!(cell.chars().count(), 21, "{cell}");
        assert_eq!(cell.chars().nth(10), Some('/'));
    }
}
