use ballast::disk_io::{parse_disk_stats, DiskStatsSample, RawDiskStats, Ratio};
use ballast::disks::{DisksState, SAMPLE_INTERVAL_NS};

fn raw(reads: u64, sectors: u64, time: u64) -> RawDiskStats {
    RawDiskStats {
        reads_completed: reads,
        sectors_read: sectors,
        read_time_ms: time,
        io_in_progress: 2,
        ..RawDiskStats::default()
    }
}

#[test]
fn diff_counts_growth_over_interval() {
    let before = DiskStatsSample { raw: raw(100, 800, 50), taken_at: 1_000 };
    let after = DiskStatsSample { raw: raw(110, 880, 70), taken_at: 2_000_001_000 };
    let d = after.diff(&before).expect("interval");
    assert_eq!(d.reads, 10);
    assert_eq!(d.read_sectors, 80);
    assert_eq!(d.read_time_ms, 20);
    assert_eq!(d.interval_ns, 2_000_000_000);
    assert_eq!(d.queue_depth_current, 2);
    assert_eq!(d.read_bytes(), 80 * 512);
    assert_eq!(d.read_latency_ms(), Some(Ratio { num: 20, den: 10 }));
    assert_eq!(d.avg_read_request_bytes(), Some(Ratio { num: 80 * 512, den: 10 }));
    assert_eq!(d.write_latency_ms(), None);
    assert_eq!(d.read_merge_ratio(), Some(Ratio { num: 0, den: 10 }));
    assert_eq!(d.write_merge_ratio(), None);
}

#[test]
fn diff_counter_reset_reads_as_zero() {
    let before = DiskStatsSample { raw: raw(100, 800, 50), taken_at: 0 };
    let after = DiskStatsSample { raw: raw(3, 900, 10), taken_at: 5 };
    let d = after.diff(&before).unwrap();
    assert_eq!(d.reads, 0);
    assert_eq!(d.read_sectors, 100);
    assert_eq!(d.read_time_ms, 0);
}

#[test]
fn diff_without_interval_is_none() {
    let s = DiskStatsSample { raw: raw(1, 2, 3), taken_at: 42 };
    assert_eq!(s.diff(&s), None);
    let earlier = DiskStatsSample { raw: raw(1, 2, 3), taken_at: 43 };
    assert_eq!(s.diff(&earlier), None);
}

#[test]
fn idle_interval_shows_no_io() {
    let s = DiskStatsSample { raw: raw(9, 9, 9), taken_at: 10 };
    let t = DiskStatsSample { raw: s.raw, taken_at: 20 };
    let d = t.diff(&s).unwrap();
    assert_eq!((d.reads, d.writes, d.read_sectors, d.io_time_ms), (0, 0, 0, 0));
    assert_eq!(d.interval_ns, 10);
}

#[test]
fn resampling_is_due_after_interval() {
    let mut st = DisksState::default();
    assert!(st.is_due(0));
    let m = parse_disk_stats("8 0 sda 10 0 0 0 0 0 0 0 0 0 0\n");
    st.record_samples(&m, 100);
    assert!(!st.is_due(100));
    assert!(!st.is_due(100 + SAMPLE_INTERVAL_NS - 1));
    assert!(st.is_due(100 + SAMPLE_INTERVAL_NS));
    assert!(!st.is_due(50));
}

#[test]
fn second_sample_gives_stats_first_does_not() {
    let mut st = DisksState::default();
    let sda = "sda".to_string();
    st.record_samples(&parse_disk_stats("8 0 sda 10 0 0 0 0 0 0 0 0 0 0\n"), 1_000);
    assert_eq!(st.last_stat(&sda), None);
    st.record_samples(
        &parse_disk_stats("8 0 sda 25 0 0 0 0 0 0 0 0 0 0\n8 1 sdb 1 0 0 0 0 0 0 0 0 0 0\n"),
        1_000 + SAMPLE_INTERVAL_NS,
    );
    let d = st.last_stat(&sda).expect("sampled twice").expect("interval");
    assert_eq!(d.reads, 15);
    assert_eq!(d.interval_ns, SAMPLE_INTERVAL_NS);
    assert_eq!(st.last_stat(&"sdb".to_string()), None);
}

#[test]
fn device_missing_from_sample_keeps_stale_stats() {
    let mut st = DisksState::default();
    let sda = "sda".to_string();
    st.record_samples(&parse_disk_stats("8 0 sda 10 0 0 0 0 0 0 0 0 0 0\n"), 0);
    st.record_samples(&parse_disk_stats("8 0 sda 12 0 0 0 0 0 0 0 0 0 0\n"), 10);
    st.record_samples(&parse_disk_stats("8 1 sdb 1 0 0 0 0 0 0 0 0 0 0\n"), 20);
    let d = st.last_stat(&sda).unwrap().unwrap();
    assert_eq!(d.reads, 2);
    assert_eq!(d.interval_ns, 10);
}

#[test]
fn same_time_samples_give_empty_interval() {
    let mut st = DisksState::default();
    let m = parse_disk_stats("8 0 sda 10 0 0 0 0 0 0 0 0 0 0\n");
    st.record_samples(&m, 7);
    st.record_samples(&m, 7);
    assert_eq!(st.last_stat(&"sda".to_string()), Some(None));
}
