//! Cumulative I/O counters of `/proc/diskstats`, and what two samples of
//! them say about the interval between them.
use vstd::prelude::*;
use crate::name_map::NameMap;
use crate::text::{chars_of, lines, parse_unsigned, parse_unsigned_range, spans, split_lines, split_words, string_from_range, words};

verus! {

/// Raw cumulative counters of one device, as the kernel reports them in
/// `/proc/diskstats` (see the kernel's iostats documentation).
#[derive(Debug, Clone, Copy, PartialEq, Eq, Structural)]
pub struct RawDiskStats {
    pub reads_completed: u64,
    pub reads_merged: u64,
    pub sectors_read: u64,
    pub read_time_ms: u64,
    pub writes_completed: u64,
    pub writes_merged: u64,
    pub sectors_written: u64,
    pub write_time_ms: u64,
    pub io_in_progress: u64,
    pub io_time_ms: u64,
    pub weighted_io_time_ms: u64,
    pub discards_completed: u64,
    pub discards_merged: u64,
    pub sectors_discarded: u64,
    pub discard_time_ms: u64,
    pub flushes_completed: u64,
    pub flush_time_ms: u64,
}

/// All counters zero.
pub open spec fn zero_stats() -> RawDiskStats {
    RawDiskStats {
        reads_completed: 0,
        reads_merged: 0,
        sectors_read: 0,
        read_time_ms: 0,
        writes_completed: 0,
        writes_merged: 0,
        sectors_written: 0,
        write_time_ms: 0,
        io_in_progress: 0,
        io_time_ms: 0,
        weighted_io_time_ms: 0,
        discards_completed: 0,
        discards_merged: 0,
        sectors_discarded: 0,
        discard_time_ms: 0,
        flushes_completed: 0,
        flush_time_ms: 0,
    }
}

impl Default for RawDiskStats {
    fn default() -> (r: Self)
        ensures
            r == zero_stats(),
    {
        RawDiskStats {
            reads_completed: 0,
            reads_merged: 0,
            sectors_read: 0,
            read_time_ms: 0,
            writes_completed: 0,
            writes_merged: 0,
            sectors_written: 0,
            write_time_ms: 0,
            io_in_progress: 0,
            io_time_ms: 0,
            weighted_io_time_ms: 0,
            discards_completed: 0,
            discards_merged: 0,
            sectors_discarded: 0,
            discard_time_ms: 0,
            flushes_completed: 0,
            flush_time_ms: 0,
        }
    }
}

/// The counters of one device and when they were read: `taken_at` is in
/// nanoseconds on a monotonic clock.
#[derive(Debug, Clone, Copy, PartialEq, Eq, Structural)]
pub struct DiskStatsSample {
    pub raw: RawDiskStats,
    pub taken_at: u64,
}

/// How much each counter grew between two samples, the queue depth at the
/// later one, and the length of the interval in nanoseconds.
#[derive(Debug, Clone, Copy, PartialEq, Eq, Structural)]
pub struct IoCounterDelta {
    pub reads: u64,
    pub writes: u64,
    pub read_sectors: u64,
    pub write_sectors: u64,
    pub read_time_ms: u64,
    pub write_time_ms: u64,
    pub reads_merged: u64,
    pub writes_merged: u64,
    pub io_time_ms: u64,
    pub weighted_io_time_ms: u64,
    pub discards: u64,
    pub discard_sectors: u64,
    pub discard_time_ms: u64,
    pub flushes: u64,
    pub flush_time_ms: u64,
    pub queue_depth_current: u64,
    pub interval_ns: u64,
}

/// `a - b`, or zero where a counter went backwards (a device was replugged,
/// the kernel reset its counters, or a counter wrapped).
pub open spec fn growth(a: u64, b: u64) -> u64 {
    if a >= b {
        (a - b) as u64
    } else {
        0
    }
}

/// What two samples say of the interval between them: nothing when the
/// later one was not taken after the earlier one.
pub open spec fn delta_of(later: DiskStatsSample, earlier: DiskStatsSample) -> Option<IoCounterDelta> {
    let (l, e) = (later.raw, earlier.raw);
    if later.taken_at <= earlier.taken_at {
        None
    } else {
        Some(
            IoCounterDelta {
                reads: growth(l.reads_completed, e.reads_completed),
                writes: growth(l.writes_completed, e.writes_completed),
                read_sectors: growth(l.sectors_read, e.sectors_read),
                write_sectors: growth(l.sectors_written, e.sectors_written),
                read_time_ms: growth(l.read_time_ms, e.read_time_ms),
                write_time_ms: growth(l.write_time_ms, e.write_time_ms),
                reads_merged: growth(l.reads_merged, e.reads_merged),
                writes_merged: growth(l.writes_merged, e.writes_merged),
                io_time_ms: growth(l.io_time_ms, e.io_time_ms),
                weighted_io_time_ms: growth(l.weighted_io_time_ms, e.weighted_io_time_ms),
                discards: growth(l.discards_completed, e.discards_completed),
                discard_sectors: growth(l.sectors_discarded, e.sectors_discarded),
                discard_time_ms: growth(l.discard_time_ms, e.discard_time_ms),
                flushes: growth(l.flushes_completed, e.flushes_completed),
                flush_time_ms: growth(l.flush_time_ms, e.flush_time_ms),
                queue_depth_current: l.io_in_progress,
                interval_ns: (later.taken_at - earlier.taken_at) as u64,
            },
        )
    }
}

/// A quotient `num / den` with a positive denominator.
#[derive(Debug, Clone, Copy, PartialEq, Eq, Structural)]
pub struct Ratio {
    pub num: u128,
    pub den: u128,
}

/// Bytes in one sector of `/proc/diskstats`: 512 whatever the device's
/// physical or logical sector size.
pub const SECTOR_BYTES: u128 = 512;

/// `total / ops`, or nothing when no operation happened.
pub open spec fn per_op(total: u128, ops: u64) -> Option<Ratio> {
    if ops > 0 {
        Some(Ratio { num: total, den: ops as u128 })
    } else {
        None
    }
}

fn per_op_exec(total: u128, ops: u64) -> (r: Option<Ratio>)
    ensures
        r == per_op(total, ops),
{
    if ops > 0 {
        Some(Ratio { num: total, den: ops as u128 })
    } else {
        None
    }
}

/// `merged / (merged + completed)`, or nothing when both are zero.
pub open spec fn merge_share(merged: u64, completed: u64) -> Option<Ratio> {
    if merged + completed > 0 {
        Some(Ratio { num: merged as u128, den: (merged + completed) as u128 })
    } else {
        None
    }
}

fn merge_share_exec(merged: u64, completed: u64) -> (r: Option<Ratio>)
    requires
        merged + completed <= u64::MAX,
    ensures
        r == merge_share(merged, completed),
{
    let total: u64 = merged + completed;
    if total > 0 {
        Some(Ratio { num: merged as u128, den: total as u128 })
    } else {
        None
    }
}

impl DiskStatsSample {
    /// Compares `self` (later) with `prev` (earlier): each counter's growth,
    /// with a counter that went backwards counted as not grown, or nothing
    /// when no time passed between the two.
    pub fn diff(&self, prev: &DiskStatsSample) -> (r: Option<IoCounterDelta>)
        ensures
            r == delta_of(*self, *prev),
    {
        if self.taken_at <= prev.taken_at {
            return None;
        }
        let (l, e) = (&self.raw, &prev.raw);
        Some(
            IoCounterDelta {
                reads: l.reads_completed.saturating_sub(e.reads_completed),
                writes: l.writes_completed.saturating_sub(e.writes_completed),
                read_sectors: l.sectors_read.saturating_sub(e.sectors_read),
                write_sectors: l.sectors_written.saturating_sub(e.sectors_written),
                read_time_ms: l.read_time_ms.saturating_sub(e.read_time_ms),
                write_time_ms: l.write_time_ms.saturating_sub(e.write_time_ms),
                reads_merged: l.reads_merged.saturating_sub(e.reads_merged),
                writes_merged: l.writes_merged.saturating_sub(e.writes_merged),
                io_time_ms: l.io_time_ms.saturating_sub(e.io_time_ms),
                weighted_io_time_ms: l.weighted_io_time_ms.saturating_sub(e.weighted_io_time_ms),
                discards: l.discards_completed.saturating_sub(e.discards_completed),
                discard_sectors: l.sectors_discarded.saturating_sub(e.sectors_discarded),
                discard_time_ms: l.discard_time_ms.saturating_sub(e.discard_time_ms),
                flushes: l.flushes_completed.saturating_sub(e.flushes_completed),
                flush_time_ms: l.flush_time_ms.saturating_sub(e.flush_time_ms),
                queue_depth_current: l.io_in_progress,
                interval_ns: self.taken_at - prev.taken_at,
            },
        )
    }
}

impl IoCounterDelta {
    /// Mean read latency in milliseconds.
    pub fn read_latency_ms(&self) -> (r: Option<Ratio>)
        ensures
            r == per_op(self.read_time_ms as u128, self.reads),
    {
        per_op_exec(self.read_time_ms as u128, self.reads)
    }

    /// Mean write latency in milliseconds.
    pub fn write_latency_ms(&self) -> (r: Option<Ratio>)
        ensures
            r == per_op(self.write_time_ms as u128, self.writes),
    {
        per_op_exec(self.write_time_ms as u128, self.writes)
    }

    /// Mean discard latency in milliseconds.
    pub fn discard_latency_ms(&self) -> (r: Option<Ratio>)
        ensures
            r == per_op(self.discard_time_ms as u128, self.discards),
    {
        per_op_exec(self.discard_time_ms as u128, self.discards)
    }

    /// Mean flush latency in milliseconds.
    pub fn flush_latency_ms(&self) -> (r: Option<Ratio>)
        ensures
            r == per_op(self.flush_time_ms as u128, self.flushes),
    {
        per_op_exec(self.flush_time_ms as u128, self.flushes)
    }

    /// Mean size of a read request in bytes.
    pub fn avg_read_request_bytes(&self) -> (r: Option<Ratio>)
        ensures
            r == per_op((self.read_sectors * 512) as u128, self.reads),
    {
        per_op_exec(self.read_sectors as u128 * SECTOR_BYTES, self.reads)
    }

    /// Mean size of a write request in bytes.
    pub fn avg_write_request_bytes(&self) -> (r: Option<Ratio>)
        ensures
            r == per_op((self.write_sectors * 512) as u128, self.writes),
    {
        per_op_exec(self.write_sectors as u128 * SECTOR_BYTES, self.writes)
    }

    /// Share of reads that were merged into another.
    pub fn read_merge_ratio(&self) -> (r: Option<Ratio>)
        requires
            self.reads_merged + self.reads <= u64::MAX,
        ensures
            r == merge_share(self.reads_merged, self.reads),
    {
        merge_share_exec(self.reads_merged, self.reads)
    }

    /// Share of writes that were merged into another.
    pub fn write_merge_ratio(&self) -> (r: Option<Ratio>)
        requires
            self.writes_merged + self.writes <= u64::MAX,
        ensures
            r == merge_share(self.writes_merged, self.writes),
    {
        merge_share_exec(self.writes_merged, self.writes)
    }

    /// Bytes read in the interval.
    pub fn read_bytes(&self) -> (r: u128)
        ensures
            r == self.read_sectors * 512,
    {
        self.read_sectors as u128 * SECTOR_BYTES
    }

    /// Bytes written in the interval.
    pub fn write_bytes(&self) -> (r: u128)
        ensures
            r == self.write_sectors * 512,
    {
        self.write_sectors as u128 * SECTOR_BYTES
    }

    /// Bytes discarded in the interval.
    pub fn discard_bytes(&self) -> (r: u128)
        ensures
            r == self.discard_sectors * 512,
    {
        self.discard_sectors as u128 * SECTOR_BYTES
    }
}

} // verus!

verus! {

/// Field `i` of a line read as a counter: zero where the field is missing or
/// is not a number.
pub open spec fn counter_field(fields: Seq<Seq<char>>, i: int) -> u64 {
    if 0 <= i < fields.len() {
        match parse_unsigned(fields[i], u64::MAX as nat) {
            Some(v) => v as u64,
            None => 0,
        }
    } else {
        0
    }
}

/// The counters of one `/proc/diskstats` line split into fields: major,
/// minor, name, then the counters in the kernel's order.
pub open spec fn stats_from_fields(f: Seq<Seq<char>>) -> RawDiskStats {
    RawDiskStats {
        reads_completed: counter_field(f, 3),
        reads_merged: counter_field(f, 4),
        sectors_read: counter_field(f, 5),
        read_time_ms: counter_field(f, 6),
        writes_completed: counter_field(f, 7),
        writes_merged: counter_field(f, 8),
        sectors_written: counter_field(f, 9),
        write_time_ms: counter_field(f, 10),
        io_in_progress: counter_field(f, 11),
        io_time_ms: counter_field(f, 12),
        weighted_io_time_ms: counter_field(f, 13),
        discards_completed: counter_field(f, 14),
        discards_merged: counter_field(f, 15),
        sectors_discarded: counter_field(f, 16),
        discard_time_ms: counter_field(f, 17),
        flushes_completed: counter_field(f, 18),
        flush_time_ms: counter_field(f, 19),
    }
}

/// Fewest fields a line needs: major, minor, name and the eleven counters
/// that every kernel reports.
pub const MIN_FIELDS: usize = 14;

/// The table that the given lines describe, read top to bottom: a line with
/// fewer than fourteen fields is skipped, and a later line for a name
/// replaces an earlier one.
pub open spec fn stats_table(ls: Seq<Seq<char>>) -> Map<Seq<char>, RawDiskStats>
    decreases ls.len(),
{
    if ls.len() == 0 {
        Map::empty()
    } else {
        let m = stats_table(ls.drop_last());
        let f = words(ls.last());
        if f.len() < MIN_FIELDS {
            m
        } else {
            m.insert(f[2], stats_from_fields(f))
        }
    }
}

fn counter_field_exec(chars: &Vec<char>, ws: &Vec<(usize, usize)>, i: usize) -> (r: u64)
    requires
        forall|k: int| #![trigger ws@[k]] 0 <= k < ws.len() ==> ws@[k].0 <= ws@[k].1 && ws@[k].1 <= chars.len(),
    ensures
        r == counter_field(spans(chars@, ws@), i as int),
{
    if i < ws.len() {
        let (a, b) = ws[i];
        match parse_unsigned_range(chars, a, b, u64::MAX) {
            Some(v) => v,
            None => 0,
        }
    } else {
        0
    }
}

/// Reads the text of `/proc/diskstats` into a table keyed by device name
/// ("sda", "sda1", "nvme0n1p1"). Counters that a kernel does not report
/// (discard and flush counters before 4.18 and 5.5) read as zero, and so
/// does a field that is not a number; lines with too few fields are skipped.
pub fn parse_disk_stats(contents: &str) -> (r: NameMap<RawDiskStats>)
    ensures
        r.wf(),
        r@ == stats_table(lines(contents@)),
{
    let chars = chars_of(contents);
    let ls = split_lines(&chars);
    let ghost all = spans(chars@, ls@);
    let mut map: NameMap<RawDiskStats> = NameMap::new();
    let mut k: usize = 0;
    assert(all.take(0) =~= Seq::<Seq<char>>::empty());
    while k < ls.len()
        invariant
            0 <= k <= ls.len(),
            all == spans(chars@, ls@),
            forall|j: int| #![trigger ls@[j]] 0 <= j < ls.len() ==> ls@[j].0 <= ls@[j].1 && ls@[j].1 <= chars.len(),
            map.wf(),
            map@ == stats_table(all.take(k as int)),
        decreases ls.len() - k,
    {
        let (lo, hi) = ls[k];
        let ws = split_words(&chars, lo, hi);
        let ghost f = spans(chars@, ws@);
        assert(all.take(k + 1).drop_last() =~= all.take(k as int));
        assert(all.take(k + 1).last() == all[k as int]);
        assert(f == words(all[k as int]));
        if ws.len() >= MIN_FIELDS {
            let (a, b) = ws[2];
            let name = string_from_range(&chars, a, b);
            let raw = RawDiskStats {
                reads_completed: counter_field_exec(&chars, &ws, 3),
                reads_merged: counter_field_exec(&chars, &ws, 4),
                sectors_read: counter_field_exec(&chars, &ws, 5),
                read_time_ms: counter_field_exec(&chars, &ws, 6),
                writes_completed: counter_field_exec(&chars, &ws, 7),
                writes_merged: counter_field_exec(&chars, &ws, 8),
                sectors_written: counter_field_exec(&chars, &ws, 9),
                write_time_ms: counter_field_exec(&chars, &ws, 10),
                io_in_progress: counter_field_exec(&chars, &ws, 11),
                io_time_ms: counter_field_exec(&chars, &ws, 12),
                weighted_io_time_ms: counter_field_exec(&chars, &ws, 13),
                discards_completed: counter_field_exec(&chars, &ws, 14),
                discards_merged: counter_field_exec(&chars, &ws, 15),
                sectors_discarded: counter_field_exec(&chars, &ws, 16),
                discard_time_ms: counter_field_exec(&chars, &ws, 17),
                flushes_completed: counter_field_exec(&chars, &ws, 18),
                flush_time_ms: counter_field_exec(&chars, &ws, 19),
            };
            assert(name@ == f[2]);
            map.insert(name, raw);
        }
        k = k + 1;
    }
    assert(all.take(ls.len() as int) =~= all);
    map
}

} // verus!

verus! {

/// Two samples taken at the same time say nothing about an interval.
pub proof fn law_no_interval(s: DiskStatsSample)
    ensures
        delta_of(s, s) is None,
{
}

/// A counter that grew grows by exactly the difference; one that went
/// backwards counts as not grown; either way growth never exceeds the later
/// value.
pub proof fn law_growth(a: u64, b: u64)
    ensures
        a >= b ==> growth(a, b) + b == a,
        a < b ==> growth(a, b) == 0,
        growth(a, b) <= a,
{
}

/// Comparing a sample with itself a moment later, with no I/O in between,
/// shows no I/O.
pub proof fn law_idle_interval(s: DiskStatsSample, later: u64)
    requires
        later > s.taken_at,
    ensures
        ({
            let d = delta_of(DiskStatsSample { raw: s.raw, taken_at: later }, s)->0;
            &&& d.reads == 0 && d.writes == 0 && d.read_sectors == 0 && d.write_sectors == 0
            &&& d.discards == 0 && d.flushes == 0 && d.io_time_ms == 0
            &&& d.interval_ns == later - s.taken_at
            &&& d.queue_depth_current == s.raw.io_in_progress
        }),
{
}

/// No latency or request size is given for an interval without operations,
/// and no merge share for one without operations or merges.
pub proof fn law_ratios_need_operations(total: u128, ops: u64, merged: u64, completed: u64)
    ensures
        per_op(total, ops) is None <==> ops == 0,
        per_op(total, ops) matches Some(r) ==> r.den > 0,
        merge_share(merged, completed) is None <==> merged == 0 && completed == 0,
        merge_share(merged, completed) matches Some(r) ==> r.num <= r.den,
{
}

/// A line with fewer than fourteen fields changes nothing.
pub proof fn law_short_line_skipped(ls: Seq<Seq<char>>, line: Seq<char>)
    requires
        words(line).len() < MIN_FIELDS,
    ensures
        stats_table(ls.push(line)) == stats_table(ls),
{
    assert(ls.push(line).drop_last() =~= ls);
}

/// A complete line sets the counters of the device it names, whatever an
/// earlier line said of that device.
pub proof fn law_later_line_wins(ls: Seq<Seq<char>>, line: Seq<char>)
    requires
        words(line).len() >= MIN_FIELDS,
    ensures
        stats_table(ls.push(line)).contains_key(words(line)[2]),
        stats_table(ls.push(line))[words(line)[2]] == stats_from_fields(words(line)),
{
    assert(ls.push(line).drop_last() =~= ls);
}

/// A line from a kernel that reports only the first eleven counters
/// reads as zero discards and flushes.
pub proof fn law_missing_counters_zero(f: Seq<Seq<char>>)
    requires
        f.len() < 15,
    ensures
        stats_from_fields(f).discards_completed == 0,
        stats_from_fields(f).discards_merged == 0,
        stats_from_fields(f).sectors_discarded == 0,
        stats_from_fields(f).discard_time_ms == 0,
        stats_from_fields(f).flushes_completed == 0,
        stats_from_fields(f).flush_time_ms == 0,
{
}

} // verus!

verus! {

/// Comparing two samples: nothing when the later one was not taken after
/// the earlier one; otherwise each counter of the result is how much the
/// raw counter of the same name grew (zero where it went backwards), the
/// queue depth is the later sample's, and the interval is the time between
/// the two.
pub proof fn law_diff_fields(later: DiskStatsSample, earlier: DiskStatsSample)
    ensures
        later.taken_at <= earlier.taken_at ==> delta_of(later, earlier) is None,
        later.taken_at > earlier.taken_at ==> ({
            let (l, e) = (later.raw, earlier.raw);
            let g = |a: u64, b: u64| -> int { if a >= b { a - b } else { 0 } };
            &&& delta_of(later, earlier) is Some
            &&& {
                let d = delta_of(later, earlier)->0;
                &&& d.reads == g(l.reads_completed, e.reads_completed)
                &&& d.writes == g(l.writes_completed, e.writes_completed)
                &&& d.read_sectors == g(l.sectors_read, e.sectors_read)
                &&& d.write_sectors == g(l.sectors_written, e.sectors_written)
                &&& d.read_time_ms == g(l.read_time_ms, e.read_time_ms)
                &&& d.write_time_ms == g(l.write_time_ms, e.write_time_ms)
                &&& d.reads_merged == g(l.reads_merged, e.reads_merged)
                &&& d.writes_merged == g(l.writes_merged, e.writes_merged)
                &&& d.io_time_ms == g(l.io_time_ms, e.io_time_ms)
                &&& d.weighted_io_time_ms == g(l.weighted_io_time_ms, e.weighted_io_time_ms)
                &&& d.discards == g(l.discards_completed, e.discards_completed)
                &&& d.discard_sectors == g(l.sectors_discarded, e.sectors_discarded)
                &&& d.discard_time_ms == g(l.discard_time_ms, e.discard_time_ms)
                &&& d.flushes == g(l.flushes_completed, e.flushes_completed)
                &&& d.flush_time_ms == g(l.flush_time_ms, e.flush_time_ms)
                &&& d.queue_depth_current == l.io_in_progress
                &&& d.interval_ns == later.taken_at - earlier.taken_at
            }
        }),
{
}

/// A complete line of `/proc/diskstats` stores, under its third word, each
/// counter read from the word at the counter's place in the kernel's order
/// (word 3 for reads completed up to word 19 for flush time) whenever the
/// line has that word, and zero where the word is missing or is not a number.
pub proof fn law_line_counters(ls: Seq<Seq<char>>, line: Seq<char>)
    requires
        words(line).len() >= MIN_FIELDS,
    ensures
        ({
            let f = words(line);
            let num = |i: int| -> int {
                if i < f.len() && parse_unsigned(f[i], u64::MAX as nat) is Some {
                    parse_unsigned(f[i], u64::MAX as nat)->0 as int
                } else {
                    0
                }
            };
            let t = stats_table(ls.push(line));
            &&& t.contains_key(f[2])
            &&& t[f[2]].reads_completed == num(3)
            &&& t[f[2]].reads_merged == num(4)
            &&& t[f[2]].sectors_read == num(5)
            &&& t[f[2]].read_time_ms == num(6)
            &&& t[f[2]].writes_completed == num(7)
            &&& t[f[2]].writes_merged == num(8)
            &&& t[f[2]].sectors_written == num(9)
            &&& t[f[2]].write_time_ms == num(10)
            &&& t[f[2]].io_in_progress == num(11)
            &&& t[f[2]].io_time_ms == num(12)
            &&& t[f[2]].weighted_io_time_ms == num(13)
            &&& t[f[2]].discards_completed == num(14)
            &&& t[f[2]].discards_merged == num(15)
            &&& t[f[2]].sectors_discarded == num(16)
            &&& t[f[2]].discard_time_ms == num(17)
            &&& t[f[2]].flushes_completed == num(18)
            &&& t[f[2]].flush_time_ms == num(19)
        }),
{
    assert(ls.push(line).drop_last() =~= ls);
}

} // verus!
