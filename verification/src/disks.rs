//! The disk table: its selection, its options, the I/O samples it shows,
//! and the rows and cells it is drawn from.
use vstd::prelude::*;
use crate::app::{App, Key};
use crate::disk_io::{delta_of, DiskStatsSample, IoCounterDelta, RawDiskStats};
use crate::name_map::NameMap;

verus! {

/// Key bindings of the disk table, shown in its footer.
pub const LOCAL_KEYBINDS: &'static str = "[p]artitions [l]oopback";

/// How long, in nanoseconds, the table waits between two samples of the
/// I/O counters, whatever the frame rate.
pub const SAMPLE_INTERVAL_NS: u64 = 1_000_000_000;

/// The selected row of a table and the first row shown. Until the table is
/// drawn the number of rows is not known; drawing brings the selection back
/// into range.
#[derive(Debug, Clone, Copy, PartialEq, Eq, Structural)]
pub struct TableSelection {
    pub offset: usize,
    pub selected: Option<usize>,
}

/// The selection after `select(index)`: clearing it also scrolls back to the top.
pub open spec fn select_spec(s: TableSelection, index: Option<usize>) -> TableSelection {
    TableSelection { offset: if index is None { 0 } else { s.offset }, selected: index }
}

/// The selection after the disk table's key `key`.
pub open spec fn selection_after(s: TableSelection, key: Key) -> TableSelection {
    match key {
        Key::Char('j') | Key::Down => select_spec(
            s,
            Some(
                match s.selected {
                    Some(i) => if i == usize::MAX {
                        i
                    } else {
                        (i + 1) as usize
                    },
                    None => 0,
                },
            ),
        ),
        Key::Char('k') | Key::Up => select_spec(
            s,
            Some(
                match s.selected {
                    Some(i) => if i == 0 {
                        0
                    } else {
                        (i - 1) as usize
                    },
                    None => usize::MAX,
                },
            ),
        ),
        Key::Char('g') => select_spec(s, Some(0)),
        Key::Char('G') => select_spec(s, Some(usize::MAX)),
        _ => s,
    }
}

impl TableSelection {
    /// Nothing selected, scrolled to the top.
    pub fn new() -> (r: Self)
        ensures
            r.selected is None,
            r.offset == 0,
    {
        TableSelection { offset: 0, selected: None }
    }

    /// Selects a row, or nothing.
    pub fn select(&mut self, index: Option<usize>)
        ensures
            *final(self) == select_spec(*old(self), index),
    {
        self.selected = index;
        if index.is_none() {
            self.offset = 0;
        }
    }

    /// Selects the row below, or the first one when none is selected.
    pub fn select_next(&mut self)
        ensures
            *final(self) == selection_after(*old(self), Key::Down),
    {
        let next = match self.selected {
            Some(i) => i.saturating_add(1),
            None => 0,
        };
        self.select(Some(next));
    }

    /// Selects the row above, or the last one when none is selected.
    pub fn select_previous(&mut self)
        ensures
            *final(self) == selection_after(*old(self), Key::Up),
    {
        let previous = match self.selected {
            Some(i) => i.saturating_sub(1),
            None => usize::MAX,
        };
        self.select(Some(previous));
    }

    /// Selects the first row.
    pub fn select_first(&mut self)
        ensures
            *final(self) == selection_after(*old(self), Key::Char('g')),
    {
        self.select(Some(0));
    }

    /// Selects the last row.
    pub fn select_last(&mut self)
        ensures
            *final(self) == selection_after(*old(self), Key::Char('G')),
    {
        self.select(Some(usize::MAX));
    }
}

/// State of the disk table.
pub struct DisksState {
    pub table_state: TableSelection,
    pub show_partitions: bool,
    pub show_loopback: bool,
    prev_samples: NameMap<DiskStatsSample>,
    last_stats: NameMap<Option<IoCounterDelta>>,
    last_sample_at: Option<u64>,
}

/// What the last two samples of each device said: nothing for a device
/// sampled once; an empty interval where no time passed between them.
pub type StatsView = Map<Seq<char>, Option<IoCounterDelta>>;

impl DisksState {
    /// Both tables hold each name at most once.
    pub closed spec fn wf(&self) -> bool {
        self.prev_samples.wf() && self.last_stats.wf()
    }

    /// The latest sample of each device.
    pub closed spec fn samples(&self) -> Map<Seq<char>, DiskStatsSample> {
        self.prev_samples@
    }

    /// What the last two samples of each device said.
    pub closed spec fn stats(&self) -> StatsView {
        self.last_stats@
    }

    /// When the counters were last sampled.
    pub closed spec fn sampled_at(&self) -> Option<u64> {
        self.last_sample_at
    }

    /// The table's selection.
    pub closed spec fn selection(&self) -> TableSelection {
        self.table_state
    }

    /// Whether partitions are shown under their disks.
    pub closed spec fn partitions_shown(&self) -> bool {
        self.show_partitions
    }

    /// Whether loop devices are shown.
    pub closed spec fn loopback_shown(&self) -> bool {
        self.show_loopback
    }

    /// Partitions shown, loop devices hidden, nothing selected, nothing sampled.
    pub open spec fn is_initial(&self) -> bool {
        &&& self.wf()
        &&& self.selection() == TableSelection { offset: 0, selected: None }
        &&& self.partitions_shown()
        &&& !self.loopback_shown()
        &&& self.samples() == Map::<Seq<char>, DiskStatsSample>::empty()
        &&& self.stats() == StatsView::empty()
        &&& self.sampled_at() is None
    }

    /// `after` is this state after the disk table's key `key`: `j`/Down and
    /// `k`/Up move the selection, `g` and `G` select the first and last row,
    /// `p` and `l` show or hide partitions and loop devices, and other keys
    /// change nothing.
    pub open spec fn after_key(&self, key: Key, after: &DisksState) -> bool {
        &&& after.selection() == selection_after(self.selection(), key)
        &&& after.partitions_shown() == if key == Key::Char('p') {
            !self.partitions_shown()
        } else {
            self.partitions_shown()
        }
        &&& after.loopback_shown() == if key == Key::Char('l') {
            !self.loopback_shown()
        } else {
            self.loopback_shown()
        }
        &&& after.samples() == self.samples()
        &&& after.stats() == self.stats()
        &&& after.sampled_at() == self.sampled_at()
        &&& after.wf() == self.wf()
    }

    /// What the last two samples of device `name` said, if it was sampled twice.
    pub fn last_stat(&self, name: &String) -> (r: Option<Option<IoCounterDelta>>)
        requires
            self.wf(),
        ensures
            r is Some <==> self.stats().contains_key(name@),
            r is Some ==> r->0 == self.stats()[name@],
    {
        match self.last_stats.get(name) {
            Some(s) => Some(*s),
            None => None,
        }
    }
}

/// The latest samples after sampling `raw` at `now`: every device in `raw`
/// gets its new sample, the others keep theirs.
pub open spec fn resampled(
    prev: Map<Seq<char>, DiskStatsSample>,
    raw: Map<Seq<char>, RawDiskStats>,
    now: u64,
) -> Map<Seq<char>, DiskStatsSample> {
    Map::new(
        |k: Seq<char>| prev.contains_key(k) || raw.contains_key(k),
        |k: Seq<char>|
            if raw.contains_key(k) {
                DiskStatsSample { raw: raw[k], taken_at: now }
            } else {
                prev[k]
            },
    )
}

/// What the table shows after sampling `raw` at `now`: a device sampled
/// before gets the comparison of its new sample with its previous one; the
/// others keep what they had.
pub open spec fn restated(
    stats: StatsView,
    prev: Map<Seq<char>, DiskStatsSample>,
    raw: Map<Seq<char>, RawDiskStats>,
    now: u64,
) -> StatsView {
    Map::new(
        |k: Seq<char>| stats.contains_key(k) || (raw.contains_key(k) && prev.contains_key(k)),
        |k: Seq<char>|
            if raw.contains_key(k) && prev.contains_key(k) {
                delta_of(DiskStatsSample { raw: raw[k], taken_at: now }, prev[k])
            } else {
                stats[k]
            },
    )
}

impl DisksState {
    /// Whether it is time to sample again at `now`: nothing was sampled yet,
    /// or at least the sampling interval has passed since the last sample.
    pub fn is_due(&self, now: u64) -> (r: bool)
        ensures
            r == match self.sampled_at() {
                Some(last) => now >= last && now - last >= SAMPLE_INTERVAL_NS,
                None => true,
            },
    {
        match self.last_sample_at {
            Some(last) => now.saturating_sub(last) >= SAMPLE_INTERVAL_NS,
            None => true,
        }
    }

    /// Takes the counters `raw` read at `now` as the latest samples, compares
    /// each with the device's previous sample, and records when this was.
    pub fn record_samples(&mut self, raw: &NameMap<RawDiskStats>, now: u64)
        requires
            old(self).wf(),
            raw.wf(),
        ensures
            final(self).wf(),
            final(self).selection() == old(self).selection(),
            final(self).partitions_shown() == old(self).partitions_shown(),
            final(self).loopback_shown() == old(self).loopback_shown(),
            final(self).samples() == resampled(old(self).samples(), raw@, now),
            final(self).stats() == restated(old(self).stats(), old(self).samples(), raw@, now),
            final(self).sampled_at() == Some(now),
    {
        let ghost p0 = self.prev_samples@;
        let ghost s0 = self.last_stats@;
        let ghost sel = self.table_state;
        let ghost parts = self.show_partitions;
        let ghost loops = self.show_loopback;
        let mut i: usize = 0;
        assert(resampled(p0, raw.first_entries(0), now) =~= p0);
        assert(restated(s0, p0, raw.first_entries(0), now) =~= s0);
        while i < raw.len()
            invariant
                0 <= i <= raw.size(),
                raw.wf(),
                self.prev_samples.wf(),
                self.last_stats.wf(),
                self.table_state == sel,
                self.show_partitions == parts,
                self.show_loopback == loops,
                self.prev_samples@ == resampled(p0, raw.first_entries(i as int), now),
                self.last_stats@ == restated(s0, p0, raw.first_entries(i as int), now),
            decreases raw.size() - i,
        {
            let ghost part = raw.first_entries(i as int);
            proof {
                raw.lemma_first_entries(i as int);
            }
            let name = raw.key(i);
            let sample = DiskStatsSample { raw: *raw.value(i), taken_at: now };
            let ghost k = name@;
            let ghost next = part.insert(k, sample.raw);
            match self.prev_samples.get(name) {
                Some(prev) => {
                    let d = sample.diff(prev);
                    self.last_stats.insert(name.clone(), d);
                    assert(restated(s0, p0, next, now) =~= restated(s0, p0, part, now).insert(k, d));
                },
                None => {
                    assert(restated(s0, p0, next, now) =~= restated(s0, p0, part, now));
                },
            }
            self.prev_samples.insert(name.clone(), sample);
            assert(resampled(p0, next, now) =~= resampled(p0, part, now).insert(k, sample));
            i = i + 1;
        }
        proof {
            if raw.size() > 0 {
                raw.lemma_first_entries(0);
            } else {
                assert(raw.first_entries(0) =~= raw@);
            }
        }
        self.last_sample_at = Some(now);
    }
}

impl Default for DisksState {
    fn default() -> (r: Self)
        ensures
            r.is_initial(),
    {
        DisksState {
            table_state: TableSelection::new(),
            show_partitions: true,
            show_loopback: false,
            prev_samples: NameMap::new(),
            last_stats: NameMap::new(),
            last_sample_at: None,
        }
    }
}

/// Handles a key meant for the disk table.
pub fn handle_key(key: Key, app: &mut App)
    requires
        old(app).disks.wf(),
    ensures
        old(app).disks.after_key(key, &final(app).disks),
        final(app).disks.wf(),
        final(app).tab == old(app).tab,
        final(app).should_quit == old(app).should_quit,
{
    let state = &mut app.disks;
    match key {
        Key::Char('j') | Key::Down => state.table_state.select_next(),
        Key::Char('k') | Key::Up => state.table_state.select_previous(),
        Key::Char('g') => state.table_state.select_first(),
        Key::Char('G') => state.table_state.select_last(),
        Key::Char('p') => state.show_partitions = !state.show_partitions,
        Key::Char('l') => state.show_loopback = !state.show_loopback,
        _ => {},
    }
}

} // verus!

verus! {

/// Pressing `p` or `l` twice shows the table as before.
pub proof fn law_toggle_twice(a: DisksState, b: DisksState, c: DisksState, key: Key)
    requires
        key == Key::Char('p') || key == Key::Char('l'),
        a.after_key(key, &b),
        b.after_key(key, &c),
    ensures
        c.partitions_shown() == a.partitions_shown(),
        c.loopback_shown() == a.loopback_shown(),
        c.selection() == a.selection(),
        c.samples() == a.samples(),
        c.stats() == a.stats(),
{
}

/// Moving the selection up or down always leaves a row selected, never
/// below the first row nor past the last index, and down from nothing
/// selects the first row.
pub proof fn law_selection_moves(s: TableSelection)
    ensures
        selection_after(s, Key::Down).selected is Some,
        selection_after(s, Key::Up).selected is Some,
        s.selected is None ==> selection_after(s, Key::Down).selected == Some(0usize),
        s.selected == Some(0usize) ==> selection_after(s, Key::Up).selected == Some(0usize),
        s.selected == Some(usize::MAX) ==> selection_after(s, Key::Down).selected == Some(usize::MAX),
        selection_after(s, Key::Char('g')).selected == Some(0usize),
        selection_after(s, Key::Down).offset == s.offset,
{
}

/// After sampling, every device read has its new sample; a device that was
/// not read keeps its previous sample and what the table showed for it, so
/// the table shows stale values rather than none.
pub proof fn law_resample(
    prev: Map<Seq<char>, DiskStatsSample>,
    stats: StatsView,
    raw: Map<Seq<char>, RawDiskStats>,
    now: u64,
    k: Seq<char>,
)
    ensures
        raw.contains_key(k) ==> resampled(prev, raw, now).contains_key(k) && resampled(
            prev,
            raw,
            now,
        )[k] == (DiskStatsSample { raw: raw[k], taken_at: now }),
        !raw.contains_key(k) ==> resampled(prev, raw, now).contains_key(k) == prev.contains_key(k)
            && (prev.contains_key(k) ==> resampled(prev, raw, now)[k] == prev[k]),
        !raw.contains_key(k) ==> restated(stats, prev, raw, now).contains_key(k) == stats.contains_key(
            k,
        ) && (stats.contains_key(k) ==> restated(stats, prev, raw, now)[k] == stats[k]),
        raw.contains_key(k) && !prev.contains_key(k) ==> restated(stats, prev, raw, now).contains_key(k)
            == stats.contains_key(k),
{
}

/// A device read twice, the second time at least one sampling interval
/// after the first, shows what its counters did in that interval.
pub proof fn law_second_sample_gives_stats(
    prev: Map<Seq<char>, DiskStatsSample>,
    stats: StatsView,
    raw: Map<Seq<char>, RawDiskStats>,
    now: u64,
    k: Seq<char>,
)
    requires
        raw.contains_key(k),
        prev.contains_key(k),
        prev[k].taken_at + SAMPLE_INTERVAL_NS <= now,
    ensures
        restated(stats, prev, raw, now).contains_key(k),
        restated(stats, prev, raw, now)[k] is Some,
        restated(stats, prev, raw, now)[k]->0.interval_ns == now - prev[k].taken_at,
{
}

} // verus!

verus! {

/// Down or `j` moves the selection one row down and Up or `k` one row up,
/// with the scroll offset unchanged, stopping at the first and last index.
pub proof fn law_selection_steps(s: TableSelection, i: usize)
    requires
        s.selected == Some(i),
    ensures
        i > 0 ==> selection_after(s, Key::Up) == (TableSelection { offset: s.offset, selected: Some((i - 1) as usize) }),
        i > 0 ==> selection_after(s, Key::Char('k')) == (TableSelection { offset: s.offset, selected: Some((i - 1) as usize) }),
        i < usize::MAX ==> selection_after(s, Key::Down) == (TableSelection { offset: s.offset, selected: Some((i + 1) as usize) }),
        i < usize::MAX ==> selection_after(s, Key::Char('j')) == (TableSelection { offset: s.offset, selected: Some((i + 1) as usize) }),
        selection_after(s, Key::Char('g')) == (TableSelection { offset: s.offset, selected: Some(0usize) }),
        selection_after(s, Key::Char('G')) == (TableSelection { offset: s.offset, selected: Some(usize::MAX) }),
{
}

} // verus!
