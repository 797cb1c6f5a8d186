//! What the Linux block-device scan decides from the text that sysfs,
//! procfs and the udev database hold.
use vstd::prelude::*;
use crate::disk::{DeviceKind, DiskDevice};
use crate::text::{
    chars_of, chars_equal, has_prefix, lines, parse_unsigned, parse_unsigned_chars, push_char,
    range_has_prefix, spans, split_lines, split_words, string_from_chars, string_from_range,
    trim, trimmed, words,
};

verus! {

/// Whether a block device name is that of a loop device.
pub fn is_loop_device(name: &str) -> (r: bool)
    ensures
        r == has_prefix(name@, "loop"@),
{
    let chars = chars_of(name);
    let p = chars_of("loop");
    assert(chars@.subrange(0, chars@.len() as int) =~= chars@);
    range_has_prefix(&chars, 0, chars.len(), &p)
}

/// The kind of a whole block device named `name`. A loop device carries the
/// trimmed contents of its `loop/backing_file` attribute, which an unattached
/// loop device does not have.
pub fn classify_block_device(name: &str, backing_file_contents: Option<&str>) -> (r: DeviceKind)
    ensures
        !has_prefix(name@, "loop"@) ==> r is Disk,
        has_prefix(name@, "loop"@) ==> r is Loopback,
        r matches DeviceKind::Loopback { backing_file } ==> {
            &&& backing_file is Some <==> backing_file_contents is Some
            &&& backing_file is Some ==> backing_file->0@ == trim(backing_file_contents->0@)
        },
{
    if !is_loop_device(name) {
        return DeviceKind::Disk;
    }
    let backing_file = match backing_file_contents {
        Some(s) => {
            let t = trimmed(s);
            Some(string_from_chars(&t))
        },
        None => None,
    };
    DeviceKind::Loopback { backing_file }
}

/// The number in a sysfs attribute that holds an unsigned integer no larger
/// than `max`, surrounded by white space.
pub open spec fn attribute_number(contents: Seq<char>, max: nat) -> Option<nat> {
    parse_unsigned(trim(contents), max)
}

/// The partition number that a `partition` attribute holds.
pub fn parse_partition_number(contents: &str) -> (r: Option<u32>)
    ensures
        r is Some <==> attribute_number(contents@, u32::MAX as nat) is Some,
        r is Some ==> r->0 == attribute_number(contents@, u32::MAX as nat)->0,
{
    let t = trimmed(contents);
    match parse_unsigned_chars(&t, u32::MAX as u64) {
        Some(n) => Some(n as u32),
        None => None,
    }
}

/// The kind of a partition of disk `disk_name` with partition number
/// `part_num`, zero when the number could not be read.
pub fn partition_kind(disk_name: &str, part_num: Option<u32>) -> (r: DeviceKind)
    ensures
        r matches DeviceKind::Partition { parent, part_num: n } && parent@ == disk_name@ && n
            == match part_num {
            Some(v) => v,
            None => 0,
        },
{
    let n: u32 = match part_num {
        Some(v) => v,
        None => 0,
    };
    let parent = string_from_chars(&chars_of(disk_name));
    DeviceKind::Partition { parent, part_num: n }
}

/// Whether the `removable` attribute says the device is removable: it holds
/// `1` and white space.
pub fn parse_removable(contents: &str) -> (r: bool)
    ensures
        r == (trim(contents@) == "1"@),
{
    let t = trimmed(contents);
    let one = chars_of("1");
    chars_equal(&t, &one)
}

/// The number of 512-byte sectors that a `size` attribute holds.
pub fn parse_sector_count(contents: &str) -> (r: Option<u64>)
    ensures
        r is Some <==> attribute_number(contents@, u64::MAX as nat) is Some,
        r is Some ==> r->0 == attribute_number(contents@, u64::MAX as nat)->0,
{
    let t = trimmed(contents);
    parse_unsigned_chars(&t, u64::MAX)
}

/// Bytes in `sectors` sectors of 512 bytes, the unit of the `size` attribute
/// whatever the device's physical block size.
pub fn sectors_to_bytes(sectors: u64) -> (r: u64)
    requires
        sectors * 512 <= u64::MAX,
    ensures
        r == sectors * 512,
{
    sectors * 512
}

/// Bytes in use on a file system of `blocks` blocks of which `blocks_free`
/// are free, with fragments of `fragment_size` bytes.
pub fn used_bytes(blocks: u64, blocks_free: u64, fragment_size: u64) -> (r: u64)
    requires
        blocks_free <= blocks,
        (blocks - blocks_free) * fragment_size <= u64::MAX,
    ensures
        r == (blocks - blocks_free) * fragment_size,
{
    (blocks - blocks_free) * fragment_size
}

/// The rest of the first line that starts with `p`, if one does.
pub open spec fn first_value(ls: Seq<Seq<char>>, p: Seq<char>) -> Option<Seq<char>>
    decreases ls.len(),
{
    if ls.len() == 0 {
        None
    } else if has_prefix(ls[0], p) {
        Some(ls[0].skip(p.len() as int))
    } else {
        first_value(ls.drop_first(), p)
    }
}

/// The file system type that a udev database entry records: the value of
/// its first `E:ID_FS_TYPE=` line.
pub fn udev_fs_type(contents: &str) -> (r: Option<String>)
    ensures
        r is Some <==> first_value(lines(contents@), "E:ID_FS_TYPE="@) is Some,
        r is Some ==> r->0@ == first_value(lines(contents@), "E:ID_FS_TYPE="@)->0,
{
    let chars = chars_of(contents);
    let ls = split_lines(&chars);
    let p = chars_of("E:ID_FS_TYPE=");
    let ghost all = spans(chars@, ls@);
    let mut k: usize = 0;
    assert(all.skip(0) =~= all);
    while k < ls.len()
        invariant
            0 <= k <= ls.len(),
            all == spans(chars@, ls@),
            all == lines(contents@),
            chars@ == contents@,
            p@ == "E:ID_FS_TYPE="@,
            forall|j: int| #![trigger ls@[j]] 0 <= j < ls.len() ==> ls@[j].0 <= ls@[j].1 && ls@[j].1 <= chars.len(),
            first_value(all, p@) == first_value(all.skip(k as int), p@),
        decreases ls.len() - k,
    {
        let (lo, hi) = ls[k];
        assert(all.skip(k as int)[0] == all[k as int]);
        assert(all.skip(k as int).drop_first() =~= all.skip(k + 1));
        if range_has_prefix(&chars, lo, hi, &p) {
            let v = string_from_range(&chars, lo + p.len(), hi);
            assert(chars@.subrange(lo as int, hi as int).skip(p.len() as int) =~= chars@.subrange(
                lo + p.len(),
                hi as int,
            ));
            return Some(v);
        }
        k = k + 1;
    }
    assert(all.skip(ls.len() as int) =~= Seq::<Seq<char>>::empty());
    None
}

/// Path of the udev database entry of the block device whose `dev`
/// attribute holds `devno` ("major:minor").
pub fn udev_db_path(devno: &str) -> (r: String)
    ensures
        r@ == "/run/udev/data/b"@ + trim(devno@),
{
    let mut r = "/run/udev/data/b".to_owned();
    let t = trimmed(devno);
    let ghost start = r@;
    let mut i: usize = 0;
    while i < t.len()
        invariant
            0 <= i <= t.len(),
            r@ == start + t@.take(i as int),
        decreases t.len() - i,
    {
        push_char(&mut r, t[i]);
        assert(t@.take(i + 1) =~= t@.take(i as int).push(t@[i as int]));
        i = i + 1;
    }
    assert(t@.take(t.len() as int) =~= t@);
    r
}

} // verus!

verus! {

/// Where a block device is mounted, and with which file system type.
pub struct MountInfo {
    pub mountpoint: String,
    pub fstype: String,
}

/// The mounts of `/proc/mounts` whose source is a device under `/dev/`, in
/// the order of the file, each with the device's name.
pub struct MountMap {
    records: Vec<(String, MountInfo)>,
}

/// A mount: device name, mount point, file system type.
pub type MountView = (Seq<char>, Seq<char>, Seq<char>);

/// The mount that one line of `/proc/mounts` records, if its source is a
/// device under `/dev/`: the first three fields are the source, the mount
/// point and the file system type.
pub open spec fn mount_of_line(line: Seq<char>) -> Option<MountView> {
    let w = words(line);
    if w.len() >= 3 && has_prefix(w[0], "/dev/"@) {
        Some((w[0].skip("/dev/"@.len() as int), w[1], w[2]))
    } else {
        None
    }
}

/// The mounts that the given lines record, in order.
pub open spec fn mounts_of_lines(ls: Seq<Seq<char>>) -> Seq<MountView>
    decreases ls.len(),
{
    if ls.len() == 0 {
        seq![]
    } else {
        mounts_of_lines(ls.drop_last()) + match mount_of_line(ls.last()) {
            Some(m) => seq![m],
            None => seq![],
        }
    }
}

/// Mount points and file system types of the mounts of device `id`, in order.
pub open spec fn mounts_of(ms: Seq<MountView>, id: Seq<char>) -> Seq<(Seq<char>, Seq<char>)>
    decreases ms.len(),
{
    if ms.len() == 0 {
        seq![]
    } else {
        mounts_of(ms.drop_last(), id) + if ms.last().0 == id {
            seq![(ms.last().1, ms.last().2)]
        } else {
            seq![]
        }
    }
}

impl MountMap {
    pub closed spec fn view(&self) -> Seq<MountView> {
        Seq::new(
            self.records@.len(),
            |i: int|
                (
                    self.records@[i].0@,
                    self.records@[i].1.mountpoint@,
                    self.records@[i].1.fstype@,
                ),
        )
    }

    /// Mounts of device `id`, in the order of the file.
    pub fn mounts(&self, id: &String) -> (r: Vec<(String, String)>)
        ensures
            r@.len() == mounts_of(self@, id@).len(),
            forall|i: int|
                0 <= i < r@.len() ==> (#[trigger] r@[i]).0@ == mounts_of(self@, id@)[i].0
                    && r@[i].1@ == mounts_of(self@, id@)[i].1,
    {
        let mut r: Vec<(String, String)> = Vec::new();
        let mut k: usize = 0;
        assert(self@.take(0) =~= Seq::<MountView>::empty());
        while k < self.records.len()
            invariant
                0 <= k <= self.records@.len(),
                self@.len() == self.records@.len(),
                r@.len() == mounts_of(self@.take(k as int), id@).len(),
                forall|i: int|
                    0 <= i < r@.len() ==> (#[trigger] r@[i]).0@ == mounts_of(
                        self@.take(k as int),
                        id@,
                    )[i].0 && r@[i].1@ == mounts_of(self@.take(k as int), id@)[i].1,
            decreases self.records@.len() - k,
        {
            let ghost prev = mounts_of(self@.take(k as int), id@);
            assert(self@.take(k + 1).drop_last() =~= self@.take(k as int));
            assert(self@.take(k + 1).last() == self@[k as int]);
            if self.records[k].0 == *id {
                let mp = self.records[k].1.mountpoint.clone();
                let fs = self.records[k].1.fstype.clone();
                r.push((mp, fs));
            }
            k = k + 1;
        }
        assert(self@.take(self.records@.len() as int) =~= self@);
        r
    }
}

/// Reads the text of `/proc/mounts`: each line whose first field names a
/// device under `/dev/` gives that device's name (without `/dev/`), its
/// mount point and its file system type. Only mounted block devices appear.
pub fn parse_mount_map(contents: &str) -> (r: MountMap)
    ensures
        r@ == mounts_of_lines(lines(contents@)),
{
    let chars = chars_of(contents);
    let ls = split_lines(&chars);
    let dev = chars_of("/dev/");
    let ghost all = spans(chars@, ls@);
    let mut map = MountMap { records: Vec::new() };
    let mut k: usize = 0;
    assert(all.take(0) =~= Seq::<Seq<char>>::empty());
    assert(map@ =~= Seq::<MountView>::empty());
    while k < ls.len()
        invariant
            0 <= k <= ls.len(),
            all == spans(chars@, ls@),
            dev@ == "/dev/"@,
            forall|j: int| #![trigger ls@[j]] 0 <= j < ls.len() ==> ls@[j].0 <= ls@[j].1 && ls@[j].1 <= chars.len(),
            map@ == mounts_of_lines(all.take(k as int)),
        decreases ls.len() - k,
    {
        let (lo, hi) = ls[k];
        let ws = split_words(&chars, lo, hi);
        let ghost f = spans(chars@, ws@);
        let ghost before = map@;
        assert(all.take(k + 1).drop_last() =~= all.take(k as int));
        assert(all.take(k + 1).last() == all[k as int]);
        if ws.len() >= 3 {
            let (a, b) = ws[0];
            if range_has_prefix(&chars, a, b, &dev) {
                let name = string_from_range(&chars, a + dev.len(), b);
                assert(chars@.subrange(a as int, b as int).skip(dev@.len() as int)
                    =~= chars@.subrange(a + dev.len(), b as int));
                let (c, d) = ws[1];
                let mountpoint = string_from_range(&chars, c, d);
                let (e, g) = ws[2];
                let fstype = string_from_range(&chars, e, g);
                map.records.push((name, MountInfo { mountpoint, fstype }));
                assert(map@ =~= before + seq![mount_of_line(all[k as int])->0]);
            } else {
                assert(map@ =~= before + seq![]);
            }
        } else {
            assert(map@ =~= before + seq![]);
        }
        k = k + 1;
    }
    assert(all.take(ls.len() as int) =~= all);
    map
}

/// The mount point of the first mount of device `id`, whose usage the scan
/// asks the file system for.
pub fn first_mountpoint(mount_map: &MountMap, id: &String) -> (r: Option<String>)
    ensures
        r is Some <==> mounts_of(mount_map@, id@).len() > 0,
        r is Some ==> r->0@ == mounts_of(mount_map@, id@)[0].0,
{
    let ms = mount_map.mounts(id);
    if ms.len() > 0 {
        Some(ms[0].0.clone())
    } else {
        None
    }
}

/// A device built from what the scan read: its mount points from the mount
/// map, its file system type from udev or else from its first mount, and
/// its size and usage as read (absent where they could not be read).
pub fn build_device(
    id: String,
    kind: DeviceKind,
    removable: bool,
    mount_map: &MountMap,
    udev_fstype: Option<String>,
    size: Option<u64>,
    used: Option<u64>,
) -> (r: DiskDevice)
    ensures
        r.id@ == id@,
        r.kind == kind,
        r.removable == removable,
        r.size == size,
        r.used == used,
        r.mountpoints@.len() == mounts_of(mount_map@, id@).len(),
        forall|i: int|
            0 <= i < r.mountpoints@.len() ==> (#[trigger] r.mountpoints@[i])@ == mounts_of(
                mount_map@,
                id@,
            )[i].0,
        r.fstype is Some <==> (udev_fstype is Some || mounts_of(mount_map@, id@).len() > 0),
        udev_fstype is Some ==> r.fstype->0@ == udev_fstype->0@,
        udev_fstype is None && r.fstype is Some ==> r.fstype->0@ == mounts_of(mount_map@, id@)[0].1,
{
    let ms = mount_map.mounts(&id);
    let mut mountpoints: Vec<String> = Vec::new();
    let mut i: usize = 0;
    while i < ms.len()
        invariant
            0 <= i <= ms@.len(),
            mountpoints@.len() == i,
            forall|j: int| 0 <= j < i ==> (#[trigger] mountpoints@[j])@ == ms@[j].0@,
        decreases ms@.len() - i,
    {
        mountpoints.push(ms[i].0.clone());
        i = i + 1;
    }
    let fstype = match udev_fstype {
        Some(f) => Some(f),
        None => if ms.len() > 0 {
            Some(ms[0].1.clone())
        } else {
            None
        },
    };
    DiskDevice { id, kind, fstype, mountpoints, removable, size, used }
}

} // verus!

verus! {

/// Whether a mount is of the device named `id`.
pub open spec fn is_mount_of(id: Seq<char>) -> spec_fn(MountView) -> bool {
    |m: MountView| m.0 == id
}

/// The mount point and file system type of a mount.
pub open spec fn place_of() -> spec_fn(MountView) -> (Seq<char>, Seq<char>) {
    |m: MountView| (m.1, m.2)
}

/// The mounts of device `id` are exactly those of the mounts whose device
/// name equals `id`, in their order: a device whose name only begins like a
/// mounted one (a disk and its partition) gets none of that one's mounts.
pub proof fn law_mounts_exact(ms: Seq<MountView>, id: Seq<char>)
    ensures
        mounts_of(ms, id) == ms.filter(is_mount_of(id)).map_values(place_of()),
        (forall|j: int| 0 <= j < ms.len() ==> (#[trigger] ms[j]).0 != id) ==> mounts_of(ms, id).len() == 0,
    decreases ms.len(),
{
    reveal_with_fuel(Seq::<MountView>::filter, 1);
    if ms.len() > 0 {
        law_mounts_exact(ms.drop_last(), id);
        let f0 = ms.drop_last().filter(is_mount_of(id));
        if ms.last().0 == id {
            assert(is_mount_of(id)(ms.last()));
            assert(ms.filter(is_mount_of(id)) == f0.push(ms.last()));
            assert(f0.push(ms.last()).map_values(place_of()) =~= f0.map_values(place_of()).push(
                (ms.last().1, ms.last().2),
            ));
            assert(mounts_of(ms, id) =~= mounts_of(ms.drop_last(), id) + seq![(ms.last().1, ms.last().2)]);
            assert(mounts_of(ms, id) =~= ms.filter(is_mount_of(id)).map_values(place_of()));
        } else {
            assert(!is_mount_of(id)(ms.last()));
            assert(ms.filter(is_mount_of(id)) == f0);
            assert(mounts_of(ms, id) =~= mounts_of(ms.drop_last(), id));
        }
        if forall|j: int| 0 <= j < ms.len() ==> (#[trigger] ms[j]).0 != id {
            assert(ms[ms.len() - 1].0 != id);
            assert forall|j: int| 0 <= j < ms.drop_last().len() implies (#[trigger] ms.drop_last()[j]).0 != id by {
                assert(ms.drop_last()[j] == ms[j]);
            }
        }
    } else {
        assert(ms.filter(is_mount_of(id)) =~= ms);
    }
}

/// A line records a mount of device `name` only when its first word is
/// `/dev/` followed by exactly `name`.
pub proof fn law_mount_source(line: Seq<char>)
    ensures
        mount_of_line(line) matches Some(m) ==> "/dev/"@ + m.0 == words(line)[0],
{
    if let Some(m) = mount_of_line(line) {
        let w0 = words(line)[0];
        assert(w0 =~= w0.take("/dev/"@.len() as int) + w0.skip("/dev/"@.len() as int));
    }
}

} // verus!
