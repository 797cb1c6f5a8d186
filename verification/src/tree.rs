//! The device tree of the disk table: disks and loop devices sorted by
//! name, each followed by its partitions in partition order.
use vstd::prelude::*;
use crate::disk::{DeviceKind, DiskDevice};
use crate::text::chars_of;

verus! {

/// `a` sorts before `b` as strings do: character by character, by code
/// point, a proper prefix first.
pub open spec fn lex_lt(a: Seq<char>, b: Seq<char>) -> bool
    decreases a.len(),
{
    if a.len() == 0 {
        b.len() > 0
    } else if b.len() == 0 {
        false
    } else if a[0] != b[0] {
        (a[0] as u32) < (b[0] as u32)
    } else {
        lex_lt(a.drop_first(), b.drop_first())
    }
}

/// Where `x` goes in `s`: before the first element that `gt` puts after it,
/// so that it follows every element it ties with.
pub open spec fn insert_pos(s: Seq<int>, x: int, gt: spec_fn(int, int) -> bool) -> nat
    decreases s.len(),
{
    if s.len() == 0 {
        0
    } else if gt(s[0], x) {
        0
    } else {
        1 + insert_pos(s.drop_first(), x, gt)
    }
}

/// `s` with `x` put in its place.
pub open spec fn insert_sorted(s: Seq<int>, x: int, gt: spec_fn(int, int) -> bool) -> Seq<int> {
    s.insert(insert_pos(s, x, gt) as int, x)
}

/// `s` in the order of `gt`, ties kept in their order in `s`.
pub open spec fn sort_by(s: Seq<int>, gt: spec_fn(int, int) -> bool) -> Seq<int>
    decreases s.len(),
{
    if s.len() == 0 {
        s
    } else {
        insert_sorted(sort_by(s.drop_last(), gt), s.last(), gt)
    }
}

/// Whether device `d` heads a group of the tree: any device but a
/// partition, and a loop device only when loop devices are shown.
pub open spec fn heads_group(d: DiskDevice, show_loopback: bool) -> bool {
    !(d.kind is Partition) && (show_loopback || !(d.kind is Loopback))
}

/// Whether `d` is a partition of the device named `name`.
pub open spec fn is_partition_of(d: DiskDevice, name: Seq<char>) -> bool {
    d.kind matches DeviceKind::Partition { parent, .. } && parent@ == name
}

/// The partition number of a partition.
pub open spec fn part_num_of(d: DiskDevice) -> u32 {
    match d.kind {
        DeviceKind::Partition { part_num, .. } => part_num,
        _ => 0,
    }
}

/// Positions of the devices that head groups, in the order given.
pub open spec fn group_heads(devs: Seq<DiskDevice>, show_loopback: bool) -> Seq<int>
    decreases devs.len(),
{
    if devs.len() == 0 {
        seq![]
    } else {
        group_heads(devs.drop_last(), show_loopback) + if heads_group(devs.last(), show_loopback) {
            seq![devs.len() - 1]
        } else {
            seq![]
        }
    }
}

/// Positions of the partitions of the device named `name`, in the order given.
pub open spec fn partitions_of(devs: Seq<DiskDevice>, name: Seq<char>) -> Seq<int>
    decreases devs.len(),
{
    if devs.len() == 0 {
        seq![]
    } else {
        partitions_of(devs.drop_last(), name) + if is_partition_of(devs.last(), name) {
            seq![devs.len() - 1]
        } else {
            seq![]
        }
    }
}

/// Order of group heads: by name.
pub open spec fn name_gt(devs: Seq<DiskDevice>) -> spec_fn(int, int) -> bool {
    |i: int, j: int| 0 <= i < devs.len() && 0 <= j < devs.len() && lex_lt(devs[j].id@, devs[i].id@)
}

/// Order of partitions: by partition number.
pub open spec fn part_gt(devs: Seq<DiskDevice>) -> spec_fn(int, int) -> bool {
    |i: int, j: int| 0 <= i < devs.len() && 0 <= j < devs.len() && part_num_of(devs[i]) > part_num_of(devs[j])
}

/// The branch drawn before a partition: the last one of its group closes
/// the group.
pub open spec fn branch(last: bool) -> Seq<char> {
    if last {
        "└─"@
    } else {
        "├─"@
    }
}

/// Rows for the partitions at `kids`, in that order.
pub open spec fn partition_rows(kids: Seq<int>) -> Seq<(int, Seq<char>)> {
    Seq::new(kids.len(), |j: int| (kids[j], branch(j == kids.len() - 1)))
}

/// Rows for the groups headed by `heads`, in that order: each head, then,
/// when partitions are shown, its partitions in partition order.
pub open spec fn group_rows(devs: Seq<DiskDevice>, heads: Seq<int>, show_partitions: bool) -> Seq<
    (int, Seq<char>),
>
    decreases heads.len(),
{
    if heads.len() == 0 {
        seq![]
    } else {
        let h = heads.last();
        group_rows(devs, heads.drop_last(), show_partitions) + seq![(h, ""@)] + if show_partitions {
            partition_rows(sort_by(partitions_of(devs, devs[h].id@), part_gt(devs)))
        } else {
            seq![]
        }
    }
}

/// The rows of the tree: positions of devices and the branch drawn before each.
pub open spec fn dev_tree(devs: Seq<DiskDevice>, show_partitions: bool, show_loopback: bool) -> Seq<
    (int, Seq<char>),
> {
    group_rows(devs, sort_by(group_heads(devs, show_loopback), name_gt(devs)), show_partitions)
}

/// Exec comparison of two character sequences as strings compare.
fn chars_lt(a: &Vec<char>, b: &Vec<char>) -> (r: bool)
    ensures
        r == lex_lt(a@, b@),
{
    let mut i: usize = 0;
    assert(a@.skip(0) =~= a@);
    assert(b@.skip(0) =~= b@);
    while i < a.len() && i < b.len() && a[i] == b[i]
        invariant
            0 <= i <= a.len(),
            i <= b.len(),
            lex_lt(a@, b@) == lex_lt(a@.skip(i as int), b@.skip(i as int)),
        decreases a.len() - i,
    {
        assert(a@.skip(i as int).drop_first() =~= a@.skip(i + 1));
        assert(b@.skip(i as int).drop_first() =~= b@.skip(i + 1));
        i = i + 1;
    }
    assert(a@.skip(i as int).len() == a.len() - i);
    if i == a.len() {
        i < b.len()
    } else if i == b.len() {
        false
    } else {
        assert(a@.skip(i as int)[0] == a@[i as int]);
        assert(b@.skip(i as int)[0] == b@[i as int]);
        (a[i] as u32) < (b[i] as u32)
    }
}

/// What the tree sorts by.
enum SortKeys {
    Names(Vec<Vec<char>>),
    PartNums(Vec<u32>),
}

spec fn keys_gt(k: SortKeys) -> spec_fn(int, int) -> bool {
    match k {
        SortKeys::Names(ids) => |i: int, j: int|
            0 <= i < ids@.len() && 0 <= j < ids@.len() && lex_lt(ids@[j]@, ids@[i]@),
        SortKeys::PartNums(nums) => |i: int, j: int|
            0 <= i < nums@.len() && 0 <= j < nums@.len() && nums@[i] > nums@[j],
    }
}

spec fn keys_len(k: SortKeys) -> nat {
    match k {
        SortKeys::Names(ids) => ids@.len(),
        SortKeys::PartNums(nums) => nums@.len(),
    }
}

fn keys_greater(k: &SortKeys, i: usize, j: usize) -> (r: bool)
    requires
        i < keys_len(*k),
        j < keys_len(*k),
    ensures
        r == keys_gt(*k)(i as int, j as int),
{
    match k {
        SortKeys::Names(ids) => chars_lt(&ids[j], &ids[i]),
        SortKeys::PartNums(nums) => nums[i] > nums[j],
    }
}

/// Sorts positions by the keys, ties kept in their order.
fn sort_positions(items: &Vec<usize>, k: &SortKeys) -> (r: Vec<usize>)
    requires
        forall|q: int| 0 <= q < items.len() ==> #[trigger] items@[q] < keys_len(*k),
    ensures
        r@.map_values(|x: usize| x as int) == sort_by(items@.map_values(|x: usize| x as int), keys_gt(*k)),
        forall|q: int| 0 <= q < r.len() ==> #[trigger] r@[q] < keys_len(*k),
{
    let ghost gt = keys_gt(*k);
    let ghost s = items@.map_values(|x: usize| x as int);
    let mut v: Vec<usize> = Vec::new();
    let mut i: usize = 0;
    assert(s.take(0) =~= Seq::<int>::empty());
    assert(v@.map_values(|x: usize| x as int) =~= Seq::<int>::empty());
    while i < items.len()
        invariant
            0 <= i <= items.len(),
            gt == keys_gt(*k),
            s == items@.map_values(|x: usize| x as int),
            forall|q: int| 0 <= q < items.len() ==> #[trigger] items@[q] < keys_len(*k),
            forall|q: int| 0 <= q < v.len() ==> #[trigger] v@[q] < keys_len(*k),
            v@.map_values(|x: usize| x as int) == sort_by(s.take(i as int), gt),
        decreases items.len() - i,
    {
        let x = items[i];
        let ghost vs = v@.map_values(|y: usize| y as int);
        assert(s.take(i + 1).drop_last() =~= s.take(i as int));
        assert(s.take(i + 1).last() == x as int);
        let mut p: usize = 0;
        assert(vs.skip(0) =~= vs);
        while p < v.len() && !keys_greater(k, v[p], x)
            invariant
                0 <= p <= v.len(),
                vs == v@.map_values(|y: usize| y as int),
                gt == keys_gt(*k),
                x < keys_len(*k),
                forall|q: int| 0 <= q < v.len() ==> #[trigger] v@[q] < keys_len(*k),
                insert_pos(vs, x as int, gt) == p + insert_pos(vs.skip(p as int), x as int, gt),
            decreases v.len() - p,
        {
            assert(vs.skip(p as int)[0] == v@[p as int] as int);
            assert(vs.skip(p as int).drop_first() =~= vs.skip(p + 1));
            p = p + 1;
        }
        if p < v.len() {
            assert(vs.skip(p as int)[0] == v@[p as int] as int);
        } else {
            assert(vs.skip(p as int) =~= Seq::<int>::empty());
        }
        v.insert(p, x);
        assert(v@.map_values(|y: usize| y as int) =~= vs.insert(p as int, x as int));
        i = i + 1;
    }
    assert(s.take(items.len() as int) =~= s);
    v
}

} // verus!

verus! {

/// Rows given as positions and branches.
pub open spec fn index_rows(v: Seq<(usize, &str)>) -> Seq<(int, Seq<char>)> {
    v.map_values(|p: (usize, &str)| (p.0 as int, p.1@))
}

fn heads_group_exec(d: &DiskDevice, show_loopback: bool) -> (r: bool)
    ensures
        r == heads_group(*d, show_loopback),
{
    match &d.kind {
        DeviceKind::Partition { .. } => false,
        DeviceKind::Loopback { .. } => show_loopback,
        DeviceKind::Disk => true,
    }
}

/// Positions of the partitions of device `name`, in the order given.
fn partitions_exec(devices: &[DiskDevice], name: &String) -> (r: Vec<usize>)
    ensures
        r@.map_values(|x: usize| x as int) == partitions_of(devices@, name@),
        forall|q: int| 0 <= q < r.len() ==> #[trigger] r@[q] < devices@.len(),
{
    let mut r: Vec<usize> = Vec::new();
    let mut j: usize = 0;
    assert(devices@.take(0) =~= Seq::<DiskDevice>::empty());
    assert(r@.map_values(|x: usize| x as int) =~= Seq::<int>::empty());
    while j < devices.len()
        invariant
            0 <= j <= devices@.len(),
            r@.map_values(|x: usize| x as int) == partitions_of(devices@.take(j as int), name@),
            forall|q: int| 0 <= q < r.len() ==> #[trigger] r@[q] < devices@.len(),
        decreases devices@.len() - j,
    {
        let ghost before = r@.map_values(|x: usize| x as int);
        assert(devices@.take(j + 1).drop_last() =~= devices@.take(j as int));
        assert(devices@.take(j + 1).last() == devices@[j as int]);
        let is_kid = match &devices[j].kind {
            DeviceKind::Partition { parent, .. } => *parent == *name,
            _ => false,
        };
        if is_kid {
            r.push(j);
            assert(r@.map_values(|x: usize| x as int) =~= before + seq![j as int]);
        } else {
            assert(before + seq![] =~= before);
        }
        j = j + 1;
    }
    assert(devices@.take(devices@.len() as int) =~= devices@);
    r
}

/// Arranges devices as a tree for the table: disks and, when shown, loop
/// devices sorted by name (ties in the order given), each followed, when
/// partitions are shown, by its partitions sorted by partition number, the
/// last one drawn with a closing branch. Partitions of a device that is not
/// shown are left out.
pub fn build_dev_tree<'a>(devices: &'a [DiskDevice], show_partitions: bool, show_loopback: bool) -> (r: Vec<
    (&'a DiskDevice, &'static str),
>)
    ensures
        r@.len() == dev_tree(devices@, show_partitions, show_loopback).len(),
        forall|k: int|
            0 <= k < r@.len() ==> {
                let row = dev_tree(devices@, show_partitions, show_loopback)[k];
                &&& 0 <= row.0 < devices@.len()
                &&& *(#[trigger] r@[k]).0 == devices@[row.0]
                &&& r@[k].1@ == row.1
            },
{
    let ghost devs = devices@;
    let n = devices.len();
    // the devices that head groups, in the order given
    let mut heads: Vec<usize> = Vec::new();
    let mut i: usize = 0;
    assert(devs.take(0) =~= Seq::<DiskDevice>::empty());
    assert(heads@.map_values(|x: usize| x as int) =~= Seq::<int>::empty());
    while i < n
        invariant
            0 <= i <= n == devs.len(),
            devs == devices@,
            heads@.map_values(|x: usize| x as int) == group_heads(devs.take(i as int), show_loopback),
            forall|q: int| 0 <= q < heads.len() ==> #[trigger] heads@[q] < n,
        decreases n - i,
    {
        let ghost before = heads@.map_values(|x: usize| x as int);
        assert(devs.take(i + 1).drop_last() =~= devs.take(i as int));
        assert(devs.take(i + 1).last() == devs[i as int]);
        if heads_group_exec(&devices[i], show_loopback) {
            heads.push(i);
            assert(heads@.map_values(|x: usize| x as int) =~= before + seq![i as int]);
        } else {
            assert(before + seq![] =~= before);
        }
        i = i + 1;
    }
    assert(devs.take(n as int) =~= devs);
    // sort keys of every device
    let mut ids: Vec<Vec<char>> = Vec::new();
    let mut nums: Vec<u32> = Vec::new();
    let mut i: usize = 0;
    while i < n
        invariant
            0 <= i <= n == devs.len(),
            devs == devices@,
            ids@.len() == i,
            nums@.len() == i,
            forall|q: int| 0 <= q < i ==> (#[trigger] ids@[q])@ == devs[q].id@,
            forall|q: int| 0 <= q < i ==> #[trigger] nums@[q] == part_num_of(devs[q]),
        decreases n - i,
    {
        ids.push(chars_of(devices[i].id.as_str()));
        let pn: u32 = match &devices[i].kind {
            DeviceKind::Partition { part_num, .. } => *part_num,
            _ => 0,
        };
        nums.push(pn);
        i = i + 1;
    }
    let names = SortKeys::Names(ids);
    assert(keys_gt(names) =~= name_gt(devs));
    let sorted = sort_positions(&heads, &names);
    let parts = SortKeys::PartNums(nums);
    assert(keys_gt(parts) =~= part_gt(devs));
    let ghost heads_sorted = sort_by(group_heads(devs, show_loopback), name_gt(devs));
    assert(sorted@.map_values(|x: usize| x as int) == heads_sorted);
    // the rows, group by group, as positions
    let mut irows: Vec<(usize, &'static str)> = Vec::new();
    let mut t: usize = 0;
    assert(heads_sorted.take(0) =~= Seq::<int>::empty());
    assert(index_rows(irows@) =~= Seq::<(int, Seq<char>)>::empty());
    while t < sorted.len()
        invariant
            0 <= t <= sorted.len(),
            devs == devices@,
            n == devs.len(),
            keys_gt(parts) == part_gt(devs),
            keys_len(parts) == n,
            sorted@.map_values(|x: usize| x as int) == heads_sorted,
            forall|q: int| 0 <= q < sorted.len() ==> #[trigger] sorted@[q] < n,
            forall|q: int| 0 <= q < irows.len() ==> #[trigger] irows@[q].0 < n,
            index_rows(irows@) == group_rows(devs, heads_sorted.take(t as int), show_partitions),
        decreases sorted.len() - t,
    {
        let h = sorted[t];
        let ghost hs = heads_sorted.take(t + 1);
        assert(hs.drop_last() =~= heads_sorted.take(t as int));
        assert(hs.last() == h as int);
        let ghost prev_rows = index_rows(irows@);
        let ghost kids_spec = sort_by(partitions_of(devs, devs[h as int].id@), part_gt(devs));
        irows.push((h, ""));
        assert(index_rows(irows@) =~= prev_rows + seq![(h as int, ""@)]);
        if show_partitions {
            let kids = partitions_exec(devices, &devices[h].id);
            let kids_sorted = sort_positions(&kids, &parts);
            assert(kids_sorted@.map_values(|x: usize| x as int) == kids_spec);
            let m = kids_sorted.len();
            let mut j: usize = 0;
            assert(partition_rows(kids_spec).take(0) =~= Seq::<(int, Seq<char>)>::empty());
            while j < m
                invariant
                    0 <= j <= m == kids_sorted@.len(),
                    kids_sorted@.map_values(|x: usize| x as int) == kids_spec,
                    forall|q: int| 0 <= q < kids_sorted.len() ==> #[trigger] kids_sorted@[q] < n,
                    forall|q: int| 0 <= q < irows.len() ==> #[trigger] irows@[q].0 < n,
                    index_rows(irows@) == prev_rows + seq![(h as int, ""@)] + partition_rows(
                        kids_spec,
                    ).take(j as int),
                decreases m - j,
            {
                let kid = kids_sorted[j];
                let prefix: &'static str = if j + 1 == m {
                    "└─"
                } else {
                    "├─"
                };
                let ghost before = index_rows(irows@);
                assert(partition_rows(kids_spec)[j as int] == (kid as int, branch(j + 1 == m)));
                assert(partition_rows(kids_spec).take(j + 1) =~= partition_rows(kids_spec).take(
                    j as int,
                ).push(partition_rows(kids_spec)[j as int]));
                irows.push((kid, prefix));
                assert(index_rows(irows@) =~= before.push((kid as int, prefix@)));
                j = j + 1;
            }
            assert(partition_rows(kids_spec).take(m as int) =~= partition_rows(kids_spec));
        } else {
            assert(prev_rows + seq![(h as int, ""@)] + seq![] =~= prev_rows + seq![(h as int, ""@)]);
        }
        t = t + 1;
    }
    assert(heads_sorted.take(sorted.len() as int) =~= heads_sorted);
    // the rows, as references to the devices
    let mut rows: Vec<(&'a DiskDevice, &'static str)> = Vec::new();
    let mut k: usize = 0;
    while k < irows.len()
        invariant
            0 <= k <= irows.len(),
            devs == devices@,
            n == devs.len(),
            forall|q: int| 0 <= q < irows.len() ==> #[trigger] irows@[q].0 < n,
            rows@.len() == k,
            forall|q: int|
                0 <= q < k ==> *(#[trigger] rows@[q]).0 == devs[irows@[q].0 as int] && rows@[q].1
                    == irows@[q].1,
        decreases irows.len() - k,
    {
        let (p, prefix) = irows[k];
        rows.push((&devices[p], prefix));
        k = k + 1;
    }
    assert forall|q: int| 0 <= q < rows@.len() implies {
        let row = dev_tree(devices@, show_partitions, show_loopback)[q];
        &&& 0 <= row.0 < devices@.len()
        &&& *(#[trigger] rows@[q]).0 == devices@[row.0]
        &&& rows@[q].1@ == row.1
    } by {
        assert(index_rows(irows@)[q] == (irows@[q].0 as int, irows@[q].1@));
    }
    rows
}

} // verus!

verus! {

/// No element of `s` is put after a later one.
pub open spec fn is_sorted_by(s: Seq<int>, gt: spec_fn(int, int) -> bool) -> bool {
    forall|i: int, j: int| 0 <= i < j < s.len() ==> !gt(s[i], s[j])
}

/// `gt` is a strict order: never reflexive, always transitive.
pub open spec fn is_strict_order(gt: spec_fn(int, int) -> bool) -> bool {
    &&& forall|a: int| !#[trigger] gt(a, a)
    &&& forall|a: int, b: int, c: int| #[trigger] gt(a, b) && #[trigger] gt(b, c) ==> gt(a, c)
}

proof fn lemma_insert_pos(s: Seq<int>, x: int, gt: spec_fn(int, int) -> bool)
    ensures
        insert_pos(s, x, gt) <= s.len(),
        forall|i: int| 0 <= i < insert_pos(s, x, gt) ==> !gt(s[i], x),
        insert_pos(s, x, gt) < s.len() ==> gt(s[insert_pos(s, x, gt) as int], x),
    decreases s.len(),
{
    if s.len() > 0 && !gt(s[0], x) {
        lemma_insert_pos(s.drop_first(), x, gt);
        assert forall|i: int| 0 <= i < insert_pos(s, x, gt) implies !gt(s[i], x) by {
            if i > 0 {
                assert(s[i] == s.drop_first()[i - 1]);
            }
        }
    }
}

/// Sorting keeps every element as often as it occurs: the result is a
/// rearrangement of the input.
pub proof fn law_sort_permutes(s: Seq<int>, gt: spec_fn(int, int) -> bool)
    ensures
        sort_by(s, gt).len() == s.len(),
        sort_by(s, gt).to_multiset() == s.to_multiset(),
    decreases s.len(),
{
    broadcast use vstd::seq_lib::to_multiset_insert, vstd::seq_lib::to_multiset_build;

    if s.len() > 0 {
        let t = sort_by(s.drop_last(), gt);
        law_sort_permutes(s.drop_last(), gt);
        lemma_insert_pos(t, s.last(), gt);
        assert(s.drop_last().push(s.last()) =~= s);
    }
}

/// Sorting by a strict order gives a sorted sequence.
pub proof fn law_sort_sorted(s: Seq<int>, gt: spec_fn(int, int) -> bool)
    requires
        is_strict_order(gt),
    ensures
        is_sorted_by(sort_by(s, gt), gt),
    decreases s.len(),
{
    if s.len() > 0 {
        let t = sort_by(s.drop_last(), gt);
        let x = s.last();
        law_sort_sorted(s.drop_last(), gt);
        lemma_insert_pos(t, x, gt);
        let p = insert_pos(t, x, gt) as int;
        let u = t.insert(p, x);
        assert forall|i: int, j: int| 0 <= i < j < u.len() implies !gt(u[i], u[j]) by {
            if i == p {
                let q = j - 1;
                assert(u[j] == t[q]);
                if gt(x, t[q]) {
                    assert(gt(t[p], x));
                    if q > p {
                        assert(!gt(t[p], t[q]));
                    }
                }
            } else if j == p {
                assert(u[i] == t[i]);
            } else {
                let ii = if i < p { i } else { i - 1 };
                let jj = if j < p { j } else { j - 1 };
                assert(u[i] == t[ii]);
                assert(u[j] == t[jj]);
            }
        }
    }
}

/// Comparing strings never puts one before itself.
pub proof fn law_lex_irreflexive(a: Seq<char>)
    ensures
        !lex_lt(a, a),
    decreases a.len(),
{
    if a.len() > 0 {
        law_lex_irreflexive(a.drop_first());
    }
}

/// Comparing strings is transitive.
pub proof fn law_lex_transitive(a: Seq<char>, b: Seq<char>, c: Seq<char>)
    requires
        lex_lt(a, b),
        lex_lt(b, c),
    ensures
        lex_lt(a, c),
    decreases a.len(),
{
    if a.len() > 0 && b.len() > 0 && c.len() > 0 && a[0] == b[0] && b[0] == c[0] {
        law_lex_transitive(a.drop_first(), b.drop_first(), c.drop_first());
    }
}

/// Of two different strings, one sorts before the other.
pub proof fn law_lex_total(a: Seq<char>, b: Seq<char>)
    requires
        a != b,
    ensures
        lex_lt(a, b) || lex_lt(b, a),
    decreases a.len(),
{
    if a.len() > 0 && b.len() > 0 && a[0] == b[0] {
        if a.drop_first() == b.drop_first() {
            assert(a =~= seq![a[0]] + a.drop_first());
            assert(b =~= seq![b[0]] + b.drop_first());
        }
        law_lex_total(a.drop_first(), b.drop_first());
    } else if a.len() > 0 && b.len() > 0 {
        let (x, y) = (a[0], b[0]);
        vstd::utf8::char_u32_cast(x, x as u32);
        vstd::utf8::char_u32_cast(y, y as u32);
        assert((x as u32) != (y as u32));
    } else if a.len() == 0 && b.len() == 0 {
        assert(a =~= b);
    }
}

/// Ordering devices by name, and partitions by number, are strict orders.
pub proof fn law_tree_orders_strict(devs: Seq<DiskDevice>)
    ensures
        is_strict_order(name_gt(devs)),
        is_strict_order(part_gt(devs)),
{
    assert forall|a: int| !#[trigger] name_gt(devs)(a, a) by {
        law_lex_irreflexive(devs[a].id@);
    }
    assert forall|a: int, b: int, c: int| #[trigger] name_gt(devs)(a, b) && #[trigger] name_gt(devs)(b, c) implies name_gt(
        devs,
    )(a, c) by {
        law_lex_transitive(devs[c].id@, devs[b].id@, devs[a].id@);
    }
}

/// Every group head is the position of a device that heads a group.
pub proof fn lemma_group_heads(devs: Seq<DiskDevice>, show_loopback: bool)
    ensures
        forall|q: int|
            0 <= q < group_heads(devs, show_loopback).len() ==> {
                let h = #[trigger] group_heads(devs, show_loopback)[q];
                0 <= h < devs.len() && heads_group(devs[h], show_loopback)
            },
    decreases devs.len(),
{
    if devs.len() > 0 {
        lemma_group_heads(devs.drop_last(), show_loopback);
        let g0 = group_heads(devs.drop_last(), show_loopback);
        assert forall|q: int| 0 <= q < group_heads(devs, show_loopback).len() implies {
            let h = #[trigger] group_heads(devs, show_loopback)[q];
            0 <= h < devs.len() && heads_group(devs[h], show_loopback)
        } by {
            if q < g0.len() {
                assert(group_heads(devs, show_loopback)[q] == g0[q]);
                assert(devs.drop_last()[g0[q]] == devs[g0[q]]);
            }
        }
    }
}

/// The groups of the tree come in order of their heads' names.
pub proof fn law_groups_by_name(devs: Seq<DiskDevice>, show_loopback: bool)
    ensures
        ({
            let s = sort_by(group_heads(devs, show_loopback), name_gt(devs));
            forall|i: int, j: int|
                0 <= i < j < s.len() ==> !lex_lt(devs[#[trigger] s[j]].id@, devs[#[trigger] s[i]].id@)
        }),
{
    broadcast use vstd::seq_lib::to_multiset_contains;

    let g = group_heads(devs, show_loopback);
    let s = sort_by(g, name_gt(devs));
    law_tree_orders_strict(devs);
    law_sort_sorted(g, name_gt(devs));
    law_sort_permutes(g, name_gt(devs));
    lemma_group_heads(devs, show_loopback);
    assert forall|i: int, j: int| 0 <= i < j < s.len() implies !lex_lt(
        devs[#[trigger] s[j]].id@,
        devs[#[trigger] s[i]].id@,
    ) by {
        assert(!name_gt(devs)(s[i], s[j]));
        assert(s.to_multiset().count(s[i]) > 0);
        assert(s.to_multiset().count(s[j]) > 0);
        assert(g.contains(s[i]));
        assert(g.contains(s[j]));
    }
}

} // verus!

verus! {

/// Every partition position of a device is that of one of its partitions.
pub proof fn lemma_partitions_of(devs: Seq<DiskDevice>, name: Seq<char>)
    ensures
        forall|q: int|
            0 <= q < partitions_of(devs, name).len() ==> {
                let p = #[trigger] partitions_of(devs, name)[q];
                0 <= p < devs.len() && is_partition_of(devs[p], name)
            },
    decreases devs.len(),
{
    if devs.len() > 0 {
        lemma_partitions_of(devs.drop_last(), name);
        let k0 = partitions_of(devs.drop_last(), name);
        assert forall|q: int| 0 <= q < partitions_of(devs, name).len() implies {
            let p = #[trigger] partitions_of(devs, name)[q];
            0 <= p < devs.len() && is_partition_of(devs[p], name)
        } by {
            if q < k0.len() {
                assert(partitions_of(devs, name)[q] == k0[q]);
                assert(devs.drop_last()[k0[q]] == devs[k0[q]]);
            }
        }
    }
}

/// What a row of the tree may be: a group head, drawn without a branch, or
/// (only when partitions are shown) a partition drawn after a branch.
pub open spec fn row_ok(
    devs: Seq<DiskDevice>,
    row: (int, Seq<char>),
    show_partitions: bool,
    show_loopback: bool,
) -> bool {
    &&& 0 <= row.0 < devs.len()
    &&& {
        ||| row.1 == ""@ && heads_group(devs[row.0], show_loopback)
        ||| show_partitions && devs[row.0].kind is Partition && (row.1 == "└─"@ || row.1 == "├─"@)
    }
}

proof fn lemma_group_rows_ok(
    devs: Seq<DiskDevice>,
    heads: Seq<int>,
    show_partitions: bool,
    show_loopback: bool,
)
    requires
        forall|q: int|
            0 <= q < heads.len() ==> 0 <= #[trigger] heads[q] < devs.len() && heads_group(
                devs[heads[q]],
                show_loopback,
            ),
    ensures
        forall|k: int|
            0 <= k < group_rows(devs, heads, show_partitions).len() ==> row_ok(
                devs,
                #[trigger] group_rows(devs, heads, show_partitions)[k],
                show_partitions,
                show_loopback,
            ),
    decreases heads.len(),
{
    broadcast use vstd::seq_lib::to_multiset_contains;

    if heads.len() > 0 {
        let h = heads.last();
        let prev = group_rows(devs, heads.drop_last(), show_partitions);
        lemma_group_rows_ok(devs, heads.drop_last(), show_partitions, show_loopback);
        let kids_in = partitions_of(devs, devs[h].id@);
        let kids = sort_by(kids_in, part_gt(devs));
        lemma_partitions_of(devs, devs[h].id@);
        law_sort_permutes(kids_in, part_gt(devs));
        let rows = group_rows(devs, heads, show_partitions);
        assert forall|k: int| 0 <= k < rows.len() implies row_ok(
            devs,
            #[trigger] rows[k],
            show_partitions,
            show_loopback,
        ) by {
            if k < prev.len() {
                assert(rows[k] == prev[k]);
            } else if k == prev.len() {
                assert(rows[k] == (h, ""@));
            } else {
                let j = k - prev.len() - 1;
                assert(rows[k] == partition_rows(kids)[j]);
                assert(kids.to_multiset().count(kids[j]) > 0);
                assert(kids_in.contains(kids[j]));
            }
        }
    }
}

/// Every row of the tree is a shown group head without a branch, or, when
/// partitions are shown, a partition after a branch: loop devices are left
/// out unless shown, and no partition heads a group.
pub proof fn law_tree_rows(devs: Seq<DiskDevice>, show_partitions: bool, show_loopback: bool)
    ensures
        forall|k: int|
            0 <= k < dev_tree(devs, show_partitions, show_loopback).len() ==> row_ok(
                devs,
                #[trigger] dev_tree(devs, show_partitions, show_loopback)[k],
                show_partitions,
                show_loopback,
            ),
{
    broadcast use vstd::seq_lib::to_multiset_contains;

    let g = group_heads(devs, show_loopback);
    let s = sort_by(g, name_gt(devs));
    law_sort_permutes(g, name_gt(devs));
    lemma_group_heads(devs, show_loopback);
    assert forall|q: int| 0 <= q < s.len() implies 0 <= #[trigger] s[q] < devs.len() && heads_group(
        devs[s[q]],
        show_loopback,
    ) by {
        assert(s.to_multiset().count(s[q]) > 0);
        assert(g.contains(s[q]));
    }
    lemma_group_rows_ok(devs, s, show_partitions, show_loopback);
}

} // verus!

verus! {

/// `x` occurs in `s` before an occurrence of `y`.
pub open spec fn occurs_before(s: Seq<int>, x: int, y: int) -> bool {
    exists|i: int, j: int| 0 <= i < j < s.len() && #[trigger] s[i] == x && #[trigger] s[j] == y
}

/// Neither of `x` and `y` goes after the other.
pub open spec fn ties(gt: spec_fn(int, int) -> bool, x: int, y: int) -> bool {
    !gt(x, y) && !gt(y, x)
}

/// On the elements of `s`, whatever `gt` puts after something, it puts
/// after or before anything else.
pub open spec fn is_weak_on(s: Seq<int>, gt: spec_fn(int, int) -> bool) -> bool {
    forall|a: int, b: int, c: int|
        s.contains(a) && s.contains(b) && s.contains(c) && #[trigger] gt(a, b) ==> #[trigger] gt(
            a,
            c,
        ) || #[trigger] gt(c, b)
}

/// Sorting keeps elements that tie in the order in which they occur.
pub proof fn law_sort_stable(s: Seq<int>, gt: spec_fn(int, int) -> bool)
    requires
        is_strict_order(gt),
        is_weak_on(s, gt),
    ensures
        forall|a: int, b: int|
            0 <= a < b < sort_by(s, gt).len() && ties(gt, #[trigger] sort_by(s, gt)[a], #[trigger] sort_by(s, gt)[b])
                ==> occurs_before(s, sort_by(s, gt)[a], sort_by(s, gt)[b]),
    decreases s.len(),
{
    broadcast use vstd::seq_lib::to_multiset_contains;

    if s.len() > 0 {
        let s0 = s.drop_last();
        let x = s.last();
        let t = sort_by(s0, gt);
        assert forall|a: int, b: int, c: int|
            s0.contains(a) && s0.contains(b) && s0.contains(c) && #[trigger] gt(a, b) implies #[trigger] gt(
                a,
                c,
            ) || #[trigger] gt(c, b) by {
            let (ia, ib, ic) = (s0.index_of(a), s0.index_of(b), s0.index_of(c));
            assert(s[ia] == a && s[ib] == b && s[ic] == c);
        }
        law_sort_stable(s0, gt);
        law_sort_sorted(s0, gt);
        law_sort_permutes(s0, gt);
        lemma_insert_pos(t, x, gt);
        let p = insert_pos(t, x, gt) as int;
        let u = t.insert(p, x);
        assert(u == sort_by(s, gt));
        assert forall|a: int, b: int| 0 <= a < b < u.len() && ties(gt, #[trigger] u[a], #[trigger] u[b])
            implies occurs_before(s, u[a], u[b]) by {
            if a == p {
                let q = b - 1;
                assert(u[b] == t[q]);
                assert(gt(t[p], x));
                assert(t.to_multiset().count(t[p]) > 0);
                assert(t.to_multiset().count(t[q]) > 0);
                assert(s0.contains(t[p]) && s0.contains(t[q]));
                let (i1, i2) = (s0.index_of(t[p]), s0.index_of(t[q]));
                assert(s[i1] == t[p] && s[i2] == t[q] && s[s.len() - 1] == x);
                assert(s.contains(t[p]) && s.contains(t[q]) && s.contains(x));
                assert(gt(t[p], t[q]) || gt(t[q], x));
                if q > p {
                    assert(!gt(t[p], t[q]));
                }
            } else if b == p {
                assert(u[a] == t[a]);
                assert(t.to_multiset().count(t[a]) > 0);
                let i = s0.index_of(t[a]);
                assert(s[i] == t[a] && s[s.len() - 1] == x);
            } else {
                let aa = if a < p { a } else { a - 1 };
                let bb = if b < p { b } else { b - 1 };
                assert(u[a] == t[aa] && u[b] == t[bb]);
                assert(occurs_before(s0, t[aa], t[bb]));
                let (i, j) = choose|i: int, j: int| 0 <= i < j < s0.len() && #[trigger] s0[i] == t[aa] && #[trigger] s0[j] == t[bb];
                assert(s[i] == t[aa] && s[j] == t[bb]);
            }
        }
    }
}

} // verus!

verus! {

/// On device positions, ordering by name and by partition number are weak
/// orders.
pub proof fn lemma_tree_orders_weak(devs: Seq<DiskDevice>, s: Seq<int>)
    requires
        forall|q: int| 0 <= q < s.len() ==> 0 <= #[trigger] s[q] < devs.len(),
    ensures
        is_weak_on(s, name_gt(devs)),
        is_weak_on(s, part_gt(devs)),
{
    assert forall|a: int, b: int, c: int|
        s.contains(a) && s.contains(b) && s.contains(c) && #[trigger] name_gt(devs)(a, b) implies #[trigger] name_gt(
            devs,
        )(a, c) || #[trigger] name_gt(devs)(c, b) by {
        let ic = s.index_of(c);
        assert(0 <= s[ic] < devs.len());
        let (ia, ib, ic) = (devs[a].id@, devs[b].id@, devs[c].id@);
        if ic != ia {
            law_lex_total(ic, ia);
            if lex_lt(ia, ic) {
                law_lex_transitive(ib, ia, ic);
            }
        }
    }
    assert forall|a: int, b: int, c: int|
        s.contains(a) && s.contains(b) && s.contains(c) && #[trigger] part_gt(devs)(a, b) implies #[trigger] part_gt(
            devs,
        )(a, c) || #[trigger] part_gt(devs)(c, b) by {
        let ic = s.index_of(c);
        assert(0 <= s[ic] < devs.len());
    }
}

/// Devices with the same name head their groups in the order given, and
/// partitions of a device with the same number follow in the order given.
pub proof fn law_tree_ties_in_given_order(devs: Seq<DiskDevice>, show_loopback: bool, name: Seq<char>)
    ensures
        ({
            let g = group_heads(devs, show_loopback);
            let s = sort_by(g, name_gt(devs));
            forall|a: int, b: int|
                0 <= a < b < s.len() && devs[#[trigger] s[a]].id@ == devs[#[trigger] s[b]].id@
                    ==> occurs_before(g, s[a], s[b])
        }),
        ({
            let k = partitions_of(devs, name);
            let s = sort_by(k, part_gt(devs));
            forall|a: int, b: int|
                0 <= a < b < s.len() && part_num_of(devs[#[trigger] s[a]]) == part_num_of(
                    devs[#[trigger] s[b]],
                ) ==> occurs_before(k, s[a], s[b])
        }),
{
    broadcast use vstd::seq_lib::to_multiset_contains;

    law_tree_orders_strict(devs);
    let g = group_heads(devs, show_loopback);
    let s = sort_by(g, name_gt(devs));
    lemma_group_heads(devs, show_loopback);
    lemma_tree_orders_weak(devs, g);
    law_sort_stable(g, name_gt(devs));
    law_sort_permutes(g, name_gt(devs));
    assert forall|a: int, b: int|
        0 <= a < b < s.len() && devs[#[trigger] s[a]].id@ == devs[#[trigger] s[b]].id@ implies occurs_before(
        g,
        s[a],
        s[b],
    ) by {
        law_lex_irreflexive(devs[s[a]].id@);
        assert(ties(name_gt(devs), s[a], s[b]));
    }
    let k = partitions_of(devs, name);
    let s2 = sort_by(k, part_gt(devs));
    lemma_partitions_of(devs, name);
    lemma_tree_orders_weak(devs, k);
    law_sort_stable(k, part_gt(devs));
    assert forall|a: int, b: int|
        0 <= a < b < s2.len() && part_num_of(devs[#[trigger] s2[a]]) == part_num_of(devs[#[trigger] s2[b]])
            implies occurs_before(k, s2[a], s2[b]) by {
        assert(ties(part_gt(devs), s2[a], s2[b]));
    }
}

} // verus!

verus! {

/// How often `x` occurs in `s`.
pub open spec fn occ(s: Seq<int>, x: int) -> nat
    decreases s.len(),
{
    if s.len() == 0 {
        0
    } else {
        occ(s.drop_last(), x) + if s.last() == x {
            1nat
        } else {
            0nat
        }
    }
}

/// The device positions of rows.
pub open spec fn row_positions(rows: Seq<(int, Seq<char>)>) -> Seq<int> {
    rows.map_values(|r: (int, Seq<char>)| r.0)
}

proof fn lemma_occ_add(a: Seq<int>, b: Seq<int>, x: int)
    ensures
        occ(a + b, x) == occ(a, x) + occ(b, x),
    decreases b.len(),
{
    if b.len() == 0 {
        assert(a + b =~= a);
    } else {
        lemma_occ_add(a, b.drop_last(), x);
        assert((a + b).drop_last() =~= a + b.drop_last());
    }
}

proof fn lemma_occ_multiset(s: Seq<int>, x: int)
    ensures
        occ(s, x) == s.to_multiset().count(x),
    decreases s.len(),
{
    broadcast use
        vstd::seq_lib::to_multiset_build,
        vstd::seq_lib::to_multiset_contains,
        vstd::multiset::group_multiset_axioms,
    ;

    if s.len() == 0 {
        assert(!s.contains(x));
    } else {
        lemma_occ_multiset(s.drop_last(), x);
        assert(s.drop_last().push(s.last()) =~= s);
    }
}

proof fn lemma_occ_sort(s: Seq<int>, gt: spec_fn(int, int) -> bool, x: int)
    ensures
        occ(sort_by(s, gt), x) == occ(s, x),
{
    law_sort_permutes(s, gt);
    lemma_occ_multiset(s, x);
    lemma_occ_multiset(sort_by(s, gt), x);
}

proof fn lemma_occ_partitions(devs: Seq<DiskDevice>, name: Seq<char>, i: int)
    ensures
        occ(partitions_of(devs, name), i) == if 0 <= i < devs.len() && is_partition_of(devs[i], name) {
            1nat
        } else {
            0nat
        },
    decreases devs.len(),
{
    if devs.len() > 0 {
        let d0 = devs.drop_last();
        lemma_occ_partitions(d0, name, i);
        let tail: Seq<int> = if is_partition_of(devs.last(), name) {
            seq![devs.len() - 1]
        } else {
            seq![]
        };
        lemma_occ_add(partitions_of(d0, name), tail, i);
        assert(partitions_of(devs, name) == partitions_of(d0, name) + tail);
        if tail.len() == 1 {
            assert(tail.drop_last() =~= Seq::<int>::empty());
            assert(occ(tail.drop_last(), i) == 0);
            assert(occ(tail, i) == if devs.len() - 1 == i { 1nat } else { 0nat });
        } else {
            assert(occ(tail, i) == 0);
        }
        assert(devs.last() == devs[devs.len() - 1]);
        if 0 <= i < d0.len() {
            assert(d0[i] == devs[i]);
        }
    }
}

proof fn lemma_occ_heads(devs: Seq<DiskDevice>, show_loopback: bool, i: int)
    ensures
        occ(group_heads(devs, show_loopback), i) == if 0 <= i < devs.len() && heads_group(
            devs[i],
            show_loopback,
        ) {
            1nat
        } else {
            0nat
        },
    decreases devs.len(),
{
    if devs.len() > 0 {
        let d0 = devs.drop_last();
        lemma_occ_heads(d0, show_loopback, i);
        let tail: Seq<int> = if heads_group(devs.last(), show_loopback) {
            seq![devs.len() - 1]
        } else {
            seq![]
        };
        lemma_occ_add(group_heads(d0, show_loopback), tail, i);
        assert(group_heads(devs, show_loopback) == group_heads(d0, show_loopback) + tail);
        if tail.len() == 1 {
            assert(tail.drop_last() =~= Seq::<int>::empty());
            assert(occ(tail.drop_last(), i) == 0);
            assert(occ(tail, i) == if devs.len() - 1 == i { 1nat } else { 0nat });
        } else {
            assert(occ(tail, i) == 0);
        }
        assert(devs.last() == devs[devs.len() - 1]);
        if 0 <= i < d0.len() {
            assert(d0[i] == devs[i]);
        }
    }
}

/// How often `i` occurs among the partitions of the devices at `heads`.
pub open spec fn kids_occ(devs: Seq<DiskDevice>, heads: Seq<int>, i: int) -> nat
    decreases heads.len(),
{
    if heads.len() == 0 {
        0
    } else {
        kids_occ(devs, heads.drop_last(), i) + occ(partitions_of(devs, devs[heads.last()].id@), i)
    }
}

proof fn lemma_occ_group_rows(devs: Seq<DiskDevice>, heads: Seq<int>, show_partitions: bool, i: int)
    ensures
        occ(row_positions(group_rows(devs, heads, show_partitions)), i) == occ(heads, i) + if show_partitions {
            kids_occ(devs, heads, i)
        } else {
            0nat
        },
    decreases heads.len(),
{
    if heads.len() > 0 {
        let h = heads.last();
        let prev = group_rows(devs, heads.drop_last(), show_partitions);
        lemma_occ_group_rows(devs, heads.drop_last(), show_partitions, i);
        let kids = sort_by(partitions_of(devs, devs[h].id@), part_gt(devs));
        let tail: Seq<(int, Seq<char>)> = if show_partitions {
            partition_rows(kids)
        } else {
            seq![]
        };
        let rows = group_rows(devs, heads, show_partitions);
        assert(rows == prev + seq![(h, ""@)] + tail);
        assert(row_positions(rows) =~= row_positions(prev) + seq![h] + row_positions(tail));
        lemma_occ_add(row_positions(prev) + seq![h], row_positions(tail), i);
        lemma_occ_add(row_positions(prev), seq![h], i);
        assert(seq![h].drop_last() =~= Seq::<int>::empty());
        assert(occ(seq![h].drop_last(), i) == 0);
        assert(occ(seq![h], i) == if h == i { 1nat } else { 0nat });
        assert(occ(heads, i) == occ(heads.drop_last(), i) + if h == i { 1nat } else { 0nat });
        assert(kids_occ(devs, heads, i) == kids_occ(devs, heads.drop_last(), i) + occ(
            partitions_of(devs, devs[h].id@),
            i,
        ));
        if show_partitions {
            assert(row_positions(tail) =~= kids);
            lemma_occ_sort(partitions_of(devs, devs[h].id@), part_gt(devs), i);
        } else {
            assert(row_positions(tail) =~= Seq::<int>::empty());
            assert(occ(row_positions(tail), i) == 0);
        }
    }
}

/// Row `k0` is a group head above row `k`, and every row after it up to
/// `k` is a partition of that head.
pub open spec fn under_head(
    devs: Seq<DiskDevice>,
    rows: Seq<(int, Seq<char>)>,
    k0: int,
    k: int,
    show_loopback: bool,
) -> bool {
    &&& 0 <= k0 < k
    &&& rows[k0].1 == ""@
    &&& heads_group(devs[rows[k0].0], show_loopback)
    &&& forall|m: int| k0 < m <= k ==> is_partition_of(devs[#[trigger] rows[m].0], devs[rows[k0].0].id@)
}

/// The parent name of a partition.
pub open spec fn parent_of(d: DiskDevice) -> Seq<char> {
    match d.kind {
        DeviceKind::Partition { parent, .. } => parent@,
        _ => seq![],
    }
}

/// No two devices other than partitions share a name.
pub open spec fn names_distinct(devs: Seq<DiskDevice>) -> bool {
    forall|a: int, b: int|
        0 <= a < b < devs.len() && !(devs[a].kind is Partition) && !(devs[b].kind is Partition)
            ==> devs[a].id@ != devs[b].id@
}

/// The device named `name` heads a shown group.
pub open spec fn parent_shown(devs: Seq<DiskDevice>, name: Seq<char>, show_loopback: bool) -> bool {
    exists|y: int| 0 <= y < devs.len() && heads_group(devs[y], show_loopback) && #[trigger] devs[y].id@ == name
}

proof fn lemma_kids_occ_unique(devs: Seq<DiskDevice>, heads: Seq<int>, i: int, j: int)
    requires
        0 <= i < devs.len(),
        devs[i].kind is Partition,
        forall|q: int| 0 <= q < heads.len() ==> 0 <= #[trigger] heads[q] < devs.len() && !(devs[heads[q]].kind is Partition),
        forall|q: int| 0 <= q < heads.len() ==> (devs[#[trigger] heads[q]].id@ == parent_of(devs[i]) <==> heads[q] == j),
    ensures
        kids_occ(devs, heads, i) == occ(heads, j),
    decreases heads.len(),
{
    if heads.len() > 0 {
        let h = heads.last();
        assert(heads[heads.len() - 1] == h);
        lemma_kids_occ_unique(devs, heads.drop_last(), i, j);
        lemma_occ_partitions(devs, devs[h].id@, i);
    }
}

/// With partitions shown and no two disks of the same name, a partition is
/// in the tree exactly once when its parent heads a shown group and not at
/// all otherwise; where it is, the last group head above it is its parent,
/// with only partitions of that parent in between.
pub proof fn law_partition_under_parent(devs: Seq<DiskDevice>, show_loopback: bool, i: int)
    requires
        0 <= i < devs.len(),
        devs[i].kind is Partition,
        names_distinct(devs),
    ensures
        occ(row_positions(dev_tree(devs, true, show_loopback)), i) == if parent_shown(
            devs,
            parent_of(devs[i]),
            show_loopback,
        ) {
            1nat
        } else {
            0nat
        },
        ({
            let rows = dev_tree(devs, true, show_loopback);
            forall|k: int|
                0 <= k < rows.len() && (#[trigger] rows[k]).0 == i ==> exists|k0: int|
                    #[trigger] under_head(devs, rows, k0, k, show_loopback) && devs[rows[k0].0].id@
                        == parent_of(devs[i])
        }),
{
    broadcast use vstd::seq_lib::to_multiset_contains;

    let g = group_heads(devs, show_loopback);
    let s = sort_by(g, name_gt(devs));
    let n = parent_of(devs[i]);
    law_sort_permutes(g, name_gt(devs));
    lemma_group_heads(devs, show_loopback);
    assert forall|q: int| 0 <= q < s.len() implies 0 <= #[trigger] s[q] < devs.len() && heads_group(
        devs[s[q]],
        show_loopback,
    ) by {
        assert(s.to_multiset().count(s[q]) > 0);
        assert(g.contains(s[q]));
    }
    lemma_occ_group_rows(devs, s, true, i);
    lemma_occ_sort(g, name_gt(devs), i);
    lemma_occ_heads(devs, show_loopback, i);
    if parent_shown(devs, n, show_loopback) {
        let y = choose|y: int| 0 <= y < devs.len() && heads_group(devs[y], show_loopback) && #[trigger] devs[y].id@ == n;
        assert forall|q: int| 0 <= q < s.len() implies (devs[#[trigger] s[q]].id@ == n <==> s[q] == y) by {
            if devs[s[q]].id@ == n && s[q] != y {
                if s[q] < y {
                    assert(devs[s[q]].id@ != devs[y].id@);
                } else {
                    assert(devs[y].id@ != devs[s[q]].id@);
                }
            }
        }
        lemma_kids_occ_unique(devs, s, i, y);
        lemma_occ_sort(g, name_gt(devs), y);
        lemma_occ_heads(devs, show_loopback, y);
    } else {
        assert forall|q: int| 0 <= q < s.len() implies (devs[#[trigger] s[q]].id@ == n <==> s[q] == -1) by {
            if devs[s[q]].id@ == n {
                assert(parent_shown(devs, n, show_loopback));
            }
        }
        lemma_kids_occ_unique(devs, s, i, -1);
        lemma_occ_sort(g, name_gt(devs), -1);
        lemma_occ_heads(devs, show_loopback, -1);
    }
    lemma_rows_under_head(devs, s, show_loopback);
    let rows = dev_tree(devs, true, show_loopback);
    assert forall|k: int| 0 <= k < rows.len() && (#[trigger] rows[k]).0 == i implies exists|k0: int|
        #[trigger] under_head(devs, rows, k0, k, show_loopback) && devs[rows[k0].0].id@ == n by {
        assert(devs[rows[k].0].kind is Partition);
        let k0 = choose|k0: int| #[trigger] under_head(devs, rows, k0, k, show_loopback);
        assert(is_partition_of(devs[rows[k].0], devs[rows[k0].0].id@));
        assert(under_head(devs, rows, k0, k, show_loopback));
    }
}

/// In the rows of groups headed by valid heads, every partition row has a
/// group head above it whose partitions fill the rows in between.
proof fn lemma_rows_under_head(devs: Seq<DiskDevice>, heads: Seq<int>, show_loopback: bool)
    requires
        forall|q: int| 0 <= q < heads.len() ==> 0 <= #[trigger] heads[q] < devs.len() && heads_group(
            devs[heads[q]],
            show_loopback,
        ),
    ensures
        ({
            let rows = group_rows(devs, heads, true);
            forall|k: int|
                0 <= k < rows.len() && devs[(#[trigger] rows[k]).0].kind is Partition ==> exists|k0: int|
                    #[trigger] under_head(devs, rows, k0, k, show_loopback)
        }),
    decreases heads.len(),
{
    broadcast use vstd::seq_lib::to_multiset_contains;

    if heads.len() > 0 {
        let h = heads.last();
        assert(heads[heads.len() - 1] == h);
        let prev = group_rows(devs, heads.drop_last(), true);
        lemma_rows_under_head(devs, heads.drop_last(), show_loopback);
        let kids_in = partitions_of(devs, devs[h].id@);
        let kids = sort_by(kids_in, part_gt(devs));
        lemma_partitions_of(devs, devs[h].id@);
        law_sort_permutes(kids_in, part_gt(devs));
        let rows = group_rows(devs, heads, true);
        assert(rows == prev + seq![(h, ""@)] + partition_rows(kids));
        let p = prev.len() as int;
        assert forall|j: int| 0 <= j < kids.len() implies is_partition_of(devs[#[trigger] kids[j]], devs[h].id@) by {
            assert(kids.to_multiset().count(kids[j]) > 0);
            assert(kids_in.contains(kids[j]));
        }
        assert forall|k: int|
            0 <= k < rows.len() && devs[(#[trigger] rows[k]).0].kind is Partition implies exists|k0: int|
                #[trigger] under_head(devs, rows, k0, k, show_loopback) by {
            if k < p {
                assert(rows[k] == prev[k]);
                let k0 = choose|k0: int| #[trigger] under_head(devs, prev, k0, k, show_loopback);
                assert(rows[k0] == prev[k0]);
                assert forall|m: int| k0 < m <= k implies is_partition_of(devs[#[trigger] rows[m].0], devs[rows[k0].0].id@) by {
                    assert(rows[m] == prev[m]);
                    assert(is_partition_of(devs[prev[m].0], devs[prev[k0].0].id@));
                }
                assert(under_head(devs, rows, k0, k, show_loopback));
            } else if k == p {
                assert(rows[k] == (h, ""@));
            } else {
                assert(rows[p] == (h, ""@));
                assert forall|m: int| p < m <= k implies is_partition_of(devs[#[trigger] rows[m].0], devs[rows[p].0].id@) by {
                    assert(rows[m] == partition_rows(kids)[m - p - 1]);
                }
                assert(under_head(devs, rows, p, k, show_loopback));
            }
        }
    }
}

} // verus!

verus! {

proof fn lemma_kids_occ_zero(devs: Seq<DiskDevice>, heads: Seq<int>, i: int)
    requires
        0 <= i < devs.len(),
        !(devs[i].kind is Partition),
    ensures
        kids_occ(devs, heads, i) == 0,
    decreases heads.len(),
{
    if heads.len() > 0 {
        lemma_kids_occ_zero(devs, heads.drop_last(), i);
        lemma_occ_partitions(devs, devs[heads.last()].id@, i);
    }
}

proof fn lemma_occ_range(n: nat, x: int)
    ensures
        occ(Seq::new(n, |k: int| k), x) == if 0 <= x < n {
            1nat
        } else {
            0nat
        },
    decreases n,
{
    if n > 0 {
        lemma_occ_range((n - 1) as nat, x);
        assert(Seq::new(n, |k: int| k).drop_last() =~= Seq::new((n - 1) as nat, |k: int| k));
    }
}

/// With partitions and loop devices shown, no two disks of the same name,
/// and every partition's parent among the devices, the tree holds every
/// device exactly once: it is a rearrangement of the devices.
pub proof fn law_full_tree_rearranges(devs: Seq<DiskDevice>)
    requires
        names_distinct(devs),
        forall|i: int|
            0 <= i < devs.len() && (#[trigger] devs[i]).kind is Partition ==> parent_shown(
                devs,
                parent_of(devs[i]),
                true,
            ),
    ensures
        dev_tree(devs, true, true).len() == devs.len(),
        forall|i: int| 0 <= i < devs.len() ==> occ(row_positions(dev_tree(devs, true, true)), i) == 1,
{
    broadcast use vstd::seq_lib::to_multiset_contains, vstd::seq_lib::to_multiset_len;

    let rows = dev_tree(devs, true, true);
    let p = row_positions(rows);
    let g = group_heads(devs, true);
    let s = sort_by(g, name_gt(devs));
    assert forall|i: int| 0 <= i < devs.len() implies occ(p, i) == 1 by {
        if devs[i].kind is Partition {
            law_partition_under_parent(devs, true, i);
        } else {
            lemma_occ_group_rows(devs, s, true, i);
            lemma_occ_sort(g, name_gt(devs), i);
            lemma_occ_heads(devs, true, i);
            lemma_kids_occ_zero(devs, s, i);
        }
    }
    law_tree_rows(devs, true, true);
    let r = Seq::new(devs.len(), |k: int| k);
    assert forall|x: int| #[trigger] p.to_multiset().count(x) == r.to_multiset().count(x) by {
        lemma_occ_multiset(p, x);
        lemma_occ_multiset(r, x);
        lemma_occ_range(devs.len(), x);
        if !(0 <= x < devs.len()) {
            if p.contains(x) {
                let k = choose|k: int| 0 <= k < p.len() && p[k] == x;
                assert(row_ok(devs, rows[k], true, true));
            }
        }
    }
    assert(p.to_multiset() =~= r.to_multiset());
    assert(p.len() == p.to_multiset().len());
    assert(r.len() == r.to_multiset().len());
    assert(p.len() == rows.len());
}

} // verus!

verus! {

/// The three branches drawn before rows differ from one another.
proof fn lemma_branches_differ()
    ensures
        "└─"@ != ""@,
        "├─"@ != ""@,
        "└─"@ != "├─"@,
{
    reveal_strlit("└─");
    reveal_strlit("├─");
    reveal_strlit("");
    assert("└─"@.len() == 2);
    assert("├─"@.len() == 2);
    assert(""@.len() == 0);
    assert("└─"@[0] != "├─"@[0]);
}

/// A row with a branch closes its group exactly when the row after it is a
/// group head or there is none.
pub open spec fn branches_close_groups(rows: Seq<(int, Seq<char>)>) -> bool {
    forall|k: int|
        0 <= k < rows.len() && (#[trigger] rows[k]).1 != ""@ ==> {
            &&& rows[k].1 == "└─"@ || rows[k].1 == "├─"@
            &&& rows[k].1 == "└─"@ <==> (k + 1 == rows.len() || rows[k + 1].1 == ""@)
        }
}

proof fn lemma_group_rows_branches(devs: Seq<DiskDevice>, heads: Seq<int>, show_partitions: bool)
    ensures
        branches_close_groups(group_rows(devs, heads, show_partitions)),
    decreases heads.len(),
{
    lemma_branches_differ();
    if heads.len() > 0 {
        let h = heads.last();
        let prev = group_rows(devs, heads.drop_last(), show_partitions);
        lemma_group_rows_branches(devs, heads.drop_last(), show_partitions);
        let kids = sort_by(partitions_of(devs, devs[h].id@), part_gt(devs));
        let tail: Seq<(int, Seq<char>)> = if show_partitions {
            partition_rows(kids)
        } else {
            seq![]
        };
        let rows = group_rows(devs, heads, show_partitions);
        assert(rows == prev + seq![(h, ""@)] + tail);
        let p = prev.len() as int;
        assert forall|k: int| 0 <= k < rows.len() && (#[trigger] rows[k]).1 != ""@ implies {
            &&& rows[k].1 == "└─"@ || rows[k].1 == "├─"@
            &&& rows[k].1 == "└─"@ <==> (k + 1 == rows.len() || rows[k + 1].1 == ""@)
        } by {
            if k < p {
                assert(rows[k] == prev[k]);
                assert(prev[k].1 != ""@);
                if k + 1 < p {
                    assert(rows[k + 1] == prev[k + 1]);
                } else {
                    assert(rows[k + 1] == (h, ""@));
                }
            } else if k == p {
                assert(rows[k] == (h, ""@));
            } else {
                let j = k - p - 1;
                assert(rows[k] == tail[j]);
                assert(tail[j] == (kids[j], branch(j == kids.len() - 1)));
                if j + 1 < kids.len() {
                    assert(rows[k + 1] == tail[j + 1]);
                    assert(tail[j + 1] == (kids[j + 1], branch(j + 1 == kids.len() - 1)));
                }
            }
        }
    }
}

/// In the tree, a partition drawn with the closing branch "└─" is the last
/// row of its group (the next row heads another group, or there is none),
/// and every other partition is drawn with "├─".
pub proof fn law_tree_branches(devs: Seq<DiskDevice>, show_partitions: bool, show_loopback: bool)
    ensures
        branches_close_groups(dev_tree(devs, show_partitions, show_loopback)),
{
    lemma_group_rows_branches(devs, sort_by(group_heads(devs, show_loopback), name_gt(devs)), show_partitions);
}

} // verus!
