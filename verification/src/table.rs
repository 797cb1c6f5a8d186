//! Cells and rows of the disk table.
use vstd::prelude::*;
use crate::disk::DiskDevice;
use crate::text::{chars_of, string_from_chars};

verus! {

/// Number of bytes in a KiB, MiB, GiB and TiB.
pub open spec fn unit_divisor(u: nat) -> nat {
    if u == 0 {
        1
    } else if u == 1 {
        1024
    } else if u == 2 {
        1048576
    } else if u == 3 {
        1073741824
    } else {
        1099511627776
    }
}

/// The largest unit, up to TiB, of which there is at least one in `b` bytes.
pub open spec fn unit_index(b: nat) -> nat {
    if b >= unit_divisor(4) {
        4
    } else if b >= unit_divisor(3) {
        3
    } else if b >= unit_divisor(2) {
        2
    } else if b >= unit_divisor(1) {
        1
    } else {
        0
    }
}

/// Name of a unit.
pub open spec fn unit_name(u: nat) -> Seq<char> {
    if u == 0 {
        "B"@
    } else if u == 1 {
        "KiB"@
    } else if u == 2 {
        "MiB"@
    } else if u == 3 {
        "GiB"@
    } else {
        "TiB"@
    }
}

/// `n / d` rounded to the nearest integer, halves to the even one.
pub open spec fn round_half_even(n: nat, d: nat) -> nat {
    let q = n / d;
    let r = n % d;
    if 2 * r > d {
        q + 1
    } else if 2 * r < d {
        q
    } else if q % 2 == 0 {
        q
    } else {
        q + 1
    }
}

/// The character of a decimal digit.
pub open spec fn digit_char(d: nat) -> char {
    (48 + d) as char
}

/// The decimal digits of `n`, without leading zeros.
pub open spec fn decimal(n: nat) -> Seq<char>
    decreases n,
{
    if n < 10 {
        seq![digit_char(n)]
    } else {
        decimal(n / 10).push(digit_char(n % 10))
    }
}

/// `b` bytes in its unit, in tenths, rounded as `{:.1}` rounds.
pub open spec fn size_tenths(b: nat) -> nat {
    round_half_even(b * 10, unit_divisor(unit_index(b)))
}

/// A byte count as "12.3 MiB": in the largest unit up to TiB that it holds
/// at least once, with one decimal; "-" when there is none.
pub open spec fn format_bytes_spec(bytes: Option<u64>) -> Seq<char> {
    match bytes {
        None => "-"@,
        Some(b) => {
            let t = size_tenths(b as nat);
            decimal(t / 10) + seq!['.', digit_char(t % 10), ' '] + unit_name(unit_index(b as nat))
        },
    }
}

fn digit_to_char(d: u8) -> (r: char)
    requires
        d < 10,
    ensures
        r == digit_char(d as nat),
{
    (48 + d) as char
}

fn push_decimal(out: &mut Vec<char>, n: u128)
    ensures
        final(out)@ == old(out)@ + decimal(n as nat),
    decreases n,
{
    if n >= 10 {
        push_decimal(out, n / 10);
    }
    let c = digit_to_char((n % 10) as u8);
    out.push(c);
}

fn push_str(out: &mut Vec<char>, s: &str)
    ensures
        final(out)@ == old(out)@ + s@,
{
    let cs = chars_of(s);
    let ghost start = out@;
    let mut i: usize = 0;
    while i < cs.len()
        invariant
            0 <= i <= cs.len(),
            out@ == start + cs@.take(i as int),
        decreases cs.len() - i,
    {
        out.push(cs[i]);
        assert(cs@.take(i + 1) =~= cs@.take(i as int).push(cs@[i as int]));
        i = i + 1;
    }
    assert(cs@.take(cs.len() as int) =~= cs@);
}

/// Formats a byte count as "12.3 MiB" (units B, KiB, MiB, GiB, TiB), or
/// "-" when there is none.
pub fn format_bytes(bytes: Option<u64>) -> (r: String)
    ensures
        r@ == format_bytes_spec(bytes),
{
    let b = match bytes {
        None => {
            return "-".to_owned();
        },
        Some(b) => b,
    };
    let (unit, div, name): (u8, u128, &str) = if b >= 1099511627776 {
        (4, 1099511627776, "TiB")
    } else if b >= 1073741824 {
        (3, 1073741824, "GiB")
    } else if b >= 1048576 {
        (2, 1048576, "MiB")
    } else if b >= 1024 {
        (1, 1024, "KiB")
    } else {
        (0, 1, "B")
    };
    assert(unit == unit_index(b as nat) && div == unit_divisor(unit as nat) && name@ == unit_name(
        unit as nat,
    ));
    let n: u128 = b as u128 * 10;
    let q: u128 = n / div;
    let rem: u128 = n % div;
    let t: u128 = if 2 * rem > div {
        q + 1
    } else if 2 * rem < div {
        q
    } else if q % 2 == 0 {
        q
    } else {
        q + 1
    };
    assert(t == size_tenths(b as nat));
    let mut out: Vec<char> = Vec::new();
    push_decimal(&mut out, t / 10);
    out.push('.');
    out.push(digit_to_char((t % 10) as u8));
    out.push(' ');
    push_str(&mut out, name);
    assert(out@ =~= format_bytes_spec(bytes));
    string_from_chars(&out)
}

} // verus!

verus! {

/// `s` right-aligned in a field of `width` characters, as `{:>width}` pads.
pub open spec fn pad_left(s: Seq<char>, width: nat) -> Seq<char> {
    if s.len() < width {
        Seq::new((width - s.len()) as nat, |i: int| ' ') + s
    } else {
        s
    }
}

fn push_padded(out: &mut Vec<char>, s: &String, width: usize)
    ensures
        final(out)@ == old(out)@ + pad_left(s@, width as nat),
{
    let cs = chars_of(s.as_str());
    let ghost start = out@;
    let mut pad: usize = 0;
    if cs.len() < width {
        pad = width - cs.len();
    }
    let mut i: usize = 0;
    while i < pad
        invariant
            0 <= i <= pad,
            out@ == start + Seq::new(i as nat, |j: int| ' '),
        decreases pad - i,
    {
        out.push(' ');
        assert(Seq::new((i + 1) as nat, |j: int| ' ') =~= Seq::new(i as nat, |j: int| ' ').push(' '));
        i = i + 1;
    }
    let ghost mid = out@;
    let mut k: usize = 0;
    while k < cs.len()
        invariant
            0 <= k <= cs.len(),
            out@ == mid + cs@.take(k as int),
        decreases cs.len() - k,
    {
        out.push(cs[k]);
        assert(cs@.take(k + 1) =~= cs@.take(k as int).push(cs@[k as int]));
        k = k + 1;
    }
    assert(cs@.take(cs.len() as int) =~= cs@);
    if cs.len() < width {
        assert(out@ =~= start + pad_left(s@, width as nat));
    } else {
        assert(Seq::new(0, |j: int| ' ') =~= Seq::<char>::empty());
        assert(out@ =~= start + pad_left(s@, width as nat));
    }
}

/// Width of each half of the used/total cell.
pub const USED_TOTAL_WIDTH: usize = 10;

/// The used/total cell: both sizes right-aligned in ten characters, so that
/// the `/` lines up from row to row whatever the units.
pub fn format_used_total_col(used: Option<u64>, size: Option<u64>) -> (r: String)
    ensures
        r@ == pad_left(format_bytes_spec(used), 10) + "/"@ + pad_left(format_bytes_spec(size), 10),
{
    let u = format_bytes(used);
    let s = format_bytes(size);
    let mut out: Vec<char> = Vec::new();
    push_padded(&mut out, &u, USED_TOTAL_WIDTH);
    push_str(&mut out, "/");
    push_padded(&mut out, &s, USED_TOTAL_WIDTH);
    assert(out@ =~= pad_left(format_bytes_spec(used), 10) + "/"@ + pad_left(format_bytes_spec(size), 10));
    string_from_chars(&out)
}

} // verus!

verus! {

/// The text cells of a device's row that come from the device alone: its
/// name after its branch, its file system type, its used/total sizes, and
/// its first mount point; "-" for what is missing.
pub struct DeviceRowLabels {
    pub name: String,
    pub fstype: String,
    pub used_total: String,
    pub mount: String,
}

/// The device's name after the branch drawn before it.
pub fn device_row_labels(dev: &DiskDevice, prefix: &str) -> (r: DeviceRowLabels)
    ensures
        r.name@ == prefix@ + dev.id@,
        r.fstype@ == match dev.fstype {
            Some(f) => f@,
            None => "-"@,
        },
        r.used_total@ == pad_left(format_bytes_spec(dev.used), 10) + "/"@ + pad_left(
            format_bytes_spec(dev.size),
            10,
        ),
        r.mount@ == if dev.mountpoints@.len() > 0 {
            dev.mountpoints@[0]@
        } else {
            "-"@
        },
{
    let mut name_chars: Vec<char> = Vec::new();
    push_str(&mut name_chars, prefix);
    push_str(&mut name_chars, dev.id.as_str());
    let name = string_from_chars(&name_chars);
    let fstype = match &dev.fstype {
        Some(f) => f.clone(),
        None => "-".to_owned(),
    };
    let used_total = format_used_total_col(dev.used, dev.size);
    let mount = if dev.mountpoints.len() > 0 {
        dev.mountpoints[0].clone()
    } else {
        "-".to_owned()
    };
    DeviceRowLabels { name, fstype, used_total, mount }
}

} // verus!

verus! {

/// A size is shown in the largest unit up to TiB of which it holds at least
/// one, so that below TiB the number shown (before rounding) is under 1024.
pub proof fn law_unit_choice(b: nat)
    ensures
        unit_index(b) <= 4,
        b >= 1 ==> unit_divisor(unit_index(b)) <= b,
        unit_index(b) < 4 ==> b < 1024 * unit_divisor(unit_index(b)),
        b < 1024 ==> unit_index(b) == 0,
{
}

} // verus!

verus! {

proof fn lemma_decimal_len(n: nat)
    ensures
        n < 10000 ==> decimal(n).len() <= 4,
        decimal(n).len() >= 1,
    decreases n,
{
    if n >= 10 {
        lemma_decimal_len(n / 10);
        if n < 10000 {
            if n / 10 < 1000 {
                lemma_decimal_len3(n / 10);
            }
        }
    }
}

proof fn lemma_decimal_len3(n: nat)
    ensures
        n < 1000 ==> decimal(n).len() <= 3,
    decreases n,
{
    if n >= 10 {
        lemma_decimal_len3(n / 10);
        if n < 1000 {
            lemma_decimal_len2(n / 10);
        }
    }
}

proof fn lemma_decimal_len2(n: nat)
    ensures
        n < 100 ==> decimal(n).len() <= 2,
{
    if n >= 10 && n < 100 {
        assert(n / 10 < 10);
        assert(decimal(n / 10).len() == 1);
        assert(decimal(n) == decimal(n / 10).push(digit_char(n % 10)));
    }
}

/// A size below 1 PiB takes at most ten characters.
pub proof fn law_size_fits_ten(bytes: Option<u64>)
    requires
        bytes matches Some(b) ==> b < 0x4_0000_0000_0000,
    ensures
        format_bytes_spec(bytes).len() <= 10,
{
    reveal_strlit("-");
    reveal_strlit("B");
    reveal_strlit("KiB");
    reveal_strlit("MiB");
    reveal_strlit("GiB");
    reveal_strlit("TiB");
    if let Some(b) = bytes {
        let n = b as nat;
        let u = unit_index(n);
        let d = unit_divisor(u);
        assert(n * 10 < 10240 * d);
        assert((n * 10) / d < 10240) by (nonlinear_arith)
            requires
                n * 10 < 10240 * d,
                d > 0,
        ;
        let t = size_tenths(n);
        assert(t <= 10240);
        lemma_decimal_len(t / 10);
    }
}

/// Below 1 PiB on both sides, the used/total cell is 21 characters wide
/// with its `/` in column 10, so the `/` lines up from row to row whatever
/// the units.
pub proof fn law_used_total_aligned(used: Option<u64>, size: Option<u64>)
    requires
        used matches Some(b) ==> b < 0x4_0000_0000_0000,
        size matches Some(b) ==> b < 0x4_0000_0000_0000,
    ensures
        ({
            let cell = pad_left(format_bytes_spec(used), 10) + "/"@ + pad_left(
                format_bytes_spec(size),
                10,
            );
            cell.len() == 21 && cell[10] == '/'
        }),
{
    reveal_strlit("/");
    law_size_fits_ten(used);
    law_size_fits_ten(size);
    let a = pad_left(format_bytes_spec(used), 10);
    let c = pad_left(format_bytes_spec(size), 10);
    assert(a.len() == 10);
    assert(c.len() == 10);
    assert((a + "/"@ + c)[10] == "/"@[0]);
}

} // verus!
