//! Character-level text handling shared by the parsers.
use vstd::prelude::*;

verus! {

/// The Unicode `White_Space` property, which `char::is_whitespace` tests.
pub open spec fn is_white_space(c: char) -> bool {
    let u: u32 = c as u32;
    ||| 0x09 <= u <= 0x0D
    ||| u == 0x20
    ||| u == 0x85
    ||| u == 0xA0
    ||| u == 0x1680
    ||| 0x2000 <= u <= 0x200A
    ||| u == 0x2028
    ||| u == 0x2029
    ||| u == 0x202F
    ||| u == 0x205F
    ||| u == 0x3000
}

/// Executable test of the `White_Space` property.
pub fn white_space(c: char) -> (r: bool)
    ensures
        r == is_white_space(c),
{
    let u: u32 = c as u32;
    (0x09 <= u && u <= 0x0D) || u == 0x20 || u == 0x85 || u == 0xA0 || u == 0x1680 || (0x2000
        <= u && u <= 0x200A) || u == 0x2028 || u == 0x2029 || u == 0x202F || u == 0x205F || u
        == 0x3000
}

/// The characters of a string slice, in order.
pub fn chars_of(s: &str) -> (r: Vec<char>)
    ensures
        r@ == s@,
{
    let mut r: Vec<char> = Vec::new();
    for c in it: s.chars()
        invariant
            r@ == it.seq().take(it.index() as int),
            it.seq() == s@,
    {
        r.push(c);
    }
    r
}

} // verus!

verus! {

/// Appends one character to a string. Trusted: this calls `String::push`,
/// which the standard library documents as appending the character at the
/// end; the contract says exactly that of the string's characters.
#[verifier::external_body]
pub fn push_char(s: &mut String, c: char)
    ensures
        final(s)@ == old(s)@.push(c),
{
    s.push(c);
}

/// The string made of `chars[lo..hi]`.
pub fn string_from_range(chars: &Vec<char>, lo: usize, hi: usize) -> (r: String)
    requires
        lo <= hi <= chars.len(),
    ensures
        r@ == chars@.subrange(lo as int, hi as int),
{
    let mut r = String::new();
    let mut i: usize = lo;
    while i < hi
        invariant
            lo <= i <= hi <= chars.len(),
            r@ == chars@.subrange(lo as int, i as int),
        decreases hi - i,
    {
        push_char(&mut r, chars[i]);
        assert(chars@.subrange(lo as int, i + 1) =~= chars@.subrange(lo as int, i as int).push(
            chars@[i as int],
        ));
        i = i + 1;
    }
    r
}

/// The string made of all of `chars`.
pub fn string_from_chars(chars: &Vec<char>) -> (r: String)
    ensures
        r@ == chars@,
{
    let r = string_from_range(chars, 0, chars.len());
    assert(chars@.subrange(0, chars@.len() as int) =~= chars@);
    r
}

/// Closes the word being read: a word is kept only when it is not empty.
pub open spec fn flush(cur: Seq<char>) -> Seq<Seq<char>> {
    if cur.len() > 0 {
        seq![cur]
    } else {
        seq![]
    }
}

/// Words of `s` that follow a partly read word `cur`.
pub open spec fn words_from(s: Seq<char>, cur: Seq<char>) -> Seq<Seq<char>>
    decreases s.len(),
{
    if s.len() == 0 {
        flush(cur)
    } else if is_white_space(s[0]) {
        flush(cur) + words_from(s.drop_first(), seq![])
    } else {
        words_from(s.drop_first(), cur.push(s[0]))
    }
}

/// The maximal runs of non-white-space characters of `s`, in order: what
/// `str::split_whitespace` yields.
pub open spec fn words(s: Seq<char>) -> Seq<Seq<char>> {
    words_from(s, seq![])
}

/// Drops one carriage return that ends a line.
pub open spec fn strip_cr(line: Seq<char>) -> Seq<char> {
    if line.len() > 0 && line.last() == '\r' {
        line.drop_last()
    } else {
        line
    }
}

/// Lines of `s` that follow a partly read line `cur`.
pub open spec fn lines_from(s: Seq<char>, cur: Seq<char>) -> Seq<Seq<char>>
    decreases s.len(),
{
    if s.len() == 0 {
        flush(cur)
    } else if s[0] == '\n' {
        seq![strip_cr(cur)] + lines_from(s.drop_first(), seq![])
    } else {
        lines_from(s.drop_first(), cur.push(s[0]))
    }
}

/// The lines of `s` as `str::lines` yields them: split at each `\n`, a `\r`
/// just before a `\n` dropped, and no empty line after a final `\n`.
pub open spec fn lines(s: Seq<char>) -> Seq<Seq<char>> {
    lines_from(s, seq![])
}

/// `s` without its leading white space.
pub open spec fn trim_start(s: Seq<char>) -> Seq<char>
    decreases s.len(),
{
    if s.len() > 0 && is_white_space(s[0]) {
        trim_start(s.drop_first())
    } else {
        s
    }
}

/// `s` without its trailing white space.
pub open spec fn trim_end(s: Seq<char>) -> Seq<char>
    decreases s.len(),
{
    if s.len() > 0 && is_white_space(s.last()) {
        trim_end(s.drop_last())
    } else {
        s
    }
}

/// `s` without leading and trailing white space, as `str::trim` gives it.
pub open spec fn trim(s: Seq<char>) -> Seq<char> {
    trim_end(trim_start(s))
}

/// Whether `p` is a prefix of `s`.
pub open spec fn has_prefix(s: Seq<char>, p: Seq<char>) -> bool {
    p.len() <= s.len() && s.take(p.len() as int) == p
}

/// An ASCII decimal digit.
pub open spec fn is_digit(c: char) -> bool {
    48 <= c as u32 <= 57
}

/// The value of an ASCII decimal digit.
pub open spec fn digit_value(c: char) -> nat {
    (c as u32 - 48) as nat
}

/// The number that a string of decimal digits denotes.
pub open spec fn digits_value(s: Seq<char>) -> nat
    decreases s.len(),
{
    if s.len() == 0 {
        0
    } else {
        digits_value(s.drop_last()) * 10 + digit_value(s.last())
    }
}

/// The digits of an unsigned number, after an optional `+`.
pub open spec fn unsigned_digits(s: Seq<char>) -> Seq<char> {
    if s.len() > 0 && s[0] == '+' {
        s.drop_first()
    } else {
        s
    }
}

/// What `str::parse` gives for an unsigned integer type whose largest value
/// is `max`: an optional `+`, then at least one ASCII digit and nothing else,
/// denoting a value no larger than `max`.
pub open spec fn parse_unsigned(s: Seq<char>, max: nat) -> Option<nat> {
    let d = unsigned_digits(s);
    if d.len() > 0 && (forall|i: int| 0 <= i < d.len() ==> is_digit(#[trigger] d[i]))
        && digits_value(d) <= max {
        Some(digits_value(d))
    } else {
        None
    }
}

} // verus!

verus! {

/// The pieces of `chars` that a list of index ranges picks out.
pub open spec fn spans(chars: Seq<char>, r: Seq<(usize, usize)>) -> Seq<Seq<char>> {
    Seq::new(r.len(), |k: int| chars.subrange(r[k].0 as int, r[k].1 as int))
}

/// Index ranges, within `chars[lo..hi]`, of the words of that part.
pub fn split_words(chars: &Vec<char>, lo: usize, hi: usize) -> (r: Vec<(usize, usize)>)
    requires
        lo <= hi <= chars.len(),
    ensures
        spans(chars@, r@) == words(chars@.subrange(lo as int, hi as int)),
        forall|k: int| #![trigger r@[k]] 0 <= k < r.len() ==> lo <= r@[k].0 && r@[k].0 <= r@[k].1 && r@[k].1 <= hi,
{
    let ghost whole = chars@.subrange(lo as int, hi as int);
    let mut r: Vec<(usize, usize)> = Vec::new();
    let mut start: usize = lo;
    let mut i: usize = lo;
    assert(chars@.subrange(lo as int, hi as int) =~= whole);
    assert(chars@.subrange(lo as int, lo as int) =~= Seq::<char>::empty());
    while i < hi
        invariant
            lo <= start <= i <= hi <= chars.len(),
            whole == chars@.subrange(lo as int, hi as int),
            forall|k: int| #![trigger r@[k]] 0 <= k < r.len() ==> lo <= r@[k].0 && r@[k].0 <= r@[k].1 && r@[k].1 <= i,
            words(whole) == spans(chars@, r@) + words_from(
                chars@.subrange(i as int, hi as int),
                chars@.subrange(start as int, i as int),
            ),
        decreases hi - i,
    {
        let ghost t = chars@.subrange(i as int, hi as int);
        let ghost cur = chars@.subrange(start as int, i as int);
        let ghost old_spans = spans(chars@, r@);
        assert(t.drop_first() =~= chars@.subrange(i + 1, hi as int));
        assert(t[0] == chars@[i as int]);
        let c = chars[i];
        if white_space(c) {
            if start < i {
                r.push((start, i));
                assert(spans(chars@, r@) =~= old_spans + flush(cur));
            } else {
                assert(flush(cur) =~= Seq::<Seq<char>>::empty());
                assert(spans(chars@, r@) =~= old_spans + flush(cur));
            }
            assert(old_spans + (flush(cur) + words_from(t.drop_first(), seq![])) =~= (old_spans
                + flush(cur)) + words_from(t.drop_first(), seq![]));
            start = i + 1;
            assert(chars@.subrange(start as int, i + 1) =~= Seq::<char>::empty());
        } else {
            assert(cur.push(c) =~= chars@.subrange(start as int, i + 1));
        }
        i = i + 1;
    }
    let ghost cur = chars@.subrange(start as int, i as int);
    let ghost old_spans = spans(chars@, r@);
    assert(chars@.subrange(i as int, hi as int) =~= Seq::<char>::empty());
    if start < i {
        r.push((start, i));
        assert(spans(chars@, r@) =~= old_spans + flush(cur));
    } else {
        assert(flush(cur) =~= Seq::<Seq<char>>::empty());
        assert(spans(chars@, r@) =~= old_spans + flush(cur));
    }
    r
}

} // verus!

verus! {

/// Index ranges of the lines of `chars`, as `str::lines` splits them.
pub fn split_lines(chars: &Vec<char>) -> (r: Vec<(usize, usize)>)
    ensures
        spans(chars@, r@) == lines(chars@),
        forall|k: int| #![trigger r@[k]] 0 <= k < r.len() ==> r@[k].0 <= r@[k].1 && r@[k].1 <= chars.len(),
{
    let hi: usize = chars.len();
    let mut r: Vec<(usize, usize)> = Vec::new();
    let mut start: usize = 0;
    let mut i: usize = 0;
    assert(chars@.subrange(0, hi as int) =~= chars@);
    assert(chars@.subrange(0, 0) =~= Seq::<char>::empty());
    while i < hi
        invariant
            start <= i <= hi,
            hi == chars.len(),
            forall|k: int| #![trigger r@[k]] 0 <= k < r.len() ==> r@[k].0 <= r@[k].1 && r@[k].1 <= i,
            lines(chars@) == spans(chars@, r@) + lines_from(
                chars@.subrange(i as int, hi as int),
                chars@.subrange(start as int, i as int),
            ),
        decreases hi - i,
    {
        let ghost t = chars@.subrange(i as int, hi as int);
        let ghost cur = chars@.subrange(start as int, i as int);
        let ghost old_spans = spans(chars@, r@);
        assert(t.drop_first() =~= chars@.subrange(i + 1, hi as int));
        assert(t[0] == chars@[i as int]);
        let c = chars[i];
        if c == '\n' {
            let mut end: usize = i;
            if start < i && chars[i - 1] == '\r' {
                end = i - 1;
                assert(strip_cr(cur) =~= chars@.subrange(start as int, end as int));
            } else {
                assert(strip_cr(cur) =~= chars@.subrange(start as int, end as int));
            }
            r.push((start, end));
            assert(spans(chars@, r@) =~= old_spans + seq![strip_cr(cur)]);
            assert(old_spans + (seq![strip_cr(cur)] + lines_from(t.drop_first(), seq![]))
                =~= (old_spans + seq![strip_cr(cur)]) + lines_from(t.drop_first(), seq![]));
            start = i + 1;
            assert(chars@.subrange(start as int, i + 1) =~= Seq::<char>::empty());
        } else {
            assert(cur.push(c) =~= chars@.subrange(start as int, i + 1));
        }
        i = i + 1;
    }
    let ghost cur = chars@.subrange(start as int, i as int);
    let ghost old_spans = spans(chars@, r@);
    assert(chars@.subrange(i as int, hi as int) =~= Seq::<char>::empty());
    assert(i == chars.len());
    if start < i {
        r.push((start, i));
        assert(spans(chars@, r@) =~= old_spans + flush(cur));
    } else {
        assert(flush(cur) =~= Seq::<Seq<char>>::empty());
        assert(spans(chars@, r@) =~= old_spans + flush(cur));
    }
    assert(forall|k: int| #![trigger r@[k]] 0 <= k < r.len() ==> r@[k].0 <= r@[k].1);
    r
}

/// Bounds of `trim(chars[lo..hi])` within `chars`.
pub fn trim_range(chars: &Vec<char>, lo: usize, hi: usize) -> (r: (usize, usize))
    requires
        lo <= hi <= chars.len(),
    ensures
        lo <= r.0 <= r.1 <= hi,
        chars@.subrange(r.0 as int, r.1 as int) == trim(chars@.subrange(lo as int, hi as int)),
{
    let mut a: usize = lo;
    while a < hi && white_space(chars[a])
        invariant
            lo <= a <= hi <= chars.len(),
            trim_start(chars@.subrange(lo as int, hi as int)) == trim_start(
                chars@.subrange(a as int, hi as int),
            ),
        decreases hi - a,
    {
        assert(chars@.subrange(a as int, hi as int).drop_first() =~= chars@.subrange(
            a + 1,
            hi as int,
        ));
        a = a + 1;
    }
    assert(trim_start(chars@.subrange(a as int, hi as int)) == chars@.subrange(
        a as int,
        hi as int,
    ));
    let mut b: usize = hi;
    while b > a && white_space(chars[b - 1])
        invariant
            lo <= a <= b <= hi <= chars.len(),
            trim(chars@.subrange(lo as int, hi as int)) == trim_end(
                chars@.subrange(a as int, b as int),
            ),
        decreases b - a,
    {
        assert(chars@.subrange(a as int, b as int).drop_last() =~= chars@.subrange(
            a as int,
            b - 1,
        ));
        b = b - 1;
    }
    (a, b)
}

/// An ASCII decimal digit, tested on a character.
pub fn digit(c: char) -> (r: Option<u64>)
    ensures
        r is Some <==> is_digit(c),
        r is Some ==> r->0 == digit_value(c),
{
    let u: u32 = c as u32;
    if 48 <= u && u <= 57 {
        Some((u - 48) as u64)
    } else {
        None
    }
}

/// `str::parse` of an unsigned integer no larger than `max`, on `chars[lo..hi]`.
pub fn parse_unsigned_range(chars: &Vec<char>, lo: usize, hi: usize, max: u64) -> (r: Option<u64>)
    requires
        lo <= hi <= chars.len(),
    ensures
        r is Some <==> parse_unsigned(chars@.subrange(lo as int, hi as int), max as nat) is Some,
        r is Some ==> r->0 == parse_unsigned(chars@.subrange(lo as int, hi as int), max as nat)->0,
{
    let ghost s = chars@.subrange(lo as int, hi as int);
    let mut start: usize = lo;
    if lo < hi && chars[lo] == '+' {
        start = lo + 1;
    }
    let ghost d = unsigned_digits(s);
    assert(d =~= chars@.subrange(start as int, hi as int));
    if start == hi {
        return None;
    }
    let mut v: u64 = 0;
    let mut over = false;
    let mut k: usize = start;
    assert(chars@.subrange(start as int, start as int) =~= Seq::<char>::empty());
    while k < hi
        invariant
            lo <= start <= k <= hi <= chars.len(),
            s == chars@.subrange(lo as int, hi as int),
            d == unsigned_digits(s),
            d == chars@.subrange(start as int, hi as int),
            forall|j: int| start <= j < k ==> is_digit(#[trigger] chars@[j]),
            !over ==> v == digits_value(chars@.subrange(start as int, k as int)) && v <= max,
            over ==> digits_value(chars@.subrange(start as int, k as int)) > max,
        decreases hi - k,
    {
        let c = chars[k];
        let dv = digit(c);
        match dv {
            None => {
                assert(d[k - start] == c);
                assert(!is_digit(d[k - start]));
                assert(!(forall|j: int| 0 <= j < d.len() ==> is_digit(#[trigger] d[j])));
                assert(parse_unsigned(s, max as nat) is None);
                return None;
            },
            Some(x) => {
                let ghost p = chars@.subrange(start as int, k as int);
                assert(chars@.subrange(start as int, k + 1).drop_last() =~= p);
                if !over {
                    if x <= max && v <= (max - x) / 10 {
                        v = v * 10 + x;
                    } else {
                        over = true;
                    }
                }
            },
        }
        k = k + 1;
    }
    assert forall|i: int| 0 <= i < d.len() implies is_digit(#[trigger] d[i]) by {
        assert(d[i] == chars@[start + i]);
    }
    if over {
        None
    } else {
        Some(v)
    }
}

} // verus!

verus! {

/// Whether `chars[lo..hi]` starts with `p`.
pub fn range_has_prefix(chars: &Vec<char>, lo: usize, hi: usize, p: &Vec<char>) -> (r: bool)
    requires
        lo <= hi <= chars.len(),
    ensures
        r == has_prefix(chars@.subrange(lo as int, hi as int), p@),
{
    let ghost s = chars@.subrange(lo as int, hi as int);
    if p.len() > hi - lo {
        return false;
    }
    let mut i: usize = 0;
    while i < p.len()
        invariant
            0 <= i <= p.len() <= hi - lo,
            lo <= hi <= chars.len(),
            s == chars@.subrange(lo as int, hi as int),
            forall|j: int| 0 <= j < i ==> s[j] == p@[j],
        decreases p.len() - i,
    {
        if chars[lo + i] != p[i] {
            assert(s.take(p.len() as int)[i as int] != p@[i as int]);
            return false;
        }
        i = i + 1;
    }
    assert(s.take(p.len() as int) =~= p@);
    true
}

/// The characters of `trim(s)`.
pub fn trimmed(s: &str) -> (r: Vec<char>)
    ensures
        r@ == trim(s@),
{
    let chars = chars_of(s);
    let (a, b) = trim_range(&chars, 0, chars.len());
    assert(chars@.subrange(0, chars@.len() as int) =~= chars@);
    let mut r: Vec<char> = Vec::new();
    let mut i: usize = a;
    while i < b
        invariant
            a <= i <= b <= chars.len(),
            r@ == chars@.subrange(a as int, i as int),
        decreases b - i,
    {
        r.push(chars[i]);
        assert(chars@.subrange(a as int, i + 1) =~= chars@.subrange(a as int, i as int).push(
            chars@[i as int],
        ));
        i = i + 1;
    }
    r
}

/// `str::parse` of an unsigned integer no larger than `max`, on all of `chars`.
pub fn parse_unsigned_chars(chars: &Vec<char>, max: u64) -> (r: Option<u64>)
    ensures
        r is Some <==> parse_unsigned(chars@, max as nat) is Some,
        r is Some ==> r->0 == parse_unsigned(chars@, max as nat)->0,
{
    assert(chars@.subrange(0, chars@.len() as int) =~= chars@);
    parse_unsigned_range(chars, 0, chars.len(), max)
}

/// Whether two character sequences are equal.
pub fn chars_equal(a: &Vec<char>, b: &Vec<char>) -> (r: bool)
    ensures
        r == (a@ == b@),
{
    if a.len() != b.len() {
        return false;
    }
    let mut i: usize = 0;
    while i < a.len()
        invariant
            0 <= i <= a.len() == b.len(),
            forall|j: int| 0 <= j < i ==> a@[j] == b@[j],
        decreases a.len() - i,
    {
        if a[i] != b[i] {
            return false;
        }
        i = i + 1;
    }
    assert(a@ =~= b@);
    true
}

} // verus!

verus! {

/// No white space in `w`.
pub open spec fn is_clean(w: Seq<char>) -> bool {
    forall|i: int| 0 <= i < w.len() ==> !is_white_space(#[trigger] w[i])
}

proof fn lemma_words_from_clean(s: Seq<char>, cur: Seq<char>)
    requires
        is_clean(cur),
    ensures
        forall|k: int|
            0 <= k < words_from(s, cur).len() ==> (#[trigger] words_from(s, cur)[k]).len() > 0
                && is_clean(words_from(s, cur)[k]),
    decreases s.len(),
{
    if s.len() == 0 {
        assert(words_from(s, cur) == flush(cur));
        if cur.len() > 0 {
            assert(flush(cur) =~= seq![cur]);
        } else {
            assert(flush(cur).len() == 0);
        }
    } else {
        if is_white_space(s[0]) {
            lemma_words_from_clean(s.drop_first(), seq![]);
            let rest = words_from(s.drop_first(), seq![]);
            let all = words_from(s, cur);
            assert(all == flush(cur) + rest);
            assert forall|k: int| 0 <= k < all.len() implies (#[trigger] all[k]).len() > 0 && is_clean(
                all[k],
            ) by {
                if k < flush(cur).len() {
                    assert(all[k] == cur);
                } else {
                    assert(all[k] == rest[k - flush(cur).len()]);
                }
            }
        } else {
            let c2 = cur.push(s[0]);
            assert forall|i: int| 0 <= i < c2.len() implies !is_white_space(#[trigger] c2[i]) by {
                if i < cur.len() {
                    assert(c2[i] == cur[i]);
                }
            }
            lemma_words_from_clean(s.drop_first(), c2);
            assert(words_from(s, cur) == words_from(s.drop_first(), c2));
        }
    }
}

/// Every word is non-empty and holds no white space.
pub proof fn law_words_clean(s: Seq<char>)
    ensures
        forall|k: int| 0 <= k < words(s).len() ==> (#[trigger] words(s)[k]).len() > 0 && is_clean(words(s)[k]),
{
    lemma_words_from_clean(s, seq![]);
}

proof fn lemma_trim_start(s: Seq<char>)
    ensures
        trim_start(s).len() > 0 ==> !is_white_space(trim_start(s)[0]),
        trim_start(s).len() <= s.len(),
        trim_start(s) == s.skip(s.len() - trim_start(s).len()),
    decreases s.len(),
{
    if s.len() > 0 && is_white_space(s[0]) {
        lemma_trim_start(s.drop_first());
        assert(s.drop_first().skip(s.drop_first().len() - trim_start(s).len()) =~= s.skip(
            s.len() - trim_start(s).len(),
        ));
    } else {
        assert(s.skip(0) =~= s);
    }
}

proof fn lemma_trim_end(s: Seq<char>)
    ensures
        trim_end(s).len() > 0 ==> !is_white_space(trim_end(s).last()),
        trim_end(s).len() <= s.len(),
        trim_end(s) == s.take(trim_end(s).len() as int),
    decreases s.len(),
{
    if s.len() > 0 && is_white_space(s.last()) {
        lemma_trim_end(s.drop_last());
        assert(s.drop_last().take(trim_end(s).len() as int) =~= s.take(trim_end(s).len() as int));
    } else {
        assert(s.take(s.len() as int) =~= s);
    }
}

/// Trimming leaves no white space at either end, and keeps a piece of the
/// text as it stood.
pub proof fn law_trim(s: Seq<char>)
    ensures
        trim(s).len() > 0 ==> !is_white_space(trim(s)[0]) && !is_white_space(trim(s).last()),
        exists|i: int| 0 <= i <= s.len() - trim(s).len() && #[trigger] s.subrange(i, i + trim(s).len()) == trim(s),
{
    lemma_trim_start(s);
    lemma_trim_end(trim_start(s));
    let i = s.len() - trim_start(s).len();
    let m = trim(s).len();
    assert(trim_start(s).take(m as int) =~= s.subrange(i, i + m));
    assert(s.subrange(i, i + m) == trim(s));
}

} // verus!
