//! Character-level helpers of the readers: whitespace, trimming, splitting and number
//! parsing, each with the meaning std gives the operation of the same name.
use vstd::prelude::*;

verus! {

/// ASCII whitespace as `u8::is_ascii_whitespace` defines it: space, tab, line feed, form feed
/// and carriage return.
pub open spec fn is_ascii_whitespace_spec(b: u8) -> bool {
    b == 0x20u8 || b == 0x09u8 || b == 0x0Au8 || b == 0x0Cu8 || b == 0x0Du8
}

/// Whether the byte is ASCII whitespace.
pub fn is_ascii_whitespace(b: u8) -> (res: bool)
    ensures
        res == is_ascii_whitespace_spec(b),
{
    b == 0x20u8 || b == 0x09u8 || b == 0x0Au8 || b == 0x0Cu8 || b == 0x0Du8
}

/// Unicode whitespace, the characters with the `White_Space` property, as `char::is_whitespace`
/// defines it.
pub open spec fn is_whitespace_spec(c: char) -> bool {
    ||| ('\u{9}' <= c && c <= '\u{D}')
    ||| c == ' '
    ||| c == '\u{85}'
    ||| c == '\u{A0}'
    ||| c == '\u{1680}'
    ||| ('\u{2000}' <= c && c <= '\u{200A}')
    ||| c == '\u{2028}'
    ||| c == '\u{2029}'
    ||| c == '\u{202F}'
    ||| c == '\u{205F}'
    ||| c == '\u{3000}'
}

/// Whether the character is whitespace.
pub fn is_whitespace(c: char) -> (res: bool)
    ensures
        res == is_whitespace_spec(c),
{
    ('\u{9}' <= c && c <= '\u{D}') || c == ' ' || c == '\u{85}' || c == '\u{A0}' || c == '\u{1680}'
        || ('\u{2000}' <= c && c <= '\u{200A}') || c == '\u{2028}' || c == '\u{2029}' || c
        == '\u{202F}' || c == '\u{205F}' || c == '\u{3000}'
}

/// The number of leading whitespace characters.
pub open spec fn leading_ws(s: Seq<char>) -> nat
    decreases s.len(),
{
    if s.len() > 0 && is_whitespace_spec(s[0]) {
        1 + leading_ws(s.drop_first())
    } else {
        0
    }
}

/// The number of trailing whitespace characters.
pub open spec fn trailing_ws(s: Seq<char>) -> nat
    decreases s.len(),
{
    if s.len() > 0 && is_whitespace_spec(s.last()) {
        1 + trailing_ws(s.drop_last())
    } else {
        0
    }
}

/// Whitespace added at the end changes the leading whitespace only when the text is all
/// whitespace.
proof fn lemma_leading_ws_push(s: Seq<char>, w: char)
    requires
        is_whitespace_spec(w),
    ensures
        leading_ws(s) <= s.len(),
        leading_ws(s) < s.len() ==> leading_ws(s.push(w)) == leading_ws(s),
        leading_ws(s) == s.len() ==> leading_ws(s.push(w)) == s.len() + 1,
    decreases s.len(),
{
    if s.len() > 0 {
        assert(s.push(w)[0] == s[0]);
        assert(s.push(w).drop_first() =~= s.drop_first().push(w));
        lemma_leading_ws_push(s.drop_first(), w);
    } else {
        assert(s.push(w)[0] == w);
        assert(s.push(w).drop_first() =~= Seq::<char>::empty());
        assert(leading_ws(Seq::<char>::empty()) == 0);
    }
}

/// The trailing whitespace of a text is within it.
proof fn lemma_trailing_ws_bound(s: Seq<char>)
    ensures
        trailing_ws(s) <= s.len(),
    decreases s.len(),
{
    if s.len() > 0 {
        lemma_trailing_ws_bound(s.drop_last());
    }
}

/// Trimming ignores whitespace added at the end: a line ending in a carriage return trims as
/// the line without it.
pub proof fn lemma_trim_push_whitespace(s: Seq<char>, w: char)
    requires
        is_whitespace_spec(w),
    ensures
        trim(s.push(w)) == trim(s),
{
    lemma_leading_ws_push(s, w);
    let t = s.push(w);
    let start = leading_ws(s) as int;
    if start < s.len() {
        let rest = s.subrange(start, s.len() as int);
        assert(t.subrange(start, t.len() as int) =~= rest.push(w));
        assert(rest.push(w).drop_last() =~= rest);
        lemma_trailing_ws_bound(rest);
        assert(rest.push(w).subrange(0, rest.len() - trailing_ws(rest)) =~= rest.subrange(0, rest.len() - trailing_ws(rest)));
    } else {
        assert(t.subrange(t.len() as int, t.len() as int) =~= Seq::<char>::empty());
        assert(s.subrange(s.len() as int, s.len() as int) =~= Seq::<char>::empty());
    }
}

/// The text without leading and trailing whitespace, as `str::trim` gives it.
pub open spec fn trim(s: Seq<char>) -> Seq<char> {
    let start = leading_ws(s) as int;
    let rest = s.subrange(start, s.len() as int);
    rest.subrange(0, rest.len() - trailing_ws(rest))
}

/// The pieces of the text between occurrences of the separator, as `str::split` gives them:
/// the empty text has one, empty, piece.
pub open spec fn split(s: Seq<char>, sep: char) -> Seq<Seq<char>>
    decreases s.len(),
{
    if s.len() == 0 {
        seq![Seq::<char>::empty()]
    } else {
        let pieces = split(s.drop_last(), sep);
        if s.last() == sep {
            pieces.push(Seq::<char>::empty())
        } else {
            pieces.update(pieces.len() - 1, pieces.last().push(s.last()))
        }
    }
}

/// Whether the text begins with the prefix.
pub open spec fn starts_with(s: Seq<char>, prefix: Seq<char>) -> bool {
    prefix.len() <= s.len() && s.subrange(0, prefix.len() as int) == prefix
}

/// Whether every character is an ASCII digit.
pub open spec fn all_digits(d: Seq<char>) -> bool {
    forall|i: int| 0 <= i < d.len() ==> '0' <= #[trigger] d[i] && d[i] <= '9'
}

/// The value of a sequence of decimal digits.
pub open spec fn digits_value(d: Seq<char>) -> nat
    decreases d.len(),
{
    if d.len() == 0 {
        0
    } else {
        digits_value(d.drop_last()) * 10 + ((d.last() as nat) - ('0' as nat)) as nat
    }
}

/// The unsigned number the text denotes, as `usize::from_str` reads it: an optional `+` and at
/// least one decimal digit, with a value that fits.
pub open spec fn parse_usize_spec(t: Seq<char>) -> Option<usize> {
    let d = if t.len() > 0 && t[0] == '+' { t.drop_first() } else { t };
    if d.len() > 0 && all_digits(d) && digits_value(d) <= usize::MAX {
        Some(digits_value(d) as usize)
    } else {
        None
    }
}

/// The signed number the text denotes, as `i32::from_str` reads it: an optional sign and at
/// least one decimal digit, with a value that fits.
pub open spec fn parse_i32_spec(t: Seq<char>) -> Option<i32> {
    if t.len() > 0 && t[0] == '-' {
        let d = t.drop_first();
        if d.len() > 0 && all_digits(d) && digits_value(d) <= 0x8000_0000 {
            Some((0 - digits_value(d)) as i32)
        } else {
            None
        }
    } else {
        let d = if t.len() > 0 && t[0] == '+' { t.drop_first() } else { t };
        if d.len() > 0 && all_digits(d) && digits_value(d) <= i32::MAX {
            Some(digits_value(d) as i32)
        } else {
            None
        }
    }
}

/// The 64-bit signed number the text denotes, as `i64::from_str` reads it: an optional sign and
/// at least one decimal digit, with a value that fits.
pub open spec fn parse_i64_spec(t: Seq<char>) -> Option<i64> {
    if t.len() > 0 && t[0] == '-' {
        let d = t.drop_first();
        if d.len() > 0 && all_digits(d) && digits_value(d) <= 0x8000_0000_0000_0000 {
            Some((0 - digits_value(d)) as i64)
        } else {
            None
        }
    } else {
        let d = if t.len() > 0 && t[0] == '+' { t.drop_first() } else { t };
        if d.len() > 0 && all_digits(d) && digits_value(d) <= i64::MAX {
            Some(digits_value(d) as i64)
        } else {
            None
        }
    }
}

/// Adding digits to a number written in digits never makes it smaller.
pub proof fn lemma_digits_prefix(d: Seq<char>, k: int)
    requires
        all_digits(d),
        0 <= k <= d.len(),
    ensures
        digits_value(d.subrange(0, k)) <= digits_value(d),
    decreases d.len() - k,
{
    if k < d.len() {
        lemma_digits_prefix(d, k + 1);
        let p = d.subrange(0, k + 1);
        assert(p.drop_last() =~= d.subrange(0, k));
        assert('0' <= p.last());
    } else {
        assert(d.subrange(0, k) =~= d);
    }
}

/// The value of the digits `d` with one more digit appended.
proof fn lemma_digits_push(d: Seq<char>, c: char)
    ensures
        digits_value(d.push(c)) == digits_value(d) * 10 + ((c as nat) - ('0' as nat)) as nat,
{
    assert(d.push(c).drop_last() =~= d);
}

/// The value of decimal digits, if it is at most `limit`.
fn digits_at_most(d: &[char], start: usize, limit: u64) -> (res: Option<u64>)
    requires
        start <= d@.len(),
        limit >= 9,
    ensures
        ({
            let ds = d@.subrange(start as int, d@.len() as int);
            match res {
                Some(v) => all_digits(ds) && v == digits_value(ds) && v <= limit,
                None => !all_digits(ds) || digits_value(ds) > limit,
            }
        }),
{
    let ghost ds = d@.subrange(start as int, d@.len() as int);
    let mut value: u64 = 0;
    let mut i: usize = start;
    while i < d.len()
        invariant
            start <= i <= d@.len(),
            ds == d@.subrange(start as int, d@.len() as int),
            all_digits(ds.subrange(0, i - start)),
            value == digits_value(ds.subrange(0, i - start)),
            value <= limit,
            limit >= 9,
        decreases d@.len() - i,
    {
        let c = d[i];
        if !('0' <= c && c <= '9') {
            assert(ds[i - start] == c);
            return None;
        }
        let digit: u64 = (c as u32 - '0' as u32) as u64;
        assert(digit <= 9);
        proof {
            assert(ds.subrange(0, i - start + 1) =~= ds.subrange(0, i - start).push(c));
            lemma_digits_push(ds.subrange(0, i - start), c);
        }
        if value > (limit - digit) / 10 {
            proof {
                assert(value * 10 + digit > limit) by (nonlinear_arith)
                    requires
                        value > (limit - digit) / 10,
                        digit <= limit,
                ;
                if all_digits(ds) {
                    lemma_digits_prefix(ds, i - start + 1);
                }
            }
            return None;
        }
        proof {
            assert(value * 10 + digit <= limit) by (nonlinear_arith)
                requires
                    value <= (limit - digit) / 10,
                    digit <= limit,
            ;
        }
        value = value * 10 + digit;
        i = i + 1;
    }
    assert(ds.subrange(0, i - start) =~= ds);
    Some(value)
}

/// Read an unsigned number as `usize::from_str` does.
pub fn parse_usize(t: &[char]) -> (res: Option<usize>)
    ensures
        res == parse_usize_spec(t@),
{
    let start: usize = if t.len() > 0 && t[0] == '+' { 1 } else { 0 };
    proof {
        if start == 1 {
            assert(t@.drop_first() =~= t@.subrange(1, t@.len() as int));
        } else {
            assert(t@ =~= t@.subrange(0, t@.len() as int));
        }
    }
    if start == t.len() {
        return None;
    }
    match digits_at_most(t, start, usize::MAX as u64) {
        Some(v) => Some(v as usize),
        None => None,
    }
}

/// Read a signed number as `i32::from_str` does.
pub fn parse_i32(t: &[char]) -> (res: Option<i32>)
    ensures
        res == parse_i32_spec(t@),
{
    if t.len() > 0 && t[0] == '-' {
        proof {
            assert(t@.drop_first() =~= t@.subrange(1, t@.len() as int));
        }
        if t.len() == 1 {
            return None;
        }
        match digits_at_most(t, 1, 0x8000_0000u64) {
            Some(v) => Some((0i64 - v as i64) as i32),
            None => None,
        }
    } else {
        let start: usize = if t.len() > 0 && t[0] == '+' { 1 } else { 0 };
        proof {
            if start == 1 {
                assert(t@.drop_first() =~= t@.subrange(1, t@.len() as int));
            } else {
                assert(t@ =~= t@.subrange(0, t@.len() as int));
            }
        }
        if start == t.len() {
            return None;
        }
        match digits_at_most(t, start, 0x7fff_ffffu64) {
            Some(v) => Some(v as i32),
            None => None,
        }
    }
}

/// Read a signed number as `i64::from_str` does.
pub fn parse_i64(t: &[char]) -> (res: Option<i64>)
    ensures
        res == parse_i64_spec(t@),
{
    if t.len() > 0 && t[0] == '-' {
        proof {
            assert(t@.drop_first() =~= t@.subrange(1, t@.len() as int));
        }
        if t.len() == 1 {
            return None;
        }
        match digits_at_most(t, 1, 0x8000_0000_0000_0000u64) {
            Some(v) => {
                if v == 0x8000_0000_0000_0000u64 {
                    Some(i64::MIN)
                } else {
                    Some(0i64 - v as i64)
                }
            },
            None => None,
        }
    } else {
        let start: usize = if t.len() > 0 && t[0] == '+' { 1 } else { 0 };
        proof {
            if start == 1 {
                assert(t@.drop_first() =~= t@.subrange(1, t@.len() as int));
            } else {
                assert(t@ =~= t@.subrange(0, t@.len() as int));
            }
        }
        if start == t.len() {
            return None;
        }
        match digits_at_most(t, start, 0x7fff_ffff_ffff_ffffu64) {
            Some(v) => Some(v as i64),
            None => None,
        }
    }
}

/// The characters `s[start..end]`.
pub fn slice_chars(s: &[char], start: usize, end: usize) -> (res: Vec<char>)
    requires
        start <= end <= s@.len(),
    ensures
        res@ == s@.subrange(start as int, end as int),
{
    let mut res: Vec<char> = Vec::new();
    let mut k: usize = start;
    while k < end
        invariant
            start <= k <= end <= s@.len(),
            res@ == s@.subrange(start as int, k as int),
        decreases end - k,
    {
        res.push(s[k]);
        proof {
            assert(s@.subrange(start as int, k + 1) =~= s@.subrange(start as int, k as int).push(s@[k as int]));
        }
        k = k + 1;
    }
    res
}

/// The bounds of the text without leading and trailing whitespace.
pub fn trim_bounds(s: &[char]) -> (bounds: (usize, usize))
    ensures
        bounds.0 <= bounds.1 <= s@.len(),
        s@.subrange(bounds.0 as int, bounds.1 as int) == trim(s@),
{
    let mut start: usize = 0;
    assert(s@.subrange(0, s@.len() as int) =~= s@);
    while start < s.len() && is_whitespace(s[start])
        invariant
            start <= s@.len(),
            leading_ws(s@) == start + leading_ws(s@.subrange(start as int, s@.len() as int)),
        decreases s@.len() - start,
    {
        proof {
            let r = s@.subrange(start as int, s@.len() as int);
            assert(r.drop_first() =~= s@.subrange(start + 1, s@.len() as int));
        }
        start = start + 1;
    }
    let ghost rest = s@.subrange(start as int, s@.len() as int);
    proof {
        if start < s.len() {
            assert(rest[0] == s@[start as int]);
        }
    }
    let mut end: usize = s.len();
    assert(rest.subrange(0, end - start) =~= rest);
    while end > start && is_whitespace(s[end - 1])
        invariant
            start <= end <= s@.len(),
            rest == s@.subrange(start as int, s@.len() as int),
            leading_ws(s@) == start,
            trailing_ws(rest) == (s@.len() - end) + trailing_ws(rest.subrange(0, end - start)),
        decreases end - start,
    {
        proof {
            let r = rest.subrange(0, end - start);
            assert(r.drop_last() =~= rest.subrange(0, end - start - 1));
            assert(r.last() == s@[end - 1]);
        }
        end = end - 1;
    }
    proof {
        assert(s@.subrange(start as int, end as int) =~= rest.subrange(0, end - start));
    }
    (start, end)
}

/// The characters as a `String`.
pub fn string_of(s: &[char]) -> (res: String)
    ensures
        res@ == s@,
{
    let mut res = String::new();
    let mut i: usize = 0;
    while i < s.len()
        invariant
            i <= s@.len(),
            res@ == s@.subrange(0, i as int),
        decreases s@.len() - i,
    {
        push_char(&mut res, s[i]);
        proof {
            assert(s@.subrange(0, i + 1) =~= s@.subrange(0, i as int).push(s@[i as int]));
        }
        i = i + 1;
    }
    assert(s@.subrange(0, i as int) =~= s@);
    res
}

/// `String::push` of std: appends the character to the end of the string.
#[verifier::external_body]
fn push_char(s: &mut String, c: char)
    ensures
        final(s)@ == old(s)@.push(c),
{
    s.push(c);
}

/// The characters of the text, in order.
pub fn chars_of(s: &str) -> (res: Vec<char>)
    ensures
        res@ == s@,
{
    let n = s.unicode_len();
    let mut res: Vec<char> = Vec::new();
    let mut i: usize = 0;
    while i < n
        invariant
            n == s@.len(),
            i <= n,
            res@ == s@.subrange(0, i as int),
        decreases n - i,
    {
        res.push(s.get_char(i));
        proof {
            assert(s@.subrange(0, i + 1) =~= s@.subrange(0, i as int).push(s@[i as int]));
        }
        i = i + 1;
    }
    assert(s@.subrange(0, n as int) =~= s@);
    res
}

} // verus!
