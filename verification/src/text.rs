//! Character classes and trimming, as std defines them for `char` and
//! `str`: White_Space and the control characters are short tables stated
//! here; the Unicode properties that take pages are named and read through
//! std.

use vstd::prelude::*;
use vstd::string::StrSliceExecFns;

verus! {

/// Unicode `White_Space`, the class `char::is_whitespace` tests.
pub open spec fn white_space(c: char) -> bool {
    let v = c as u32;
    (0x09 <= v && v <= 0x0D) || v == 0x20 || v == 0x85 || v == 0xA0 || v == 0x1680 || (0x2000 <= v && v
        <= 0x200A) || v == 0x2028 || v == 0x2029 || v == 0x202F || v == 0x205F || v == 0x3000
}

/// The general category `Cc`, the class `char::is_control` tests.
pub open spec fn control(c: char) -> bool {
    let v = c as u32;
    v <= 0x1F || (0x7F <= v && v <= 0x9F)
}

/// Whether `c` is Unicode `White_Space`.
pub fn is_whitespace(c: char) -> (r: bool)
    ensures
        r == white_space(c),
{
    let v = c as u32;
    (0x09 <= v && v <= 0x0D) || v == 0x20 || v == 0x85 || v == 0xA0 || v == 0x1680 || (0x2000 <= v && v
        <= 0x200A) || v == 0x2028 || v == 0x2029 || v == 0x202F || v == 0x205F || v == 0x3000
}

/// Whether `c` is a control character (`Cc`).
pub fn is_control(c: char) -> (r: bool)
    ensures
        r == control(c),
{
    let v = c as u32;
    v <= 0x1F || (0x7F <= v && v <= 0x9F)
}

/// The number of leading characters of `s` that are white space.
pub open spec fn leading_space(s: Seq<char>, from: int) -> int
    decreases s.len() - from,
{
    if from < 0 || from >= s.len() || !white_space(s[from]) {
        from
    } else {
        leading_space(s, from + 1)
    }
}

/// The length of `s` without its trailing white space.
pub open spec fn without_trailing_space(s: Seq<char>, end: int) -> int
    decreases end,
{
    if end <= 0 || !white_space(s[end - 1]) {
        end
    } else {
        without_trailing_space(s, end - 1)
    }
}

/// `s` without leading and trailing white space, as `str::trim` leaves it.
pub open spec fn spec_trim(s: Seq<char>) -> Seq<char> {
    let start = leading_space(s, 0);
    let end = without_trailing_space(s, s.len() as int);
    if start >= end {
        Seq::empty()
    } else {
        s.subrange(start, end)
    }
}

proof fn lemma_leading_space_bounds(s: Seq<char>, from: int)
    requires
        0 <= from <= s.len(),
    ensures
        from <= leading_space(s, from) <= s.len(),
    decreases s.len() - from,
{
    if from < s.len() && white_space(s[from]) {
        lemma_leading_space_bounds(s, from + 1);
    }
}

proof fn lemma_trailing_bounds(s: Seq<char>, end: int)
    requires
        0 <= end <= s.len(),
    ensures
        0 <= without_trailing_space(s, end) <= end,
    decreases end,
{
    if end > 0 && white_space(s[end - 1]) {
        lemma_trailing_bounds(s, end - 1);
    }
}

/// Trimming keeps a stretch of the text: each kept character is the one
/// at the same place after the leading white space.
pub proof fn lemma_trim_keeps_a_stretch(s: Seq<char>)
    ensures
        forall|j: int|
            0 <= j < spec_trim(s).len() ==> 0 <= leading_space(s, 0) + j < s.len() && #[trigger] spec_trim(s)[j]
                == s[leading_space(s, 0) + j],
{
    lemma_leading_space_bounds(s, 0);
    lemma_trailing_bounds(s, s.len() as int);
}

/// `s` without leading and trailing white space.
pub fn trim(s: &str) -> (r: &str)
    ensures
        r@ == spec_trim(s@),
{
    let n = s.unicode_len();
    let mut start: usize = 0;
    while start < n && is_whitespace(s.get_char(start))
        invariant
            n == s@.len(),
            start <= n,
            leading_space(s@, 0) == leading_space(s@, start as int),
        decreases n - start,
    {
        start += 1;
    }
    let mut end: usize = n;
    while end > 0 && is_whitespace(s.get_char(end - 1))
        invariant
            n == s@.len(),
            end <= n,
            without_trailing_space(s@, n as int) == without_trailing_space(s@, end as int),
        decreases end,
    {
        end -= 1;
    }
    proof {
        assert(leading_space(s@, start as int) == start);
        assert(without_trailing_space(s@, end as int) == end);
    }
    if start >= end {
        s.substring_char(0, 0)
    } else {
        s.substring_char(start, end)
    }
}


/// Whether two strings hold the same characters.
pub fn str_eq(a: &str, b: &str) -> (r: bool)
    ensures
        r == (a@ == b@),
{
    let n = a.unicode_len();
    if n != b.unicode_len() {
        return false;
    }
    let mut i: usize = 0;
    while i < n
        invariant
            n == a@.len(),
            n == b@.len(),
            i <= n,
            forall|j: int| 0 <= j < i ==> a@[j] == b@[j],
        decreases n - i,
    {
        if a.get_char(i) != b.get_char(i) {
            return false;
        }
        i += 1;
    }
    proof {
        assert(a@ =~= b@);
    }
    true
}

/// Whether `s` begins with the characters of `prefix`.
pub fn starts_with(s: &str, prefix: &str) -> (r: bool)
    ensures
        r == (prefix@.len() <= s@.len() && s@.subrange(0, prefix@.len() as int) == prefix@),
{
    let n = prefix.unicode_len();
    if n > s.unicode_len() {
        return false;
    }
    let mut i: usize = 0;
    while i < n
        invariant
            n == prefix@.len(),
            n <= s@.len(),
            i <= n,
            forall|j: int| 0 <= j < i ==> s@[j] == prefix@[j],
        decreases n - i,
    {
        if s.get_char(i) != prefix.get_char(i) {
            return false;
        }
        i += 1;
    }
    proof {
        assert(s@.subrange(0, n as int) =~= prefix@);
    }
    true
}

/// The number of bytes `c` takes in UTF-8.
pub open spec fn utf8_width(c: char) -> nat {
    if (c as u32) < 0x80 {
        1
    } else if (c as u32) < 0x800 {
        2
    } else if (c as u32) < 0x10000 {
        3
    } else {
        4
    }
}

/// The number of bytes the first `n` characters of `s` take in UTF-8.
pub open spec fn utf8_len(s: Seq<char>, n: int) -> nat
    decreases n,
{
    if n <= 0 {
        0
    } else {
        utf8_len(s, n - 1) + utf8_width(s[n - 1])
    }
}

/// Every character takes at least one byte: a longer prefix takes more.
pub proof fn lemma_utf8_len_strict(s: Seq<char>, m: int, n: int)
    requires
        0 <= m < n,
    ensures
        utf8_len(s, m) < utf8_len(s, n),
    decreases n - m,
{
    if m + 1 < n {
        lemma_utf8_len_strict(s, m, n - 1);
    }
}

/// The bytes of a prefix depend on that prefix alone.
pub proof fn lemma_utf8_len_prefix(s: Seq<char>, t: Seq<char>, n: int)
    requires
        0 <= n <= s.len(),
        n <= t.len(),
        forall|i: int| 0 <= i < n ==> s[i] == t[i],
    ensures
        utf8_len(s, n) == utf8_len(t, n),
    decreases n,
{
    if n > 0 {
        lemma_utf8_len_prefix(s, t, n - 1);
    }
}

/// The number of bytes `c` takes in UTF-8.
pub fn char_utf8_width(c: char) -> (r: usize)
    ensures
        r == utf8_width(c),
        1 <= r <= 4,
{
    let v = c as u32;
    if v < 0x80 {
        1
    } else if v < 0x800 {
        2
    } else if v < 0x10000 {
        3
    } else {
        4
    }
}

/// Whether the UTF-8 encoding of `s` takes more than `limit` bytes.
pub fn utf8_longer_than(s: &str, limit: usize) -> (r: bool)
    ensures
        r == (utf8_len(s@, s@.len() as int) > limit),
{
    let n = s.unicode_len();
    let mut total: usize = 0;
    let mut i: usize = 0;
    while i < n
        invariant
            n == s@.len(),
            i <= n,
            total == utf8_len(s@, i as int),
            total <= limit,
        decreases n - i,
    {
        let c = s.get_char(i) as u32;
        let w: usize = if c < 0x80 {
            1
        } else if c < 0x800 {
            2
        } else if c < 0x10000 {
            3
        } else {
            4
        };
        if w > limit - total {
            proof {
                assert(utf8_len(s@, i + 1) > limit);
                lemma_utf8_monotone(s@, i + 1, n as int);
            }
            return true;
        }
        total = total + w;
        i += 1;
    }
    false
}

pub proof fn lemma_utf8_monotone(s: Seq<char>, m: int, n: int)
    requires
        0 <= m <= n,
    ensures
        utf8_len(s, m) <= utf8_len(s, n),
    decreases n - m,
{
    if m < n {
        lemma_utf8_monotone(s, m, n - 1);
    }
}


/// A string holding exactly `chars`, through std's `FromIterator<char>`
/// for `String`.
#[verifier::external_body]
pub(crate) fn string_from_chars(chars: &[char]) -> (r: String)
    ensures
        r@ == chars@,
{
    chars.iter().collect()
}

/// The characters of `s`.
pub fn chars_of(s: &str) -> (r: Vec<char>)
    ensures
        r@ == s@,
{
    let n = s.unicode_len();
    let mut out: Vec<char> = Vec::new();
    let mut i: usize = 0;
    while i < n
        invariant
            n == s@.len(),
            i <= n,
            out@ == s@.take(i as int),
        decreases n - i,
    {
        out.push(s.get_char(i));
        proof {
            assert(out@ =~= s@.take(i + 1));
        }
        i += 1;
    }
    proof {
        assert(s@.take(n as int) =~= s@);
    }
    out
}

} // verus!
