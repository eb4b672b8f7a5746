//! Tab completion from the scrollback: the most recent word that starts
//! with what was typed. Lines are searched newest first; a line splits into
//! white-space separated words, each trimmed of leading and trailing
//! characters that are not alphanumeric; unless the typed prefix itself
//! holds a delimiter, a word splits further into segments at delimiters
//! (anything but alphanumerics and the in-word punctuation of apostrophes,
//! hyphens, dashes and underscores). A candidate loses a possessive `'s`
//! (unless the prefix holds an apostrophe), and is skipped when it is
//! empty, listed in the history to skip, or folded to lower case listed in
//! one of the folded skip sets; otherwise it matches when its lower-case
//! form starts with the lower-case prefix.

use vstd::prelude::*;
use vstd::string::{StrSliceExecFns, StringExecFns};

use crate::link_config::opt_view;
use crate::terminal_buffer::{has_possessive_suffix, strip_possessive_suffix, TerminalBuffer};
use crate::text::{chars_of, is_whitespace, starts_with, str_eq, string_from_chars, white_space};

verus! {

/// The Unicode classes `Alphabetic` or `Numeric`, which
/// `char::is_alphanumeric` tests.
pub uninterp spec fn alphanumeric(c: char) -> bool;

/// `char::is_alphanumeric`: whether `c` is alphabetic or numeric in
/// Unicode's sense.
#[verifier::external_body]
fn is_alphanumeric(c: char) -> (r: bool)
    ensures
        r == alphanumeric(c),
{
    c.is_alphanumeric()
}

/// What `str::to_lowercase` makes of `s` (Unicode's full lower-case
/// mapping, which may change the length).
pub uninterp spec fn lowercase(s: Seq<char>) -> Seq<char>;

/// `str::to_lowercase`: `s` under Unicode's lower-case mapping.
#[verifier::external_body]
fn to_lowercase(s: &str) -> (r: String)
    ensures
        r@ == lowercase(s@),
{
    s.to_lowercase()
}

/// Punctuation that stays inside a word: apostrophes, hyphens, dashes and
/// the underscore.
pub open spec fn internal_punctuation(c: char) -> bool {
    c == '\'' || c == '\u{2019}' || c == '-' || c == '\u{2010}' || c == '\u{2011}' || c == '\u{2012}' || c
        == '\u{2013}' || c == '\u{2014}' || c == '_'
}

/// Where a word splits into segments.
pub open spec fn segment_delimiter(c: char) -> bool {
    !alphanumeric(c) && !internal_punctuation(c)
}

/// The separators of words (`words`) or of segments (otherwise).
pub open spec fn is_sep(words: bool, c: char) -> bool {
    if words {
        white_space(c)
    } else {
        segment_delimiter(c)
    }
}

/// The end of the run of non-separators starting at `i`.
pub open spec fn run_end(s: Seq<char>, i: int, words: bool) -> int
    decreases s.len() - i,
{
    if i < 0 || i >= s.len() || is_sep(words, s[i]) {
        i
    } else {
        run_end(s, i + 1, words)
    }
}

proof fn lemma_run_end(s: Seq<char>, i: int, words: bool)
    requires
        0 <= i <= s.len(),
    ensures
        i <= run_end(s, i, words) <= s.len(),
    decreases s.len() - i,
{
    if i < s.len() && !is_sep(words, s[i]) {
        lemma_run_end(s, i + 1, words);
    }
}

/// The maximal runs of non-separators of `s` from `i` on.
pub open spec fn runs_from(s: Seq<char>, i: int, words: bool) -> Seq<Seq<char>>
    decreases s.len() - i,
{
    if i < 0 || i >= s.len() {
        Seq::empty()
    } else if is_sep(words, s[i]) {
        runs_from(s, i + 1, words)
    } else {
        let e = run_end(s, i, words);
        if e <= i || e > s.len() {
            Seq::empty()
        } else {
            seq![s.subrange(i, e)] + runs_from(s, e, words)
        }
    }
}

/// The first alphanumeric position at or after `i`.
pub open spec fn lead_end(w: Seq<char>, i: int) -> int
    decreases w.len() - i,
{
    if i < 0 || i >= w.len() || alphanumeric(w[i]) {
        i
    } else {
        lead_end(w, i + 1)
    }
}

/// The end of `w`'s first `e` characters without trailing ones that are
/// not alphanumeric.
pub open spec fn tail_end(w: Seq<char>, e: int) -> int
    decreases e,
{
    if e <= 0 || e > w.len() || alphanumeric(w[e - 1]) {
        e
    } else {
        tail_end(w, e - 1)
    }
}

/// `w` trimmed of leading and trailing characters that are not
/// alphanumeric.
pub open spec fn trim_non_alnum(w: Seq<char>) -> Seq<char> {
    let a = lead_end(w, 0);
    let b = tail_end(w, w.len() as int);
    if a >= b {
        Seq::empty()
    } else {
        w.subrange(a, b)
    }
}

/// The candidates one word offers: the trimmed word whole where the prefix
/// holds a delimiter, its segments otherwise; none from an empty word.
pub open spec fn word_candidates(w: Seq<char>, has_delim: bool) -> Seq<Seq<char>> {
    let t = trim_non_alnum(w);
    if t.len() == 0 {
        Seq::empty()
    } else if has_delim {
        seq![t]
    } else {
        runs_from(t, 0, false)
    }
}

/// The candidates of the first `n` of `ws`, in order.
pub open spec fn flat_candidates(ws: Seq<Seq<char>>, has_delim: bool, n: int) -> Seq<Seq<char>>
    decreases n,
{
    if n <= 0 {
        Seq::empty()
    } else {
        flat_candidates(ws, has_delim, n - 1) + word_candidates(ws[n - 1], has_delim)
    }
}

/// The candidates a line of text offers, in order.
pub open spec fn line_candidates(text: Seq<char>, has_delim: bool) -> Seq<Seq<char>> {
    let ws = runs_from(text, 0, true);
    flat_candidates(ws, has_delim, ws.len() as int)
}

/// What a search looks for and leaves out.
pub struct WordQuery {
    /// The typed prefix, lower-cased.
    pub prefix_folded: Seq<char>,
    /// Whether the prefix holds a delimiter (match whole words).
    pub has_delim: bool,
    /// Whether the prefix holds an apostrophe (keep possessives).
    pub has_apostrophe: bool,
    /// Words to skip as they are written.
    pub skip_in: Option<Seq<String>>,
    /// Sets of lower-case words to skip.
    pub skip_folded: Seq<Vec<String>>,
}

/// The word a candidate yields under `q`, if it matches.
pub open spec fn accepted(c: Seq<char>, q: WordQuery) -> Option<Seq<char>> {
    let m = if q.has_apostrophe || !has_possessive_suffix(c) {
        c
    } else {
        c.subrange(0, c.len() - 2)
    };
    let f = lowercase(m);
    if m.len() == 0 {
        None
    } else if (q.skip_in matches Some(h) && exists|k: int| 0 <= k < h.len() && (#[trigger] h[k])@ == m) {
        None
    } else if exists|k: int, j: int|
        0 <= k < q.skip_folded.len() && 0 <= j < q.skip_folded[k]@.len() && (#[trigger] q.skip_folded[k]@[j])@ == f {
        None
    } else if q.prefix_folded.len() <= f.len() && f.subrange(0, q.prefix_folded.len() as int) == q.prefix_folded {
        Some(m)
    } else {
        None
    }
}

/// The first match among `cands` from `i` on.
pub open spec fn first_accepted(cands: Seq<Seq<char>>, q: WordQuery, i: int) -> Option<Seq<char>>
    decreases cands.len() - i,
{
    if i < 0 || i >= cands.len() {
        None
    } else {
        match accepted(cands[i], q) {
            Some(m) => Some(m),
            None => first_accepted(cands, q, i + 1),
        }
    }
}

/// The first match in the newest `m` of `texts` (oldest first), newest
/// line first, from the `k`th newest on.
pub open spec fn search_lines(texts: Seq<Seq<char>>, q: WordQuery, k: int, m: int) -> Option<Seq<char>>
    decreases m - k,
{
    if k < 0 || k >= m || k >= texts.len() {
        None
    } else {
        match first_accepted(line_candidates(texts[texts.len() - 1 - k], q.has_delim), q, 0) {
            Some(w) => Some(w),
            None => search_lines(texts, q, k + 1, m),
        }
    }
}

/// The query typing `prefix` makes, skipping `skip_in` as written and
/// `skip_folded` lower-cased.
pub open spec fn query_for(prefix: Seq<char>, skip_in: Option<Seq<String>>, skip_folded: Seq<Vec<String>>) -> WordQuery {
    WordQuery {
        prefix_folded: lowercase(prefix),
        has_delim: exists|i: int| 0 <= i < prefix.len() && segment_delimiter(#[trigger] prefix[i]),
        has_apostrophe: exists|i: int| 0 <= i < prefix.len() && (#[trigger] prefix[i] == '\'' || prefix[i] == '\u{2019}'),
        skip_in,
        skip_folded,
    }
}

/// The views of a list of character vectors.
pub open spec fn views(v: Seq<Vec<char>>) -> Seq<Seq<char>> {
    v.map_values(|x: Vec<char>| x@)
}

fn is_separator(words: bool, c: char) -> (r: bool)
    ensures
        r == is_sep(words, c),
{
    if words {
        is_whitespace(c)
    } else {
        !is_alphanumeric(c) && !(c == '\'' || c == '\u{2019}' || c == '-' || c == '\u{2010}' || c == '\u{2011}'
            || c == '\u{2012}' || c == '\u{2013}' || c == '\u{2014}' || c == '_')
    }
}

fn runs(s: &Vec<char>, words: bool) -> (r: Vec<Vec<char>>)
    ensures
        views(r@) == runs_from(s@, 0, words),
{
    let n = s.len();
    let mut out: Vec<Vec<char>> = Vec::new();
    let mut i: usize = 0;
    while i < n
        invariant
            n == s@.len(),
            i <= n,
            views(out@) + runs_from(s@, i as int, words) == runs_from(s@, 0, words),
        decreases n - i,
    {
        if is_separator(words, s[i]) {
            i += 1;
        } else {
            let mut e = i;
            let mut run: Vec<char> = Vec::new();
            while e < n && !is_separator(words, s[e])
                invariant
                    n == s@.len(),
                    i <= e <= n,
                    run@ == s@.subrange(i as int, e as int),
                    run_end(s@, i as int, words) == run_end(s@, e as int, words),
                decreases n - e,
            {
                run.push(s[e]);
                proof {
                    assert(run@ =~= s@.subrange(i as int, e + 1));
                }
                e += 1;
            }
            let ghost before = out@;
            proof {
                assert(run_end(s@, e as int, words) == e);
                assert(runs_from(s@, i as int, words) == seq![run@] + runs_from(s@, e as int, words));
            }
            out.push(run);
            proof {
                assert(views(out@) =~= views(before).push(s@.subrange(i as int, e as int)));
                assert(views(out@) + runs_from(s@, e as int, words) =~= views(before) + runs_from(s@, i as int, words));
            }
            i = e;
        }
    }
    proof {
        assert(views(out@) + runs_from(s@, n as int, words) =~= views(out@));
    }
    out
}

fn trim_word(w: &Vec<char>) -> (r: Vec<char>)
    ensures
        r@ == trim_non_alnum(w@),
{
    let n = w.len();
    let mut a: usize = 0;
    while a < n && !is_alphanumeric(w[a])
        invariant
            n == w@.len(),
            a <= n,
            lead_end(w@, 0) == lead_end(w@, a as int),
        decreases n - a,
    {
        a += 1;
    }
    let mut b: usize = n;
    while b > 0 && !is_alphanumeric(w[b - 1])
        invariant
            n == w@.len(),
            b <= n,
            tail_end(w@, n as int) == tail_end(w@, b as int),
        decreases b,
    {
        b -= 1;
    }
    proof {
        assert(lead_end(w@, a as int) == a);
        assert(tail_end(w@, b as int) == b);
    }
    let mut out: Vec<char> = Vec::new();
    if a < b {
        let mut i = a;
        while i < b
            invariant
                a <= i <= b <= w@.len(),
                out@ == w@.subrange(a as int, i as int),
            decreases b - i,
        {
            out.push(w[i]);
            proof {
                assert(out@ =~= w@.subrange(a as int, i + 1));
            }
            i += 1;
        }
    } else {
        proof {
            assert(out@ =~= Seq::<char>::empty());
        }
    }
    out
}

fn candidates_of_line(text: &str, has_delim: bool) -> (r: Vec<Vec<char>>)
    ensures
        views(r@) == line_candidates(text@, has_delim),
{
    let chars = chars_of(text);
    let ws = runs(&chars, true);
    let mut out: Vec<Vec<char>> = Vec::new();
    let mut k: usize = 0;
    while k < ws.len()
        invariant
            k <= ws@.len(),
            views(ws@) == runs_from(text@, 0, true),
            views(out@) == flat_candidates(views(ws@), has_delim, k as int),
        decreases ws@.len() - k,
    {
        let t = trim_word(&ws[k]);
        proof {
            assert(views(ws@)[k as int] == ws@[k as int]@);
        }
        let ghost before = views(out@);
        if t.len() > 0 {
            if has_delim {
                out.push(t);
                proof {
                    assert(views(out@) =~= before + seq![t@]);
                }
            } else {
                let segs = runs(&t, false);
                let mut j: usize = 0;
                while j < segs.len()
                    invariant
                        j <= segs@.len(),
                        views(out@) == before + views(segs@).take(j as int),
                    decreases segs@.len() - j,
                {
                    let seg = copy_chars(&segs[j]);
                    let ghost prev = out@;
                    out.push(seg);
                    proof {
                        assert(views(out@) =~= views(prev).push(segs@[j as int]@));
                        assert(views(segs@)[j as int] == segs@[j as int]@);
                        assert(views(segs@).take(j + 1) =~= views(segs@).take(j as int).push(views(segs@)[j as int]));
                        assert(views(out@) =~= before + views(segs@).take(j + 1));
                    }
                    j += 1;
                }
                proof {
                    assert(views(segs@).take(segs@.len() as int) =~= views(segs@));
                }
            }
        } else {
            proof {
                assert(views(out@) =~= before + Seq::<Seq<char>>::empty());
            }
        }
        k += 1;
    }
    out
}

fn copy_chars(v: &Vec<char>) -> (r: Vec<char>)
    ensures
        r@ == v@,
{
    let mut out: Vec<char> = Vec::new();
    let mut i: usize = 0;
    while i < v.len()
        invariant
            i <= v@.len(),
            out@ == v@.take(i as int),
        decreases v@.len() - i,
    {
        out.push(v[i]);
        proof {
            assert(out@ =~= v@.take(i + 1));
        }
        i += 1;
    }
    proof {
        assert(v@.take(v@.len() as int) =~= v@);
    }
    out
}

fn listed(words: &[String], w: &str) -> (r: bool)
    ensures
        r == exists|k: int| 0 <= k < words@.len() && (#[trigger] words@[k])@ == w@,
{
    let mut k: usize = 0;
    while k < words.len()
        invariant
            k <= words@.len(),
            forall|j: int| 0 <= j < k ==> (#[trigger] words@[j])@ != w@,
        decreases words@.len() - k,
    {
        if str_eq(words[k].as_str(), w) {
            return true;
        }
        k += 1;
    }
    false
}

#[verifier::loop_isolation(false)]
fn accept(
    c: &Vec<char>,
    prefix_folded: &str,
    has_apostrophe: bool,
    skip_in: Option<&[String]>,
    skip_folded: &[Vec<String>],
    Ghost(q): Ghost<WordQuery>,
) -> (r: Option<String>)
    requires
        q.prefix_folded == prefix_folded@,
        q.has_apostrophe == has_apostrophe,
        q.skip_in == match skip_in {
            Some(h) => Some(h@),
            None => None::<Seq<String>>,
        },
        q.skip_folded == skip_folded@,
    ensures
        opt_view(r) == accepted(c@, q),
{
    let whole = string_from_chars(c.as_slice());
    let m = if has_apostrophe {
        whole.as_str()
    } else {
        strip_possessive_suffix(whole.as_str())
    };
    if m.unicode_len() == 0 {
        return None;
    }
    match skip_in {
        Some(h) => {
            if listed(h, m) {
                proof {
                    let k = choose|k: int| 0 <= k < h@.len() && (#[trigger] h@[k])@ == m@;
                    assert(q.skip_in->0[k]@ == m@);
                }
                return None;
            }
        },
        None => {},
    }
    let folded = to_lowercase(m);
    let mut k: usize = 0;
    while k < skip_folded.len()
        invariant
            k <= skip_folded@.len(),
            q.skip_folded == skip_folded@,
            folded@ == lowercase(m@),
            forall|i: int, j: int|
                0 <= i < k && 0 <= j < skip_folded@[i]@.len() ==> (#[trigger] skip_folded@[i]@[j])@ != folded@,
        decreases skip_folded@.len() - k,
    {
        if listed(skip_folded[k].as_slice(), folded.as_str()) {
            proof {
                let row = skip_folded@[k as int]@;
                let j = choose|j: int| 0 <= j < row.len() && (#[trigger] row[j])@ == folded@;
                assert(q.skip_folded[k as int]@[j]@ == lowercase(m@));
            }
            return None;
        }
        k += 1;
    }
    if starts_with(folded.as_str(), prefix_folded) {
        Some(String::from_str(m))
    } else {
        None
    }
}

impl<L, A, I> TerminalBuffer<L, A, I> {
    /// The texts of the held lines, oldest first.
    pub open spec fn texts_view(&self) -> Seq<Seq<char>> {
        self.lines_view().map_values(|l: crate::terminal_buffer::BufferLine<L, A>| l.text@)
    }

    /// The most recent word among the newest `n_recent_lines` lines that
    /// starts with `prefix`, ignoring case, as it is written there.
    pub fn find_recent_word_by_prefix(
        &self,
        prefix: &str,
        skip_words_in: Option<&[String]>,
        skip_words_folded: &[Vec<String>],
        n_recent_lines: usize,
    ) -> (r: Option<String>)
        requires
            self.wf(),
        ensures
            opt_view(r) == search_lines(
                self.texts_view(),
                query_for(
                    prefix@,
                    match skip_words_in {
                        Some(h) => Some(h@),
                        None => None,
                    },
                    skip_words_folded@,
                ),
                0,
                n_recent_lines as int,
            ),
    {
        let prefix_folded = to_lowercase(prefix);
        let pchars = chars_of(prefix);
        let mut has_delim = false;
        let mut has_apostrophe = false;
        let mut i: usize = 0;
        while i < pchars.len()
            invariant
                i <= pchars@.len(),
                pchars@ == prefix@,
                has_delim == exists|j: int| 0 <= j < i && segment_delimiter(#[trigger] prefix@[j]),
                has_apostrophe == exists|j: int| 0 <= j < i && (#[trigger] prefix@[j] == '\'' || prefix@[j] == '\u{2019}'),
            decreases pchars@.len() - i,
        {
            let c = pchars[i];
            if is_separator(false, c) {
                has_delim = true;
            }
            if c == '\'' || c == '\u{2019}' {
                has_apostrophe = true;
            }
            proof {
                assert(prefix@[i as int] == c);
            }
            i += 1;
        }
        let ghost q = query_for(
            prefix@,
            match skip_words_in {
                Some(h) => Some(h@),
                None => None,
            },
            skip_words_folded@,
        );
        proof {
            assert(q.has_delim == has_delim);
            assert(q.has_apostrophe == has_apostrophe);
        }
        let len = self.len();
        let last = self.last_line_number();
        proof {
            self.lemma_lines_are_numbered();
        }
        let m = if n_recent_lines < len {
            n_recent_lines
        } else {
            len
        };
        let mut k: usize = 0;
        while k < m
            invariant
                self.wf(),
                m <= len,
                len == self.lines_view().len(),
                last == self.last_number(),
                m == n_recent_lines || m == len,
                m <= n_recent_lines,
                k <= m,
                q == query_for(
                    prefix@,
                    match skip_words_in {
                        Some(h) => Some(h@),
                        None => None,
                    },
                    skip_words_folded@,
                ),
                search_lines(self.texts_view(), q, 0, n_recent_lines as int) == search_lines(
                    self.texts_view(),
                    q,
                    k as int,
                    n_recent_lines as int,
                ),
                q.prefix_folded == prefix_folded@,
                q.has_delim == has_delim,
                q.has_apostrophe == has_apostrophe,
                q.skip_in == match skip_words_in {
                    Some(h) => Some(h@),
                    None => None::<Seq<String>>,
                },
                q.skip_folded == skip_words_folded@,
                len <= last,
            decreases m - k,
        {
            let line = match self.line(last - k) {
                Some(l) => l,
                None => {
                    return None;
                },
            };
            proof {
                assert(self.index_of_line((last - k) as usize) == Some(len - 1 - k));
                assert(self.texts_view()[len - 1 - k] == self.lines_view()[len - 1 - k].text@);
            }
            let cands = candidates_of_line(line.text.as_str(), has_delim);
            let mut j: usize = 0;
            while j < cands.len()
                invariant
                    j <= cands@.len(),
                    views(cands@) == line_candidates(line.text@, q.has_delim),
                    first_accepted(views(cands@), q, 0) == first_accepted(views(cands@), q, j as int),
                    q.prefix_folded == prefix_folded@,
                    q.has_apostrophe == has_apostrophe,
                    q.skip_in == match skip_words_in {
                        Some(h) => Some(h@),
                        None => None::<Seq<String>>,
                    },
                    q.skip_folded == skip_words_folded@,
                    search_lines(self.texts_view(), q, 0, n_recent_lines as int) == search_lines(
                        self.texts_view(),
                        q,
                        k as int,
                        n_recent_lines as int,
                    ),
                    k < m,
                    m <= len,
                    m <= n_recent_lines,
                    q == query_for(
                        prefix@,
                        match skip_words_in {
                            Some(h) => Some(h@),
                            None => None,
                        },
                        skip_words_folded@,
                    ),
                    len == self.texts_view().len(),
                    self.texts_view()[len - 1 - k] == line.text@,
                decreases cands@.len() - j,
            {
                let got = accept(
                    &cands[j],
                    prefix_folded.as_str(),
                    has_apostrophe,
                    skip_words_in,
                    skip_words_folded,
                    Ghost(q),
                );
                proof {
                    assert(views(cands@)[j as int] == cands@[j as int]@);
                }
                if got.is_some() {
                    proof {
                        assert(first_accepted(views(cands@), q, j as int) == opt_view(got));
                        assert(search_lines(self.texts_view(), q, k as int, n_recent_lines as int) == opt_view(got));
                    }
                    return got;
                }
                j += 1;
            }
            proof {
                assert(self.texts_view()[len - 1 - k] == line.text@);
            }
            k += 1;
        }
        None
    }
}

} // verus!
