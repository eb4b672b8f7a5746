//! The terminal scrollback model: byte-offset maps between a source line
//! and its rendered text, column clamping, and the bounded, numbered line
//! buffer with its selection and word lookups, and the colour-free half of
//! rendering a span: its font, decorations and concealed text.

use std::collections::VecDeque;
use vstd::prelude::*;
use vstd::string::{StrSliceExecFns, StringExecFns, StringSliceAdditionalSpecFns};
use unicode_segmentation::UnicodeSegmentation;

use crate::link_config::{LinkDecoration, LinkTextStyle};
use crate::text::{string_from_chars, utf8_len, utf8_width};

verus! {

// ----------------------------------------------------------------------
// Rendered offsets
// ----------------------------------------------------------------------

/// Whether `s` is strictly increasing.
pub open spec fn strictly_increasing(s: Seq<usize>) -> bool {
    forall|i: int, j: int| 0 <= i < j < s.len() ==> s[i] < s[j]
}

/// The number of entries of `s` below `offset`: where `offset` would be
/// inserted to keep `s` sorted.
pub open spec fn count_below(s: Seq<usize>, offset: usize, n: int) -> int
    decreases n,
{
    if n <= 0 {
        0
    } else if s[n - 1] < offset {
        count_below(s, offset, n - 1) + 1
    } else {
        count_below(s, offset, n - 1)
    }
}

/// `offset` in `from` coordinates carried to `to` coordinates: a listed
/// boundary maps to its partner; an offset inside a segment whose lengths
/// agree keeps its distance from the segment start; an offset inside a
/// segment whose lengths differ snaps to the segment start; offsets before
/// the first and past the last boundary clamp.
pub open spec fn spec_map(offset: usize, from: Seq<usize>, to: Seq<usize>) -> usize {
    let p = count_below(from, offset, from.len() as int);
    if offset == usize::MAX {
        usize::MAX
    } else if p < from.len() && from[p] == offset {
        to[p]
    } else if p == 0 {
        0
    } else if p == from.len() {
        to[p - 1]
    } else if from[p] - from[p - 1] == to[p] - to[p - 1] {
        (to[p - 1] + offset - from[p - 1]) as usize
    } else {
        to[p - 1]
    }
}

proof fn lemma_count_below_sorted(s: Seq<usize>, offset: usize, n: int)
    requires
        0 <= n <= s.len(),
        strictly_increasing(s),
    ensures
        0 <= count_below(s, offset, n) <= n,
        forall|i: int| 0 <= i < count_below(s, offset, n) ==> s[i] < offset,
        forall|i: int| count_below(s, offset, n) <= i < n ==> s[i] >= offset,
    decreases n,
{
    if n > 0 {
        lemma_count_below_sorted(s, offset, n - 1);
    }
}

/// The first index in `[lo, hi)` whose entry is at least `offset`, for a
/// strictly increasing `s` whose entries below `lo` are below `offset`.
fn lower_bound(s: &[usize], offset: usize) -> (r: usize)
    requires
        strictly_increasing(s@),
    ensures
        r == count_below(s@, offset, s@.len() as int),
{
    proof {
        lemma_count_below_sorted(s@, offset, s@.len() as int);
    }
    let mut lo: usize = 0;
    let mut hi: usize = s.len();
    while lo < hi
        invariant
            lo <= hi <= s@.len(),
            strictly_increasing(s@),
            forall|i: int| 0 <= i < lo ==> s@[i] < offset,
            forall|i: int| hi <= i < s@.len() ==> s@[i] >= offset,
        decreases hi - lo,
    {
        let mid = lo + (hi - lo) / 2;
        if s[mid] < offset {
            lo = mid + 1;
        } else {
            hi = mid;
        }
    }
    proof {
        let c = count_below(s@, offset, s@.len() as int);
        if c < lo {
            assert(s@[c] >= offset);
        }
        if c > lo {
            assert(s@[lo as int] < offset);
        }
    }
    lo
}

/// Carry `offset` from `from` coordinates to `to` coordinates.
pub fn map_offset(offset: usize, from: &[usize], to: &[usize]) -> (r: usize)
    requires
        strictly_increasing(from@),
        strictly_increasing(to@),
        from@.len() == to@.len(),
    ensures
        r == spec_map(offset, from@, to@),
{
    if offset == usize::MAX {
        return usize::MAX;
    }
    let p = lower_bound(from, offset);
    proof {
        lemma_count_below_sorted(from@, offset, from@.len() as int);
    }
    if p < from.len() && from[p] == offset {
        return to[p];
    }
    if p == 0 {
        return 0;
    }
    if p == from.len() {
        return to[p - 1];
    }
    let from_start = from[p - 1];
    let from_end = from[p];
    let to_start = to[p - 1];
    let to_end = to[p];
    if from_end - from_start == to_end - to_start {
        to_start + (offset - from_start)
    } else {
        to_start
    }
}

/// Bidirectional byte-offset mapping between an immutable source line and
/// the text actually shaped by the renderer: identity, or two parallel
/// boundary lists.
#[derive(Debug, Clone)]
pub enum RenderedOffsets {
    Identity,
    Mapped { source: Vec<usize>, rendered: Vec<usize> },
}

impl RenderedOffsets {
    /// Both boundary lists strictly increase and pair up one to one.
    pub open spec fn wf(&self) -> bool {
        match self {
            RenderedOffsets::Identity => true,
            RenderedOffsets::Mapped { source, rendered } => {
                &&& source@.len() == rendered@.len()
                &&& strictly_increasing(source@)
                &&& strictly_increasing(rendered@)
            },
        }
    }

    /// The rendered offset of a source offset.
    pub open spec fn spec_source_to_rendered(&self, offset: usize) -> usize {
        match self {
            RenderedOffsets::Identity => offset,
            RenderedOffsets::Mapped { source, rendered } => spec_map(offset, source@, rendered@),
        }
    }

    /// The source offset of a rendered offset.
    pub open spec fn spec_rendered_to_source(&self, offset: usize) -> usize {
        match self {
            RenderedOffsets::Identity => offset,
            RenderedOffsets::Mapped { source, rendered } => spec_map(offset, rendered@, source@),
        }
    }

    /// Carry `offset` from `from` coordinates to `to` coordinates.
    pub fn map(offset: usize, from: &[usize], to: &[usize]) -> (r: usize)
        requires
            strictly_increasing(from@),
            strictly_increasing(to@),
            from@.len() == to@.len(),
        ensures
            r == spec_map(offset, from@, to@),
    {
        map_offset(offset, from, to)
    }

    pub fn source_to_rendered(&self, offset: usize) -> (r: usize)
        requires
            self.wf(),
        ensures
            r == self.spec_source_to_rendered(offset),
    {
        match self {
            RenderedOffsets::Identity => offset,
            RenderedOffsets::Mapped { source, rendered } => map_offset(offset, source.as_slice(), rendered.as_slice()),
        }
    }

    pub fn rendered_to_source(&self, offset: usize) -> (r: usize)
        requires
            self.wf(),
        ensures
            r == self.spec_rendered_to_source(offset),
    {
        match self {
            RenderedOffsets::Identity => offset,
            RenderedOffsets::Mapped { source, rendered } => map_offset(offset, rendered.as_slice(), source.as_slice()),
        }
    }

    /// A source selection carried to rendered offsets.
    pub fn map_selection(&self, selection: Option<(usize, usize)>) -> (r: Option<(usize, usize)>)
        requires
            self.wf(),
        ensures
            r == match selection {
                Some((from, to)) => Some((self.spec_source_to_rendered(from), self.spec_source_to_rendered(to))),
                None => None,
            },
    {
        match selection {
            Some((from, to)) => Some((self.source_to_rendered(from), self.source_to_rendered(to))),
            None => None,
        }
    }
}

/// A listed boundary survives the round trip through the other coordinates.
pub proof fn lemma_boundary_round_trip(offsets: RenderedOffsets, i: int)
    requires
        offsets.wf(),
        offsets matches RenderedOffsets::Mapped { source, rendered } ==> 0 <= i < source@.len()
            && source@[i] < usize::MAX && rendered@[i] < usize::MAX,
    ensures
        offsets matches RenderedOffsets::Mapped { source, rendered } ==> {
            &&& offsets.spec_source_to_rendered(source@[i]) == rendered@[i]
            &&& offsets.spec_rendered_to_source(rendered@[i]) == source@[i]
        },
{
    if let RenderedOffsets::Mapped { source, rendered } = offsets {
        lemma_count_below_sorted(source@, source@[i], source@.len() as int);
        lemma_count_below_sorted(rendered@, rendered@[i], rendered@.len() as int);
        let p = count_below(source@, source@[i], source@.len() as int);
        let q = count_below(rendered@, rendered@[i], rendered@.len() as int);
        if p < i {
            assert(source@[p] >= source@[i]);
        }
        if p > i {
            assert(source@[i] < source@[i]);
        }
        if q < i {
            assert(rendered@[q] >= rendered@[i]);
        }
        if q > i {
            assert(rendered@[i] < rendered@[i]);
        }
    }
}

// ----------------------------------------------------------------------
// Columns
// ----------------------------------------------------------------------

/// The largest UTF-8 boundary of `text` at or below `col`, or the text's
/// byte length when `col` lies past it.
pub open spec fn spec_clamp_to_char_boundary(text: Seq<char>, col: usize) -> usize {
    if col >= utf8_len(text, text.len() as int) {
        utf8_len(text, text.len() as int) as usize
    } else {
        utf8_len(text, boundary_index(text, col, text.len() as int)) as usize
    }
}

/// The number of characters of `text` whose encoding ends at or below
/// `col`, among the first `n`.
pub open spec fn boundary_index(text: Seq<char>, col: usize, n: int) -> int
    decreases n,
{
    if n <= 0 {
        0
    } else if utf8_len(text, n) <= col {
        n
    } else {
        boundary_index(text, col, n - 1)
    }
}

proof fn lemma_utf8_len_mono(s: Seq<char>, m: int, n: int)
    requires
        0 <= m <= n,
    ensures
        utf8_len(s, m) <= utf8_len(s, n),
    decreases n - m,
{
    if m < n {
        lemma_utf8_len_mono(s, m, n - 1);
    }
}

proof fn lemma_boundary_index(text: Seq<char>, col: usize, n: int)
    requires
        0 <= n,
    ensures
        0 <= boundary_index(text, col, n) <= n,
        utf8_len(text, boundary_index(text, col, n)) <= col,
    decreases n,
{
    if n > 0 && utf8_len(text, n) > col {
        lemma_boundary_index(text, col, n - 1);
    }
}

/// The byte offset after each character of `text`, from zero: the char
/// boundaries of its UTF-8 encoding.
fn char_boundaries(text: &str) -> (r: Vec<usize>)
    requires
        utf8_len(text@, text@.len() as int) <= usize::MAX,
    ensures
        r@.len() == text@.len() + 1,
        forall|k: int| 0 <= k <= text@.len() ==> r@[k] == utf8_len(text@, k),
{
    let n = text.unicode_len();
    let mut out: Vec<usize> = Vec::new();
    out.push(0);
    let mut total: usize = 0;
    let mut i: usize = 0;
    while i < n
        invariant
            n == text@.len(),
            i <= n,
            utf8_len(text@, n as int) <= usize::MAX,
            total == utf8_len(text@, i as int),
            out@.len() == i + 1,
            forall|k: int| 0 <= k <= i ==> out@[k] == utf8_len(text@, k),
        decreases n - i,
    {
        let c = text.get_char(i) as u32;
        let w: usize = if c < 0x80 {
            1
        } else if c < 0x800 {
            2
        } else if c < 0x10000 {
            3
        } else {
            4
        };
        proof {
            lemma_utf8_len_mono(text@, i + 1, n as int);
            assert(utf8_len(text@, i + 1) == utf8_len(text@, i as int) + utf8_width(text@[i as int]));
        }
        total = total + w;
        out.push(total);
        i += 1;
    }
    out
}

/// Clamp a byte offset to `text`'s length and snap it down to the nearest
/// char boundary, yielding an offset that is always safe to slice `text`
/// at.
pub fn clamp_to_char_boundary(text: &str, col: usize) -> (r: usize)
    requires
        utf8_len(text@, text@.len() as int) <= usize::MAX,
    ensures
        r == spec_clamp_to_char_boundary(text@, col),
{
    let bounds = char_boundaries(text);
    let n = text.unicode_len();
    if col >= bounds[n] {
        return bounds[n];
    }
    let mut k: usize = n;
    while k > 0 && bounds[k] > col
        invariant
            k <= n,
            n == text@.len(),
            bounds@.len() == n + 1,
            forall|j: int| 0 <= j <= n ==> bounds@[j] == utf8_len(text@, j),
            boundary_index(text@, col, n as int) == boundary_index(text@, col, k as int),
        decreases k,
    {
        k -= 1;
    }
    bounds[k]
}

/// A word ending in a possessive `'s` (either apostrophe, either case).
pub open spec fn has_possessive_suffix(word: Seq<char>) -> bool {
    word.len() >= 2 && (word[word.len() - 2] == '\'' || word[word.len() - 2] == '\u{2019}') && (word[word.len()
        - 1] == 's' || word[word.len() - 1] == 'S')
}

/// `word` without a possessive `'s` ending.
pub fn strip_possessive_suffix(word: &str) -> (r: &str)
    ensures
        r@ == if has_possessive_suffix(word@) {
            word@.subrange(0, word@.len() - 2)
        } else {
            word@
        },
{
    let n = word.unicode_len();
    if n >= 2 {
        let a = word.get_char(n - 2);
        let s = word.get_char(n - 1);
        if (a == '\'' || a == '\u{2019}') && (s == 's' || s == 'S') {
            return word.substring_char(0, n - 2);
        }
    }
    proof {
        assert(word@.subrange(0, word@.len() as int) =~= word@);
    }
    word.substring_char(0, n)
}


// ----------------------------------------------------------------------
// Building offsets
// ----------------------------------------------------------------------

/// The byte lengths of the extended grapheme clusters of `s`, in order.
pub uninterp spec fn grapheme_lengths(s: Seq<char>) -> Seq<usize>;

/// The sum of the first `n` entries of `s`.
pub open spec fn seq_sum(s: Seq<usize>, n: int) -> int
    decreases n,
{
    if n <= 0 {
        0
    } else {
        seq_sum(s, n - 1) + s[n - 1]
    }
}

/// The byte lengths of `s`'s extended grapheme clusters, through
/// `UnicodeSegmentation::graphemes(s, true)`. The clusters are non-empty
/// slices that partition `s`, so their lengths are positive and sum to its
/// byte length.
#[verifier::external_body]
fn grapheme_byte_lengths(s: &str) -> (r: Vec<usize>)
    ensures
        r@ == grapheme_lengths(s@),
        forall|i: int| 0 <= i < r@.len() ==> r@[i] > 0,
        seq_sum(r@, r@.len() as int) == s.spec_bytes().len(),
{
    s.graphemes(true).map(|g| g.len()).collect()
}

/// `start` advanced by each of the first `n` lengths in turn.
pub open spec fn running_ends(start: int, lens: Seq<usize>, n: int) -> Seq<usize>
    decreases n,
{
    if n <= 0 {
        Seq::empty()
    } else {
        running_ends(start, lens, n - 1).push((start + seq_sum(lens, n)) as usize)
    }
}

proof fn lemma_seq_sum_mono(s: Seq<usize>, m: int, n: int)
    requires
        0 <= m <= n <= s.len(),
    ensures
        seq_sum(s, m) <= seq_sum(s, n),
        forall|i: int| 0 <= i < s.len() ==> s[i] > 0 ==> (m < n ==> seq_sum(s, m) < seq_sum(s, n)) || true,
    decreases n - m,
{
    if m < n {
        lemma_seq_sum_mono(s, m, n - 1);
    }
}

/// Whether `start` plus every length stays within `usize`.
fn fits_after(lens: &[usize], start: usize) -> (r: bool)
    ensures
        r == (start + seq_sum(lens@, lens@.len() as int) <= usize::MAX),
{
    let mut total: usize = start;
    let mut i: usize = 0;
    while i < lens.len()
        invariant
            i <= lens@.len(),
            total == start + seq_sum(lens@, i as int),
        decreases lens@.len() - i,
    {
        if lens[i] > usize::MAX - total {
            proof {
                lemma_seq_sum_mono(lens@, i + 1, lens@.len() as int);
            }
            return false;
        }
        total = total + lens[i];
        i += 1;
    }
    true
}

/// Accumulates the paired grapheme boundaries of a source line and its
/// rendered text.
#[derive(Debug)]
pub struct RenderedOffsetsBuilder {
    source: Vec<usize>,
    rendered: Vec<usize>,
    source_end: usize,
    rendered_end: usize,
}

impl RenderedOffsetsBuilder {
    /// Both lists start at zero, strictly increase, pair up, and end at the
    /// running ends.
    pub closed spec fn wf(&self) -> bool {
        &&& self.source@.len() == self.rendered@.len()
        &&& self.source@.len() >= 1
        &&& self.source@[0] == 0
        &&& self.rendered@[0] == 0
        &&& strictly_increasing(self.source@)
        &&& strictly_increasing(self.rendered@)
        &&& self.source@.last() == self.source_end
        &&& self.rendered@.last() == self.rendered_end
    }

    pub closed spec fn source_view(&self) -> Seq<usize> {
        self.source@
    }

    pub closed spec fn rendered_view(&self) -> Seq<usize> {
        self.rendered@
    }

    pub closed spec fn source_end_view(&self) -> usize {
        self.source_end
    }

    pub closed spec fn rendered_end_view(&self) -> usize {
        self.rendered_end
    }

    /// A builder holding only the zero boundary.
    pub fn new() -> (r: Self)
        ensures
            r.wf(),
            r.source_view() == seq![0usize],
            r.rendered_view() == seq![0usize],
            r.source_end_view() == 0,
            r.rendered_end_view() == 0,
    {
        let mut source = Vec::new();
        source.push(0);
        let mut rendered = Vec::new();
        rendered.push(0);
        RenderedOffsetsBuilder { source, rendered, source_end: 0, rendered_end: 0 }
    }

    fn push_lengths(&mut self, source: &[usize], rendered: &[usize])
        requires
            old(self).wf(),
            source@.len() <= rendered@.len(),
            forall|i: int| 0 <= i < source@.len() ==> source@[i] > 0,
            forall|i: int| 0 <= i < rendered@.len() ==> rendered@[i] > 0,
            old(self).source_end_view() + seq_sum(source@, source@.len() as int) <= usize::MAX,
            old(self).rendered_end_view() + seq_sum(rendered@, source@.len() as int) <= usize::MAX,
        ensures
            final(self).wf(),
            final(self).source_view() == old(self).source_view() + running_ends(
                old(self).source_end_view() as int,
                source@,
                source@.len() as int,
            ),
            final(self).rendered_view() == old(self).rendered_view() + running_ends(
                old(self).rendered_end_view() as int,
                rendered@,
                source@.len() as int,
            ),
            final(self).source_end_view() == old(self).source_end_view() + seq_sum(source@, source@.len() as int),
            final(self).rendered_end_view() == old(self).rendered_end_view() + seq_sum(rendered@, source@.len() as int),
    {
        let ghost s0 = self.source@;
        let ghost r0 = self.rendered@;
        let ghost se0 = self.source_end as int;
        let ghost re0 = self.rendered_end as int;
        let mut k: usize = 0;
        while k < source.len()
            invariant
                k <= source@.len(),
                source@.len() <= rendered@.len(),
                forall|i: int| 0 <= i < source@.len() ==> source@[i] > 0,
                forall|i: int| 0 <= i < rendered@.len() ==> rendered@[i] > 0,
                se0 + seq_sum(source@, source@.len() as int) <= usize::MAX,
                re0 + seq_sum(rendered@, source@.len() as int) <= usize::MAX,
                self.wf(),
                self.source@ == s0 + running_ends(se0, source@, k as int),
                self.rendered@ == r0 + running_ends(re0, rendered@, k as int),
                self.source_end == se0 + seq_sum(source@, k as int),
                self.rendered_end == re0 + seq_sum(rendered@, k as int),
            decreases source@.len() - k,
        {
            proof {
                lemma_seq_sum_mono(source@, k + 1, source@.len() as int);
                lemma_seq_sum_mono(rendered@, k + 1, source@.len() as int);
            }
            let ghost before_s = self.source@;
            let ghost before_r = self.rendered@;
            self.source_end = self.source_end + source[k];
            self.rendered_end = self.rendered_end + rendered[k];
            self.source.push(self.source_end);
            self.rendered.push(self.rendered_end);
            proof {
                assert(self.source@ =~= s0 + running_ends(se0, source@, k + 1));
                assert(self.rendered@ =~= r0 + running_ends(re0, rendered@, k + 1));
                assert forall|i: int, j: int| 0 <= i < j < self.source@.len() implies self.source@[i] < self.source@[j] by {
                    if j == self.source@.len() - 1 {
                        assert(before_s[i] <= before_s.last());
                    }
                }
                assert forall|i: int, j: int| 0 <= i < j < self.rendered@.len() implies self.rendered@[i]
                    < self.rendered@[j] by {
                    if j == self.rendered@.len() - 1 {
                        assert(before_r[i] <= before_r.last());
                    }
                }
            }
            k += 1;
        }
    }

    /// Record the paired grapheme boundaries of one source fragment and its
    /// rendered text, which has at least as many grapheme clusters.
    pub fn push(&mut self, source: &str, rendered: &str)
        requires
            old(self).wf(),
            grapheme_lengths(source@).len() <= grapheme_lengths(rendered@).len(),
            old(self).source_end_view() + source.spec_bytes().len() <= usize::MAX,
            old(self).rendered_end_view() + rendered.spec_bytes().len() <= usize::MAX,
        ensures
            final(self).wf(),
            final(self).source_view() == old(self).source_view() + running_ends(
                old(self).source_end_view() as int,
                grapheme_lengths(source@),
                grapheme_lengths(source@).len() as int,
            ),
            final(self).rendered_view() == old(self).rendered_view() + running_ends(
                old(self).rendered_end_view() as int,
                grapheme_lengths(rendered@),
                grapheme_lengths(source@).len() as int,
            ),
    {
        let src = grapheme_byte_lengths(source);
        let rend = grapheme_byte_lengths(rendered);
        proof {
            lemma_seq_sum_mono(rend@, src@.len() as int, rend@.len() as int);
        }
        self.push_lengths(src.as_slice(), rend.as_slice());
    }

    /// [`Self::push`] where it applies: `false`, with nothing recorded, when
    /// the rendered text has fewer grapheme clusters than the source or an
    /// end would overflow.
    pub fn try_push(&mut self, source: &str, rendered: &str) -> (r: bool)
        requires
            old(self).wf(),
        ensures
            final(self).wf(),
            r == (grapheme_lengths(source@).len() <= grapheme_lengths(rendered@).len() && old(self).source_end_view()
                + source.spec_bytes().len() <= usize::MAX && old(self).rendered_end_view() + rendered.spec_bytes().len()
                <= usize::MAX),
            !r ==> *final(self) == *old(self),
            r ==> final(self).source_view() == old(self).source_view() + running_ends(
                old(self).source_end_view() as int,
                grapheme_lengths(source@),
                grapheme_lengths(source@).len() as int,
            ),
            r ==> final(self).rendered_view() == old(self).rendered_view() + running_ends(
                old(self).rendered_end_view() as int,
                grapheme_lengths(rendered@),
                grapheme_lengths(source@).len() as int,
            ),
    {
        let src = grapheme_byte_lengths(source);
        let rend = grapheme_byte_lengths(rendered);
        if src.len() > rend.len() || !fits_after(src.as_slice(), self.source_end) || !fits_after(
            rend.as_slice(),
            self.rendered_end,
        ) {
            return false;
        }
        proof {
            lemma_seq_sum_mono(rend@, src@.len() as int, rend@.len() as int);
        }
        self.push_lengths(src.as_slice(), rend.as_slice());
        true
    }

    /// The finished map: identity when every boundary pairs with itself.
    pub fn finish(self) -> (r: RenderedOffsets)
        requires
            self.wf(),
        ensures
            r.wf(),
            r is Identity <==> self.source_view() == self.rendered_view(),
            r matches RenderedOffsets::Mapped { source, rendered } ==> source@ == self.source_view()
                && rendered@ == self.rendered_view(),
    {
        let mut same = true;
        let mut i: usize = 0;
        while i < self.source.len()
            invariant
                self.wf(),
                i <= self.source@.len(),
                same == forall|j: int| 0 <= j < i ==> self.source@[j] == self.rendered@[j],
            decreases self.source@.len() - i,
        {
            if self.source[i] != self.rendered[i] {
                same = false;
            }
            i += 1;
        }
        proof {
            if same {
                assert(self.source@ =~= self.rendered@);
            }
        }
        if same {
            RenderedOffsets::Identity
        } else {
            RenderedOffsets::Mapped { source: self.source, rendered: self.rendered }
        }
    }
}

impl Default for RenderedOffsetsBuilder {
    fn default() -> (r: Self)
        ensures
            r.wf(),
            r.source_view() == seq![0usize],
            r.rendered_view() == seq![0usize],
            r.source_end_view() == 0,
            r.rendered_end_view() == 0,
    {
        RenderedOffsetsBuilder::new()
    }
}


// ----------------------------------------------------------------------
// The line buffer
// ----------------------------------------------------------------------

/// One link of a buffered line: its byte range and what it does.
#[derive(Debug, Clone)]
pub struct LinkSpan<A> {
    pub begin_pos: usize,
    pub end_pos: usize,
    pub link: A,
}

/// One buffered line: its styled payload, its text, and its links.
#[derive(Debug, Clone)]
pub struct BufferLine<L, A> {
    pub line: L,
    pub text: String,
    pub links: Vec<LinkSpan<A>>,
}

/// Whether a line carries links.
pub open spec fn has_links_spec<L, A>(line: BufferLine<L, A>) -> bool {
    line.links@.len() > 0
}

/// The number of the first `n` lines that carry links.
pub open spec fn linked_count<L, A>(lines: Seq<BufferLine<L, A>>, n: int) -> nat
    decreases n,
{
    if n <= 0 {
        0
    } else if has_links_spec(lines[n - 1]) {
        linked_count(lines, n - 1) + 1
    } else {
        linked_count(lines, n - 1)
    }
}

proof fn lemma_linked_count_bound<L, A>(lines: Seq<BufferLine<L, A>>, n: int)
    requires
        0 <= n <= lines.len(),
    ensures
        linked_count(lines, n) <= n,
        linked_count(lines, n) > 0 <==> exists|i: int| 0 <= i < n && has_links_spec(#[trigger] lines[i]),
    decreases n,
{
    if n > 0 {
        lemma_linked_count_bound(lines, n - 1);
        if has_links_spec(lines[n - 1]) {
            assert(0 <= n - 1 < n && has_links_spec(lines[n - 1]));
        }
        if exists|i: int| 0 <= i < n && has_links_spec(#[trigger] lines[i]) {
            let i = choose|i: int| 0 <= i < n && has_links_spec(#[trigger] lines[i]);
            if i < n - 1 {
                assert(0 <= i < n - 1 && has_links_spec(lines[i]));
            }
        }
    }
}

proof fn lemma_linked_count_push<L, A>(lines: Seq<BufferLine<L, A>>, x: BufferLine<L, A>)
    ensures
        linked_count(lines.push(x), lines.len() + 1int) == linked_count(lines, lines.len() as int) + (if has_links_spec(x) {
            1nat
        } else {
            0nat
        }),
{
    lemma_linked_count_prefix(lines.push(x), lines, lines.len() as int);
}

proof fn lemma_linked_count_prefix<L, A>(a: Seq<BufferLine<L, A>>, b: Seq<BufferLine<L, A>>, n: int)
    requires
        0 <= n <= a.len(),
        n <= b.len(),
        forall|i: int| 0 <= i < n ==> a[i] == b[i],
    ensures
        linked_count(a, n) == linked_count(b, n),
    decreases n,
{
    if n > 0 {
        lemma_linked_count_prefix(a, b, n - 1);
    }
}

proof fn lemma_linked_count_drop_first<L, A>(lines: Seq<BufferLine<L, A>>)
    requires
        lines.len() > 0,
    ensures
        linked_count(lines, lines.len() as int) == linked_count(lines.drop_first(), lines.len() - 1) + (if has_links_spec(
            lines[0],
        ) {
            1nat
        } else {
            0nat
        }),
    decreases lines.len(),
{
    if lines.len() > 1 {
        lemma_linked_count_drop_first(lines.drop_last());
        assert(lines.drop_last().drop_first() =~= lines.drop_first().drop_last());
        lemma_linked_count_prefix(lines.drop_last(), lines, lines.len() - 1);
        lemma_linked_count_prefix(lines.drop_first().drop_last(), lines.drop_first(), lines.len() - 2);
        assert(lines.drop_first()[lines.len() - 2] == lines[lines.len() - 1]);
    } else {
        assert(lines.drop_first().len() == 0);
        assert(linked_count(lines, 0) == 0);
        assert(linked_count(lines.drop_first(), 0) == 0);
    }
}

/// The bounded, numbered scrollback of one terminal pane. Line numbers are
/// absolute: they keep increasing across evictions and clears. `I` is the
/// clock's instant type.
#[derive(Debug)]
pub struct TerminalBuffer<L, A, I> {
    lines: VecDeque<BufferLine<L, A>>,
    max_lines: usize,
    line_terminated: bool,
    last_line_number: usize,
    span_generation: u64,
    lines_with_links: usize,
    link_navigation_reset_epoch: u64,
    visibility_input_epoch: u64,
    visibility_prompt_epoch: u64,
    visibility_output_epoch: u64,
    visibility_last_output: Option<I>,
}

impl<L, A, I> TerminalBuffer<L, A, I> {
    /// The held lines, oldest first.
    pub closed spec fn lines_view(&self) -> Seq<BufferLine<L, A>> {
        self.lines@
    }

    pub closed spec fn max_lines_view(&self) -> usize {
        self.max_lines
    }

    /// Whether the newest line is closed (the next output starts a line).
    pub closed spec fn terminated(&self) -> bool {
        self.line_terminated
    }

    /// The absolute number of the newest line.
    pub closed spec fn last_number(&self) -> usize {
        self.last_line_number
    }

    pub closed spec fn generation(&self) -> u64 {
        self.span_generation
    }

    pub closed spec fn epochs(&self) -> (u64, u64, u64, u64) {
        (
            self.link_navigation_reset_epoch,
            self.visibility_input_epoch,
            self.visibility_prompt_epoch,
            self.visibility_output_epoch,
        )
    }

    pub closed spec fn last_output(&self) -> Option<I> {
        self.visibility_last_output
    }

    /// The buffer invariants: a positive limit the lines respect, at most
    /// as many lines as numbers handed out, and an exact count of the
    /// lines that carry links.
    pub closed spec fn wf(&self) -> bool {
        &&& self.max_lines > 0
        &&& self.lines@.len() <= self.max_lines
        &&& self.lines@.len() <= self.last_line_number
        &&& self.lines_with_links == linked_count(self.lines@, self.lines@.len() as int)
    }

    /// A buffer holding no line, limited to `max_lines` lines, whose spans
    /// are baked with the styles of `generation`.
    pub fn new_with_max_lines(max_lines: usize, generation: u64) -> (r: Self)
        requires
            max_lines > 0,
        ensures
            r.wf(),
            r.lines_view().len() == 0,
            r.max_lines_view() == max_lines,
            !r.terminated(),
            r.last_number() == 0,
            r.generation() == generation,
            r.epochs() == (0u64, 0u64, 0u64, 0u64),
            r.last_output() is None,
    {
        TerminalBuffer {
            lines: VecDeque::new(),
            max_lines,
            line_terminated: false,
            last_line_number: 0,
            span_generation: generation,
            lines_with_links: 0,
            link_navigation_reset_epoch: 0,
            visibility_input_epoch: 0,
            visibility_prompt_epoch: 0,
            visibility_output_epoch: 0,
            visibility_last_output: None,
        }
    }

    /// A buffer with the default limit of 10,000 lines.
    pub fn new(generation: u64) -> (r: Self)
        ensures
            r.wf(),
            r.lines_view().len() == 0,
            r.max_lines_view() == 10_000,
            !r.terminated(),
            r.last_number() == 0,
            r.generation() == generation,
            r.epochs() == (0u64, 0u64, 0u64, 0u64),
            r.last_output() is None,
    {
        Self::new_with_max_lines(10_000, generation)
    }

    pub fn len(&self) -> (r: usize)
        ensures
            r == self.lines_view().len(),
    {
        self.lines.len()
    }

    /// Every held line has a number: there are no more lines than numbers
    /// handed out.
    pub proof fn lemma_lines_are_numbered(&self)
        requires
            self.wf(),
        ensures
            self.lines_view().len() <= self.last_number(),
    {
    }

    pub fn is_empty(&self) -> (r: bool)
        ensures
            r == (self.lines_view().len() == 0),
    {
        self.lines.len() == 0
    }

    pub fn last_line_number(&self) -> (r: usize)
        ensures
            r == self.last_number(),
    {
        self.last_line_number
    }

    pub fn max_lines(&self) -> (r: usize)
        ensures
            r == self.max_lines_view(),
    {
        self.max_lines
    }

    pub fn line_terminated(&self) -> (r: bool)
        ensures
            r == self.terminated(),
    {
        self.line_terminated
    }

    /// Whether any held line carries a link.
    pub fn has_links(&self) -> (r: bool)
        requires
            self.wf(),
        ensures
            r == exists|i: int| 0 <= i < self.lines_view().len() && has_links_spec(#[trigger] self.lines_view()[i]),
    {
        proof {
            lemma_linked_count_bound(self.lines@, self.lines@.len() as int);
            assert(self.lines_view() == self.lines@);
        }
        self.lines_with_links > 0
    }

    pub fn note_visibility_input(&mut self)
        ensures
            final(self).epochs() == (old(self).epochs().0, old(self).epochs().1.wrapping_add(1), old(self).epochs().2, old(
                self,
            ).epochs().3),
            final(self).lines_view() == old(self).lines_view(),
            final(self).max_lines_view() == old(self).max_lines_view(),
            final(self).last_number() == old(self).last_number(),
            final(self).terminated() == old(self).terminated(),
            final(self).generation() == old(self).generation(),
            final(self).last_output() == old(self).last_output(),
            final(self).wf() == old(self).wf(),
    {
        self.visibility_input_epoch = self.visibility_input_epoch.wrapping_add(1);
    }

    /// Keyboard focus returned to the pane's command editor: bump the epoch
    /// that drops link-navigation focus.
    pub fn note_command_input_focus(&mut self)
        ensures
            final(self).epochs() == (old(self).epochs().0.wrapping_add(1), old(self).epochs().1, old(self).epochs().2, old(
                self,
            ).epochs().3),
            final(self).lines_view() == old(self).lines_view(),
            final(self).max_lines_view() == old(self).max_lines_view(),
            final(self).last_number() == old(self).last_number(),
            final(self).terminated() == old(self).terminated(),
            final(self).generation() == old(self).generation(),
            final(self).last_output() == old(self).last_output(),
            final(self).wf() == old(self).wf(),
    {
        self.link_navigation_reset_epoch = self.link_navigation_reset_epoch.wrapping_add(1);
    }

    pub fn link_navigation_reset_epoch(&self) -> (r: u64)
        ensures
            r == self.epochs().0,
    {
        self.link_navigation_reset_epoch
    }

    /// The visibility epochs of input, prompts and output, and when output
    /// last arrived.
    pub fn visibility_epochs(&self) -> (r: (u64, u64, u64, Option<I>))
        where I: Copy
        ensures
            r == (self.epochs().1, self.epochs().2, self.epochs().3, self.last_output()),
    {
        (self.visibility_input_epoch, self.visibility_prompt_epoch, self.visibility_output_epoch, self.visibility_last_output)
    }

    pub fn note_visibility_prompt(&mut self)
        ensures
            final(self).epochs() == (old(self).epochs().0, old(self).epochs().1, old(self).epochs().2.wrapping_add(1), old(
                self,
            ).epochs().3),
            final(self).lines_view() == old(self).lines_view(),
            final(self).max_lines_view() == old(self).max_lines_view(),
            final(self).last_number() == old(self).last_number(),
            final(self).terminated() == old(self).terminated(),
            final(self).generation() == old(self).generation(),
            final(self).last_output() == old(self).last_output(),
            final(self).wf() == old(self).wf(),
    {
        self.visibility_prompt_epoch = self.visibility_prompt_epoch.wrapping_add(1);
    }

    /// Output arrived at `now`.
    pub fn note_visibility_output(&mut self, now: I)
        ensures
            final(self).epochs() == (old(self).epochs().0, old(self).epochs().1, old(self).epochs().2, old(
                self,
            ).epochs().3.wrapping_add(1)),
            final(self).last_output() == Some(now),
            final(self).lines_view() == old(self).lines_view(),
            final(self).max_lines_view() == old(self).max_lines_view(),
            final(self).last_number() == old(self).last_number(),
            final(self).terminated() == old(self).terminated(),
            final(self).generation() == old(self).generation(),
            final(self).wf() == old(self).wf(),
    {
        self.visibility_output_epoch = self.visibility_output_epoch.wrapping_add(1);
        self.visibility_last_output = Some(now);
    }

    pub fn commit_current_line(&mut self)
        ensures
            final(self).terminated(),
            final(self).lines_view() == old(self).lines_view(),
            final(self).last_number() == old(self).last_number(),
            final(self).max_lines_view() == old(self).max_lines_view(),
            final(self).generation() == old(self).generation(),
            final(self).epochs() == old(self).epochs(),
            final(self).last_output() == old(self).last_output(),
            final(self).wf() == old(self).wf(),
    {
        self.line_terminated = true;
    }

    /// Pop the oldest line, keeping the link count straight.
    fn evict_front(&mut self)
        requires
            old(self).lines@.len() > 0,
            old(self).lines_with_links == linked_count(old(self).lines@, old(self).lines@.len() as int),
        ensures
            final(self).lines@ == old(self).lines@.drop_first(),
            final(self).lines_with_links == linked_count(final(self).lines@, final(self).lines@.len() as int),
            final(self).max_lines == old(self).max_lines,
            final(self).last_line_number == old(self).last_line_number,
            final(self).line_terminated == old(self).line_terminated,
            final(self).span_generation == old(self).span_generation,
            final(self).epochs() == old(self).epochs(),
            final(self).visibility_last_output == old(self).visibility_last_output,
    {
        proof {
            lemma_linked_count_drop_first(self.lines@);
        }
        let line = self.lines.pop_front();
        if let Some(line) = line {
            if line.links.len() > 0 {
                self.lines_with_links = self.lines_with_links - 1;
            }
        }
    }

    /// Change the scrollback limit, trimming the oldest lines when the
    /// buffer already exceeds it.
    pub fn set_max_lines(&mut self, max_lines: usize)
        requires
            old(self).wf(),
            max_lines > 0,
        ensures
            final(self).generation() == old(self).generation(),
            final(self).epochs() == old(self).epochs(),
            final(self).last_output() == old(self).last_output(),
            final(self).wf(),
            final(self).max_lines_view() == max_lines,
            final(self).lines_view() == if old(self).lines_view().len() > max_lines {
                old(self).lines_view().skip(old(self).lines_view().len() - max_lines)
            } else {
                old(self).lines_view()
            },
            final(self).last_number() == old(self).last_number(),
            final(self).terminated() == old(self).terminated(),
    {
        let ghost l0 = self.lines@;
        self.max_lines = max_lines;
        while self.lines.len() > max_lines
            invariant
                self.max_lines == max_lines,
                max_lines > 0,
                self.lines@.len() <= self.last_line_number,
                self.lines_with_links == linked_count(self.lines@, self.lines@.len() as int),
                l0.len() >= self.lines@.len(),
                self.lines@.len() == l0.len() || self.lines@.len() >= max_lines,
                self.lines@ == l0.skip(l0.len() - self.lines@.len()),
                self.last_line_number == old(self).last_line_number,
                self.line_terminated == old(self).line_terminated,
                self.span_generation == old(self).span_generation,
                self.epochs() == old(self).epochs(),
                self.visibility_last_output == old(self).visibility_last_output,
            decreases self.lines@.len(),
        {
            self.evict_front();
            proof {
                assert(self.lines@ =~= l0.skip(l0.len() - self.lines@.len()));
            }
        }
        proof {
            if self.lines@.len() == l0.len() {
                assert(l0.skip(0) =~= l0);
            }
        }
    }

    /// Add a closed line; the oldest line goes when the buffer is full.
    pub fn push_line(&mut self, line: BufferLine<L, A>)
        requires
            old(self).wf(),
            old(self).last_number() < usize::MAX,
        ensures
            final(self).generation() == old(self).generation(),
            final(self).epochs() == old(self).epochs(),
            final(self).last_output() == old(self).last_output(),
            final(self).wf(),
            final(self).lines_view() == (if old(self).lines_view().len() >= old(self).max_lines_view() {
                old(self).lines_view().drop_first()
            } else {
                old(self).lines_view()
            }).push(line),
            final(self).last_number() == old(self).last_number() + 1,
            final(self).terminated(),
            final(self).max_lines_view() == old(self).max_lines_view(),
    {
        self.last_line_number = self.last_line_number + 1;
        if self.lines.len() >= self.max_lines {
            self.evict_front();
        }
        let linked = line.links.len() > 0;
        let ghost before = self.lines@;
        proof {
            lemma_linked_count_bound(before, before.len() as int);
        }
        self.lines.push_back(line);
        proof {
            lemma_linked_count_push(before, line);
        }
        if linked {
            self.lines_with_links = self.lines_with_links + 1;
        }
        self.line_terminated = true;
    }

    /// Feed one output fragment: after a closed line it opens a new line
    /// (the oldest goes when the buffer is full); otherwise it extends the
    /// open line, which becomes what `join` makes of it and the fragment
    /// (or the fragment itself on an empty buffer).
    pub fn extend_line<F: Fn(BufferLine<L, A>, BufferLine<L, A>) -> BufferLine<L, A>>(
        &mut self,
        line: BufferLine<L, A>,
        join: F,
    )
        requires
            old(self).wf(),
            old(self).last_number() < usize::MAX,
            forall|a: BufferLine<L, A>, b: BufferLine<L, A>| #[trigger] join.requires((a, b)),
        ensures
            final(self).generation() == old(self).generation(),
            final(self).epochs() == old(self).epochs(),
            final(self).last_output() == old(self).last_output(),
            final(self).wf(),
            final(self).max_lines_view() == old(self).max_lines_view(),
            !final(self).terminated(),
            old(self).terminated() ==> {
                &&& final(self).lines_view() == (if old(self).lines_view().len() > old(self).max_lines_view() - 1 {
                    old(self).lines_view().drop_first()
                } else {
                    old(self).lines_view()
                }).push(line)
                &&& final(self).last_number() == old(self).last_number() + 1
            },
            !old(self).terminated() && old(self).lines_view().len() == 0 ==> {
                &&& final(self).lines_view() == seq![line]
                &&& final(self).last_number() == old(self).last_number() + 1
            },
            !old(self).terminated() && old(self).lines_view().len() > 0 ==> {
                &&& final(self).lines_view().drop_last() == old(self).lines_view().drop_last()
                &&& final(self).lines_view().len() == old(self).lines_view().len()
                &&& join.ensures((old(self).lines_view().last(), line), final(self).lines_view().last())
                &&& final(self).last_number() == old(self).last_number()
            },
    {
        if self.line_terminated {
            self.last_line_number = self.last_line_number + 1;
            self.line_terminated = false;
            while self.lines.len() > self.max_lines - 1
                invariant
                    self.max_lines == old(self).max_lines,
                    self.max_lines > 0,
                    self.lines@.len() <= self.max_lines,
                    self.lines@.len() <= self.last_line_number,
                    self.lines_with_links == linked_count(self.lines@, self.lines@.len() as int),
                    old(self).lines@.len() <= old(self).max_lines,
                    self.lines@ == if old(self).lines@.len() > old(self).max_lines - 1 && self.lines@.len()
                        < old(self).lines@.len() {
                        old(self).lines@.drop_first()
                    } else {
                        old(self).lines@
                    },
                    self.last_line_number == old(self).last_line_number + 1,
                    !self.line_terminated,
                    self.span_generation == old(self).span_generation,
                    self.epochs() == old(self).epochs(),
                    self.visibility_last_output == old(self).visibility_last_output,
                decreases self.lines@.len(),
            {
                self.evict_front();
            }
            let linked = line.links.len() > 0;
            let ghost before = self.lines@;
            proof {
                lemma_linked_count_bound(before, before.len() as int);
            }
            self.lines.push_back(line);
            proof {
                lemma_linked_count_push(before, line);
            }
            if linked {
                self.lines_with_links = self.lines_with_links + 1;
            }
        } else {
            let ghost before = self.lines@;
            match self.lines.pop_back() {
                Some(open) => {
                    proof {
                        lemma_linked_count_push(before.drop_last(), open);
                        assert(before.drop_last().push(open) =~= before);
                    }
                    if open.links.len() > 0 {
                        self.lines_with_links = self.lines_with_links - 1;
                    }
                    let joined = join(open, line);
                    let linked = joined.links.len() > 0;
                    let ghost mid = self.lines@;
                    proof {
                        lemma_linked_count_bound(mid, mid.len() as int);
                    }
                    self.lines.push_back(joined);
                    proof {
                        lemma_linked_count_push(mid, joined);
                    }
                    if linked {
                        self.lines_with_links = self.lines_with_links + 1;
                    }
                },
                None => {
                    self.last_line_number = self.last_line_number + 1;
                    let linked = line.links.len() > 0;
                    let ghost mid = self.lines@;
                    proof {
                        lemma_linked_count_bound(mid, mid.len() as int);
                    }
                    self.lines.push_back(line);
                    proof {
                        lemma_linked_count_push(mid, line);
                    }
                    if linked {
                        self.lines_with_links = self.lines_with_links + 1;
                    }
                    proof {
                        assert(self.lines@ =~= seq![line]);
                    }
                },
            }
        }
    }

    /// Drop the unterminated tail line: its text is being routed elsewhere.
    /// The line number rolls back so the next line takes the retracted
    /// one's number. A no-op when no line is open.
    pub fn retract_open_line(&mut self)
        requires
            old(self).wf(),
        ensures
            final(self).generation() == old(self).generation(),
            final(self).epochs() == old(self).epochs(),
            final(self).last_output() == old(self).last_output(),
            final(self).wf(),
            final(self).max_lines_view() == old(self).max_lines_view(),
            if !old(self).terminated() && old(self).lines_view().len() > 0 {
                &&& final(self).lines_view() == old(self).lines_view().drop_last()
                &&& final(self).last_number() == old(self).last_number() - 1
                &&& final(self).terminated()
            } else {
                &&& final(self).lines_view() == old(self).lines_view()
                &&& final(self).last_number() == old(self).last_number()
                &&& final(self).terminated() == old(self).terminated()
            },
    {
        if !self.line_terminated {
            let ghost before = self.lines@;
            if let Some(line) = self.lines.pop_back() {
                proof {
                    lemma_linked_count_push(before.drop_last(), line);
                    assert(before.drop_last().push(line) =~= before);
                }
                if line.links.len() > 0 {
                    self.lines_with_links = self.lines_with_links - 1;
                }
                self.last_line_number = self.last_line_number - 1;
                self.line_terminated = true;
            }
        }
    }

    /// Clear the scrollback, keeping the line numbering.
    pub fn clear_lines(&mut self)
        requires
            old(self).wf(),
        ensures
            final(self).generation() == old(self).generation(),
            final(self).epochs() == old(self).epochs(),
            final(self).last_output() == old(self).last_output(),
            final(self).wf(),
            final(self).lines_view().len() == 0,
            final(self).last_number() == old(self).last_number(),
            final(self).terminated(),
            final(self).max_lines_view() == old(self).max_lines_view(),
    {
        self.lines.clear();
        self.lines_with_links = 0;
        self.line_terminated = true;
    }
}


/// The first link of `links` whose byte range holds `column`, among those
/// from `from` on.
pub open spec fn first_link_at<A>(links: Seq<LinkSpan<A>>, column: usize, from: int) -> Option<int>
    decreases links.len() - from,
{
    if from < 0 || from >= links.len() {
        None
    } else if links[from].begin_pos <= column && column < links[from].end_pos {
        Some(from)
    } else {
        first_link_at(links, column, from + 1)
    }
}

/// The (line index, link index) of every link of the first `n` lines, line
/// by line, each line's links in order.
pub open spec fn link_positions<L, A>(lines: Seq<BufferLine<L, A>>, n: int) -> Seq<(int, int)>
    decreases n,
{
    if n <= 0 {
        Seq::empty()
    } else {
        link_positions(lines, n - 1) + Seq::new(lines[n - 1].links@.len(), |j: int| (n - 1, j))
    }
}

impl<L, A, I> TerminalBuffer<L, A, I> {
    /// The index of absolute line `line_number` among the held lines.
    pub open spec fn index_of_line(&self, line_number: usize) -> Option<int> {
        let offset = self.last_number() - self.lines_view().len();
        if line_number <= offset || line_number > self.last_number() {
            None
        } else {
            Some(line_number - offset - 1)
        }
    }

    /// The held line numbered `line_number`.
    pub fn line(&self, line_number: usize) -> (r: Option<&BufferLine<L, A>>)
        requires
            self.wf(),
        ensures
            match self.index_of_line(line_number) {
                Some(i) => r == Some(&self.lines_view()[i]),
                None => r is None,
            },
    {
        let offset = self.last_line_number - self.lines.len();
        if line_number <= offset || line_number > self.last_line_number {
            return None;
        }
        Some(&self.lines[line_number - offset - 1])
    }

    /// The link under byte `column` of absolute line `line_number`, if any.
    pub fn link_span_at(&self, line_number: usize, column: usize) -> (r: Option<&LinkSpan<A>>)
        requires
            self.wf(),
        ensures
            match self.index_of_line(line_number) {
                Some(i) => match first_link_at(self.lines_view()[i].links@, column, 0) {
                    Some(k) => r == Some(&self.lines_view()[i].links@[k]),
                    None => r is None,
                },
                None => r is None,
            },
    {
        let line = match self.line(line_number) {
            Some(line) => line,
            None => return None,
        };
        let mut k: usize = 0;
        while k < line.links.len()
            invariant
                k <= line.links@.len(),
                self.index_of_line(line_number) is Some,
                *line == self.lines_view()[self.index_of_line(line_number)->0],
                first_link_at(line.links@, column, 0) == first_link_at(line.links@, column, k as int),
            decreases line.links@.len() - k,
        {
            let link = &line.links[k];
            if link.begin_pos <= column && column < link.end_pos {
                return Some(link);
            }
            k += 1;
        }
        None
    }

    /// Every link held, oldest line first, with its line's absolute number.
    pub fn all_link_spans(&self) -> (r: Vec<(usize, &LinkSpan<A>)>)
        requires
            self.wf(),
        ensures
            ({
                let pos = link_positions(self.lines_view(), self.lines_view().len() as int);
                let offset = self.last_number() - self.lines_view().len();
                &&& r@.len() == pos.len()
                &&& forall|k: int|
                    0 <= k < r@.len() ==> #[trigger] r@[k] == (
                        (offset + pos[k].0 + 1) as usize,
                        &self.lines_view()[pos[k].0].links@[pos[k].1],
                    )
            }),
    {
        let len = self.lines.len();
        let offset = self.last_line_number - len;
        let mut out: Vec<(usize, &LinkSpan<A>)> = Vec::new();
        let mut i: usize = 0;
        while i < len
            invariant
                len == self.lines@.len(),
                offset + len == self.last_line_number,
                i <= len,
                out@.len() == link_positions(self.lines@, i as int).len(),
                forall|k: int|
                    0 <= k < out@.len() ==> #[trigger] out@[k] == (
                        (offset + link_positions(self.lines@, i as int)[k].0 + 1) as usize,
                        &self.lines@[link_positions(self.lines@, i as int)[k].0].links@[link_positions(
                            self.lines@,
                            i as int,
                        )[k].1],
                    ),
            decreases len - i,
        {
            let line = &self.lines[i];
            let ghost before = link_positions(self.lines@, i as int);
            let mut j: usize = 0;
            while j < line.links.len()
                invariant
                    len == self.lines@.len(),
                    offset + len == self.last_line_number,
                    i < len,
                    *line == self.lines@[i as int],
                    j <= line.links@.len(),
                    out@.len() == before.len() + j,
                    forall|k: int|
                        0 <= k < before.len() ==> #[trigger] out@[k] == (
                            (offset + before[k].0 + 1) as usize,
                            &self.lines@[before[k].0].links@[before[k].1],
                        ),
                    forall|q: int| 0 <= q < j ==> #[trigger] out@[before.len() + q] == ((offset + i + 1) as usize, &line.links@[q]),
                decreases line.links@.len() - j,
            {
                out.push((offset + i + 1, &line.links[j]));
                j += 1;
            }
            proof {
                let after = link_positions(self.lines@, i + 1);
                assert(after == before + Seq::new(line.links@.len(), |q: int| (i as int, q)));
                assert forall|k: int| 0 <= k < out@.len() implies #[trigger] out@[k] == (
                    (offset + after[k].0 + 1) as usize,
                    &self.lines@[after[k].0].links@[after[k].1],
                ) by {
                    if k >= before.len() {
                        let q = k - before.len();
                        assert(out@[before.len() + q] == ((offset + i + 1) as usize, &line.links@[q]));
                    }
                }
            }
            i += 1;
        }
        out
    }
}


/// The index of the character boundary `spec_clamp_to_char_boundary` picks.
pub open spec fn clamp_index(text: Seq<char>, col: usize) -> int {
    if col >= utf8_len(text, text.len() as int) {
        text.len() as int
    } else {
        boundary_index(text, col, text.len() as int)
    }
}

/// The character index of the boundary [`clamp_to_char_boundary`] picks.
fn clamp_to_char_index(text: &str, col: usize) -> (r: usize)
    requires
        utf8_len(text@, text@.len() as int) <= usize::MAX,
    ensures
        r == clamp_index(text@, col),
        r <= text@.len(),
        utf8_len(text@, r as int) == spec_clamp_to_char_boundary(text@, col),
{
    let bounds = char_boundaries(text);
    let n = text.unicode_len();
    proof {
        lemma_boundary_index(text@, col, n as int);
    }
    if col >= bounds[n] {
        return n;
    }
    let mut k: usize = n;
    while k > 0 && bounds[k] > col
        invariant
            k <= n,
            n == text@.len(),
            bounds@.len() == n + 1,
            forall|j: int| 0 <= j <= n ==> bounds@[j] == utf8_len(text@, j),
            boundary_index(text@, col, n as int) == boundary_index(text@, col, k as int),
        decreases k,
    {
        k -= 1;
    }
    k
}

/// The part of line `i`'s text a selection from `(from_line, from_col)` to
/// `(to_line, to_col)` covers, by character range.
pub open spec fn selected_piece<L, A>(
    lines: Seq<BufferLine<L, A>>,
    i: int,
    start_index: int,
    end_index: int,
    from_col: Option<usize>,
    to_col: Option<usize>,
) -> Seq<char> {
    let text = lines[i].text@;
    let start_col: usize = if i == start_index && from_col is Some {
        from_col->0
    } else {
        0
    };
    let end_col: usize = if i == end_index && to_col is Some {
        to_col->0
    } else {
        utf8_len(text, text.len() as int) as usize
    };
    let s = clamp_index(text, start_col);
    let e = clamp_index(text, end_col);
    text.subrange(s, if e < s { s } else { e })
}

/// The pieces of lines `start_index..=k` joined with newlines.
pub open spec fn joined_pieces<L, A>(
    lines: Seq<BufferLine<L, A>>,
    start_index: int,
    end_index: int,
    from_col: Option<usize>,
    to_col: Option<usize>,
    k: int,
) -> Seq<char>
    decreases k - start_index,
{
    if k <= start_index {
        selected_piece(lines, start_index, start_index, end_index, from_col, to_col)
    } else {
        joined_pieces(lines, start_index, end_index, from_col, to_col, k - 1) + seq!['\n'] + selected_piece(
            lines,
            k,
            start_index,
            end_index,
            from_col,
            to_col,
        )
    }
}

/// The text a selection between two absolute `(line, byte column)`
/// positions covers among the held lines: lines outside the live range are
/// clamped away, a clamped-in edge starts or ends whole, and columns snap
/// to character boundaries.
pub open spec fn spec_selected_text<L, A>(
    lines: Seq<BufferLine<L, A>>,
    last_number: usize,
    from: (usize, usize),
    to: (usize, usize),
) -> Seq<char> {
    let offset = last_number - lines.len();
    if lines.len() == 0 || to.0 <= offset || from.0 > last_number {
        Seq::empty()
    } else {
        let first_line = if from.0 > offset + 1 {
            from.0 as int
        } else {
            offset + 1
        };
        let last_line = if to.0 < last_number {
            to.0 as int
        } else {
            last_number as int
        };
        let start_index = first_line - offset - 1;
        let end_index = last_line - offset - 1;
        if start_index > end_index {
            Seq::empty()
        } else {
            joined_pieces(
                lines,
                start_index,
                end_index,
                if first_line == from.0 {
                    Some(from.1)
                } else {
                    None
                },
                if last_line == to.0 {
                    Some(to.1)
                } else {
                    None
                },
                end_index,
            )
        }
    }
}

impl<L, A, I> TerminalBuffer<L, A, I> {
    /// Apply an edit to absolute line `line_number`; lines no longer held
    /// (scrolled out or cleared) are left alone.
    pub fn perform_line_operation<F: Fn(BufferLine<L, A>) -> BufferLine<L, A>>(&mut self, line_number: usize, edit: F)
        requires
            old(self).wf(),
            forall|x: BufferLine<L, A>| #[trigger] edit.requires((x,)),
        ensures
            final(self).generation() == old(self).generation(),
            final(self).epochs() == old(self).epochs(),
            final(self).last_output() == old(self).last_output(),
            final(self).wf(),
            final(self).last_number() == old(self).last_number(),
            final(self).terminated() == old(self).terminated(),
            final(self).max_lines_view() == old(self).max_lines_view(),
            final(self).lines_view().len() == old(self).lines_view().len(),
            match old(self).index_of_line(line_number) {
                Some(i) => {
                    &&& edit.ensures((old(self).lines_view()[i],), final(self).lines_view()[i])
                    &&& forall|j: int|
                        0 <= j < old(self).lines_view().len() && j != i ==> #[trigger] final(self).lines_view()[j]
                            == old(self).lines_view()[j]
                },
                None => final(self).lines_view() == old(self).lines_view(),
            },
    {
        let offset = self.last_line_number - self.lines.len();
        if line_number <= offset || line_number > self.last_line_number {
            return;
        }
        let index = line_number - offset - 1;
        let ghost before = self.lines@;
        let taken = self.lines.remove(index);
        if let Some(line) = taken {
            let had_links = line.links.len() > 0;
            let edited = edit(line);
            let linked = edited.links.len() > 0;
            self.lines.insert(index, edited);
            proof {
                assert(self.lines@ =~= before.update(index as int, edited));
                lemma_linked_count_update(before, index as int, edited);
            }
            if had_links {
                self.lines_with_links = self.lines_with_links - 1;
            }
            if linked {
                self.lines_with_links = self.lines_with_links + 1;
            }
        }
    }
}

proof fn lemma_linked_count_update<L, A>(lines: Seq<BufferLine<L, A>>, i: int, x: BufferLine<L, A>)
    requires
        0 <= i < lines.len(),
    ensures
        linked_count(lines.update(i, x), lines.len() as int) + (if has_links_spec(lines[i]) {
            1nat
        } else {
            0nat
        }) == linked_count(lines, lines.len() as int) + (if has_links_spec(x) {
            1nat
        } else {
            0nat
        }),
        linked_count(lines, lines.len() as int) >= (if has_links_spec(lines[i]) {
            1nat
        } else {
            0nat
        }),
        linked_count(lines.update(i, x), lines.len() as int) <= lines.len(),
    decreases lines.len(),
{
    lemma_linked_count_bound(lines.update(i, x), lines.len() as int);
    if i < lines.len() - 1 {
        let l2 = lines.drop_last();
        lemma_linked_count_update(l2, i, x);
        lemma_linked_count_prefix(lines, l2, lines.len() - 1);
        lemma_linked_count_prefix(lines.update(i, x), l2.update(i, x), lines.len() - 1);
    } else {
        lemma_linked_count_prefix(lines, lines.update(i, x), lines.len() - 1);
    }
}


/// Whether every held line's text has a UTF-8 length that fits in `usize`.
pub open spec fn texts_fit<L, A>(lines: Seq<BufferLine<L, A>>) -> bool {
    forall|i: int| 0 <= i < lines.len() ==> utf8_len(#[trigger] lines[i].text@, lines[i].text@.len() as int) <= usize::MAX
}

impl<L, A, I> TerminalBuffer<L, A, I> {
    /// The text a selection between two absolute `(line, byte column)`
    /// positions covers; `None` selects nothing.
    pub fn selected_text(&self, selection: Option<((usize, usize), (usize, usize))>) -> (r: String)
        requires
            self.wf(),
            texts_fit(self.lines_view()),
        ensures
            r@ == match selection {
                Some((from, to)) => spec_selected_text(self.lines_view(), self.last_number(), from, to),
                None => Seq::empty(),
            },
    {
        let (from, to) = match selection {
            Some(pair) => pair,
            None => return String::new(),
        };
        let len = self.lines.len();
        let offset = self.last_line_number - len;
        if len == 0 || to.0 <= offset || from.0 > self.last_line_number {
            return String::new();
        }
        let first_line = if from.0 > offset + 1 { from.0 } else { offset + 1 };
        let last_line = if to.0 < self.last_line_number { to.0 } else { self.last_line_number };
        if first_line > last_line {
            return String::new();
        }
        let start_index = first_line - offset - 1;
        let end_index = last_line - offset - 1;
        let from_col = if first_line == from.0 { Some(from.1) } else { None };
        let to_col = if last_line == to.0 { Some(to.1) } else { None };
        let ghost lines = self.lines@;
        let mut out = String::new();
        let mut i: usize = start_index;
        while i <= end_index
            invariant
                lines == self.lines@,
                self.wf(),
                texts_fit(lines),
                start_index <= i,
                end_index < lines.len(),
                i <= end_index + 1,
                i > start_index ==> out@ == joined_pieces(lines, start_index as int, end_index as int, from_col, to_col, i - 1),
                i == start_index ==> out@.len() == 0,
            decreases end_index + 1 - i,
        {
            if i > start_index {
                proof {
                    reveal_strlit("\n");
                }
                out.append("\n");
            }
            let text = self.lines[i].text.as_str();
            let start_col: usize = if i == start_index {
                match from_col {
                    Some(c) => c,
                    None => 0,
                }
            } else {
                0
            };
            proof {
                assert(utf8_len(lines[i as int].text@, lines[i as int].text@.len() as int) <= usize::MAX);
            }
            let end_col: usize = if i == end_index {
                match to_col {
                    Some(c) => c,
                    None => byte_len(text),
                }
            } else {
                byte_len(text)
            };
            let s = clamp_to_char_index(text, start_col);
            let e0 = clamp_to_char_index(text, end_col);
            let e = if e0 < s { s } else { e0 };
            let piece = text.substring_char(s, e);
            let ghost before = out@;
            out.append(piece);
            proof {
                assert(piece@ == selected_piece(lines, i as int, start_index as int, end_index as int, from_col, to_col));
                if i > start_index {
                    assert(out@ =~= joined_pieces(lines, start_index as int, end_index as int, from_col, to_col, i as int));
                } else {
                    assert(out@ =~= joined_pieces(lines, start_index as int, end_index as int, from_col, to_col, i as int));
                }
            }
            i += 1;
        }
        out
    }
}

/// The UTF-8 length of `text`, which fits in `usize`.
fn byte_len(text: &str) -> (r: usize)
    requires
        utf8_len(text@, text@.len() as int) <= usize::MAX,
    ensures
        r == utf8_len(text@, text@.len() as int),
{
    let bounds = char_boundaries(text);
    bounds[text.unicode_len()]
}


impl<L, A, I> TerminalBuffer<L, A, I> {
    /// After a preference change (a new `generation`), hand every line's
    /// payload to `invalidate` so its baked spans re-bake on next use; a
    /// no-op (`false`) when the generation is unchanged.
    pub fn refresh_styles<F: Fn(L) -> L>(&mut self, generation: u64, invalidate: F) -> (r: bool)
        requires
            old(self).wf(),
            forall|x: L| #[trigger] invalidate.requires((x,)),
        ensures
            final(self).epochs() == old(self).epochs(),
            final(self).last_output() == old(self).last_output(),
            final(self).wf(),
            r == (generation != old(self).generation()),
            final(self).generation() == generation,
            final(self).last_number() == old(self).last_number(),
            final(self).terminated() == old(self).terminated(),
            final(self).max_lines_view() == old(self).max_lines_view(),
            final(self).lines_view().len() == old(self).lines_view().len(),
            forall|i: int|
                0 <= i < old(self).lines_view().len() ==> {
                    &&& (#[trigger] final(self).lines_view()[i]).text == old(self).lines_view()[i].text
                    &&& final(self).lines_view()[i].links == old(self).lines_view()[i].links
                    &&& if r {
                        invalidate.ensures((old(self).lines_view()[i].line,), final(self).lines_view()[i].line)
                    } else {
                        final(self).lines_view()[i] == old(self).lines_view()[i]
                    }
                },
    {
        if generation == self.span_generation {
            return false;
        }
        let ghost before = self.lines@;
        let mut i: usize = 0;
        while i < self.lines.len()
            invariant
                i <= self.lines@.len(),
                self.lines@.len() == before.len(),
                self.max_lines == old(self).max_lines,
                self.last_line_number == old(self).last_line_number,
                self.line_terminated == old(self).line_terminated,
                self.span_generation == old(self).span_generation,
                self.lines_with_links == old(self).lines_with_links,
                self.epochs() == old(self).epochs(),
                self.visibility_last_output == old(self).visibility_last_output,
                before == old(self).lines@,
                forall|x: L| #[trigger] invalidate.requires((x,)),
                forall|j: int|
                    0 <= j < before.len() ==> {
                        &&& (#[trigger] self.lines@[j]).text == before[j].text
                        &&& self.lines@[j].links == before[j].links
                        &&& if j < i {
                            invalidate.ensures((before[j].line,), self.lines@[j].line)
                        } else {
                            self.lines@[j] == before[j]
                        }
                    },
            decreases self.lines@.len() - i,
        {
            let ghost cur = self.lines@;
            let taken = self.lines.remove(i);
            if let Some(line) = taken {
                let BufferLine { line, text, links } = line;
                let fresh = invalidate(line);
                self.lines.insert(i, BufferLine { line: fresh, text, links });
                proof {
                    assert(self.lines@ =~= cur.update(i as int, BufferLine { line: fresh, text, links }));
                }
            }
            i += 1;
        }
        proof {
            assert forall|j: int| 0 <= j < before.len() implies has_links_spec(#[trigger] self.lines@[j]) == has_links_spec(
                before[j],
            ) by {}
            lemma_linked_count_same(self.lines@, before, before.len() as int);
        }
        self.span_generation = generation;
        true
    }

    /// The held lines newest first with their absolute numbers, starting at
    /// `last_line_number` (the newest line when `None`).
    pub fn lines_rev_with_line_number(&self, last_line_number: Option<usize>) -> (r: Vec<(usize, &BufferLine<L, A>)>)
        requires
            self.wf(),
            last_line_number matches Some(n) ==> n <= self.last_number(),
        ensures
            ({
                let skip = match last_line_number {
                    Some(n) => self.last_number() - n,
                    None => 0,
                };
                &&& r@.len() == if skip <= self.lines_view().len() {
                    self.lines_view().len() - skip
                } else {
                    0
                }
                &&& forall|m: int|
                    0 <= m < r@.len() ==> #[trigger] r@[m] == (
                        (self.last_number() - (skip + m)) as usize,
                        &self.lines_view()[self.lines_view().len() - 1 - (skip + m)],
                    )
            }),
    {
        let last = self.last_line_number;
        let skip = match last_line_number {
            Some(n) => last - n,
            None => 0,
        };
        let len = self.lines.len();
        let mut out: Vec<(usize, &BufferLine<L, A>)> = Vec::new();
        if skip > len {
            return out;
        }
        let mut m: usize = 0;
        while m < len - skip
            invariant
                len == self.lines@.len(),
                skip <= len,
                last == self.last_line_number,
                len <= last,
                m <= len - skip,
                out@.len() == m,
                forall|q: int|
                    0 <= q < m ==> #[trigger] out@[q] == ((last - (skip + q)) as usize, &self.lines@[len - 1 - (skip + q)]),
            decreases len - skip - m,
        {
            out.push((last - (skip + m), &self.lines[len - 1 - (skip + m)]));
            m += 1;
        }
        proof {
            assert(self.lines_view() == self.lines@);
        }
        out
    }
}

proof fn lemma_linked_count_same<L, A>(a: Seq<BufferLine<L, A>>, b: Seq<BufferLine<L, A>>, n: int)
    requires
        0 <= n <= a.len(),
        n <= b.len(),
        forall|i: int| 0 <= i < n ==> has_links_spec(#[trigger] a[i]) == has_links_spec(b[i]),
    ensures
        linked_count(a, n) == linked_count(b, n),
    decreases n,
{
    if n > 0 {
        lemma_linked_count_same(a, b, n - 1);
    }
}

// ----------------------------------------------------------------------
// Resolving a span's decorations
// ----------------------------------------------------------------------

/// One space per extended grapheme cluster of `text`: a concealed
/// spoiler's rendered text, so even glyphs that ignore the span colour
/// stay hidden.
pub fn concealed_text(text: &str) -> (r: String)
    ensures
        r@ == Seq::new(grapheme_lengths(text@).len(), |i: int| ' '),
{
    let lens = grapheme_byte_lengths(text);
    let mut spaces: Vec<char> = Vec::new();
    let mut i: usize = 0;
    while i < lens.len()
        invariant
            i <= lens@.len(),
            spaces@ == Seq::new(i as nat, |k: int| ' '),
        decreases lens@.len() - i,
    {
        spaces.push(' ');
        i += 1;
        assert(spaces@ =~= Seq::new(i as nat, |k: int| ' '));
    }
    string_from_chars(spaces.as_slice())
}

/// How the terminal preference presents an SGR bold attribute: with a bold
/// font weight, with the bright palette colour, or both.
#[derive(Debug, Clone, Copy, PartialEq, Eq, Structural)]
pub enum BoldMode {
    Bold,
    Bright,
    BoldAndBright,
}

/// An SGR underline.
#[derive(Debug, Clone, Copy, PartialEq, Eq, Structural)]
pub enum SgrUnderline {
    NoLine,
    Single,
    Double,
}

/// The SGR text attributes of a span, and whether its SGR background is
/// an explicit colour rather than the default background.
#[derive(Debug, Clone, Copy, PartialEq, Eq, Structural)]
pub struct SgrAttributes {
    pub bold: bool,
    pub italic: bool,
    pub faint: bool,
    pub reverse: bool,
    pub crossed_out: bool,
    pub underline: SgrUnderline,
    pub explicit_background: bool,
}

/// Everything about a rendered span that is not a colour value: its font,
/// which colour transforms apply, whether a background or the link wash is
/// painted, and its decorations.
#[derive(Debug, Clone, Copy, PartialEq, Eq, Structural)]
pub struct SpanDecorations {
    /// The font takes the bold weight.
    pub bold_weight: bool,
    /// An SGR colour takes its bright palette entry.
    pub bright_foreground: bool,
    pub italic: bool,
    /// The foreground is drawn at half opacity.
    pub faint: bool,
    /// Foreground and background swap.
    pub reverse: bool,
    /// The foreground is transparent (the span is hidden).
    pub transparent: bool,
    /// A background colour is painted.
    pub background: bool,
    /// The link wash (the foreground at low opacity) is painted behind the
    /// text.
    pub link_wash: bool,
    pub underline: LinkDecoration,
    pub overline: LinkDecoration,
    pub strikethrough: LinkDecoration,
    /// The authored decoration colour is used.
    pub decoration_color: bool,
}

pub open spec fn uses_bold_weight(mode: BoldMode) -> bool {
    mode == BoldMode::Bold || mode == BoldMode::BoldAndBright
}

pub open spec fn uses_bright_palette(mode: BoldMode) -> bool {
    mode == BoldMode::Bright || mode == BoldMode::BoldAndBright
}

/// The decorations of a span: authored link styling overrides SGR
/// attributes field by field; an authored `bold` is literal, while SGR bold
/// is presented as the preference says (and an authored `bold: false`
/// suppresses it entirely); an unauthored link with no underline gets a
/// solid one and, with no background, the link wash; a concealed spoiler
/// loses every decoration and the wash; a hidden span also loses its
/// background and its foreground.
pub open spec fn spec_span_decorations(
    sgr: SgrAttributes,
    authored: Option<LinkTextStyle>,
    linked: bool,
    link_authored: bool,
    hidden: bool,
    spoiler_concealed: bool,
    bold_mode: BoldMode,
) -> SpanDecorations {
    let a = style_or_unauthored(authored);
    let suppressed = hidden || spoiler_concealed;
    let background = sgr.reverse || a.background is Some || sgr.explicit_background;
    let underline = authored_or(a.underline, sgr_line(sgr.underline));
    SpanDecorations {
        bold_weight: authored_or(a.bold, sgr.bold && uses_bold_weight(bold_mode)),
        bright_foreground: sgr.bold && a.bold != Some(false) && uses_bright_palette(bold_mode),
        italic: authored_or(a.italic, sgr.italic),
        faint: sgr.faint,
        reverse: sgr.reverse,
        transparent: hidden,
        background: background && !hidden,
        link_wash: linked && !link_authored && !background && !suppressed,
        underline: if suppressed {
            LinkDecoration::NoLine
        } else if linked && !link_authored && underline == LinkDecoration::NoLine {
            LinkDecoration::Solid
        } else {
            underline
        },
        overline: if suppressed {
            LinkDecoration::NoLine
        } else {
            authored_or(a.overline, LinkDecoration::NoLine)
        },
        strikethrough: if suppressed {
            LinkDecoration::NoLine
        } else {
            authored_or(a.strikethrough, if sgr.crossed_out { LinkDecoration::Solid } else { LinkDecoration::NoLine })
        },
        decoration_color: a.decoration_color is Some && !suppressed,
    }
}

/// The authored style, or one that authors nothing.
pub open spec fn style_or_unauthored(authored: Option<LinkTextStyle>) -> LinkTextStyle {
    match authored {
        Some(s) => s,
        None => LinkTextStyle {
            foreground: None,
            background: None,
            bold: None,
            italic: None,
            underline: None,
            overline: None,
            strikethrough: None,
            decoration_color: None,
        },
    }
}

/// The authored value where there is one, `otherwise` where there is not.
pub open spec fn authored_or<T>(authored: Option<T>, otherwise: T) -> T {
    match authored {
        Some(v) => v,
        None => otherwise,
    }
}

/// The line an SGR underline draws.
pub open spec fn sgr_line(u: SgrUnderline) -> LinkDecoration {
    match u {
        SgrUnderline::NoLine => LinkDecoration::NoLine,
        SgrUnderline::Single => LinkDecoration::Solid,
        SgrUnderline::Double => LinkDecoration::Double,
    }
}

/// Resolve the decorations of one span (see [`spec_span_decorations`]).
/// `authored` is the link's authored style, `link_authored` whether the
/// link carries one at all, `hidden` whether the line or the link is
/// concealed by a visibility rule.
pub fn span_decorations(
    sgr: SgrAttributes,
    authored: Option<&LinkTextStyle>,
    linked: bool,
    link_authored: bool,
    hidden: bool,
    spoiler_concealed: bool,
    bold_mode: BoldMode,
) -> (r: SpanDecorations)
    ensures
        r == spec_span_decorations(
            sgr,
            match authored {
                Some(s) => Some(*s),
                None => None,
            },
            linked,
            link_authored,
            hidden,
            spoiler_concealed,
            bold_mode,
        ),
{
    let (a_bold, a_italic, a_underline, a_overline, a_strike, a_background, a_decoration_color) = match authored {
        Some(s) => (
            s.bold,
            s.italic,
            s.underline,
            s.overline,
            s.strikethrough,
            s.background.is_some(),
            s.decoration_color.is_some(),
        ),
        None => (None, None, None, None, None, false, false),
    };
    let weight_mode = match bold_mode {
        BoldMode::Bold => true,
        BoldMode::Bright => false,
        BoldMode::BoldAndBright => true,
    };
    let bright_mode = match bold_mode {
        BoldMode::Bold => false,
        BoldMode::Bright => true,
        BoldMode::BoldAndBright => true,
    };
    let bold_weight = match a_bold {
        Some(b) => b,
        None => sgr.bold && weight_mode,
    };
    let authored_unbold = match a_bold {
        Some(b) => !b,
        None => false,
    };
    let bright = sgr.bold && !authored_unbold && bright_mode;
    let italic = match a_italic {
        Some(b) => b,
        None => sgr.italic,
    };
    let sgr_underline = match sgr.underline {
        SgrUnderline::NoLine => LinkDecoration::NoLine,
        SgrUnderline::Single => LinkDecoration::Solid,
        SgrUnderline::Double => LinkDecoration::Double,
    };
    let underline0 = match a_underline {
        Some(d) => d,
        None => sgr_underline,
    };
    let underline1 = if linked && !link_authored && underline0 == LinkDecoration::NoLine {
        LinkDecoration::Solid
    } else {
        underline0
    };
    let suppressed = hidden || spoiler_concealed;
    let has_background = if sgr.reverse {
        true
    } else {
        a_background || sgr.explicit_background
    };
    let overline = if suppressed {
        LinkDecoration::NoLine
    } else {
        match a_overline {
            Some(d) => d,
            None => LinkDecoration::NoLine,
        }
    };
    let strikethrough = if suppressed {
        LinkDecoration::NoLine
    } else {
        match a_strike {
            Some(d) => d,
            None => if sgr.crossed_out {
                LinkDecoration::Solid
            } else {
                LinkDecoration::NoLine
            },
        }
    };
    SpanDecorations {
        bold_weight,
        bright_foreground: bright,
        italic,
        faint: sgr.faint,
        reverse: sgr.reverse,
        transparent: hidden,
        background: has_background && !hidden,
        link_wash: linked && !link_authored && !has_background && !suppressed,
        underline: if suppressed {
            LinkDecoration::NoLine
        } else {
            underline1
        },
        overline,
        strikethrough,
        decoration_color: a_decoration_color && !suppressed,
    }
}

} // verus!
