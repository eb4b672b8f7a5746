//! Pure helpers of the terminal pane widget: keyboard link navigation and
//! the text handling around links.

use vstd::prelude::*;
use vstd::string::{StrSliceExecFns, StringExecFns};

use crate::text::{
    str_eq, char_utf8_width, chars_of, control, is_control, lemma_utf8_len_prefix, string_from_chars, utf8_len,
    utf8_width,
};
use crate::pane_groups::same_binding;
use crate::vt_processor::{index_of_char, LinkTooltipText, ServerAction, VtSpan};

verus! {

/// The keyboard link-navigation step over `link_count` links: forward goes
/// to the next index (wrapping to 0), backward to the previous one (wrapping
/// to the last); with no current link, forward starts at the first link and
/// backward at the last. `None` when there are no links.
pub open spec fn spec_link_navigation_index(
    link_count: usize,
    current: Option<usize>,
    backwards: bool,
) -> Option<usize> {
    if link_count == 0 {
        None
    } else if backwards {
        match current {
            None => Some((link_count - 1) as usize),
            Some(index) => if index == 0 {
                Some((link_count - 1) as usize)
            } else {
                Some((index - 1) as usize)
            },
        }
    } else {
        match current {
            None => Some(0),
            Some(index) => Some(((index + 1) % (link_count as int)) as usize),
        }
    }
}

pub fn link_navigation_index(link_count: usize, current: Option<usize>, backwards: bool) -> (r: Option<usize>)
    requires
        current matches Some(index) ==> index < usize::MAX,
    ensures
        r == spec_link_navigation_index(link_count, current, backwards),
        (current matches Some(c) ==> c < link_count) ==> (r matches Some(i) ==> i < link_count),
{
    if link_count == 0 {
        return None;
    }
    if backwards {
        match current {
            None => Some(link_count - 1),
            Some(index) => if index == 0 { Some(link_count - 1) } else { Some(index - 1) },
        }
    } else {
        match current {
            None => Some(0),
            Some(index) => Some((index + 1) % link_count),
        }
    }
}

/// Tab moves focus to the next link and Shift+Tab to the previous one,
/// each wrapping at its end, so that either undoes the other: from link
/// `i` of `link_count`, Shift+Tab lands on `i - 1` (the last link from the
/// first), Tab on `i + 1` (the first link from the last), and Tab then
/// Shift+Tab, or Shift+Tab then Tab, comes back to `i`. With no link
/// focused, Tab starts at the first link and Shift+Tab at the last; with
/// no links there is nowhere to go.
pub proof fn lemma_link_navigation_steps(link_count: usize, i: usize)
    requires
        i < link_count,
    ensures
        spec_link_navigation_index(link_count, None, false) == Some(0usize),
        spec_link_navigation_index(link_count, None, true) == Some((link_count - 1) as usize),
        spec_link_navigation_index(0, Some(i), false) is None && spec_link_navigation_index(0, Some(i), true) is None,
        0 < i ==> spec_link_navigation_index(link_count, Some(i), true) == Some((i - 1) as usize),
        i == 0 ==> spec_link_navigation_index(link_count, Some(i), true) == Some((link_count - 1) as usize),
        i + 1 < link_count ==> spec_link_navigation_index(link_count, Some(i), false) == Some((i + 1) as usize),
        i + 1 == link_count ==> spec_link_navigation_index(link_count, Some(i), false) == Some(0usize),
        spec_link_navigation_index(
            link_count,
            spec_link_navigation_index(link_count, Some(i), false),
            true,
        ) == Some(i),
        spec_link_navigation_index(
            link_count,
            spec_link_navigation_index(link_count, Some(i), true),
            false,
        ) == Some(i),
{
    let n = link_count as int;
    if i + 1 < link_count {
        vstd::arithmetic::div_mod::lemma_small_mod((i + 1) as nat, n as nat);
    } else {
        vstd::arithmetic::div_mod::lemma_mod_self_0(n);
    }
    if i > 0 {
        vstd::arithmetic::div_mod::lemma_small_mod(i as nat, n as nat);
    } else {
        vstd::arithmetic::div_mod::lemma_mod_self_0(n);
    }
}

// ----------------------------------------------------------------------
// Selection callbacks
// ----------------------------------------------------------------------

/// `value` with `name=true` or `name=false` added to its query, before any
/// fragment: after `&` where the part before the first `#` already has a
/// `?`, after `?` otherwise.
pub open spec fn spec_append_query_flag(value: Seq<char>, name: Seq<char>, enabled: bool) -> Seq<char> {
    let h = index_of_char(value, '#', 0);
    let head = value.take(h);
    let separator = if index_of_char(head, '?', 0) < head.len() {
        '&'
    } else {
        '?'
    };
    head.push(separator) + name + seq!['='] + (if enabled {
        seq!['t', 'r', 'u', 'e']
    } else {
        seq!['f', 'a', 'l', 's', 'e']
    }) + value.skip(h)
}

fn find_char(s: &str, c: char) -> (r: usize)
    ensures
        r == index_of_char(s@, c, 0),
        r <= s@.len(),
{
    let n = s.unicode_len();
    let mut i: usize = 0;
    while i < n && s.get_char(i) != c
        invariant
            n == s@.len(),
            i <= n,
            index_of_char(s@, c, 0) == index_of_char(s@, c, i as int),
        decreases n - i,
    {
        i += 1;
    }
    i
}

/// `value` with `name=true` or `name=false` added to its query.
pub fn append_query_flag(value: &str, name: &str, enabled: bool) -> (r: String)
    ensures
        r@ == spec_append_query_flag(value@, name@, enabled),
{
    proof {
        reveal_strlit("&");
        reveal_strlit("?");
        reveal_strlit("=");
        reveal_strlit("true");
        reveal_strlit("false");
    }
    let n = value.unicode_len();
    let h = find_char(value, '#');
    let head = value.substring_char(0, h);
    let q = find_char(head, '?');
    let mut out = String::from_str(head);
    if q < head.unicode_len() {
        out.append("&");
    } else {
        out.append("?");
    }
    out.append(name);
    out.append("=");
    if enabled {
        out.append("true");
    } else {
        out.append("false");
    }
    out.append(value.substring_char(h, n));
    proof {
        assert(head@ =~= value@.take(h as int));
        assert(value@.subrange(h as int, n as int) =~= value@.skip(h as int));
        let sep = if q < head@.len() { '&' } else { '?' };
        assert(out@ =~= head@.push(sep) + name@ + seq!['='] + (if enabled {
            seq!['t', 'r', 'u', 'e']
        } else {
            seq!['f', 'a', 'l', 's', 'e']
        }) + value@.skip(h as int));
    }
    out
}

/// A selection link's action with the new selection state added to the
/// query of its command or URL.
pub fn with_selected_callback(action: ServerAction, selected: bool) -> (r: ServerAction)
    ensures
        r.view_pair().0 == action.view_pair().0,
        r.view_pair().1 == spec_append_query_flag(action.view_pair().1, "selected"@, selected),
{
    match action {
        ServerAction::ServerSend(command) => ServerAction::ServerSend(
            append_query_flag(command.as_str(), "selected", selected),
        ),
        ServerAction::Prompt(command) => ServerAction::Prompt(append_query_flag(command.as_str(), "selected", selected)),
        ServerAction::OpenUrl(url) => ServerAction::OpenUrl(append_query_flag(url.as_str(), "selected", selected)),
    }
}

// ----------------------------------------------------------------------
// Disclosed targets
// ----------------------------------------------------------------------

/// Characters that could hide what a target opens or sends: controls, the
/// Arabic letter mark, zero-width and direction marks, bidi embeddings and
/// overrides, invisible operators, and the byte-order mark.
pub open spec fn suspicious(c: char) -> bool {
    let v = c as u32;
    control(c) || v == 0x061c || (0x200b <= v && v <= 0x200f) || (0x202a <= v && v <= 0x202e) || (0x2060 <= v
        && v <= 0x206f) || v == 0xfeff
}

/// An upper-case hexadecimal digit.
pub open spec fn hex_char(d: u32) -> char {
    if d < 10 {
        (48 + d) as char
    } else {
        (55 + d) as char
    }
}

/// `c` as it is shown: a suspicious character as `\u{XXXX}`, anything
/// else as itself.
pub open spec fn shown_char(c: char) -> Seq<char> {
    let v = c as u32;
    if suspicious(c) {
        seq![
            '\\',
            'u',
            '{',
            hex_char((v / 4096) % 16),
            hex_char((v / 256) % 16),
            hex_char((v / 16) % 16),
            hex_char(v % 16),
            '}',
        ]
    } else {
        seq![c]
    }
}

/// The first `n` characters of `t` as they are shown.
pub open spec fn shown_prefix(t: Seq<char>, n: int) -> Seq<char>
    decreases n,
{
    if n <= 0 {
        Seq::empty()
    } else {
        shown_prefix(t, n - 1) + shown_char(t[n - 1])
    }
}

/// The most characters of a target that are shown.
pub const MAX_TARGET_CHARS: usize = 512;

/// A target as it is disclosed: at most 512 characters, suspicious ones
/// escaped, and an ellipsis where the target goes on.
pub open spec fn spec_safe_link_target(t: Seq<char>) -> Seq<char> {
    if t.len() > MAX_TARGET_CHARS {
        shown_prefix(t, MAX_TARGET_CHARS as int).push('\u{2026}')
    } else {
        shown_prefix(t, t.len() as int)
    }
}

fn hex_digit_char(d: u32) -> (r: char)
    requires
        d < 16,
    ensures
        r == hex_char(d),
{
    let b: u8 = if d < 10 {
        48 + d as u8
    } else {
        55 + d as u8
    };
    b as char
}

fn is_suspicious(c: char) -> (r: bool)
    ensures
        r == suspicious(c),
{
    let v = c as u32;
    is_control(c) || v == 0x061c || (0x200b <= v && v <= 0x200f) || (0x202a <= v && v <= 0x202e) || (0x2060
        <= v && v <= 0x206f) || v == 0xfeff
}

/// Render an actionable destination without letting control, zero-width
/// or bidi-reordering characters conceal what will be opened or sent.
pub fn safe_link_target(target: &str) -> (r: String)
    ensures
        r@ == spec_safe_link_target(target@),
{
    let chars = chars_of(target);
    let n = chars.len();
    let limit = if n > MAX_TARGET_CHARS {
        MAX_TARGET_CHARS
    } else {
        n
    };
    let mut out: Vec<char> = Vec::new();
    let mut i: usize = 0;
    while i < limit
        invariant
            chars@ == target@,
            limit <= chars@.len(),
            i <= limit,
            out@ == shown_prefix(target@, i as int),
        decreases limit - i,
    {
        let c = chars[i];
        if is_suspicious(c) {
            let v = c as u32;
            out.push('\\');
            out.push('u');
            out.push('{');
            out.push(hex_digit_char((v / 4096) % 16));
            out.push(hex_digit_char((v / 256) % 16));
            out.push(hex_digit_char((v / 16) % 16));
            out.push(hex_digit_char(v % 16));
            out.push('}');
        } else {
            out.push(c);
        }
        proof {
            assert(out@ =~= shown_prefix(target@, i + 1));
        }
        i += 1;
    }
    if n > MAX_TARGET_CHARS {
        out.push('\u{2026}');
    }
    string_from_chars(out.as_slice())
}

// ----------------------------------------------------------------------
// Tooltip clipping
// ----------------------------------------------------------------------

/// The most characters of tooltip copy that are shaped.
pub const MAX_TOOLTIP_CHARS: usize = 4096;

/// The spans that begin before `cutoff`, ended at it at the latest.
pub open spec fn spans_before<S>(spans: Seq<VtSpan<S>>, cutoff: int) -> Seq<VtSpan<S>>
    decreases spans.len(),
{
    if spans.len() == 0 {
        Seq::empty()
    } else {
        let rest = spans_before(spans.drop_last(), cutoff);
        let sp = spans.last();
        if sp.begin_pos < cutoff {
            rest.push(
                VtSpan {
                    style: sp.style,
                    begin_pos: sp.begin_pos,
                    end_pos: if sp.end_pos <= cutoff {
                        sp.end_pos
                    } else {
                        cutoff as usize
                    },
                },
            )
        } else {
            rest
        }
    }
}

/// Tooltip copy clipped to 4096 characters: longer copy is cut there and
/// gains an ellipsis, its spans end at the cut, and the last span runs on
/// over the ellipsis.
pub open spec fn clipped_matches<S>(t: LinkTooltipText<S>, r: LinkTooltipText<S>) -> bool {
    let chars = t.text@;
    if chars.len() <= MAX_TOOLTIP_CHARS {
        r.text@ == chars && r.spans@ == t.spans@
    } else {
        let cutoff = utf8_len(chars, MAX_TOOLTIP_CHARS as int);
        let kept = spans_before(t.spans@, cutoff as int);
        &&& r.text@ == chars.take(MAX_TOOLTIP_CHARS as int).push('\u{2026}')
        &&& r.spans@ == if kept.len() == 0 {
            kept
        } else {
            kept.update(
                kept.len() - 1,
                VtSpan { style: kept.last().style, begin_pos: kept.last().begin_pos, end_pos: (cutoff + 3) as usize },
            )
        }
    }
}

/// Bound the shaping work of tooltip copy from untrusted servers.
pub fn clipped_tooltip_text<S: Copy>(text: &LinkTooltipText<S>) -> (r: LinkTooltipText<S>)
    ensures
        clipped_matches(*text, r),
{
    let chars = chars_of(text.text.as_str());
    let n = chars.len();
    if n <= MAX_TOOLTIP_CHARS {
        let mut spans: Vec<VtSpan<S>> = Vec::new();
        let mut i: usize = 0;
        while i < text.spans.len()
            invariant
                i <= text.spans@.len(),
                spans@ == text.spans@.take(i as int),
            decreases text.spans@.len() - i,
        {
            spans.push(text.spans[i]);
            proof {
                assert(spans@ =~= text.spans@.take(i + 1));
            }
            i += 1;
        }
        proof {
            assert(text.spans@.take(text.spans@.len() as int) =~= text.spans@);
        }
        return LinkTooltipText { text: string_from_chars(chars.as_slice()), spans };
    }
    let mut kept: Vec<char> = Vec::new();
    let mut cutoff: usize = 0;
    let mut i: usize = 0;
    while i < MAX_TOOLTIP_CHARS
        invariant
            chars@ == text.text@,
            MAX_TOOLTIP_CHARS < chars@.len(),
            i <= MAX_TOOLTIP_CHARS,
            kept@ == chars@.take(i as int),
            cutoff == utf8_len(chars@, i as int),
            cutoff <= 4 * i,
        decreases MAX_TOOLTIP_CHARS - i,
    {
        kept.push(chars[i]);
        cutoff = cutoff + char_utf8_width(chars[i]);
        proof {
            assert(kept@ =~= chars@.take(i + 1));
        }
        i += 1;
    }
    kept.push('\u{2026}');
    let mut spans: Vec<VtSpan<S>> = Vec::new();
    let mut j: usize = 0;
    while j < text.spans.len()
        invariant
            j <= text.spans@.len(),
            cutoff <= 4 * MAX_TOOLTIP_CHARS,
            spans@ == spans_before(text.spans@.take(j as int), cutoff as int),
        decreases text.spans@.len() - j,
    {
        let sp = text.spans[j];
        proof {
            assert(text.spans@.take(j + 1).drop_last() =~= text.spans@.take(j as int));
        }
        if sp.begin_pos < cutoff {
            let end = if sp.end_pos <= cutoff {
                sp.end_pos
            } else {
                cutoff
            };
            spans.push(VtSpan { style: sp.style, begin_pos: sp.begin_pos, end_pos: end });
        }
        j += 1;
    }
    proof {
        assert(text.spans@.take(text.spans@.len() as int) =~= text.spans@);
    }
    let count = spans.len();
    if count > 0 {
        let last = spans[count - 1];
        spans.set(count - 1, VtSpan { style: last.style, begin_pos: last.begin_pos, end_pos: cutoff + 3 });
    }
    LinkTooltipText { text: string_from_chars(kept.as_slice()), spans }
}

// ----------------------------------------------------------------------
// Link visibility
// ----------------------------------------------------------------------

/// What a link's visibility rule does when it fires.
#[derive(Debug, Clone, Copy, PartialEq, Eq, Structural)]
pub enum VisibilityAction {
    Conceal,
    Reveal,
    RevealThenConceal,
}

/// The visibility state of one link instance; `I` is the clock's instant.
#[derive(Debug, Clone)]
pub struct VisibilityState<I> {
    pub concealed: bool,
    pub created: I,
    pub activated: Option<I>,
    pub revealed_phase: bool,
}

impl<I> VisibilityState<I> {
    /// A link instance created at `now`: a concealing rule starts shown,
    /// a revealing one starts concealed.
    pub fn new(action: VisibilityAction, now: I) -> (r: Self)
        ensures
            r.concealed == (action != VisibilityAction::Conceal),
            !r.revealed_phase,
            r.activated is None,
            r.created == now,
    {
        let concealed = match action {
            VisibilityAction::Conceal => false,
            _ => true,
        };
        VisibilityState { concealed, created: now, activated: None, revealed_phase: false }
    }

    /// A rule's expiry fires: conceal, reveal, or reveal once and conceal on
    /// the next expiry (a reveal already in its revealed phase stays). Any
    /// activation is spent. Whether anything shown changed.
    pub fn apply_expiry(&mut self, action: VisibilityAction) -> (changed: bool)
        ensures
            final(self).activated is None,
            final(self).created == old(self).created,
            final(self).concealed == match action {
                VisibilityAction::Conceal => true,
                VisibilityAction::Reveal => false,
                VisibilityAction::RevealThenConceal => if old(self).revealed_phase {
                    old(self).concealed
                } else {
                    false
                },
            },
            final(self).revealed_phase == (old(self).revealed_phase || action == VisibilityAction::RevealThenConceal),
            changed == (final(self).concealed != old(self).concealed || final(self).revealed_phase
                != old(self).revealed_phase),
    {
        let was_concealed = self.concealed;
        let was_revealed_phase = self.revealed_phase;
        match action {
            VisibilityAction::Conceal => {
                self.concealed = true;
            },
            VisibilityAction::Reveal => {
                self.concealed = false;
            },
            VisibilityAction::RevealThenConceal => {
                if !self.revealed_phase {
                    self.concealed = false;
                    self.revealed_phase = true;
                }
            },
        }
        self.activated = None;
        self.concealed != was_concealed || self.revealed_phase != was_revealed_phase
    }
}

impl<I: Copy> VisibilityState<I> {
    /// Activating the link at `now` under its rule: an unconcealed
    /// concealing rule arms its delay (returned, to be added to `now`) or,
    /// with no delay, conceals at once; a reveal-then-conceal rule in its
    /// revealed phase conceals for good. Anything else changes nothing.
    pub fn activate_visibility(&mut self, action: VisibilityAction, delay_ms: Option<u64>, now: I) -> (r: Option<u64>)
        ensures
            final(self).created == old(self).created,
            match action {
                VisibilityAction::Conceal if !old(self).concealed => match delay_ms {
                    Some(d) if d > 0 => {
                        &&& r == Some(d)
                        &&& final(self).activated == Some(now)
                        &&& final(self).concealed == old(self).concealed
                        &&& final(self).revealed_phase == old(self).revealed_phase
                    },
                    _ => {
                        &&& r is None
                        &&& final(self).concealed
                        &&& final(self).activated is None
                        &&& final(self).revealed_phase == old(self).revealed_phase
                    },
                },
                VisibilityAction::RevealThenConceal if old(self).revealed_phase => {
                    &&& r is None
                    &&& final(self).concealed
                    &&& !final(self).revealed_phase
                    &&& final(self).activated is None
                },
                _ => r is None && *final(self) == *old(self),
            },
    {
        match action {
            VisibilityAction::Conceal => {
                if self.concealed {
                    return None;
                }
                match delay_ms {
                    Some(d) => {
                        if d > 0 {
                            self.activated = Some(now);
                            return Some(d);
                        }
                    },
                    None => {},
                }
                self.concealed = true;
                self.activated = None;
                None
            },
            VisibilityAction::RevealThenConceal => {
                if self.revealed_phase {
                    self.concealed = true;
                    self.revealed_phase = false;
                    self.activated = None;
                }
                None
            },
            VisibilityAction::Reveal => None,
        }
    }

    /// The timer the rule has armed, as the instant it counts from and its
    /// delay: a concealing rule's activation, or a revealing rule's creation
    /// while the link is still concealed.
    pub fn timer(&self, action: VisibilityAction, delay_ms: Option<u64>) -> (r: Option<(I, u64)>)
        ensures
            r == match action {
                VisibilityAction::Conceal => match (self.activated, delay_ms) {
                    (Some(at), Some(d)) => Some((at, d)),
                    _ => None,
                },
                _ => if self.concealed {
                    match delay_ms {
                        Some(d) => Some((self.created, d)),
                        None => None,
                    }
                } else {
                    None
                },
            },
    {
        match action {
            VisibilityAction::Conceal => match (self.activated, delay_ms) {
                (Some(at), Some(d)) => Some((at, d)),
                _ => None,
            },
            _ => {
                if self.concealed {
                    match delay_ms {
                        Some(d) => Some((self.created, d)),
                        None => None,
                    }
                } else {
                    None
                }
            },
        }
    }

    /// The armed timer ran out: a concealing rule conceals, a revealing one
    /// reveals and enters its revealed phase; the activation is spent.
    pub fn fire(&mut self, action: VisibilityAction)
        ensures
            final(self).concealed == (action == VisibilityAction::Conceal),
            final(self).revealed_phase == (action != VisibilityAction::Conceal),
            final(self).activated is None,
            final(self).created == old(self).created,
    {
        self.concealed = match action {
            VisibilityAction::Conceal => true,
            _ => false,
        };
        self.revealed_phase = !self.concealed;
        self.activated = None;
    }
}

/// The events that expire a link's visibility rule, and the quiet gap that
/// output must follow to count.
#[derive(Debug, Clone, Copy, PartialEq, Eq, Structural)]
pub struct VisibilityExpire {
    pub input: bool,
    pub prompt: bool,
    pub output: bool,
    pub output_delay_ms: u64,
}

/// Whether a rule expires, given which epochs moved: input, a prompt, or
/// output that arrived `output_gap_ms` after the previous output.
pub fn expiry_fires(expire: VisibilityExpire, input: bool, prompt: bool, output_gap_ms: Option<u64>) -> (r: bool)
    ensures
        r == ((input && expire.input) || (prompt && expire.prompt) || (expire.output && (output_gap_ms matches Some(
            g,
        ) && g >= expire.output_delay_ms))),
{
    let output = match output_gap_ms {
        Some(g) => expire.output && g >= expire.output_delay_ms,
        None => false,
    };
    (input && expire.input) || (prompt && expire.prompt) || output
}

/// The buffer's visibility epochs a pane has already answered.
#[derive(Debug, Clone, Copy, PartialEq, Eq, Structural)]
pub struct SeenEpochs {
    pub input: u64,
    pub prompt: u64,
    pub output: u64,
}

impl SeenEpochs {
    /// Answer the buffer's current epochs: which of input, prompt and output
    /// moved since last time.
    pub fn observe(&mut self, input: u64, prompt: u64, output: u64) -> (r: (bool, bool, bool))
        ensures
            r == (input != old(self).input, prompt != old(self).prompt, output != old(self).output),
            *final(self) == (SeenEpochs { input, prompt, output }),
    {
        let moved = (input != self.input, prompt != self.prompt, output != self.output);
        self.input = input;
        self.prompt = prompt;
        self.output = output;
        moved
    }
}

// ----------------------------------------------------------------------
// Remembered link selections
// ----------------------------------------------------------------------

/// A toggle or radio link's selection rules, as its parameters set them:
/// the group and value it stands for, whether a second activation clears
/// it, its initial state, whether selecting it clears its group, and
/// whether it is inert.
#[derive(Debug, Clone)]
pub struct LinkSelection {
    pub group: String,
    pub value: String,
    pub toggle: bool,
    pub selected: bool,
    pub exclusive: bool,
    pub disabled: bool,
}

/// The first remembered entry at or after `i` for group `g` and value `v`,
/// or the number of entries.
pub open spec fn selection_index(es: Seq<(Seq<char>, Seq<char>, bool)>, g: Seq<char>, v: Seq<char>, i: int) -> int
    decreases es.len() - i,
{
    if i < 0 || i >= es.len() {
        es.len() as int
    } else if es[i].0 == g && es[i].1 == v {
        i
    } else {
        selection_index(es, g, v, i + 1)
    }
}

/// Whether a link with selection `s` shows as selected: as remembered, or
/// as its own initial state when nothing is remembered for it.
pub open spec fn recalled(es: Seq<(Seq<char>, Seq<char>, bool)>, s: LinkSelection) -> bool {
    let k = selection_index(es, s.group@, s.value@, 0);
    if k < es.len() {
        es[k].2
    } else {
        s.selected
    }
}

/// The entries with every value of group `g` cleared.
pub open spec fn cleared(es: Seq<(Seq<char>, Seq<char>, bool)>, g: Seq<char>) -> Seq<(Seq<char>, Seq<char>, bool)> {
    es.map_values(|e: (Seq<char>, Seq<char>, bool)| if e.0 == g { (e.0, e.1, false) } else { e })
}

/// The entries with group `g` and value `v` remembered as `b`: the first
/// entry for them updated, or a new one at the end.
pub open spec fn remembered(es: Seq<(Seq<char>, Seq<char>, bool)>, g: Seq<char>, v: Seq<char>, b: bool) -> Seq<
    (Seq<char>, Seq<char>, bool),
> {
    let k = selection_index(es, g, v, 0);
    if k < es.len() {
        es.update(k, (g, v, b))
    } else {
        es.push((g, v, b))
    }
}

/// The state an activation moves a selection link to: a selected toggle
/// clears, a selected radio stays selected, an unselected one selects.
pub open spec fn toggled(current: bool, s: LinkSelection) -> bool {
    if current {
        !s.toggle
    } else {
        true
    }
}

proof fn lemma_selection_index(es: Seq<(Seq<char>, Seq<char>, bool)>, g: Seq<char>, v: Seq<char>, i: int)
    requires
        0 <= i <= es.len(),
    ensures
        i <= selection_index(es, g, v, i) <= es.len(),
        selection_index(es, g, v, i) < es.len() ==> es[selection_index(es, g, v, i)].0 == g
            && es[selection_index(es, g, v, i)].1 == v,
        forall|j: int| i <= j < selection_index(es, g, v, i) ==> !(es[j].0 == g && es[j].1 == v),
    decreases es.len() - i,
{
    if i < es.len() && !(es[i].0 == g && es[i].1 == v) {
        lemma_selection_index(es, g, v, i + 1);
    }
}

/// Clearing a group keeps every entry's group and value, so lookups find
/// the same entries.
proof fn lemma_cleared_index(es: Seq<(Seq<char>, Seq<char>, bool)>, g: Seq<char>, g2: Seq<char>, v: Seq<char>, i: int)
    requires
        0 <= i <= es.len(),
    ensures
        selection_index(cleared(es, g), g2, v, i) == selection_index(es, g2, v, i),
    decreases es.len() - i,
{
    if i < es.len() {
        lemma_cleared_index(es, g, g2, v, i + 1);
    }
}

/// The selections a pane remembers, group and value to state, in the
/// order they were first remembered.
pub struct SelectionMemory {
    entries: Vec<(String, String, bool)>,
}

impl SelectionMemory {
    pub closed spec fn view(&self) -> Seq<(Seq<char>, Seq<char>, bool)> {
        self.entries@.map_values(|e: (String, String, bool)| (e.0@, e.1@, e.2))
    }

    /// Nothing remembered.
    pub fn new() -> (r: Self)
        ensures
            r.view() == Seq::<(Seq<char>, Seq<char>, bool)>::empty(),
    {
        let r = SelectionMemory { entries: Vec::new() };
        assert(r.view() =~= Seq::<(Seq<char>, Seq<char>, bool)>::empty());
        r
    }

    fn find(&self, g: &str, v: &str) -> (r: usize)
        ensures
            r == selection_index(self.view(), g@, v@, 0),
    {
        let ghost es = self.view();
        let mut i: usize = 0;
        while i < self.entries.len()
            invariant
                es == self.view(),
                i <= es.len(),
                selection_index(es, g@, v@, 0) == selection_index(es, g@, v@, i as int),
            decreases es.len() - i,
        {
            let e = &self.entries[i];
            assert(es[i as int] == (e.0@, e.1@, e.2));
            if str_eq(e.0.as_str(), g) && str_eq(e.1.as_str(), v) {
                return i;
            }
            i += 1;
        }
        i
    }

    /// Whether a link with selection `s` shows as selected.
    pub fn selected(&self, s: &LinkSelection) -> (r: bool)
        ensures
            r == recalled(self.view(), *s),
    {
        let k = self.find(s.group.as_str(), s.value.as_str());
        if k < self.entries.len() {
            self.entries[k].2
        } else {
            s.selected
        }
    }

    /// Clear every remembered value of group `g`.
    fn clear_group(&mut self, g: &str)
        ensures
            final(self).view() == cleared(old(self).view(), g@),
    {
        let ghost es = old(self).view();
        let mut i: usize = 0;
        while i < self.entries.len()
            invariant
                i <= self.entries@.len(),
                self.entries@.len() == es.len(),
                forall|j: int| 0 <= j < i ==> #[trigger] self.view()[j] == cleared(es, g@)[j],
                forall|j: int| i <= j < es.len() ==> #[trigger] self.view()[j] == es[j],
            decreases self.entries@.len() - i,
        {
            let ghost before = self.view();
            assert(before[i as int] == es[i as int]);
            if str_eq(self.entries[i].0.as_str(), g) {
                let group = self.entries[i].0.clone();
                let value = self.entries[i].1.clone();
                self.entries.set(i, (group, value, false));
                assert(self.view() =~= before.update(i as int, cleared(es, g@)[i as int]));
            } else {
                assert(cleared(es, g@)[i as int] == es[i as int]);
            }
            i += 1;
        }
        assert(self.view() =~= cleared(es, g@));
    }

    /// Remember group `g` and value `v` as `b`.
    fn remember(&mut self, g: &str, v: &str, b: bool)
        ensures
            final(self).view() == remembered(old(self).view(), g@, v@, b),
    {
        let ghost es = self.view();
        let k = self.find(g, v);
        proof {
            lemma_selection_index(es, g@, v@, 0);
        }
        let entry = (String::from_str(g), String::from_str(v), b);
        if k < self.entries.len() {
            self.entries.set(k, entry);
            assert(self.view() =~= es.update(k as int, (g@, v@, b)));
        } else {
            self.entries.push(entry);
            assert(self.view() =~= es.push((g@, v@, b)));
        }
    }

    /// Activate the selection link `s`: an inert link keeps its state; any
    /// other moves to its toggled state, and one that becomes selected in
    /// an exclusive group first clears the group. Returns the new state.
    pub fn toggle_link_selection(&mut self, s: &LinkSelection) -> (r: bool)
        ensures
            r == if s.disabled {
                recalled(old(self).view(), *s)
            } else {
                toggled(recalled(old(self).view(), *s), *s)
            },
            final(self).view() == if s.disabled {
                old(self).view()
            } else if r && s.exclusive {
                remembered(cleared(old(self).view(), s.group@), s.group@, s.value@, r)
            } else {
                remembered(old(self).view(), s.group@, s.value@, r)
            },
    {
        let current = self.selected(s);
        if s.disabled {
            return current;
        }
        let next = if current {
            !s.toggle
        } else {
            true
        };
        if next && s.exclusive {
            self.clear_group(s.group.as_str());
        }
        self.remember(s.group.as_str(), s.value.as_str(), next);
        next
    }

    /// Register the selection link `s` when it first appears: its initial
    /// state is remembered unless something already is, and an initially
    /// selected exclusive link first clears its group.
    pub fn ensure_selection(&mut self, s: &LinkSelection)
        ensures
            final(self).view() == if selection_index(old(self).view(), s.group@, s.value@, 0) < old(self).view().len() {
                old(self).view()
            } else if s.selected && s.exclusive {
                cleared(old(self).view(), s.group@).push((s.group@, s.value@, s.selected))
            } else {
                old(self).view().push((s.group@, s.value@, s.selected))
            },
    {
        let ghost es = self.view();
        let k = self.find(s.group.as_str(), s.value.as_str());
        if k < self.entries.len() {
            return;
        }
        if s.selected && s.exclusive {
            self.clear_group(s.group.as_str());
        }
        proof {
            lemma_cleared_index(es, s.group@, s.group@, s.value@, 0);
        }
        self.remember(s.group.as_str(), s.value.as_str(), s.selected);
    }

    /// After an activation selects an exclusive link, it shows as selected
    /// and no other value of its group does.
    pub proof fn lemma_exclusive_toggle(before: Self, after: Self, s: LinkSelection, r: bool)
        requires
            !s.disabled,
            s.exclusive,
            r == toggled(recalled(before.view(), s), s),
            r,
            after.view() == remembered(cleared(before.view(), s.group@), s.group@, s.value@, r),
        ensures
            recalled(after.view(), s),
            forall|i: int|
                0 <= i < after.view().len() && after.view()[i].0 == s.group@ && after.view()[i].2
                    ==> after.view()[i].1 == s.value@,
    {
        let c = cleared(before.view(), s.group@);
        lemma_selection_index(c, s.group@, s.value@, 0);
        let k = selection_index(c, s.group@, s.value@, 0);
        let a = after.view();
        if k < c.len() {
            assert(a == c.update(k, (s.group@, s.value@, true)));
            lemma_selection_index(a, s.group@, s.value@, 0);
            assert forall|j: int| 0 <= j < k implies !(a[j].0 == s.group@ && a[j].1 == s.value@) by {
                assert(a[j] == c[j]);
            }
            lemma_selection_index_is(a, s.group@, s.value@, k);
        } else {
            assert(a == c.push((s.group@, s.value@, true)));
            assert forall|j: int| 0 <= j < c.len() implies !(a[j].0 == s.group@ && a[j].1 == s.value@) by {
                assert(a[j] == c[j]);
            }
            lemma_selection_index_is(a, s.group@, s.value@, c.len() as int);
        }
        assert forall|i: int| 0 <= i < a.len() && a[i].0 == s.group@ && a[i].2 implies a[i].1 == s.value@ by {
            if i != k && i < c.len() {
                assert(a[i] == c[i]);
                assert(c[i] == (if before.view()[i].0 == s.group@ {
                    (before.view()[i].0, before.view()[i].1, false)
                } else {
                    before.view()[i]
                }));
            }
        }
    }
}

/// A lookup that finds no match before `k`, and one at `k`, returns `k`.
proof fn lemma_selection_index_is(es: Seq<(Seq<char>, Seq<char>, bool)>, g: Seq<char>, v: Seq<char>, k: int)
    requires
        0 <= k < es.len(),
        es[k].0 == g && es[k].1 == v,
        forall|j: int| 0 <= j < k ==> !(es[j].0 == g && es[j].1 == v),
    ensures
        selection_index(es, g, v, 0) == k,
{
    lemma_selection_index_from(es, g, v, 0, k);
}

proof fn lemma_selection_index_from(es: Seq<(Seq<char>, Seq<char>, bool)>, g: Seq<char>, v: Seq<char>, i: int, k: int)
    requires
        0 <= i <= k < es.len(),
        es[k].0 == g && es[k].1 == v,
        forall|j: int| i <= j < k ==> !(es[j].0 == g && es[j].1 == v),
    ensures
        selection_index(es, g, v, i) == k,
    decreases k - i,
{
    if i < k {
        lemma_selection_index_from(es, g, v, i + 1, k);
    }
}

// ----------------------------------------------------------------------
// Visited link targets
// ----------------------------------------------------------------------

/// The link targets a pane has followed, each once, in the order first
/// followed. Links are visited by what they disclose, so two spans that
/// lead to the same place share the state.
pub struct VisitedTargets<A> {
    targets: Vec<A>,
}

impl<A: PartialEq + Copy> VisitedTargets<A> {
    pub closed spec fn view(&self) -> Seq<A> {
        self.targets@
    }

    /// Nothing followed yet.
    pub fn new() -> (r: Self)
        ensures
            r.view() == Seq::<A>::empty(),
    {
        VisitedTargets { targets: Vec::new() }
    }

    /// How many distinct targets were followed.
    pub fn len(&self) -> (r: usize)
        ensures
            r == self.view().len(),
    {
        self.targets.len()
    }

    /// Whether the link disclosing `target` was followed; a link that
    /// discloses nothing never was.
    pub fn visited(&self, target: Option<&A>) -> (r: bool)
        requires
            vstd::laws_eq::obeys_concrete_eq::<A>(),
        ensures
            r == (target matches Some(t) && self.view().contains(*t)),
    {
        let t = match target {
            Some(t) => t,
            None => return false,
        };
        let mut i: usize = 0;
        while i < self.targets.len()
            invariant
                vstd::laws_eq::obeys_concrete_eq::<A>(),
                target == Some(t),
                i <= self.targets@.len(),
                forall|j: int| 0 <= j < i ==> self.targets@[j] != *t,
            decreases self.targets@.len() - i,
        {
            if same_binding(&self.targets[i], t) {
                assert(self.view()[i as int] == *t);
                return true;
            }
            i += 1;
        }
        false
    }

    /// Remember that the link disclosing `target` was followed.
    pub fn mark_visited(&mut self, target: Option<&A>)
        requires
            vstd::laws_eq::obeys_concrete_eq::<A>(),
        ensures
            final(self).view() == match target {
                Some(t) => if old(self).view().contains(*t) {
                    old(self).view()
                } else {
                    old(self).view().push(*t)
                },
                None => old(self).view(),
            },
    {
        if self.visited(target) {
            return;
        }
        if let Some(t) = target {
            self.targets.push(*t);
        }
    }
}

// ----------------------------------------------------------------------
// Link focus bookkeeping
// ----------------------------------------------------------------------

/// Whether `key` is among `live`.
pub open spec fn is_live<K>(live: Seq<K>, key: Option<K>) -> bool {
    key matches Some(k) && live.contains(k)
}

/// `key` when it is still live, else nothing.
pub open spec fn kept_key<K>(live: Seq<K>, key: Option<K>) -> Option<K> {
    if is_live(live, key) {
        key
    } else {
        None
    }
}

/// Which link instance the pointer hovers, presses and keyboard-focuses,
/// and the epochs the pane has already answered.
#[derive(Debug, Clone)]
pub struct LinkFocus<K> {
    pub is_focused: bool,
    pub hovered: Option<K>,
    pub active: Option<K>,
    pub focused: Option<K>,
    pub focus_visible: bool,
    pub seen_reset_epoch: u64,
    /// Bumped whenever link styling must be recomputed.
    pub generation: u64,
}

impl<K: Copy + PartialEq> LinkFocus<K> {
    /// No focus, nothing hovered or pressed.
    pub fn new() -> (r: Self)
        ensures
            !r.is_focused,
            r.hovered is None,
            r.active is None,
            r.focused is None,
            !r.focus_visible,
            r.seen_reset_epoch == 0,
            r.generation == 0,
    {
        LinkFocus {
            is_focused: false,
            hovered: None,
            active: None,
            focused: None,
            focus_visible: false,
            seen_reset_epoch: 0,
            generation: 0,
        }
    }

    /// The link the keyboard ring is drawn on: the focused one, while focus
    /// is shown.
    pub fn keyboard_focused_link(&self) -> (r: Option<K>)
        ensures
            r == if self.focus_visible {
                self.focused
            } else {
                None
            },
    {
        if self.focus_visible {
            self.focused
        } else {
            None
        }
    }

    /// Answer a new link-navigation reset epoch (raised when the command
    /// input takes focus): the pane drops its focus, the focused link and
    /// the focus ring, restyling its links if any of them was set. An
    /// epoch already answered changes nothing.
    pub fn process_link_navigation_reset(&mut self, epoch: u64)
        ensures
            epoch == old(self).seen_reset_epoch ==> *final(self) == *old(self),
            epoch != old(self).seen_reset_epoch ==> {
                let changed = old(self).is_focused || old(self).focused is Some || old(self).focus_visible;
                &&& final(self).seen_reset_epoch == epoch
                &&& !final(self).is_focused
                &&& final(self).focused is None
                &&& !final(self).focus_visible
                &&& final(self).hovered == old(self).hovered
                &&& final(self).active == old(self).active
                &&& final(self).generation == if changed {
                    (old(self).generation + 1) % 0x1_0000_0000_0000_0000
                } else {
                    old(self).generation as int
                }
            },
    {
        if epoch == self.seen_reset_epoch {
            return;
        }
        self.seen_reset_epoch = epoch;
        let changed = self.is_focused || self.focused.is_some() || self.focus_visible;
        self.is_focused = false;
        self.focused = None;
        self.focus_visible = false;
        if changed {
            self.generation = self.generation.wrapping_add(1);
        }
    }

    /// Forget the hovered, pressed and focused links that are no longer
    /// live; losing the focused link also hides the focus ring.
    pub fn prune_link_instances(&mut self, live: &[K])
        requires
            vstd::laws_eq::obeys_concrete_eq::<K>(),
        ensures
            final(self).hovered == kept_key(live@, old(self).hovered),
            final(self).active == kept_key(live@, old(self).active),
            final(self).focused == kept_key(live@, old(self).focused),
            final(self).focus_visible == (old(self).focus_visible && is_live(live@, old(self).focused)),
            final(self).is_focused == old(self).is_focused,
            final(self).seen_reset_epoch == old(self).seen_reset_epoch,
            final(self).generation == old(self).generation,
    {
        if !holds_key(live, self.hovered) {
            self.hovered = None;
        }
        if !holds_key(live, self.active) {
            self.active = None;
        }
        if !holds_key(live, self.focused) {
            self.focused = None;
            self.focus_visible = false;
        }
    }
}

/// Whether `key` is among `live`, computed.
fn holds_key<K: Copy + PartialEq>(live: &[K], key: Option<K>) -> (r: bool)
    requires
        vstd::laws_eq::obeys_concrete_eq::<K>(),
    ensures
        r == is_live(live@, key),
{
    let k = match key {
        Some(k) => k,
        None => return false,
    };
    let mut i: usize = 0;
    while i < live.len()
        invariant
            vstd::laws_eq::obeys_concrete_eq::<K>(),
            key == Some(k),
            i <= live@.len(),
            forall|j: int| 0 <= j < i ==> live@[j] != k,
        decreases live@.len() - i,
    {
        if same_binding(&live[i], &k) {
            assert(live@[i as int] == k);
            return true;
        }
        i += 1;
    }
    false
}

/// The entries of a per-instance map whose key is still live, in order.
pub open spec fn live_entries<K, V>(entries: Seq<(K, V)>, live: Seq<K>) -> Seq<(K, V)> {
    entries.filter(|e: (K, V)| live.contains(e.0))
}

/// Keep only the entries of a per-instance map whose key is still live.
pub fn retain_live<K: Copy + PartialEq, V>(entries: Vec<(K, V)>, live: &[K]) -> (r: Vec<(K, V)>)
    requires
        vstd::laws_eq::obeys_concrete_eq::<K>(),
    ensures
        r@ == live_entries(entries@, live@),
{
    let ghost orig = entries@;
    let mut rest = entries;
    let mut out: Vec<(K, V)> = Vec::new();
    let ghost mut i: int = 0;
    assert(orig.take(0).filter(|e: (K, V)| live@.contains(e.0)) =~= Seq::<(K, V)>::empty());
    while rest.len() > 0
        invariant
            vstd::laws_eq::obeys_concrete_eq::<K>(),
            0 <= i <= orig.len(),
            rest@ == orig.subrange(i, orig.len() as int),
            out@ == orig.take(i).filter(|e: (K, V)| live@.contains(e.0)),
        decreases rest@.len(),
    {
        let e = rest.remove(0);
        proof {
            assert(e == orig[i]);
            assert(orig.take(i + 1) =~= orig.take(i).push(e));
            orig.take(i).lemma_filter_push(e, |e: (K, V)| live@.contains(e.0));
        }
        if holds_key(live, Some(e.0)) {
            out.push(e);
        }
        proof {
            assert(rest@ =~= orig.subrange(i + 1, orig.len() as int));
            i = i + 1;
        }
    }
    assert(orig.take(i) =~= orig);
    out
}

// ----------------------------------------------------------------------
// Clicks and hover tooltips
// ----------------------------------------------------------------------

/// Whether a release activates a link: it must land on the very cell the
/// press landed on (a drag ends elsewhere, and content scrolling under a
/// still pointer moves the release to another line).
pub fn click_activates<P: PartialEq>(pressed: Option<P>, released_on: Option<P>) -> (r: bool)
    requires
        vstd::laws_eq::obeys_concrete_eq::<P>(),
    ensures
        r == (pressed is Some && released_on == pressed),
{
    match (pressed, released_on) {
        (Some(p), Some(q)) => same_binding(&p, &q),
        _ => false,
    }
}

/// The pressed cell after the pointer moved to `hit`: leaving the cell (or
/// the pane) turns the press into a drag, so it is forgotten.
pub fn keep_press<P: PartialEq>(pressed: Option<P>, hit: Option<P>) -> (r: Option<P>)
    requires
        vstd::laws_eq::obeys_concrete_eq::<P>(),
    ensures
        r == if pressed is Some && hit != pressed {
            None
        } else {
            pressed
        },
{
    match (pressed, hit) {
        (Some(p), Some(q)) => if same_binding(&p, &q) {
            Some(p)
        } else {
            None
        },
        (Some(_), None) => None,
        (None, _) => None,
    }
}

/// The hover tooltip of the link under the pointer: waiting for its delay
/// since `at`, or open.
#[derive(Debug, Clone, PartialEq, Eq)]
pub enum TooltipHover<L, I> {
    Waiting { link: L, at: I },
    Open(L),
}

/// When the pane must draw again after a hover step, besides at once.
#[derive(Debug, Clone, Copy, PartialEq, Eq, Structural)]
pub enum RedrawLater {
    Never,
    /// After the full tooltip delay from now.
    AfterDelay,
    /// After what is left of the delay of the waiting tooltip.
    AfterRemaining,
}

pub open spec fn hover_link<L, I>(h: TooltipHover<L, I>) -> L {
    match h {
        TooltipHover::Waiting { link, .. } => link,
        TooltipHover::Open(link) => link,
    }
}

/// Starting a tooltip on `link`: open at once with no delay, else waiting
/// from `now`.
pub open spec fn spec_begin_hover<L, I>(link: L, no_delay: bool, now: I) -> (TooltipHover<L, I>, bool, RedrawLater) {
    if no_delay {
        (TooltipHover::Open(link), true, RedrawLater::Never)
    } else {
        (TooltipHover::Waiting { link, at: now }, false, RedrawLater::AfterDelay)
    }
}

/// One hover step: the new tooltip state, whether to draw at once, and
/// when to draw later. Leaving every link closes the tooltip; a new link
/// starts over; a waiting tooltip opens once its delay has run
/// (`delay_passed`, measured from its `at`); an open one stays open,
/// following the pointer.
pub open spec fn spec_hover_step<L, I>(
    previous: Option<TooltipHover<L, I>>,
    hovered: Option<L>,
    no_delay: bool,
    now: I,
    delay_passed: bool,
    cursor_moved: bool,
) -> (Option<TooltipHover<L, I>>, bool, RedrawLater) {
    match (previous, hovered) {
        (None, None) => (None, false, RedrawLater::Never),
        (Some(p), None) => (None, p is Open, RedrawLater::Never),
        (None, Some(link)) => {
            let (h, n, l) = spec_begin_hover(link, no_delay, now);
            (Some(h), n, l)
        },
        (Some(p), Some(link)) => if hover_link(p) != link {
            let (h, n, l) = spec_begin_hover(link, no_delay, now);
            (Some(h), n || p is Open, l)
        } else {
            match p {
                TooltipHover::Waiting { at, .. } => if delay_passed {
                    (Some(TooltipHover::Open(link)), true, RedrawLater::Never)
                } else {
                    (Some(TooltipHover::Waiting { link, at }), false, RedrawLater::AfterRemaining)
                },
                TooltipHover::Open(_) => (Some(TooltipHover::Open(link)), cursor_moved, RedrawLater::Never),
            }
        },
    }
}

fn begin_hover<L, I>(link: L, no_delay: bool, now: I) -> (r: (TooltipHover<L, I>, bool, RedrawLater))
    ensures
        r == spec_begin_hover(link, no_delay, now),
{
    if no_delay {
        (TooltipHover::Open(link), true, RedrawLater::Never)
    } else {
        (TooltipHover::Waiting { link, at: now }, false, RedrawLater::AfterDelay)
    }
}

/// Advance the hover tooltip (see [`spec_hover_step`]).
pub fn hover_step<L: PartialEq, I>(
    previous: Option<TooltipHover<L, I>>,
    hovered: Option<L>,
    no_delay: bool,
    now: I,
    delay_passed: bool,
    cursor_moved: bool,
) -> (r: (Option<TooltipHover<L, I>>, bool, RedrawLater))
    requires
        vstd::laws_eq::obeys_concrete_eq::<L>(),
    ensures
        r == spec_hover_step(previous, hovered, no_delay, now, delay_passed, cursor_moved),
{
    match previous {
        None => match hovered {
            None => (None, false, RedrawLater::Never),
            Some(link) => {
                let (h, n, l) = begin_hover(link, no_delay, now);
                (Some(h), n, l)
            },
        },
        Some(p) => {
            let was_open = match &p {
                TooltipHover::Open(_) => true,
                TooltipHover::Waiting { .. } => false,
            };
            match hovered {
                None => (None, was_open, RedrawLater::Never),
                Some(link) => {
                    let same = match &p {
                        TooltipHover::Waiting { link: old, .. } => same_binding(old, &link),
                        TooltipHover::Open(old) => same_binding(old, &link),
                    };
                    if !same {
                        let (h, n, l) = begin_hover(link, no_delay, now);
                        (Some(h), n || was_open, l)
                    } else {
                        match p {
                            TooltipHover::Waiting { at, .. } => if delay_passed {
                                (Some(TooltipHover::Open(link)), true, RedrawLater::Never)
                            } else {
                                (Some(TooltipHover::Waiting { link, at }), false, RedrawLater::AfterRemaining)
                            },
                            TooltipHover::Open(_) => (Some(TooltipHover::Open(link)), cursor_moved, RedrawLater::Never),
                        }
                    }
                },
            }
        },
    }
}

// ----------------------------------------------------------------------
// Blinking text
// ----------------------------------------------------------------------

/// Half the period of slow SGR blinking (SGR 5), in milliseconds.
pub const SLOW_BLINK_HALF_PERIOD_MS: u128 = 500;

/// Half the period of fast SGR blinking (SGR 6), in milliseconds.
pub const FAST_BLINK_HALF_PERIOD_MS: u128 = 250;

/// A span's SGR blink attribute.
#[derive(Debug, Clone, Copy, PartialEq, Eq, Structural)]
pub enum Blink {
    Steady,
    Slow,
    Fast,
}

/// Whether text blinking with half period `half_period_ms` shows
/// `elapsed_ms` after the pane's blink epoch: shown in even half periods,
/// hidden in odd ones.
pub fn blink_visible(elapsed_ms: u128, half_period_ms: u128) -> (r: bool)
    requires
        half_period_ms > 0,
    ensures
        r == ((elapsed_ms / half_period_ms) % 2 == 0),
{
    (elapsed_ms / half_period_ms) % 2 == 0
}

/// Whether a span blinking at `blink` is hidden while the slow and fast
/// rates are in their hidden phases as given.
pub fn blink_hidden(blink: Blink, hide_slow: bool, hide_fast: bool) -> (r: bool)
    ensures
        r == spec_blink_hidden(blink, hide_slow, hide_fast),
{
    match blink {
        Blink::Steady => false,
        Blink::Slow => hide_slow,
        Blink::Fast => hide_fast,
    }
}

/// The milliseconds until the next phase change of the blink rates in use,
/// `elapsed_ms` after the epoch (`u128::MAX` with none in use).
pub open spec fn spec_next_blink_ms(elapsed_ms: u128, slow: bool, fast: bool) -> u128 {
    let s = if slow {
        (SLOW_BLINK_HALF_PERIOD_MS - elapsed_ms % SLOW_BLINK_HALF_PERIOD_MS) as u128
    } else {
        u128::MAX
    };
    let f = if fast {
        (FAST_BLINK_HALF_PERIOD_MS - elapsed_ms % FAST_BLINK_HALF_PERIOD_MS) as u128
    } else {
        u128::MAX
    };
    if s <= f {
        s
    } else {
        f
    }
}

/// When the pane must draw again for the blink rates in use: the next
/// phase change of either.
pub fn next_blink_ms(elapsed_ms: u128, slow: bool, fast: bool) -> (r: u128)
    ensures
        r == spec_next_blink_ms(elapsed_ms, slow, fast),
        slow || fast ==> 0 < r <= SLOW_BLINK_HALF_PERIOD_MS,
{
    let mut next: u128 = u128::MAX;
    if slow {
        let s = SLOW_BLINK_HALF_PERIOD_MS - elapsed_ms % SLOW_BLINK_HALF_PERIOD_MS;
        if s < next {
            next = s;
        }
    }
    if fast {
        let f = FAST_BLINK_HALF_PERIOD_MS - elapsed_ms % FAST_BLINK_HALF_PERIOD_MS;
        if f < next {
            next = f;
        }
    }
    next
}

/// Whether a span with blink attribute `blink` hides, given which rates are
/// in their hidden half-period.
pub open spec fn spec_blink_hidden(blink: Blink, hide_slow: bool, hide_fast: bool) -> bool {
    match blink {
        Blink::Steady => false,
        Blink::Slow => hide_slow,
        Blink::Fast => hide_fast,
    }
}

/// Which spans of a line hide under the current blink phases, by each
/// span's blink attribute; `None` when none does, so the line's ordinary
/// rendering serves.
pub fn hidden_blink_spans(blinks: &[Blink], hide_slow: bool, hide_fast: bool) -> (r: Option<Vec<bool>>)
    ensures
        match r {
            Some(mask) => {
                &&& mask@.len() == blinks@.len()
                &&& forall|i: int| 0 <= i < blinks@.len()
                    ==> #[trigger] mask@[i] == spec_blink_hidden(blinks@[i], hide_slow, hide_fast)
                &&& exists|i: int| 0 <= i < mask@.len() && #[trigger] mask@[i]
            },
            None => forall|i: int| 0 <= i < blinks@.len()
                ==> !spec_blink_hidden(#[trigger] blinks@[i], hide_slow, hide_fast),
        },
{
    let mut mask: Vec<bool> = Vec::new();
    let mut changed = false;
    let mut i: usize = 0;
    while i < blinks.len()
        invariant
            i <= blinks@.len(),
            mask@.len() == i,
            forall|j: int| 0 <= j < i
                ==> #[trigger] mask@[j] == spec_blink_hidden(blinks@[j], hide_slow, hide_fast),
            changed == exists|j: int| 0 <= j < i && #[trigger] mask@[j],
        decreases blinks@.len() - i,
    {
        let hide = blink_hidden(blinks[i], hide_slow, hide_fast);
        let ghost before = mask@;
        mask.push(hide);
        assert(forall|j: int| 0 <= j < i ==> mask@[j] == before[j]);
        if hide {
            assert(mask@[i as int]);
            changed = true;
        } else if changed {
            let ghost w = choose|j: int| 0 <= j < i && before[j];
            assert(mask@[w]);
        } else {
            assert forall|j: int| 0 <= j < i + 1 implies !mask@[j] by {
                if j < i {
                    assert(!before[j]);
                }
            }
        }
        i += 1;
    }
    if changed {
        Some(mask)
    } else {
        assert forall|j: int| 0 <= j < blinks@.len()
            implies !spec_blink_hidden(#[trigger] blinks@[j], hide_slow, hide_fast) by {
            assert(mask@[j] == spec_blink_hidden(blinks@[j], hide_slow, hide_fast));
        }
        None
    }
}

/// How often the loading tooltip's spinner advances, in milliseconds.
pub const TOOLTIP_SPINNER_FRAME_MS: u64 = 100;

/// The spinner glyph of frame `frame`: `|`, `/`, `-`, `\\` in turn.
pub open spec fn spinner_glyph(frame: usize) -> char {
    let k = frame % 4;
    if k == 0 {
        '|'
    } else if k == 1 {
        '/'
    } else if k == 2 {
        '-'
    } else {
        '\\'
    }
}

/// The loading tooltip shown while a link's tooltip copy is requested: the
/// spinner glyph of `frame`, a space, and the (translated) loading label;
/// the disclosed target stays as it is.
pub fn loading_tooltip_display(frame: usize, label: &str, target: Option<String>) -> (r: (String, Option<String>))
    ensures
        r.0@ == seq![spinner_glyph(frame), ' '] + label@,
        r.1 == target,
{
    let k = frame % 4;
    let glyph = if k == 0 {
        '|'
    } else if k == 1 {
        '/'
    } else if k == 2 {
        '-'
    } else {
        '\\'
    };
    let mut chars: Vec<char> = Vec::new();
    chars.push(glyph);
    chars.push(' ');
    let rest = chars_of(label);
    let mut i: usize = 0;
    while i < rest.len()
        invariant
            i <= rest@.len(),
            rest@ == label@,
            chars@ == seq![glyph, ' '] + label@.take(i as int),
        decreases rest@.len() - i,
    {
        chars.push(rest[i]);
        i += 1;
        assert(chars@ =~= seq![glyph, ' '] + label@.take(i as int));
    }
    assert(label@.take(label@.len() as int) =~= label@);
    (string_from_chars(chars.as_slice()), target)
}

/// What releasing the pointer over a link does.
#[derive(Debug, Clone, PartialEq, Eq)]
pub enum LinkRelease {
    /// Not a click on a link: nothing.
    Ignore,
    /// The click revealed a spoiler for the first time: nothing more.
    Reveal,
    /// The click activates this action (the link is marked visited).
    Activate(ServerAction),
    /// The click opens the link's menu at the pointer.
    OpenMenu,
}

/// Whether a release completes a click on a link: the press and the
/// release resolve to the same cell, links are handled and the buffer has
/// some, and a link covers the cell.
pub open spec fn spec_link_clicked<P>(
    pressed: Option<P>,
    released_on: Option<P>,
    handles_links: bool,
    has_links: bool,
    on_link: bool,
) -> bool {
    pressed is Some && released_on == pressed && handles_links && has_links && on_link
}

/// The pointer is released over `released_on` with `pressed` the cell the
/// press began on. The press is consumed either way. A click on a link
/// (see `spec_link_clicked`) that reveals a spoiler for the first time
/// does nothing more; otherwise it activates the link's primary action,
/// carrying the link's selection state (`selected`, after the click
/// toggled it) as a `selected` query flag when the link has no menu; a
/// link without a primary action whose menu opens on a left click opens
/// its menu. Anything else does nothing.
pub fn release_step<P: PartialEq>(
    pressed: Option<P>,
    released_on: Option<P>,
    handles_links: bool,
    has_links: bool,
    on_link: bool,
    first_spoiler_reveal: bool,
    primary: Option<ServerAction>,
    selected: Option<bool>,
    has_menu: bool,
    menu_on_left_click: bool,
) -> (r: (Option<P>, LinkRelease))
    requires
        vstd::laws_eq::obeys_concrete_eq::<P>(),
    ensures
        r.0 is None,
        !spec_link_clicked(pressed, released_on, handles_links, has_links, on_link) ==> r.1 == LinkRelease::Ignore,
        spec_link_clicked(pressed, released_on, handles_links, has_links, on_link) ==> {
            if first_spoiler_reveal {
                r.1 == LinkRelease::Reveal
            } else {
                match primary {
                    Some(a) => r.1 matches LinkRelease::Activate(b) && if selected is Some && !has_menu {
                        &&& b.view_pair().0 == a.view_pair().0
                        &&& b.view_pair().1 == spec_append_query_flag(
                            a.view_pair().1,
                            "selected"@,
                            selected->0,
                        )
                    } else {
                        b == a
                    },
                    None => r.1 == if menu_on_left_click && has_menu {
                        LinkRelease::OpenMenu
                    } else {
                        LinkRelease::Ignore
                    },
                }
            }
        },
{
    let clicked = click_activates(pressed, released_on) && handles_links && has_links && on_link;
    if !clicked {
        return (None, LinkRelease::Ignore);
    }
    if first_spoiler_reveal {
        return (None, LinkRelease::Reveal);
    }
    match primary {
        Some(action) => {
            let chosen = match selected {
                Some(flag) => if !has_menu {
                    with_selected_callback(action, flag)
                } else {
                    action
                },
                None => action,
            };
            (None, LinkRelease::Activate(chosen))
        },
        None => if menu_on_left_click && has_menu {
            (None, LinkRelease::OpenMenu)
        } else {
            (None, LinkRelease::Ignore)
        },
    }
}

} // verus!
