//! The v1 → v2 area-document migration's decisions: which legacy exits
//! pair into one two-ended connection, which reciprocal-looking links stay
//! one-way, and how a legacy exit's style and colour map onto a
//! connection's appearance.
//!
//! Pairing is conservative and deterministic: two exits pair only when they
//! are distinct, traverse the same two distinct same-area rooms in opposite
//! directions, every present arrival direction matches the partner's
//! departure direction, and each is the other's only such candidate.

use vstd::prelude::*;
use vstd::string::{StrSliceExecFns, StringExecFns};

use crate::text::{spec_trim, starts_with, str_eq, trim, utf8_len, utf8_longer_than};

verus! {

/// The facts of one flattened legacy exit that pairing reads: its origin
/// room, its id (the 128-bit value of its UUID), whether it stays in the
/// area, its destination room, and its directions.
#[derive(Debug, Clone, Copy)]
pub struct PairingExit<D> {
    pub room: i32,
    pub id: u128,
    pub same_area: bool,
    pub to_room: Option<i32>,
    pub from_direction: D,
    pub to_direction: Option<D>,
}

/// Whether `e` and `f` could be the two halves of one connection.
pub open spec fn is_candidate<D>(e: PairingExit<D>, f: PairingExit<D>) -> bool {
    &&& e.id != f.id
    &&& e.same_area
    &&& f.same_area
    &&& e.to_room == Some(f.room)
    &&& f.to_room == Some(e.room)
    &&& e.to_room != Some(e.room)
    &&& (e.to_direction matches Some(d) ==> d == f.from_direction)
    &&& (f.to_direction matches Some(d) ==> d == e.from_direction)
}

/// The number of candidates of exit `i` among the first `n` exits.
pub open spec fn candidate_count<D>(exits: Seq<PairingExit<D>>, i: int, n: int) -> nat
    decreases n,
{
    if n <= 0 {
        0
    } else if is_candidate(exits[i], exits[n - 1]) {
        candidate_count(exits, i, n - 1) + 1
    } else {
        candidate_count(exits, i, n - 1)
    }
}

/// The last candidate of exit `i` among the first `n` exits, if any.
pub open spec fn last_candidate<D>(exits: Seq<PairingExit<D>>, i: int, n: int) -> Option<int>
    decreases n,
{
    if n <= 0 {
        None
    } else if is_candidate(exits[i], exits[n - 1]) {
        Some(n - 1)
    } else {
        last_candidate(exits, i, n - 1)
    }
}

/// Exit `i`'s candidate when it has exactly one.
pub open spec fn sole_candidate<D>(exits: Seq<PairingExit<D>>, i: int) -> Option<int> {
    if candidate_count(exits, i, exits.len() as int) == 1 {
        last_candidate(exits, i, exits.len() as int)
    } else {
        None
    }
}

/// Whether `e` precedes `f` in the primary order: lower origin room, then
/// lower exit id.
pub open spec fn primary_first<D>(e: PairingExit<D>, f: PairingExit<D>) -> bool {
    e.room < f.room || (e.room == f.room && e.id < f.id)
}

/// Whether exit `i` is the primary of a pair with exit `j`: each is the
/// other's sole candidate and `i` comes first in the primary order.
pub open spec fn pairs_with<D>(exits: Seq<PairingExit<D>>, i: int, j: int) -> bool {
    &&& sole_candidate(exits, i) == Some(j)
    &&& candidate_count(exits, j, exits.len() as int) == 1
    &&& primary_first(exits[i], exits[j])
}

/// The pairs among the first `n` exits, primary first, by primary index.
pub open spec fn spec_pairs<D>(exits: Seq<PairingExit<D>>, n: int) -> Seq<(usize, usize)>
    decreases n,
{
    if n <= 0 {
        Seq::empty()
    } else {
        let rest = spec_pairs(exits, n - 1);
        match sole_candidate(exits, n - 1) {
            Some(j) => if pairs_with(exits, n - 1, j) {
                rest.push(((n - 1) as usize, j as usize))
            } else {
                rest
            },
            None => rest,
        }
    }
}

proof fn lemma_last_candidate<D>(exits: Seq<PairingExit<D>>, i: int, n: int)
    requires
        0 <= n <= exits.len(),
    ensures
        match last_candidate(exits, i, n) {
            Some(j) => 0 <= j < n && is_candidate(exits[i], exits[j]),
            None => candidate_count(exits, i, n) == 0,
        },
        candidate_count(exits, i, n) > 0 ==> last_candidate(exits, i, n) is Some,
    decreases n,
{
    if n > 0 {
        lemma_last_candidate(exits, i, n - 1);
    }
}

/// Direction equality for direction types whose `==` is plain value
/// equality.
fn same_direction<D: PartialEq>(x: &D, y: &D) -> (r: bool)
    requires
        vstd::laws_eq::obeys_concrete_eq::<D>(),
    ensures
        r == (*x == *y),
{
    proof {
        reveal(vstd::laws_eq::obeys_concrete_eq);
    }
    *x == *y
}

fn candidate<D: PartialEq>(e: &PairingExit<D>, f: &PairingExit<D>) -> (r: bool)
    requires
        vstd::laws_eq::obeys_concrete_eq::<D>(),
    ensures
        r == is_candidate(*e, *f),
{
    let e_to = match &e.to_direction {
        Some(d) => same_direction(d, &f.from_direction),
        None => true,
    };
    let f_to = match &f.to_direction {
        Some(d) => same_direction(d, &e.from_direction),
        None => true,
    };
    e.id != f.id && e.same_area && f.same_area && e.to_room == Some(f.room) && f.to_room == Some(e.room)
        && e.to_room != Some(e.room) && e_to && f_to
}

/// Exit `i`'s candidate count (capped at 2, all that matters) and last
/// candidate.
fn candidates_of<D: PartialEq>(exits: &[PairingExit<D>], i: usize) -> (r: (usize, Option<usize>))
    requires
        i < exits@.len(),
        vstd::laws_eq::obeys_concrete_eq::<D>(),
    ensures
        r.0 == (if candidate_count(exits@, i as int, exits@.len() as int) < 2 {
            candidate_count(exits@, i as int, exits@.len() as int)
        } else {
            2
        }),
        r.1 == match last_candidate(exits@, i as int, exits@.len() as int) {
            Some(j) => Some(j as usize),
            None => None::<usize>,
        },
{
    let mut count: usize = 0;
    let mut last: Option<usize> = None;
    let mut j: usize = 0;
    while j < exits.len()
        invariant
            i < exits@.len(),
            j <= exits@.len(),
            count == (if candidate_count(exits@, i as int, j as int) < 2 {
                candidate_count(exits@, i as int, j as int)
            } else {
                2
            }),
            last == match last_candidate(exits@, i as int, j as int) {
                Some(k) => Some(k as usize),
                None => None::<usize>,
            },
            vstd::laws_eq::obeys_concrete_eq::<D>(),
        decreases exits@.len() - j,
    {
        if candidate(&exits[i], &exits[j]) {
            if count < 2 {
                count += 1;
            }
            last = Some(j);
        }
        j += 1;
    }
    (count, last)
}

/// The exit pairs of a legacy document, each pair once with its primary
/// (lower origin room, then lower exit id) first, ordered by primary index.
pub fn exit_pairs<D: PartialEq>(exits: &[PairingExit<D>]) -> (r: Vec<(usize, usize)>)
    requires
        vstd::laws_eq::obeys_concrete_eq::<D>(),
    ensures
        r@ == spec_pairs(exits@, exits@.len() as int),
{
    let mut out: Vec<(usize, usize)> = Vec::new();
    let mut i: usize = 0;
    while i < exits.len()
        invariant
            i <= exits@.len(),
            out@ == spec_pairs(exits@, i as int),
            vstd::laws_eq::obeys_concrete_eq::<D>(),
        decreases exits@.len() - i,
    {
        let (count, last) = candidates_of(exits, i);
        proof {
            lemma_last_candidate(exits@, i as int, exits@.len() as int);
        }
        if count == 1 {
            let j = match last {
                Some(j) => j,
                None => {
                    return out;
                },
            };
            let (count_j, _) = candidates_of(exits, j);
            let ei = &exits[i];
            let ej = &exits[j];
            let first = ei.room < ej.room || (ei.room == ej.room && ei.id < ej.id);
            if count_j == 1 && first {
                out.push((i, j));
            }
        }
        i += 1;
    }
    out
}

/// A pair's two exits are each other's only candidate, and no exit is in
/// two pairs.
pub proof fn lemma_pairs_are_exclusive<D>(exits: Seq<PairingExit<D>>, n: int)
    requires
        0 <= n <= exits.len(),
        exits.len() <= usize::MAX,
    ensures
        forall|k: int|
            0 <= k < spec_pairs(exits, n).len() ==> {
                let (i, j) = #[trigger] spec_pairs(exits, n)[k];
                &&& i < n
                &&& pairs_with(exits, i as int, j as int)
                &&& is_candidate(exits[i as int], exits[j as int])
            },
        forall|k1: int, k2: int|
            0 <= k1 < k2 < spec_pairs(exits, n).len() ==> (#[trigger] spec_pairs(exits, n)[k1]).0 < (
            #[trigger] spec_pairs(exits, n)[k2]).0,
    decreases n,
{
    if n > 0 {
        lemma_pairs_are_exclusive(exits, n - 1);
        lemma_last_candidate(exits, n - 1, exits.len() as int);
        let rest = spec_pairs(exits, n - 1);
        let all = spec_pairs(exits, n);
        match sole_candidate(exits, n - 1) {
            Some(j) => {
                if pairs_with(exits, n - 1, j) {
                    assert(all == rest.push(((n - 1) as usize, j as usize)));
                    assert(0 <= j < exits.len());
                    assert forall|k: int| 0 <= k < all.len() implies {
                        let (i, j) = #[trigger] all[k];
                        &&& i < n
                        &&& pairs_with(exits, i as int, j as int)
                        &&& is_candidate(exits[i as int], exits[j as int])
                    } by {
                        if k < rest.len() {
                            assert(all[k] == rest[k]);
                        } else {
                            assert(all[k] == ((n - 1) as usize, j as usize));
                        }
                    }
                    assert forall|k1: int, k2: int| 0 <= k1 < k2 < all.len() implies (#[trigger] all[k1]).0 < (
                    #[trigger] all[k2]).0 by {
                        assert(all[k1] == rest[k1]);
                        if k2 < rest.len() {
                            assert(all[k2] == rest[k2]);
                        } else {
                            assert(all[k2] == ((n - 1) as usize, j as usize));
                            assert(rest[k1].0 < n - 1);
                        }
                    }
                } else {
                    assert(all == rest);
                }
            },
            None => {
                assert(all == rest);
            },
        }
    }
}


/// The style a legacy exit without one carries.
pub fn default_style() -> (r: String)
    ensures
        r@ == "Normal"@,
{
    String::from_str("Normal")
}

/// A connection's routing as a legacy style maps onto it.
#[derive(Debug, Clone, Copy, PartialEq, Eq, Structural)]
pub enum LegacyRouting {
    Simple,
    Stub,
}

/// A connection's dash as a legacy style maps onto it.
#[derive(Debug, Clone, Copy, PartialEq, Eq, Structural)]
pub enum LegacyDash {
    Solid,
    Dashed,
    Dotted,
}

/// `Stub` becomes `Stub` routing; everything else routes `Simple`.
pub fn legacy_routing(style: &str) -> (r: LegacyRouting)
    ensures
        r == if style@ == "Stub"@ {
            LegacyRouting::Stub
        } else {
            LegacyRouting::Simple
        },
{
    if str_eq(style, "Stub") {
        LegacyRouting::Stub
    } else {
        LegacyRouting::Simple
    }
}

/// `Dashed`/`Dotted` keep their dash; everything else is `Solid`.
pub fn legacy_dash(style: &str) -> (r: LegacyDash)
    ensures
        r == if style@ == "Dashed"@ {
            LegacyDash::Dashed
        } else if style@ == "Dotted"@ {
            LegacyDash::Dotted
        } else {
            LegacyDash::Solid
        },
{
    if str_eq(style, "Dashed") {
        LegacyDash::Dashed
    } else if str_eq(style, "Dotted") {
        LegacyDash::Dotted
    } else {
        LegacyDash::Solid
    }
}

pub open spec fn ascii_hex_digit(c: char) -> bool {
    ('0' <= c && c <= '9') || ('a' <= c && c <= 'f') || ('A' <= c && c <= 'F')
}

pub open spec fn ascii_alphabetic(c: char) -> bool {
    ('a' <= c && c <= 'z') || ('A' <= c && c <= 'Z')
}

pub open spec fn has_prefix(s: Seq<char>, p: Seq<char>) -> bool {
    p.len() <= s.len() && s.subrange(0, p.len() as int) == p
}

/// A trimmed legacy colour shaped like a hex, named, or functional colour
/// within `max_len` bytes.
pub open spec fn color_survives(t: Seq<char>, max_len: usize) -> bool {
    &&& t.len() > 0
    &&& utf8_len(t, t.len() as int) <= max_len
    &&& {
        ||| (t[0] == '#' && 3 <= t.len() - 1 <= 8 && forall|i: int| 1 <= i < t.len() ==> ascii_hex_digit(#[trigger] t[i]))
        ||| (forall|i: int| 0 <= i < t.len() ==> ascii_alphabetic(#[trigger] t[i]))
        ||| has_prefix(t, "rgb("@)
        ||| has_prefix(t, "rgba("@)
        ||| has_prefix(t, "hsl("@)
        ||| has_prefix(t, "hsla("@)
    }
}

fn all_chars_from(s: &str, from: usize, hex: bool) -> (r: bool)
    requires
        from <= s@.len(),
    ensures
        r == forall|i: int| from <= i < s@.len() ==> (if hex {
            ascii_hex_digit(#[trigger] s@[i])
        } else {
            ascii_alphabetic(s@[i])
        }),
{
    let n = s.unicode_len();
    let mut i: usize = from;
    while i < n
        invariant
            n == s@.len(),
            from <= i <= n,
            forall|j: int| from <= j < i ==> (if hex {
                ascii_hex_digit(#[trigger] s@[j])
            } else {
                ascii_alphabetic(s@[j])
            }),
        decreases n - i,
    {
        let c = s.get_char(i);
        let ok = if hex {
            ('0' <= c && c <= '9') || ('a' <= c && c <= 'f') || ('A' <= c && c <= 'F')
        } else {
            ('a' <= c && c <= 'z') || ('A' <= c && c <= 'Z')
        };
        if !ok {
            return false;
        }
        i += 1;
    }
    true
}

/// The longest colour text, in bytes, a migrated connection keeps.
pub const MAX_CONNECTION_COLOR_LEN: usize = 64;

/// The colour a migrated connection takes when its exit names none that
/// survives.
pub fn default_connection_color() -> (r: String)
    ensures
        r@ == "#9ca3af"@,
{
    String::from_str("#9ca3af")
}

/// A legacy exit colour as its migrated connection keeps it: a trimmed,
/// non-empty value of at most [`MAX_CONNECTION_COLOR_LEN`] bytes shaped like
/// a hex, named, or functional colour survives verbatim; anything else
/// becomes the default connection colour.
pub fn legacy_color(raw: &str) -> (r: String)
    ensures
        r@ == legacy_color_of(raw@, MAX_CONNECTION_COLOR_LEN, "#9ca3af"@),
{
    legacy_color_within(raw, MAX_CONNECTION_COLOR_LEN, "#9ca3af")
}

/// Legacy colour survival under a length limit and a default.
fn legacy_color_within(raw: &str, max_len: usize, default: &str) -> (r: String)
    ensures
        r@ == if color_survives(spec_trim(raw@), max_len) {
            spec_trim(raw@)
        } else {
            default@
        },
{
    let trimmed = trim(raw);
    let n = trimmed.unicode_len();
    if n == 0 || utf8_longer_than(trimmed, max_len) {
        return String::from_str(default);
    }
    let hex = n >= 1 && trimmed.get_char(0) == '#' && n >= 4 && n <= 9 && all_chars_from(trimmed, 1, true);
    let named = all_chars_from(trimmed, 0, false);
    let functional = starts_with(trimmed, "rgb(") || starts_with(trimmed, "rgba(") || starts_with(trimmed, "hsl(")
        || starts_with(trimmed, "hsla(");
    if hex || named || functional {
        String::from_str(trimmed)
    } else {
        String::from_str(default)
    }
}

/// The appearance of a paired connection: per field, the non-default value
/// wins; when both are non-default, the primary exit `e` wins.
pub fn pair_appearance(
    e_style: &str,
    f_style: &str,
    e_color: &str,
    f_color: &str,
) -> (r: (LegacyRouting, LegacyDash, String))
    ensures
        r.0 == if legacy_routing_of(e_style@) == LegacyRouting::Simple {
            legacy_routing_of(f_style@)
        } else {
            legacy_routing_of(e_style@)
        },
        r.1 == if legacy_dash_of(e_style@) == LegacyDash::Solid {
            legacy_dash_of(f_style@)
        } else {
            legacy_dash_of(e_style@)
        },
        r.2@ == if legacy_color_of(e_color@, MAX_CONNECTION_COLOR_LEN, "#9ca3af"@) == "#9ca3af"@ {
            legacy_color_of(f_color@, MAX_CONNECTION_COLOR_LEN, "#9ca3af"@)
        } else {
            legacy_color_of(e_color@, MAX_CONNECTION_COLOR_LEN, "#9ca3af"@)
        },
{
    let e_routing = legacy_routing(e_style);
    let routing = if e_routing == LegacyRouting::Simple {
        legacy_routing(f_style)
    } else {
        e_routing
    };
    let e_dash = legacy_dash(e_style);
    let dash = if e_dash == LegacyDash::Solid {
        legacy_dash(f_style)
    } else {
        e_dash
    };
    let e_col = legacy_color(e_color);
    let color = if str_eq(e_col.as_str(), "#9ca3af") {
        legacy_color(f_color)
    } else {
        e_col
    };
    (routing, dash, color)
}

pub open spec fn legacy_routing_of(style: Seq<char>) -> LegacyRouting {
    if style == "Stub"@ {
        LegacyRouting::Stub
    } else {
        LegacyRouting::Simple
    }
}

pub open spec fn legacy_dash_of(style: Seq<char>) -> LegacyDash {
    if style == "Dashed"@ {
        LegacyDash::Dashed
    } else if style == "Dotted"@ {
        LegacyDash::Dotted
    } else {
        LegacyDash::Solid
    }
}

pub open spec fn legacy_color_of(raw: Seq<char>, max_len: usize, default: Seq<char>) -> Seq<char> {
    if color_survives(spec_trim(raw), max_len) {
        spec_trim(raw)
    } else {
        default
    }
}


/// Whether exit `i` belongs to one of `pairs`.
pub open spec fn in_a_pair(pairs: Seq<(usize, usize)>, i: int) -> bool {
    exists|k: int| 0 <= k < pairs.len() && #[trigger] touches(pairs[k], i)
}

/// Whether the pair holds exit `i`.
pub open spec fn touches(pair: (usize, usize), i: int) -> bool {
    pair.0 == i || pair.1 == i
}

/// Whether some exit other than `e` runs between the same two rooms the
/// other way, directions aside.
pub open spec fn loose_reciprocal<D>(exits: Seq<PairingExit<D>>, e: PairingExit<D>) -> bool {
    exists|j: int|
        0 <= j < exits.len() && #[trigger] exits[j].id != e.id && exits[j].same_area && Some(exits[j].room)
            == e.to_room && exits[j].to_room == Some(e.room)
}

/// Whether unpaired exit `i` looks reciprocal but stayed one-way
/// (ambiguous or contradictory returns).
pub open spec fn stays_one_way<D>(exits: Seq<PairingExit<D>>, pairs: Seq<(usize, usize)>, i: int) -> bool {
    &&& !in_a_pair(pairs, i)
    &&& exits[i].same_area
    &&& exits[i].to_room != Some(exits[i].room)
    &&& loose_reciprocal(exits, exits[i])
}

/// The one-way exits among the first `n`, in order.
pub open spec fn spec_one_way<D>(exits: Seq<PairingExit<D>>, pairs: Seq<(usize, usize)>, n: int) -> Seq<usize>
    decreases n,
{
    if n <= 0 {
        Seq::empty()
    } else if stays_one_way(exits, pairs, n - 1) {
        spec_one_way(exits, pairs, n - 1).push((n - 1) as usize)
    } else {
        spec_one_way(exits, pairs, n - 1)
    }
}

fn pair_member(pairs: &[(usize, usize)], i: usize) -> (r: bool)
    ensures
        r == in_a_pair(pairs@, i as int),
{
    let mut k: usize = 0;
    while k < pairs.len()
        invariant
            k <= pairs@.len(),
            forall|q: int| 0 <= q < k ==> !#[trigger] touches(pairs@[q], i as int),
        decreases pairs@.len() - k,
    {
        if pairs[k].0 == i || pairs[k].1 == i {
            proof {
                assert(touches(pairs@[k as int], i as int));
            }
            return true;
        }
        k += 1;
    }
    false
}

fn has_loose_reciprocal<D>(exits: &[PairingExit<D>], i: usize) -> (r: bool)
    requires
        i < exits@.len(),
    ensures
        r == loose_reciprocal(exits@, exits@[i as int]),
{
    let e = &exits[i];
    let mut j: usize = 0;
    while j < exits.len()
        invariant
            j <= exits@.len(),
            *e == exits@[i as int],
            forall|q: int|
                0 <= q < j ==> !(#[trigger] exits@[q].id != e.id && exits@[q].same_area && Some(exits@[q].room)
                    == e.to_room && exits@[q].to_room == Some(e.room)),
        decreases exits@.len() - j,
    {
        let f = &exits[j];
        if f.id != e.id && f.same_area && Some(f.room) == e.to_room && f.to_room == Some(e.room) {
            return true;
        }
        j += 1;
    }
    false
}

/// The reciprocal-looking exits that stayed one-way: unpaired same-area
/// exits that are not self-loops yet have a loose counterpart running the
/// other way. The migration reports them.
pub fn stayed_one_way<D>(exits: &[PairingExit<D>], pairs: &[(usize, usize)]) -> (r: Vec<usize>)
    ensures
        r@ == spec_one_way(exits@, pairs@, exits@.len() as int),
{
    let mut out: Vec<usize> = Vec::new();
    let mut i: usize = 0;
    while i < exits.len()
        invariant
            i <= exits@.len(),
            out@ == spec_one_way(exits@, pairs@, i as int),
        decreases exits@.len() - i,
    {
        let e = &exits[i];
        if !pair_member(pairs, i) && e.same_area && e.to_room != Some(e.room) && has_loose_reciprocal(exits, i) {
            out.push(i);
        }
        i += 1;
    }
    out
}

/// The kind of connection a migrated exit yields.
#[derive(Debug, Clone, Copy, PartialEq, Eq, Structural)]
pub enum MigratedKind {
    Internal,
    CrossLevel,
    External,
    Dangling,
    SelfLoop,
}

/// A pair's kind: internal on one level, cross-level otherwise.
pub fn pair_kind(a_level: i32, b_level: i32) -> (r: MigratedKind)
    ensures
        r == if a_level == b_level {
            MigratedKind::Internal
        } else {
            MigratedKind::CrossLevel
        },
{
    if a_level == b_level {
        MigratedKind::Internal
    } else {
        MigratedKind::CrossLevel
    }
}

/// An unpaired exit's kind: with no same-area destination it is external
/// when it leaves the area (to an unknown place or another area) and
/// dangling otherwise; a same-area exit back into its own room is a self
/// loop; otherwise it is cross-level when the destination room is known to
/// lie on another level, and internal.
pub fn unpaired_kind(
    same_area: bool,
    room: i32,
    to_room: Option<i32>,
    to_unknown: bool,
    to_other_area: bool,
    origin_level: i32,
    dest_level: Option<i32>,
) -> (r: MigratedKind)
    ensures
        r == if !(same_area && to_room is Some) {
            if to_unknown || (!same_area && to_other_area) {
                MigratedKind::External
            } else {
                MigratedKind::Dangling
            }
        } else if to_room == Some(room) {
            MigratedKind::SelfLoop
        } else if dest_level matches Some(l) && l != origin_level {
            MigratedKind::CrossLevel
        } else {
            MigratedKind::Internal
        },
{
    let has_b = same_area && to_room.is_some();
    if !has_b {
        if to_unknown || (!same_area && to_other_area) {
            MigratedKind::External
        } else {
            MigratedKind::Dangling
        }
    } else if to_room == Some(room) {
        MigratedKind::SelfLoop
    } else {
        match dest_level {
            Some(l) => if l != origin_level {
                MigratedKind::CrossLevel
            } else {
                MigratedKind::Internal
            },
            None => MigratedKind::Internal,
        }
    }
}

/// The same-area destinations among the first `n` exits that no room of
/// `rooms` (nor an earlier placeholder) provides, in exit order.
pub open spec fn missing_destinations<D>(rooms: Seq<i32>, exits: Seq<PairingExit<D>>, n: int) -> Seq<i32>
    decreases n,
{
    if n <= 0 {
        Seq::empty()
    } else {
        let rest = missing_destinations(rooms, exits, n - 1);
        let e = exits[n - 1];
        match e.to_room {
            Some(t) => if e.same_area && !rooms.contains(t) && !rest.contains(t) {
                rest.push(t)
            } else {
                rest
            },
            None => rest,
        }
    }
}

/// The rooms to materialize as blank placeholders: a v1 file can name a
/// same-area destination that is not in the document (the cloud schema
/// forbids this; a local file cannot), and every endpoint must resolve.
/// Each missing room once, in the order exits first name it.
pub fn placeholder_rooms<D>(rooms: &[i32], exits: &[PairingExit<D>]) -> (r: Vec<i32>)
    ensures
        r@ == missing_destinations(rooms@, exits@, exits@.len() as int),
{
    let mut out: Vec<i32> = Vec::new();
    let mut i: usize = 0;
    while i < exits.len()
        invariant
            i <= exits@.len(),
            out@ == missing_destinations(rooms@, exits@, i as int),
        decreases exits@.len() - i,
    {
        match exits[i].to_room {
            Some(t) => {
                if exits[i].same_area && !contains_room(rooms, t) && !contains_room(out.as_slice(), t) {
                    out.push(t);
                }
            },
            None => {},
        }
        i += 1;
    }
    out
}

fn contains_room(rooms: &[i32], t: i32) -> (r: bool)
    ensures
        r == rooms@.contains(t),
{
    let mut k: usize = 0;
    while k < rooms.len()
        invariant
            k <= rooms@.len(),
            forall|j: int| 0 <= j < k ==> rooms@[j] != t,
        decreases rooms@.len() - k,
    {
        if rooms[k] == t {
            return true;
        }
        k += 1;
    }
    false
}

/// A two-ended connection's canonical orientation: endpoint A is the
/// lower room number. `true` when the origin end is A.
pub fn origin_is_endpoint_a(origin_room: i32, destination_room: i32) -> (r: bool)
    ensures
        r == (origin_room <= destination_room),
{
    !(destination_room < origin_room)
}

// ----------------------------------------------------------------------
// Connection membership
// ----------------------------------------------------------------------

/// The first pair at or after `k` that holds exit `i`, or the number of
/// pairs.
pub open spec fn pair_index(pairs: Seq<(usize, usize)>, i: int, k: int) -> int
    decreases pairs.len() - k,
{
    if k < 0 || k >= pairs.len() {
        pairs.len() as int
    } else if touches(pairs[k], i) {
        k
    } else {
        pair_index(pairs, i, k + 1)
    }
}

/// The number of exits before `i` that are in no pair.
pub open spec fn unpaired_before(pairs: Seq<(usize, usize)>, i: int) -> nat
    decreases i,
{
    if i <= 0 {
        0
    } else {
        unpaired_before(pairs, i - 1) + if in_a_pair(pairs, i - 1) {
            0nat
        } else {
            1nat
        }
    }
}

/// The connection exit `i` joins: pair `k` becomes connection `k`, and
/// each exit in no pair gets a connection of its own, numbered after the
/// pairs in exit order.
pub open spec fn membership(pairs: Seq<(usize, usize)>, i: int) -> int {
    if in_a_pair(pairs, i) {
        pair_index(pairs, i, 0)
    } else {
        (pairs.len() + unpaired_before(pairs, i)) as int
    }
}

proof fn lemma_pair_index(pairs: Seq<(usize, usize)>, i: int, k: int)
    requires
        0 <= k <= pairs.len(),
    ensures
        k <= pair_index(pairs, i, k) <= pairs.len(),
        pair_index(pairs, i, k) < pairs.len() ==> touches(pairs[pair_index(pairs, i, k)], i),
        pair_index(pairs, i, k) == pairs.len() ==> forall|m: int| k <= m < pairs.len() ==> !touches(#[trigger] pairs[m], i),
    decreases pairs.len() - k,
{
    if k < pairs.len() && !touches(pairs[k], i) {
        lemma_pair_index(pairs, i, k + 1);
    }
}

proof fn lemma_unpaired_grows(pairs: Seq<(usize, usize)>, a: int, b: int)
    requires
        0 <= a <= b,
    ensures
        unpaired_before(pairs, a) <= unpaired_before(pairs, b),
        a < b && !in_a_pair(pairs, a) ==> unpaired_before(pairs, a) < unpaired_before(pairs, b),
    decreases b - a,
{
    if a < b {
        lemma_unpaired_grows(pairs, a, b - 1);
    }
}

/// The connection every exit joins (see [`membership`]).
pub fn exit_memberships(n_exits: usize, pairs: &[(usize, usize)]) -> (r: Vec<usize>)
    requires
        pairs@.len() + n_exits <= usize::MAX,
    ensures
        r@.len() == n_exits,
        forall|i: int| 0 <= i < n_exits ==> #[trigger] r@[i] == membership(pairs@, i),
{
    let mut out: Vec<usize> = Vec::new();
    let mut unpaired: usize = 0;
    let mut i: usize = 0;
    while i < n_exits
        invariant
            pairs@.len() + n_exits <= usize::MAX,
            i <= n_exits,
            out@.len() == i,
            unpaired == unpaired_before(pairs@, i as int),
            unpaired <= i,
            forall|j: int| 0 <= j < i ==> #[trigger] out@[j] == membership(pairs@, j),
        decreases n_exits - i,
    {
        let mut k: usize = 0;
        while k < pairs.len() && !(pairs[k].0 == i || pairs[k].1 == i)
            invariant
                k <= pairs@.len(),
                pair_index(pairs@, i as int, 0) == pair_index(pairs@, i as int, k as int),
            decreases pairs@.len() - k,
        {
            k += 1;
        }
        assert(pair_index(pairs@, i as int, 0) == k);
        proof {
            lemma_pair_index(pairs@, i as int, 0);
            if k < pairs@.len() {
                assert(in_a_pair(pairs@, i as int)) by {
                    assert(touches(pairs@[pair_index(pairs@, i as int, 0)], i as int));
                }
            }
        }
        if k < pairs.len() {
            out.push(k);
        } else {
            proof {
                assert(!in_a_pair(pairs@, i as int)) by {
                    if in_a_pair(pairs@, i as int) {
                        let m = choose|m: int| 0 <= m < pairs@.len() && #[trigger] touches(pairs@[m], i as int);
                    }
                }
            }
            out.push(pairs.len() + unpaired);
            unpaired = unpaired + 1;
        }
        i += 1;
    }
    out
}

/// Every exit joins exactly one connection and none is lost: an exit in a
/// pair joins that pair's connection, and each exit in no pair joins a
/// connection of its own, after the pairs; the connections number the pairs
/// plus the unpaired exits.
pub proof fn lemma_every_exit_joins_one_connection(pairs: Seq<(usize, usize)>, n: int)
    requires
        0 <= n,
    ensures
        forall|i: int| 0 <= i < n ==> 0 <= #[trigger] membership(pairs, i) < pairs.len() + unpaired_before(pairs, n),
        forall|i: int| 0 <= i < n && in_a_pair(pairs, i) ==> touches(pairs[#[trigger] membership(pairs, i)], i),
        forall|i1: int, i2: int|
            0 <= i1 < i2 < n && !in_a_pair(pairs, i1) && !in_a_pair(pairs, i2) ==> #[trigger] membership(pairs, i1)
                != #[trigger] membership(pairs, i2),
        forall|i1: int, i2: int|
            0 <= i1 < n && 0 <= i2 < n && in_a_pair(pairs, i1) && !in_a_pair(pairs, i2) ==> #[trigger] membership(
                pairs,
                i1,
            ) != #[trigger] membership(pairs, i2),
{
    assert forall|i: int| 0 <= i < n implies 0 <= #[trigger] membership(pairs, i) < pairs.len() + unpaired_before(
        pairs,
        n,
    ) by {
        lemma_pair_index(pairs, i, 0);
        lemma_unpaired_grows(pairs, i, n);
        if in_a_pair(pairs, i) {
            if pair_index(pairs, i, 0) == pairs.len() {
                let m = choose|m: int| 0 <= m < pairs.len() && #[trigger] touches(pairs[m], i);
            }
        }
    }
    assert forall|i: int| 0 <= i < n && in_a_pair(pairs, i) implies touches(pairs[#[trigger] membership(pairs, i)], i) by {
        lemma_pair_index(pairs, i, 0);
        if pair_index(pairs, i, 0) == pairs.len() {
            let m = choose|m: int| 0 <= m < pairs.len() && #[trigger] touches(pairs[m], i);
        }
    }
    assert forall|i1: int, i2: int|
        0 <= i1 < i2 < n && !in_a_pair(pairs, i1) && !in_a_pair(pairs, i2) implies #[trigger] membership(pairs, i1)
        != #[trigger] membership(pairs, i2) by {
        lemma_unpaired_grows(pairs, i1, i2);
    }
    assert forall|i1: int, i2: int|
        0 <= i1 < n && 0 <= i2 < n && in_a_pair(pairs, i1) && !in_a_pair(pairs, i2) implies #[trigger] membership(
        pairs,
        i1,
    ) != #[trigger] membership(pairs, i2) by {
        lemma_pair_index(pairs, i1, 0);
    }
}

} // verus!
