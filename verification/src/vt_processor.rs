//! The text rules of the terminal's link and tooltip parsing: percent
//! decoding, the scheme allowlist of link targets, one-line menu labels,
//! the `config` query field of an OSC 8 target, and the SGR-only tooltip
//! document builder.

use vstd::prelude::*;
use vstd::string::{StrSliceExecFns, StringExecFns, StringSliceAdditionalSpecFns};
use vstd::utf8::{decode_utf8, encode_utf8, valid_utf8};

use crate::text::{
    char_utf8_width, chars_of, control, is_control, is_whitespace, leading_space, lemma_utf8_len_prefix,
    lemma_utf8_len_strict, lemma_utf8_monotone, spec_trim, string_from_chars, trim, utf8_len, utf8_width,
    without_trailing_space,
};

verus! {

// ----------------------------------------------------------------------
// Percent decoding
// ----------------------------------------------------------------------

/// The value of an ASCII hexadecimal digit.
pub open spec fn hex_value(b: u8) -> Option<u8> {
    if 48 <= b && b <= 57 {
        Some((b - 48) as u8)
    } else if 97 <= b && b <= 102 {
        Some((b - 87) as u8)
    } else if 65 <= b && b <= 70 {
        Some((b - 55) as u8)
    } else {
        None
    }
}

/// `bytes` from `i` on with every well-formed `%XX` escape replaced by its
/// byte; anything malformed passes through verbatim.
pub open spec fn percent_decoded(bytes: Seq<u8>, i: int) -> Seq<u8>
    decreases bytes.len() - i,
{
    if i < 0 || i >= bytes.len() {
        Seq::empty()
    } else if bytes[i] == 37 && i + 2 < bytes.len() && hex_value(bytes[i + 1]) is Some && hex_value(
        bytes[i + 2],
    ) is Some {
        seq![(hex_value(bytes[i + 1])->0 * 16 + hex_value(bytes[i + 2])->0) as u8] + percent_decoded(bytes, i + 3)
    } else {
        seq![bytes[i]] + percent_decoded(bytes, i + 1)
    }
}

/// What `String::from_utf8_lossy` makes of `bytes`.
pub uninterp spec fn utf8_lossy(bytes: Seq<u8>) -> Seq<char>;

/// Text read from `bytes` as `String::from_utf8_lossy` reads it: exactly
/// their decoding when they are valid UTF-8.
pub open spec fn lossy_text(bytes: Seq<u8>) -> Seq<char> {
    if valid_utf8(bytes) {
        decode_utf8(bytes)
    } else {
        utf8_lossy(bytes)
    }
}

/// `bytes` as text, through `String::from_utf8_lossy`: invalid sequences
/// become U+FFFD; valid UTF-8 decodes exactly.
#[verifier::external_body]
fn from_utf8_lossy(bytes: &[u8]) -> (r: String)
    ensures
        r@ == utf8_lossy(bytes@),
        valid_utf8(bytes@) ==> r@ == decode_utf8(bytes@),
{
    String::from_utf8_lossy(bytes).into_owned()
}

fn hex_digit(b: u8) -> (r: Option<u8>)
    ensures
        r == hex_value(b),
        r matches Some(v) ==> v < 16,
{
    if 48 <= b && b <= 57 {
        Some(b - 48)
    } else if 97 <= b && b <= 102 {
        Some(b - 87)
    } else if 65 <= b && b <= 70 {
        Some(b - 55)
    } else {
        None
    }
}

/// `bytes` from `start` on, percent-decoded and read as UTF-8.
fn percent_decode_from(bytes: &[u8], start: usize) -> (r: String)
    requires
        start <= bytes@.len(),
    ensures
        r@ == lossy_text(percent_decoded(bytes@, start as int)),
{
    let mut out: Vec<u8> = Vec::new();
    let mut i: usize = start;
    while i < bytes.len()
        invariant
            start <= i <= bytes@.len(),
            out@ + percent_decoded(bytes@, i as int) == percent_decoded(bytes@, start as int),
        decreases bytes@.len() - i,
    {
        let ghost before = out@;
        if bytes[i] == 37 && bytes.len() - i > 2 {
            let hi = hex_digit(bytes[i + 1]);
            let lo = hex_digit(bytes[i + 2]);
            if let (Some(h), Some(l)) = (hi, lo) {
                out.push(h * 16 + l);
                proof {
                    assert(out@ + percent_decoded(bytes@, i + 3) =~= before + percent_decoded(bytes@, i as int));
                }
                i += 3;
                continue;
            }
        }
        out.push(bytes[i]);
        proof {
            assert(out@ + percent_decoded(bytes@, i + 1) =~= before + percent_decoded(bytes@, i as int));
        }
        i += 1;
    }
    proof {
        assert(out@ =~= out@ + percent_decoded(bytes@, i as int));
    }
    from_utf8_lossy(out.as_slice())
}

/// Decode `%XX` escapes (RFC 3986); anything malformed passes through
/// verbatim. `+` is not space.
pub fn percent_decode(s: &str) -> (r: String)
    ensures
        r@ == lossy_text(percent_decoded(s.spec_bytes(), 0)),
{
    percent_decode_from(s.as_bytes(), 0)
}

proof fn lemma_no_escape_identity(bytes: Seq<u8>, i: int)
    requires
        0 <= i <= bytes.len(),
        forall|j: int| i <= j < bytes.len() ==> bytes[j] != 37,
    ensures
        percent_decoded(bytes, i) == bytes.subrange(i, bytes.len() as int),
    decreases bytes.len() - i,
{
    if i < bytes.len() {
        lemma_no_escape_identity(bytes, i + 1);
        assert(seq![bytes[i]] + bytes.subrange(i + 1, bytes.len() as int) =~= bytes.subrange(i, bytes.len() as int));
    } else {
        assert(bytes.subrange(i, bytes.len() as int) =~= Seq::<u8>::empty());
    }
}

/// Text without a `%` decodes to itself.
pub proof fn lemma_percent_decode_plain(s: Seq<char>)
    requires
        forall|j: int| 0 <= j < encode_utf8(s).len() ==> encode_utf8(s)[j] != 37,
    ensures
        percent_decoded(encode_utf8(s), 0) == encode_utf8(s),
{
    lemma_no_escape_identity(encode_utf8(s), 0);
    assert(encode_utf8(s).subrange(0, encode_utf8(s).len() as int) =~= encode_utf8(s));
}

/// The ASCII hexadecimal digit for `n` (below 16), lower-case letters for
/// ten and up when `lower`, upper-case otherwise.
pub open spec fn hex_char(n: u8, lower: bool) -> u8 {
    if n < 10 {
        (48 + n) as u8
    } else if lower {
        (87 + n) as u8
    } else {
        (55 + n) as u8
    }
}

proof fn lemma_decoded_shift(p: Seq<u8>, rest: Seq<u8>, i: int)
    requires
        0 <= i <= rest.len(),
    ensures
        percent_decoded(p + rest, p.len() + i) == percent_decoded(rest, i),
    decreases rest.len() - i,
{
    let s = p + rest;
    if i < rest.len() {
        assert(s[p.len() + i] == rest[i]);
        if i + 1 < rest.len() {
            assert(s[p.len() + i + 1] == rest[i + 1]);
        }
        if i + 2 < rest.len() {
            assert(s[p.len() + i + 2] == rest[i + 2]);
        }
        lemma_decoded_shift(p, rest, i + 1);
        if i + 3 <= rest.len() {
            lemma_decoded_shift(p, rest, i + 3);
        }
    }
}

/// Percent escapes decode to the byte they spell, whatever the case of
/// their hexadecimal letters: for every byte `v`, `%` followed by `v`'s two
/// hexadecimal digits (each lower- or upper-case) decodes to `v`, and what
/// follows decodes as it would alone.
pub proof fn lemma_escape_decodes_in_either_case(v: u8, lower_hi: bool, lower_lo: bool, rest: Seq<u8>)
    ensures
        percent_decoded(seq![37u8, hex_char(v / 16, lower_hi), hex_char(v % 16, lower_lo)] + rest, 0) == seq![v]
            + percent_decoded(rest, 0),
{
    let p = seq![37u8, hex_char(v / 16, lower_hi), hex_char(v % 16, lower_lo)];
    let s = p + rest;
    assert(s[0] == 37u8);
    assert(s[1] == hex_char(v / 16, lower_hi));
    assert(s[2] == hex_char(v % 16, lower_lo));
    assert(hex_value(s[1]) == Some(v / 16));
    assert(hex_value(s[2]) == Some(v % 16));
    assert((v / 16) * 16 + v % 16 == v) by (bit_vector);
    lemma_decoded_shift(p, rest, 0);
    assert(percent_decoded(s, 3) == percent_decoded(rest, 0));
}

// ----------------------------------------------------------------------
// Link targets
// ----------------------------------------------------------------------

/// An ASCII letter folded to lower case.
pub open spec fn fold_byte(b: u8) -> u8 {
    if 65 <= b && b <= 90 {
        (b + 32) as u8
    } else {
        b
    }
}

/// Whether `value`'s bytes begin with `prefix`'s, ignoring ASCII case.
pub open spec fn starts_with_fold(value: Seq<u8>, prefix: Seq<u8>) -> bool {
    value.len() >= prefix.len() && forall|i: int| 0 <= i < prefix.len() ==> fold_byte(#[trigger] value[i]) == fold_byte(
        prefix[i],
    )
}

/// Whether `value` begins with `prefix`, ignoring ASCII case, byte by byte.
pub fn starts_with_ascii_case_insensitive(value: &str, prefix: &str) -> (r: bool)
    ensures
        r == starts_with_fold(value.spec_bytes(), prefix.spec_bytes()),
{
    let v = value.as_bytes();
    let p = prefix.as_bytes();
    if v.len() < p.len() {
        return false;
    }
    let mut i: usize = 0;
    while i < p.len()
        invariant
            v@ == value.spec_bytes(),
            p@ == prefix.spec_bytes(),
            p@.len() <= v@.len(),
            i <= p@.len(),
            forall|j: int| 0 <= j < i ==> fold_byte(#[trigger] v@[j]) == fold_byte(p@[j]),
        decreases p@.len() - i,
    {
        let a = v[i];
        let b = p[i];
        let fa = if 65 <= a && a <= 90 { a + 32 } else { a };
        let fb = if 65 <= b && b <= 90 { b + 32 } else { b };
        if fa != fb {
            return false;
        }
        i += 1;
    }
    true
}

/// What activating a link target does: open it in the browser, send its
/// decoded command to the server, or prefill the prompt with it.
#[derive(Debug, Clone, PartialEq, Eq)]
pub enum ServerAction {
    OpenUrl(String),
    ServerSend(String),
    Prompt(String),
}

/// The three kinds of link action.
#[derive(Debug, Clone, Copy, PartialEq, Eq, Structural)]
pub enum ActionKind {
    OpenUrl,
    ServerSend,
    Prompt,
}

impl ServerAction {
    /// The action's kind and the text it carries.
    pub open spec fn view_pair(self) -> (ActionKind, Seq<char>) {
        match self {
            ServerAction::OpenUrl(u) => (ActionKind::OpenUrl, u@),
            ServerAction::ServerSend(c) => (ActionKind::ServerSend, c@),
            ServerAction::Prompt(c) => (ActionKind::Prompt, c@),
        }
    }
}

/// Whether `uri` opens in the browser: `http://`, `https://` or `ftp://`,
/// in any ASCII case.
pub open spec fn is_web_target(uri: Seq<u8>) -> bool {
    starts_with_fold(uri, "http://".spec_bytes()) || starts_with_fold(uri, "https://".spec_bytes())
        || starts_with_fold(uri, "ftp://".spec_bytes())
}

/// The link action for a target. The scheme allowlist is the trust
/// boundary: `http`, `https` and `ftp` open the browser with the target as
/// given; `send:` and `prompt:` carry the percent-decoded rest; anything
/// else (`file:`, `javascript:`, unknown schemes) yields no link.
pub open spec fn spec_action_for(uri: Seq<char>) -> Option<(ActionKind, Seq<char>)> {
    let b = encode_utf8(uri);
    if is_web_target(b) {
        Some((ActionKind::OpenUrl, uri))
    } else if starts_with_fold(b, "send:".spec_bytes()) {
        Some((ActionKind::ServerSend, lossy_text(percent_decoded(b, 5))))
    } else if starts_with_fold(b, "prompt:".spec_bytes()) {
        Some((ActionKind::Prompt, lossy_text(percent_decoded(b, 7))))
    } else {
        None
    }
}

/// The link action for a target, if its scheme is allowed.
pub fn server_action_for_uri(uri: &str) -> (r: Option<ServerAction>)
    ensures
        match r {
            Some(a) => spec_action_for(uri@) == Some(a.view_pair()),
            None => spec_action_for(uri@) is None,
        },
{
    if starts_with_ascii_case_insensitive(uri, "http://") || starts_with_ascii_case_insensitive(uri, "https://")
        || starts_with_ascii_case_insensitive(uri, "ftp://") {
        return Some(ServerAction::OpenUrl(String::from_str(uri)));
    }
    if starts_with_ascii_case_insensitive(uri, "send:") {
        proof {
            reveal_strlit("send:");
            vstd::string::is_ascii_spec_bytes("send:");
        }
        return Some(ServerAction::ServerSend(percent_decode_from(uri.as_bytes(), 5)));
    }
    if starts_with_ascii_case_insensitive(uri, "prompt:") {
        proof {
            reveal_strlit("prompt:");
            vstd::string::is_ascii_spec_bytes("prompt:");
        }
        return Some(ServerAction::Prompt(percent_decode_from(uri.as_bytes(), 7)));
    }
    None
}

// ----------------------------------------------------------------------
// One-line labels
// ----------------------------------------------------------------------

/// `s` with every control character turned into a space.
pub open spec fn blank_controls(s: Seq<char>) -> Seq<char> {
    s.map_values(|c: char| if control(c) { ' ' } else { c })
}

/// Menu chrome stays one line: control characters become spaces, the
/// result is trimmed, and nothing is left of text that is then empty.
pub fn sanitize_single_line_text(text: &str) -> (r: Option<String>)
    ensures
        match r {
            Some(t) => t@ == spec_trim(blank_controls(text@)) && t@.len() > 0,
            None => spec_trim(blank_controls(text@)).len() == 0,
        },
{
    let chars = chars_of(text);
    let mut cleaned: Vec<char> = Vec::new();
    let mut i: usize = 0;
    while i < chars.len()
        invariant
            chars@ == text@,
            i <= chars@.len(),
            cleaned@ == blank_controls(text@).take(i as int),
        decreases chars@.len() - i,
    {
        let c = chars[i];
        cleaned.push(if is_control(c) { ' ' } else { c });
        proof {
            assert(cleaned@ =~= blank_controls(text@).take(i + 1));
        }
        i += 1;
    }
    proof {
        assert(cleaned@ =~= blank_controls(text@));
    }
    let joined = string_from_chars(cleaned.as_slice());
    let trimmed = trim(joined.as_str());
    if trimmed.unicode_len() == 0 {
        None
    } else {
        Some(String::from_str(trimmed))
    }
}

// ----------------------------------------------------------------------
// The `config` query field of an OSC 8 target
// ----------------------------------------------------------------------

/// The first index at or after `from` where `s` holds `c`, or `s.len()`.
pub open spec fn index_of_char(s: Seq<char>, c: char, from: int) -> int
    decreases s.len() - from,
{
    if from >= s.len() {
        s.len() as int
    } else if s[from] == c {
        from
    } else {
        index_of_char(s, c, from + 1)
    }
}

proof fn lemma_index_of_char_bounds(s: Seq<char>, c: char, from: int)
    requires
        0 <= from <= s.len(),
    ensures
        from <= index_of_char(s, c, from) <= s.len(),
    decreases s.len() - from,
{
    if from < s.len() && s[from] != c {
        lemma_index_of_char_bounds(s, c, from + 1);
    }
}

/// The `&`-separated fields of `q` from `from` on; there is always at
/// least one, perhaps empty.
pub open spec fn fields_from(q: Seq<char>, from: int) -> Seq<Seq<char>>
    decreases q.len() - from,
{
    if from < 0 || from > q.len() {
        Seq::empty()
    } else {
        let k = index_of_char(q, '&', from);
        if k >= q.len() || k < from {
            seq![q.subrange(from, q.len() as int)]
        } else {
            seq![q.subrange(from, k)] + fields_from(q, k + 1)
        }
    }
}

/// `config=`, the key a Mudlet-compatible tooltip configuration takes.
pub open spec fn config_key() -> Seq<char> {
    seq!['c', 'o', 'n', 'f', 'i', 'g', '=']
}

/// Whether a query field is a literal `config` field.
pub open spec fn is_config_field(f: Seq<char>) -> bool {
    f.len() >= 7 && f.take(7) == config_key()
}

/// The fields that are not `config` fields, in order.
pub open spec fn kept_fields(fs: Seq<Seq<char>>) -> Seq<Seq<char>>
    decreases fs.len(),
{
    if fs.len() == 0 {
        Seq::empty()
    } else if is_config_field(fs.last()) {
        kept_fields(fs.drop_last())
    } else {
        kept_fields(fs.drop_last()).push(fs.last())
    }
}

/// The `config` fields, in order.
pub open spec fn config_fields(fs: Seq<Seq<char>>) -> Seq<Seq<char>>
    decreases fs.len(),
{
    if fs.len() == 0 {
        Seq::empty()
    } else if is_config_field(fs.last()) {
        config_fields(fs.drop_last()).push(fs.last())
    } else {
        config_fields(fs.drop_last())
    }
}

/// The fields joined with `&`.
pub open spec fn join_fields(fs: Seq<Seq<char>>) -> Seq<char>
    decreases fs.len(),
{
    if fs.len() == 0 {
        Seq::empty()
    } else if fs.len() == 1 {
        fs[0]
    } else {
        join_fields(fs.drop_last()) + seq!['&'] + fs.last()
    }
}

/// The query fields of `uri`: what lies between the first `?` and the
/// first `#`, split on `&`; none when there is no `?` before the `#`.
pub open spec fn query_fields(uri: Seq<char>) -> Seq<Seq<char>> {
    let before = uri.take(index_of_char(uri, '#', 0));
    let q = index_of_char(before, '?', 0);
    if q >= before.len() {
        Seq::empty()
    } else {
        fields_from(before.skip(q + 1), 0)
    }
}

/// The actionable target of an OSC 8 URI: every literal `config` field
/// removed from the query, the `?` dropped with the last field, the
/// fragment kept. A URI without a `config` field stays as it is.
pub open spec fn spec_osc8_target(uri: Seq<char>) -> Seq<char> {
    let h = index_of_char(uri, '#', 0);
    let before = uri.take(h);
    let q = index_of_char(before, '?', 0);
    let fs = query_fields(uri);
    if config_fields(fs).len() == 0 {
        uri
    } else {
        let kept = kept_fields(fs);
        before.take(q) + (if kept.len() > 0 {
            seq!['?'] + join_fields(kept)
        } else {
            Seq::empty()
        }) + uri.skip(h)
    }
}

/// What a `config` field's value decodes to.
pub open spec fn config_value(f: Seq<char>) -> Seq<char> {
    lossy_text(percent_decoded(encode_utf8(f.skip(7)), 0))
}

/// The decoded values of the `config` fields of `uri`, in order.
pub open spec fn spec_osc8_configs(uri: Seq<char>) -> Seq<Seq<char>> {
    config_fields(query_fields(uri)).map_values(|f: Seq<char>| config_value(f))
}

/// The first index at or after `from` where `s` holds `c`, or its length.
fn find_char(s: &str, c: char, from: usize) -> (r: usize)
    requires
        from <= s@.len(),
    ensures
        r == index_of_char(s@, c, from as int),
        from <= r <= s@.len(),
{
    let n = s.unicode_len();
    let mut i = from;
    while i < n && s.get_char(i) != c
        invariant
            n == s@.len(),
            from <= i <= n,
            index_of_char(s@, c, from as int) == index_of_char(s@, c, i as int),
        decreases n - i,
    {
        i += 1;
    }
    i
}

/// Split an OSC 8 URI into its actionable target and the decoded values
/// of its `config` query fields, in order: the first of these that parses
/// as JSON configures the link.
pub fn osc8_target(uri: &str) -> (r: (String, Vec<String>))
    ensures
        r.0@ == spec_osc8_target(uri@),
        r.1@.map_values(|s: String| s@) == spec_osc8_configs(uri@),
{
    proof {
        reveal_strlit("config=");
        reveal_strlit("&");
        reveal_strlit("?");
    }
    let n = uri.unicode_len();
    let h = find_char(uri, '#', 0);
    let before = uri.substring_char(0, h);
    let bn = before.unicode_len();
    let qa = find_char(before, '?', 0);
    if qa >= bn {
        proof {
            assert(config_fields(query_fields(uri@)) =~= Seq::<Seq<char>>::empty());
        }
        return (String::from_str(uri), Vec::new());
    }
    let query = before.substring_char(qa + 1, bn);
    let qn = query.unicode_len();
    proof {
        assert(before@ =~= uri@.take(h as int));
        assert(query@ =~= before@.skip(qa + 1));
    }
    let mut pos: usize = 0;
    let mut kept = String::new();
    let mut any_kept = false;
    let mut configs: Vec<String> = Vec::new();
    let ghost mut done: Seq<Seq<char>> = Seq::empty();
    loop
        invariant_except_break
            fields_from(query@, 0) == done + fields_from(query@, pos as int),
        invariant
            qn == query@.len(),
            pos <= qn,
            kept@ == join_fields(kept_fields(done)),
            any_kept == (kept_fields(done).len() > 0),
            configs@.map_values(|s: String| s@) == config_fields(done).map_values(
                |f: Seq<char>| config_value(f),
            ),
        ensures
            fields_from(query@, 0) == done,
            kept@ == join_fields(kept_fields(done)),
            any_kept == (kept_fields(done).len() > 0),
            configs@.map_values(|s: String| s@) == config_fields(done).map_values(
                |f: Seq<char>| config_value(f),
            ),
        decreases qn - pos,
    {
        let k = find_char(query, '&', pos);
        let field = query.substring_char(pos, k);
        let fl = field.unicode_len();
        let ghost old_done = done;
        let ghost old_configs = configs@;
        let is_config = crate::text::starts_with(field, "config=");
        proof {
            reveal_strlit("config=");
            assert("config="@ =~= config_key());
            if field@.len() >= 7 {
                assert(field@.take(7) =~= field@.subrange(0, 7));
            }
            assert(is_config == is_config_field(field@));
        }
        if is_config {
            let value = percent_decode(field.substring_char(7, fl));
            configs.push(value);
            proof {
                assert(field@.subrange(7, fl as int) =~= field@.skip(7));
                assert(configs@.map_values(|s: String| s@) =~= old_configs.map_values(|s: String| s@).push(
                    config_value(field@),
                ));
            }
        } else {
            if any_kept {
                kept.append("&");
            }
            kept.append(field);
            any_kept = true;
        }
        proof {
            done = done.push(field@);
            assert(done.drop_last() =~= old_done);
            if is_config {
                assert(config_fields(done) == config_fields(old_done).push(field@));
                assert(config_fields(done).map_values(|f: Seq<char>| config_value(f)) =~= config_fields(
                    old_done,
                ).map_values(|f: Seq<char>| config_value(f)).push(config_value(field@)));
            } else {
                assert(config_fields(done) == config_fields(old_done));
                let kd = kept_fields(done);
                assert(kd == kept_fields(old_done).push(field@));
                assert(kd.drop_last() =~= kept_fields(old_done));
                reveal_strlit("&");
                if kept_fields(old_done).len() > 0 {
                    assert(kept@ =~= join_fields(kept_fields(old_done)) + seq!['&'] + field@);
                } else {
                    assert(kept@ =~= field@);
                }
            }
        }
        if k >= qn {
            proof {
                assert(fields_from(query@, pos as int) =~= seq![field@]);
                assert(fields_from(query@, 0) =~= done);
            }
            break;
        }
        proof {
            assert(fields_from(query@, pos as int) =~= seq![field@] + fields_from(query@, k + 1));
            assert(fields_from(query@, 0) =~= done + fields_from(query@, k + 1));
        }
        pos = k + 1;
    }
    proof {
        assert(query_fields(uri@) == done);
    }
    if configs.len() == 0 {
        proof {
            assert(config_fields(done).len() == 0);
        }
        return (String::from_str(uri), configs);
    }
    let mut target = String::from_str(before.substring_char(0, qa));
    if any_kept {
        target.append("?");
        target.append(kept.as_str());
    }
    target.append(uri.substring_char(h, n));
    proof {
        assert(before@.subrange(0, qa as int) =~= before@.take(qa as int));
        assert(uri@.subrange(h as int, n as int) =~= uri@.skip(h as int));
        if any_kept {
            assert(target@ =~= before@.take(qa as int) + (seq!['?'] + join_fields(kept_fields(done)))
                + uri@.skip(h as int));
        } else {
            assert(target@ =~= before@.take(qa as int) + Seq::<char>::empty() + uri@.skip(h as int));
        }
    }
    (target, configs)
}

// ----------------------------------------------------------------------
// Tooltip documents
// ----------------------------------------------------------------------

/// A styled stretch of text: `style` over the bytes `begin_pos..end_pos`.
#[derive(Debug, Clone, Copy)]
pub struct VtSpan<S> {
    pub style: S,
    pub begin_pos: usize,
    pub end_pos: usize,
}

/// Authored tooltip copy: its text and the styled stretches of it.
#[derive(Debug, Clone)]
pub struct LinkTooltipText<S> {
    pub text: String,
    pub spans: Vec<VtSpan<S>>,
}

/// The spans clipped to the bytes `begin..end` and moved to start at
/// `begin`; those left empty are dropped.
pub open spec fn clip_spans<S>(spans: Seq<VtSpan<S>>, begin: int, end: int) -> Seq<VtSpan<S>>
    decreases spans.len(),
{
    if spans.len() == 0 {
        Seq::empty()
    } else {
        let rest = clip_spans(spans.drop_last(), begin, end);
        let sp = spans.last();
        let b = if sp.begin_pos >= begin { sp.begin_pos as int } else { begin };
        let e = if sp.end_pos <= end { sp.end_pos as int } else { end };
        if b < e {
            rest.push(VtSpan { style: sp.style, begin_pos: (b - begin) as usize, end_pos: (e - begin) as usize })
        } else {
            rest
        }
    }
}

/// A tooltip document under construction: the text so far, the closed
/// spans, the style in force, where the open span began, and whether a
/// carriage return waits for what follows it.
#[verifier::ext_equal]
pub struct TooltipDoc<S> {
    pub text: Seq<char>,
    pub spans: Seq<VtSpan<S>>,
    pub style: S,
    pub span_start: nat,
    pub pending_cr: bool,
}

/// An empty document in `style`.
pub open spec fn empty_doc<S>(style: S) -> TooltipDoc<S> {
    TooltipDoc { text: Seq::empty(), spans: Seq::empty(), style, span_start: 0, pending_cr: false }
}

/// The document's text in bytes.
pub open spec fn doc_byte_len<S>(d: TooltipDoc<S>) -> nat {
    utf8_len(d.text, d.text.len() as int)
}

/// The text with a waiting carriage return turned into a line break.
pub open spec fn doc_flushed<S>(d: TooltipDoc<S>) -> Seq<char> {
    if d.pending_cr {
        d.text.push('\n')
    } else {
        d.text
    }
}

/// The spans with the open one closed, where it covers any text.
pub open spec fn doc_closed_spans<S>(d: TooltipDoc<S>) -> Seq<VtSpan<S>> {
    if doc_byte_len(d) > d.span_start {
        d.spans.push(VtSpan { style: d.style, begin_pos: d.span_start as usize, end_pos: doc_byte_len(d) as usize })
    } else {
        d.spans
    }
}

/// The document after a printed character.
pub open spec fn doc_print<S>(d: TooltipDoc<S>, c: char) -> TooltipDoc<S> {
    TooltipDoc { text: doc_flushed(d).push(c), spans: d.spans, style: d.style, span_start: d.span_start, pending_cr: false }
}

/// The document after a C0 or C1 control: CR waits (a second CR first
/// makes its own break), LF breaks the line and absorbs a waiting CR, any
/// other control prints as a space.
pub open spec fn doc_control<S>(d: TooltipDoc<S>, control: u8) -> TooltipDoc<S> {
    if control == 13 {
        TooltipDoc { text: doc_flushed(d), spans: d.spans, style: d.style, span_start: d.span_start, pending_cr: true }
    } else if control == 10 {
        TooltipDoc { text: d.text.push('\n'), spans: d.spans, style: d.style, span_start: d.span_start, pending_cr: false }
    } else {
        doc_print(d, ' ')
    }
}

/// The document after an SGR update to `style`: a different style closes
/// the open span and opens one in the new style.
pub open spec fn doc_restyle<S>(d: TooltipDoc<S>, style: S) -> TooltipDoc<S> {
    if style == d.style {
        d
    } else {
        TooltipDoc {
            text: d.text,
            spans: doc_closed_spans(d),
            style,
            span_start: doc_byte_len(d),
            pending_cr: d.pending_cr,
        }
    }
}

/// `r` is the finished form of `d`: a waiting carriage return becomes a
/// line break, the open span is closed, and the text is trimmed with the
/// spans clipped to what is left; text that is all white space is no
/// document.
pub open spec fn finished_as<S>(d: TooltipDoc<S>, r: Option<LinkTooltipText<S>>) -> bool {
    let full = doc_flushed(d);
    let lead = leading_space(full, 0);
    let tail = without_trailing_space(full, full.len() as int);
    let full_len = utf8_len(full, full.len() as int);
    let all_spans = if full_len > d.span_start {
        d.spans.push(VtSpan { style: d.style, begin_pos: d.span_start as usize, end_pos: full_len as usize })
    } else {
        d.spans
    };
    match r {
        None => spec_trim(full).len() == 0,
        Some(t) => {
            &&& spec_trim(full).len() > 0
            &&& t.text@ == spec_trim(full)
            &&& t.spans@ == clip_spans(all_spans, utf8_len(full, lead) as int, utf8_len(full, tail) as int)
        },
    }
}

/// Builds a tooltip document from the actions of an ANSI parser: printed
/// characters and line controls become text, SGR style changes become
/// spans, and every other sequence is dropped. A bare carriage return
/// becomes a line break only once something follows it; CR LF is one
/// break.
pub struct TooltipAnsiActor<S> {
    text: Vec<char>,
    text_len: usize,
    spans: Vec<VtSpan<S>>,
    style: S,
    span_start: usize,
    pending_cr: bool,
}

impl<S: Copy + PartialEq> TooltipAnsiActor<S> {
    /// The text so far.
    pub closed spec fn text_view(&self) -> Seq<char> {
        self.text@
    }

    /// The spans closed so far.
    pub closed spec fn spans_view(&self) -> Seq<VtSpan<S>> {
        self.spans@
    }

    /// The style in force.
    pub closed spec fn style_view(&self) -> S {
        self.style
    }

    /// Where the open span began.
    pub closed spec fn span_start_view(&self) -> nat {
        self.span_start as nat
    }

    /// Whether a carriage return waits for what follows it.
    pub closed spec fn pending_cr_view(&self) -> bool {
        self.pending_cr
    }

    /// The document the actor has built.
    pub open spec fn doc(&self) -> TooltipDoc<S> {
        TooltipDoc {
            text: self.text_view(),
            spans: self.spans_view(),
            style: self.style_view(),
            span_start: self.span_start_view(),
            pending_cr: self.pending_cr_view(),
        }
    }

    /// The text's length in bytes.
    pub open spec fn byte_len(&self) -> nat {
        utf8_len(self.text_view(), self.text_view().len() as int)
    }

    /// The actor's invariant.
    pub closed spec fn wf(&self) -> bool {
        &&& self.text_len == utf8_len(self.text@, self.text@.len() as int)
        &&& self.span_start <= self.text_len
    }

    /// A fresh document in `style`.
    pub fn new(style: S) -> (r: Self)
        ensures
            r.wf(),
            r.text_view() == Seq::<char>::empty(),
            r.spans_view() == Seq::<VtSpan<S>>::empty(),
            r.style_view() == style,
            r.span_start_view() == 0,
            !r.pending_cr_view(),
            r.doc() == empty_doc(style),
    {
        TooltipAnsiActor { text: Vec::new(), text_len: 0, spans: Vec::new(), style, span_start: 0, pending_cr: false }
    }

    /// The style in force.
    pub fn style(&self) -> (r: S)
        ensures
            r == self.style_view(),
    {
        self.style
    }

    /// The text's length in bytes.
    pub fn text_len(&self) -> (r: usize)
        requires
            self.wf(),
        ensures
            r == self.byte_len(),
    {
        self.text_len
    }

    fn push_char(&mut self, c: char)
        requires
            old(self).wf(),
            old(self).byte_len() + 4 <= usize::MAX,
        ensures
            final(self).wf(),
            final(self).text_view() == old(self).text_view().push(c),
            final(self).byte_len() == old(self).byte_len() + utf8_width(c),
            final(self).spans_view() == old(self).spans_view(),
            final(self).style_view() == old(self).style_view(),
            final(self).span_start_view() == old(self).span_start_view(),
            final(self).pending_cr_view() == old(self).pending_cr_view(),
    {
        let w = char_utf8_width(c);
        let ghost before = self.text@;
        self.text.push(c);
        self.text_len = self.text_len + w;
        proof {
            assert(self.text@.drop_last() =~= before);
            assert(utf8_len(self.text@, self.text@.len() as int) == utf8_len(before, before.len() as int) + utf8_width(c)) by {
                lemma_utf8_len_prefix(self.text@, before, before.len() as int);
            }
        }
    }

    /// The text with a waiting carriage return turned into a line break.
    pub open spec fn flushed(&self) -> Seq<char> {
        if self.pending_cr_view() {
            self.text_view().push('\n')
        } else {
            self.text_view()
        }
    }

    /// A printed character, after the line break a waiting carriage return
    /// makes.
    pub fn print(&mut self, c: char)
        requires
            old(self).wf(),
            old(self).byte_len() + 8 <= usize::MAX,
        ensures
            final(self).wf(),
            final(self).text_view() == old(self).flushed().push(c),
            !final(self).pending_cr_view(),
            final(self).spans_view() == old(self).spans_view(),
            final(self).style_view() == old(self).style_view(),
            final(self).span_start_view() == old(self).span_start_view(),
            final(self).doc() == doc_print(old(self).doc(), c),
            final(self).byte_len() <= old(self).byte_len() + 5,
    {
        if self.pending_cr {
            self.pending_cr = false;
            self.push_char('\n');
        }
        self.push_char(c);
        proof {
            assert(self.doc() =~= doc_print(old(self).doc(), c));
        }
    }

    /// A C0 or C1 control: CR waits for what follows (a second CR first
    /// makes its own break), LF is a line break that absorbs a waiting CR,
    /// and any other control prints as a space.
    pub fn execute_c0_or_c1(&mut self, control: u8)
        requires
            old(self).wf(),
            old(self).byte_len() + 8 <= usize::MAX,
        ensures
            final(self).wf(),
            final(self).spans_view() == old(self).spans_view(),
            final(self).style_view() == old(self).style_view(),
            final(self).span_start_view() == old(self).span_start_view(),
            control == 13 ==> final(self).text_view() == old(self).flushed() && final(self).pending_cr_view(),
            control == 10 ==> final(self).text_view() == old(self).text_view().push('\n')
                && !final(self).pending_cr_view(),
            control != 13 && control != 10 ==> final(self).text_view() == old(self).flushed().push(' ')
                && !final(self).pending_cr_view(),
            final(self).doc() == doc_control(old(self).doc(), control),
            final(self).byte_len() <= old(self).byte_len() + 5,
    {
        if control == 13 {
            if self.pending_cr {
                self.push_char('\n');
            }
            self.pending_cr = true;
        } else if control == 10 {
            self.pending_cr = false;
            self.push_char('\n');
        } else {
            self.print(' ');
        }
        proof {
            assert(self.doc() =~= doc_control(old(self).doc(), control));
        }
    }

    /// The open span, closed where it covers any text.
    pub open spec fn closed_spans(&self) -> Seq<VtSpan<S>> {
        if self.byte_len() > self.span_start_view() {
            self.spans_view().push(
                VtSpan {
                    style: self.style_view(),
                    begin_pos: self.span_start_view() as usize,
                    end_pos: self.byte_len() as usize,
                },
            )
        } else {
            self.spans_view()
        }
    }

    fn close_span(&mut self)
        requires
            old(self).wf(),
        ensures
            final(self).wf(),
            final(self).spans_view() == old(self).closed_spans(),
            final(self).span_start_view() == old(self).byte_len(),
            final(self).text_view() == old(self).text_view(),
            final(self).style_view() == old(self).style_view(),
            final(self).pending_cr_view() == old(self).pending_cr_view(),
    {
        if self.text_len > self.span_start {
            self.spans.push(VtSpan { style: self.style, begin_pos: self.span_start, end_pos: self.text_len });
        }
        self.span_start = self.text_len;
    }

    /// An SGR update: a different style closes the open span and opens one
    /// in the new style; the same style changes nothing.
    pub fn set_style(&mut self, style: S)
        requires
            old(self).wf(),
            vstd::laws_eq::obeys_concrete_eq::<S>(),
        ensures
            final(self).wf(),
            final(self).text_view() == old(self).text_view(),
            final(self).pending_cr_view() == old(self).pending_cr_view(),
            final(self).style_view() == style,
            style == old(self).style_view() ==> final(self).spans_view() == old(self).spans_view()
                && final(self).span_start_view() == old(self).span_start_view(),
            style != old(self).style_view() ==> final(self).spans_view() == old(self).closed_spans()
                && final(self).span_start_view() == old(self).byte_len(),
            final(self).doc() == doc_restyle(old(self).doc(), style),
            final(self).byte_len() == old(self).byte_len(),
    {
        proof {
            reveal(vstd::laws_eq::obeys_concrete_eq);
        }
        if style != self.style {
            self.close_span();
            self.style = style;
        }
        proof {
            assert(self.doc() =~= doc_restyle(old(self).doc(), style));
        }
    }

    /// The finished document: a waiting carriage return becomes a line
    /// break, the open span is closed, and the text is trimmed with the
    /// spans clipped to what is left. Text that is all white space is no
    /// document.
    pub fn finish(self) -> (r: Option<LinkTooltipText<S>>)
        requires
            self.wf(),
            self.byte_len() + 4 <= usize::MAX,
        ensures
            finished_as(self.doc(), r),
    {
        let mut this = self;
        if this.pending_cr {
            this.push_char('\n');
        }
        this.close_span();
        let ghost full = this.text@;
        let n = this.text.len();
        let mut lead: usize = 0;
        let mut lead_bytes: usize = 0;
        while lead < n && is_whitespace(this.text[lead])
            invariant
                n == full.len(),
                this.text@ == full,
                lead <= n,
                lead_bytes == utf8_len(full, lead as int),
                this.text_len == utf8_len(full, n as int),
                leading_space(full, 0) == leading_space(full, lead as int),
            decreases n - lead,
        {
            proof {
                lemma_utf8_monotone(full, lead + 1, n as int);
            }
            lead_bytes = lead_bytes + char_utf8_width(this.text[lead]);
            lead += 1;
        }
        let mut tail: usize = n;
        let mut tail_bytes: usize = this.text_len;
        while tail > 0 && is_whitespace(this.text[tail - 1])
            invariant
                n == full.len(),
                this.text@ == full,
                tail <= n,
                tail_bytes == utf8_len(full, tail as int),
                without_trailing_space(full, n as int) == without_trailing_space(full, tail as int),
            decreases tail,
        {
            tail_bytes = tail_bytes - char_utf8_width(this.text[tail - 1]);
            tail -= 1;
        }
        proof {
            assert(leading_space(full, lead as int) == lead);
            assert(without_trailing_space(full, tail as int) == tail);
        }
        if lead >= tail {
            return None;
        }
        let mut kept: Vec<char> = Vec::new();
        let mut i: usize = lead;
        while i < tail
            invariant
                this.text@ == full,
                lead <= i <= tail <= full.len(),
                kept@ == full.subrange(lead as int, i as int),
            decreases tail - i,
        {
            kept.push(this.text[i]);
            proof {
                assert(kept@ =~= full.subrange(lead as int, i + 1));
            }
            i += 1;
        }
        proof {
            lemma_utf8_len_strict(full, lead as int, tail as int);
        }
        let text = string_from_chars(kept.as_slice());
        let mut spans: Vec<VtSpan<S>> = Vec::new();
        let mut j: usize = 0;
        while j < this.spans.len()
            invariant
                j <= this.spans@.len(),
                lead_bytes < tail_bytes,
                spans@ == clip_spans(this.spans@.take(j as int), lead_bytes as int, tail_bytes as int),
            decreases this.spans@.len() - j,
        {
            let sp = this.spans[j];
            let b = if sp.begin_pos >= lead_bytes { sp.begin_pos } else { lead_bytes };
            let e = if sp.end_pos <= tail_bytes { sp.end_pos } else { tail_bytes };
            proof {
                assert(this.spans@.take(j + 1).drop_last() =~= this.spans@.take(j as int));
            }
            if b < e {
                spans.push(VtSpan { style: sp.style, begin_pos: b - lead_bytes, end_pos: e - lead_bytes });
            }
            j += 1;
        }
        proof {
            assert(this.spans@.take(this.spans@.len() as int) =~= this.spans@);
        }
        Some(LinkTooltipText { text, spans })
    }
}

// ----------------------------------------------------------------------
// Line assembly
// ----------------------------------------------------------------------

/// A hyperlinked stretch of a line: `link` over the bytes
/// `begin_pos..end_pos`.
#[derive(Debug, Clone)]
pub struct LinkSpan<L> {
    pub begin_pos: usize,
    pub end_pos: usize,
    pub link: L,
}

/// A line as the terminal assembled it: its text, styled stretches, raw
/// bytes where they were captured, and links.
#[derive(Debug, Clone)]
pub struct StyledLine<S, L> {
    pub text: String,
    pub spans: Vec<VtSpan<S>>,
    pub raw: Option<Vec<u8>>,
    pub links: Vec<LinkSpan<L>>,
}

/// What the processor hands to the session runtime.
#[derive(Debug, Clone)]
pub enum RuntimeAction<S, L> {
    HandleIncomingLine(StyledLine<S, L>),
    HandleIncomingPartialLine(StyledLine<S, L>),
    RetractIncomingPartialLine,
    RequestRepaint,
}

/// The parse state of a session's incoming text, as a value.
pub struct VtState<S, L> {
    /// The open line's text.
    pub text: Seq<char>,
    /// The open line's raw bytes, while they are captured.
    pub raw: Seq<u8>,
    /// The styled stretches closed on the open line.
    pub spans: Seq<VtSpan<S>>,
    /// The link ranges closed on the open line.
    pub links: Seq<LinkSpan<L>>,
    /// The style in force.
    pub style: S,
    /// The active link: it survives line commits and overprints.
    pub link: Option<L>,
    /// Where on the open line the active link's current range began.
    pub link_open: usize,
    /// A bare carriage return arrived, with the raw length at that moment:
    /// the next printed character overwrites the open line.
    pub pending_cr: Option<usize>,
    /// Whether raw capture follows a flag that triggers own.
    pub follows_flag: bool,
    /// Whether raw bytes are being captured.
    pub capture: bool,
}

impl<S, L> VtState<S, L> {
    /// The open line's length in bytes.
    pub open spec fn byte_len(self) -> nat {
        utf8_len(self.text, self.text.len() as int)
    }

    /// The styled stretches once the one in force is closed at the end of
    /// the text.
    pub open spec fn styled_spans(self) -> Seq<VtSpan<S>> {
        self.spans.push(
            VtSpan {
                style: self.style,
                begin_pos: if self.spans.len() == 0 {
                    0
                } else {
                    self.spans.last().end_pos
                },
                end_pos: self.byte_len() as usize,
            },
        )
    }

    /// Whether closing the active link's range records a range.
    pub open spec fn closes_link(self) -> bool {
        self.link is Some && self.byte_len() > self.link_open
    }

    /// The capture flag after a line boundary: it may fall, never rise.
    pub open spec fn refreshed(self, flag_now: bool) -> bool {
        if self.follows_flag {
            self.capture && flag_now
        } else {
            self.capture
        }
    }
}

/// `links` are `state`'s link ranges after its active link's range is
/// closed: a range of a clone of the link from where it opened to the end
/// of the text, where that covers anything.
pub open spec fn links_closed<S, L: Clone>(state: VtState<S, L>, links: Seq<LinkSpan<L>>) -> bool {
    if state.closes_link() {
        &&& links.len() == state.links.len() + 1
        &&& links.drop_last() == state.links
        &&& links.last().begin_pos == state.link_open
        &&& links.last().end_pos == state.byte_len()
        &&& cloned(state.link->0, links.last().link)
    } else {
        links == state.links
    }
}

/// `line` is the line `state` makes: its text, its styled stretches with
/// the one in force closed, its raw bytes where captured, and its link
/// ranges with the active one closed.
pub open spec fn line_of<S, L: Clone>(state: VtState<S, L>, line: StyledLine<S, L>) -> bool {
    &&& line.text@ == state.text
    &&& line.spans@ == state.styled_spans()
    &&& (line.raw is Some <==> state.capture)
    &&& (line.raw matches Some(r) ==> r@ == state.raw)
    &&& links_closed(state, line.links@)
}

/// Turns parser actions into styled, linked lines for the session
/// runtime. A bare carriage return makes the next printed character
/// overwrite the open line (progress bars, spinners) and retract what was
/// already flushed of it; CR LF is an ordinary commit. Raw capture may
/// fall at any line boundary but rises only between read batches, so a
/// line's raw form is complete or absent.
pub struct VtProcessor<S, L> {
    cursor_style: S,
    buf: Vec<char>,
    buf_len: usize,
    buf_raw: Vec<u8>,
    span_info: Vec<VtSpan<S>>,
    link_info: Vec<LinkSpan<L>>,
    cursor_link: Option<L>,
    link_open_pos: usize,
    pending_cr: Option<usize>,
    follows_flag: bool,
    capture_raw: bool,
}

impl<S, L> View for VtProcessor<S, L> {
    type V = VtState<S, L>;

    closed spec fn view(&self) -> VtState<S, L> {
        VtState {
            text: self.buf@,
            raw: self.buf_raw@,
            spans: self.span_info@,
            links: self.link_info@,
            style: self.cursor_style,
            link: self.cursor_link,
            link_open: self.link_open_pos,
            pending_cr: self.pending_cr,
            follows_flag: self.follows_flag,
            capture: self.capture_raw,
        }
    }
}

impl<S: Copy, L: Clone> VtProcessor<S, L> {
    /// The processor's invariant.
    pub closed spec fn wf(&self) -> bool {
        self.buf_len == utf8_len(self.buf@, self.buf@.len() as int)
    }

    /// A processor with nothing pending, in `style`, capturing raw bytes.
    pub fn new(style: S) -> (r: Self)
        ensures
            r.wf(),
            r@ == (VtState::<S, L> {
                text: Seq::empty(),
                raw: Seq::empty(),
                spans: Seq::empty(),
                links: Seq::empty(),
                style,
                link: None,
                link_open: 0,
                pending_cr: None,
                follows_flag: false,
                capture: true,
            }),
    {
        VtProcessor {
            cursor_style: style,
            buf: Vec::new(),
            buf_len: 0,
            buf_raw: Vec::new(),
            span_info: Vec::new(),
            link_info: Vec::new(),
            cursor_link: None,
            link_open_pos: 0,
            pending_cr: None,
            follows_flag: false,
            capture_raw: true,
        }
    }

    /// The open line's length in bytes.
    pub fn text_len(&self) -> (r: usize)
        requires
            self.wf(),
        ensures
            r == self@.byte_len(),
    {
        self.buf_len
    }

    /// The style in force.
    pub fn cursor_style(&self) -> (r: S)
        ensures
            r == self@.style,
    {
        self.cursor_style
    }

    /// Tie raw capture to a flag, `flag_now` being its value: capture
    /// follows it from here.
    pub fn set_raw_wanted_flag(&mut self, flag_now: bool)
        ensures
            final(self).wf() == old(self).wf(),
            final(self)@ == (VtState { capture: flag_now, follows_flag: true, ..old(self)@ }),
    {
        self.capture_raw = flag_now;
        self.follows_flag = true;
    }

    /// Whether raw bytes are being captured.
    pub fn capture_raw(&self) -> (r: bool)
        ensures
            r == self@.capture,
    {
        self.capture_raw
    }

    /// A raw byte of the open line, kept while capture is on.
    pub fn push_raw_incoming_byte(&mut self, byte: u8)
        ensures
            final(self).wf() == old(self).wf(),
            final(self)@ == (VtState {
                raw: if old(self)@.capture {
                    old(self)@.raw.push(byte)
                } else {
                    old(self)@.raw
                },
                ..old(self)@
            }),
    {
        if self.capture_raw {
            self.buf_raw.push(byte);
        }
    }

    /// A byte as the connection reads it, before the parser sees it: line
    /// breaks (CR and LF) are the parser's to act on and never enter the
    /// raw line; any other byte is kept while capture is on.
    pub fn receive_raw_byte(&mut self, byte: u8)
        ensures
            final(self).wf() == old(self).wf(),
            final(self)@ == (VtState {
                raw: if old(self)@.capture && byte != 10 && byte != 13 {
                    old(self)@.raw.push(byte)
                } else {
                    old(self)@.raw
                },
                ..old(self)@
            }),
    {
        if byte != 10 && byte != 13 {
            self.push_raw_incoming_byte(byte);
        }
    }

    fn close_link_range(&mut self, keep_active: bool)
        requires
            old(self).wf(),
        ensures
            final(self).wf(),
            links_closed(old(self)@, final(self)@.links),
            final(self)@.link == if keep_active {
                old(self)@.link
            } else {
                None
            },
            final(self)@.link_open == old(self)@.byte_len(),
            final(self)@.text == old(self)@.text,
            final(self)@.raw == old(self)@.raw,
            final(self)@.spans == old(self)@.spans,
            final(self)@.style == old(self)@.style,
            final(self)@.pending_cr == old(self)@.pending_cr,
            final(self)@.follows_flag == old(self)@.follows_flag,
            final(self)@.capture == old(self)@.capture,
    {
        let ghost before = self.link_info@;
        match &self.cursor_link {
            Some(link) => {
                if self.buf_len > self.link_open_pos {
                    let l = link.clone();
                    self.link_info.push(LinkSpan { begin_pos: self.link_open_pos, end_pos: self.buf_len, link: l });
                    proof {
                        assert(self.link_info@.drop_last() =~= before);
                    }
                }
            },
            None => {},
        }
        if !keep_active {
            self.cursor_link = None;
        }
        self.link_open_pos = self.buf_len;
    }

    /// An explicit link end (`ESC ] 8 ; ;`), or a malformed or refused
    /// OSC 8: the active link's range closes and no link is active.
    pub fn close_link(&mut self)
        requires
            old(self).wf(),
        ensures
            final(self).wf(),
            links_closed(old(self)@, final(self)@.links),
            final(self)@ == (VtState { links: final(self)@.links, link: None, link_open: old(self)@.byte_len() as usize, ..old(self)@ }),
    {
        self.close_link_range(false);
    }

    /// A link begins here, closing any open one (a second open without a
    /// close replaces it from this point).
    pub fn open_link(&mut self, link: L)
        requires
            old(self).wf(),
        ensures
            final(self).wf(),
            links_closed(old(self)@, final(self)@.links),
            final(self)@ == (VtState {
                links: final(self)@.links,
                link: Some(link),
                link_open: old(self)@.byte_len() as usize,
                ..old(self)@
            }),
    {
        self.close_link_range(false);
        self.cursor_link = Some(link);
        self.link_open_pos = self.buf_len;
    }

    /// An SGR update: the stretch in the old style closes at the end of the
    /// text (even empty) and the new style is in force.
    pub fn change_style(&mut self, new_style: S)
        requires
            old(self).wf(),
        ensures
            final(self).wf(),
            final(self)@ == (VtState { spans: old(self)@.styled_spans(), style: new_style, ..old(self)@ }),
    {
        let begin = if self.span_info.len() == 0 {
            0
        } else {
            self.span_info[self.span_info.len() - 1].end_pos
        };
        self.span_info.push(VtSpan { begin_pos: begin, end_pos: self.buf_len, style: self.cursor_style });
        self.cursor_style = new_style;
    }

    /// The open line as it stands: the stretch in force and the active
    /// link's range close at its end; the link stays active and its next
    /// range starts at 0. The text and raw bytes stay for the caller.
    pub fn consume_into_pending_line(&mut self) -> (line: StyledLine<S, L>)
        requires
            old(self).wf(),
        ensures
            final(self).wf(),
            line_of(old(self)@, line),
            final(self)@ == (VtState {
                spans: Seq::empty(),
                links: Seq::empty(),
                link_open: 0,
                ..old(self)@
            }),
    {
        let ghost start = self@;
        self.change_style(self.cursor_style);
        self.close_link_range(true);
        let text = string_from_chars(self.buf.as_slice());
        let raw = if self.capture_raw {
            Some(self.buf_raw.clone())
        } else {
            None
        };
        let mut spans: Vec<VtSpan<S>> = Vec::new();
        std::mem::swap(&mut spans, &mut self.span_info);
        let mut links: Vec<LinkSpan<L>> = Vec::new();
        std::mem::swap(&mut links, &mut self.link_info);
        self.link_open_pos = 0;
        proof {
            if raw is Some {
                assert(raw->0@ =~= self.buf_raw@);
            }
        }
        StyledLine { text, spans, raw, links }
    }

    fn clear_line(&mut self)
        requires
            old(self).wf(),
        ensures
            final(self).wf(),
            final(self)@ == (VtState { text: Seq::empty(), raw: Seq::empty(), ..old(self)@ }),
    {
        self.buf = Vec::new();
        self.buf_len = 0;
        self.buf_raw = Vec::new();
    }

    /// The end of a read batch: a non-empty open line goes upstream as a
    /// partial (a pending carriage return then retracts all of it), a
    /// repaint is requested, and raw capture takes the flag's value: this
    /// is the one place it may rise.
    pub fn notify_end_of_buffer(&mut self, flag_now: bool) -> (r: Vec<RuntimeAction<S, L>>)
        requires
            old(self).wf(),
        ensures
            final(self).wf(),
            old(self)@.text.len() == 0 ==> r@ == seq![RuntimeAction::<S, L>::RequestRepaint],
            old(self)@.text.len() > 0 ==> r@.len() == 2 && r@[1] == RuntimeAction::<S, L>::RequestRepaint
                && (r@[0] matches RuntimeAction::HandleIncomingPartialLine(line) && line_of(old(self)@, line)),
            final(self)@ == (VtState {
                text: Seq::empty(),
                raw: if old(self)@.text.len() == 0 {
                    old(self)@.raw
                } else {
                    Seq::empty()
                },
                spans: Seq::empty(),
                links: Seq::empty(),
                link_open: 0,
                pending_cr: if old(self)@.text.len() > 0 && old(self)@.pending_cr is Some {
                    Some(0)
                } else {
                    old(self)@.pending_cr
                },
                capture: if old(self)@.follows_flag {
                    flag_now
                } else {
                    old(self)@.capture
                },
                ..old(self)@
            }),
    {
        let mut out: Vec<RuntimeAction<S, L>> = Vec::new();
        proof {
            if self.buf@.len() == 0 {
                assert(self.buf@ =~= Seq::<char>::empty());
            }
        }
        let line = self.consume_into_pending_line();
        if self.buf.len() > 0 {
            out.push(RuntimeAction::HandleIncomingPartialLine(line));
            self.clear_line();
            if self.pending_cr.is_some() {
                self.pending_cr = Some(0);
            }
        }
        out.push(RuntimeAction::RequestRepaint);
        if self.follows_flag {
            self.capture_raw = flag_now;
        }
        out
    }

    /// A prompt boundary (`IAC GA` / `IAC EOR`): the open line, if any, goes
    /// upstream as a partial and a fresh line starts; a carriage return
    /// just before it no longer overwrites anything.
    pub fn commit_prompt(&mut self, flag_now: bool) -> (r: Vec<RuntimeAction<S, L>>)
        requires
            old(self).wf(),
        ensures
            final(self).wf(),
            old(self)@.text.len() == 0 ==> r@.len() == 0 && final(self)@ == (VtState {
                pending_cr: None,
                ..old(self)@
            }),
            old(self)@.text.len() > 0 ==> r@.len() == 1 && (r@[0] matches RuntimeAction::HandleIncomingPartialLine(
                line,
            ) && line_of(old(self)@, line)) && final(self)@ == (VtState {
                text: Seq::empty(),
                raw: Seq::empty(),
                spans: Seq::empty(),
                links: Seq::empty(),
                link_open: 0,
                pending_cr: None,
                capture: old(self)@.refreshed(flag_now),
                ..old(self)@
            }),
    {
        self.pending_cr = None;
        let mut out: Vec<RuntimeAction<S, L>> = Vec::new();
        if self.buf.len() == 0 {
            return out;
        }
        let line = self.consume_into_pending_line();
        out.push(RuntimeAction::HandleIncomingPartialLine(line));
        self.clear_line();
        if self.follows_flag {
            self.capture_raw = self.capture_raw && flag_now;
        }
        out
    }

    /// A printed character; after a bare carriage return it starts the
    /// line over: the open text, spans and link ranges go, the raw bytes of
    /// the superseded frame go (those since the return stay), the active
    /// link and style survive, and what was flushed upstream is retracted.
    pub fn print(&mut self, c: char) -> (r: Vec<RuntimeAction<S, L>>)
        requires
            old(self).wf(),
            old(self)@.byte_len() + 4 <= usize::MAX,
        ensures
            final(self).wf(),
            match old(self)@.pending_cr {
                None => r@.len() == 0 && final(self)@ == (VtState { text: old(self)@.text.push(c), ..old(self)@ }),
                Some(mark) => r@ == seq![RuntimeAction::<S, L>::RetractIncomingPartialLine] && final(self)@ == (
                VtState {
                    text: seq![c],
                    raw: old(self)@.raw.skip(
                        if mark <= old(self)@.raw.len() {
                            mark as int
                        } else {
                            old(self)@.raw.len() as int
                        },
                    ),
                    spans: Seq::empty(),
                    links: Seq::empty(),
                    link_open: 0,
                    pending_cr: None,
                    ..old(self)@
                }),
            },
    {
        let mut out: Vec<RuntimeAction<S, L>> = Vec::new();
        match self.pending_cr {
            Some(mark) => {
                self.pending_cr = None;
                self.buf = Vec::new();
                self.buf_len = 0;
                self.span_info = Vec::new();
                self.link_info = Vec::new();
                self.link_open_pos = 0;
                let cut = if mark <= self.buf_raw.len() {
                    mark
                } else {
                    self.buf_raw.len()
                };
                let rest = self.buf_raw.split_off(cut);
                self.buf_raw = rest;
                out.push(RuntimeAction::RetractIncomingPartialLine);
            },
            None => {},
        }
        let ghost before = self.buf@;
        let w = char_utf8_width(c);
        self.buf.push(c);
        self.buf_len = self.buf_len + w;
        proof {
            assert(self.buf@.drop_last() =~= before);
            lemma_utf8_len_prefix(self.buf@, before, before.len() as int);
            assert(self.buf@.subrange(0, 0) =~= Seq::<char>::empty());
        }
        out
    }

    /// A C0 or C1 control: LF commits the open line (a pending carriage
    /// return is dropped, so CR LF is an ordinary commit); CR marks the raw
    /// length and waits; any other control is ignored.
    pub fn execute_c0_or_c1(&mut self, control: u8, flag_now: bool) -> (r: Vec<RuntimeAction<S, L>>)
        requires
            old(self).wf(),
        ensures
            final(self).wf(),
            control == 10 ==> r@.len() == 1 && (r@[0] matches RuntimeAction::HandleIncomingLine(line) && line_of(
                old(self)@,
                line,
            )) && final(self)@ == (VtState {
                text: Seq::empty(),
                raw: Seq::empty(),
                spans: Seq::empty(),
                links: Seq::empty(),
                link_open: 0,
                pending_cr: None,
                capture: old(self)@.refreshed(flag_now),
                ..old(self)@
            }),
            control == 13 ==> r@.len() == 0 && final(self)@ == (VtState {
                pending_cr: Some(old(self)@.raw.len() as usize),
                ..old(self)@
            }),
            control != 10 && control != 13 ==> r@.len() == 0 && final(self)@ == old(self)@,
    {
        let mut out: Vec<RuntimeAction<S, L>> = Vec::new();
        if control == 10 {
            self.pending_cr = None;
            let line = self.consume_into_pending_line();
            out.push(RuntimeAction::HandleIncomingLine(line));
            self.clear_line();
            if self.follows_flag {
                self.capture_raw = self.capture_raw && flag_now;
            }
        } else if control == 13 {
            self.pending_cr = Some(self.buf_raw.len());
        }
        out
    }
}

/// What an OSC sequence asks of the link state.
#[derive(Debug, Clone, PartialEq, Eq)]
pub enum Osc8Request {
    /// Not an OSC 8: nothing changes.
    Ignore,
    /// An OSC 8 with no target, or a truncated one: the active link ends.
    Close,
    /// An OSC 8 naming this target, as text.
    Open(String),
}

/// The fields joined with `;`.
pub open spec fn join_params(ps: Seq<Seq<u8>>) -> Seq<u8>
    decreases ps.len(),
{
    if ps.len() == 0 {
        Seq::empty()
    } else if ps.len() == 1 {
        ps[0]
    } else {
        join_params(ps.drop_last()) + seq![59u8] + ps.last()
    }
}

/// The OSC fields as byte strings.
pub open spec fn param_views(params: Seq<Vec<u8>>) -> Seq<Seq<u8>> {
    params.map_values(|p: Vec<u8>| p@)
}

/// Read an OSC sequence's fields (`8 ; params ; URI`): a URI may hold `;`
/// itself, so everything past the second field is the URI, rejoined. The
/// params field is accepted and unused. A sequence too short to carry a
/// URI, or with an empty one, closes the active link so that a degenerate
/// sequence cannot leave a link open over later lines.
pub fn osc8_request(params: &[Vec<u8>]) -> (r: Osc8Request)
    ensures
        !(params@.len() > 0 && params@[0]@ == seq![56u8]) ==> r == Osc8Request::Ignore,
        params@.len() > 0 && params@[0]@ == seq![56u8] && params@.len() < 3 ==> r == Osc8Request::Close,
        params@.len() >= 3 && params@[0]@ == seq![56u8] ==> {
            let uri = join_params(param_views(params@).skip(2));
            &&& uri.len() == 0 ==> r == Osc8Request::Close
            &&& uri.len() > 0 ==> (r matches Osc8Request::Open(t) && t@ == lossy_text(uri))
        },
{
    if params.len() == 0 || params[0].len() != 1 || params[0][0] != 56 {
        proof {
            if params@.len() > 0 && params@[0]@ == seq![56u8] {
                assert(params@[0]@.len() == 1);
            }
        }
        return Osc8Request::Ignore;
    }
    proof {
        assert(params@[0]@ =~= seq![56u8]);
    }
    if params.len() < 3 {
        return Osc8Request::Close;
    }
    let mut uri: Vec<u8> = Vec::new();
    let mut i: usize = 2;
    while i < params.len()
        invariant
            2 <= i <= params@.len(),
            uri@ == join_params(param_views(params@).subrange(2, i as int)),
        decreases params@.len() - i,
    {
        let ghost before = uri@;
        if i > 2 {
            uri.push(59);
        }
        let p = &params[i];
        let mut j: usize = 0;
        let ghost mid = uri@;
        while j < p.len()
            invariant
                j <= p@.len(),
                uri@ == mid + p@.take(j as int),
            decreases p@.len() - j,
        {
            uri.push(p[j]);
            proof {
                assert(uri@ =~= mid + p@.take(j + 1));
            }
            j += 1;
        }
        proof {
            let vs = param_views(params@).subrange(2, i + 1);
            assert(vs.drop_last() =~= param_views(params@).subrange(2, i as int));
            assert(p@.take(p@.len() as int) =~= p@);
            if i > 2 {
                assert(uri@ =~= before + seq![59u8] + p@);
            } else {
                assert(uri@ =~= p@);
            }
        }
        i += 1;
    }
    proof {
        assert(param_views(params@).subrange(2, params@.len() as int) =~= param_views(params@).skip(2));
    }
    if uri.len() == 0 {
        return Osc8Request::Close;
    }
    Osc8Request::Open(from_utf8_lossy(uri.as_slice()))
}

/// A line boundary never raises raw capture: a flag that rises mid-batch
/// takes effect only at the end of the batch, so no line's raw form starts
/// part-way through.
pub proof fn lemma_line_boundary_never_raises_capture<S, L>(state: VtState<S, L>, flag_now: bool)
    ensures
        state.refreshed(flag_now) ==> state.capture,
        !flag_now && state.follows_flag ==> !state.refreshed(flag_now),
{
}

} // verus!
