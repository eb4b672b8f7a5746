//! Authored ANSI documents: the actions vtparse reports for a byte
//! stream, and tooltip copy built from them as a safe SGR-only document.
//! Printed characters and line controls become text, SGR updates become
//! styled spans, and every other sequence (cursor motion, OSC, DCS, APC,
//! other CSI) is discarded.

use vstd::prelude::*;

use crate::text::{lemma_trim_keeps_a_stretch, leading_space};
use crate::vt_processor::{
    doc_control, doc_flushed, doc_print, doc_restyle, empty_doc, finished_as, LinkTooltipText, TooltipAnsiActor,
    TooltipDoc,
};

verus! {

/// One parameter of a CSI sequence.
#[derive(Debug, Clone, Copy, PartialEq, Eq, Structural)]
pub enum CsiArg {
    Integer(i64),
    P(u8),
}

/// One action of the ANSI parser.
#[derive(Debug, Clone, PartialEq, Eq)]
pub enum VtEvent {
    Print(char),
    ExecuteC0orC1(u8),
    DcsHook { params: Vec<i64>, intermediates: Vec<u8>, ignored_excess_intermediates: bool, byte: u8 },
    DcsPut(u8),
    DcsUnhook,
    EscDispatch { params: Vec<i64>, intermediates: Vec<u8>, ignored_excess_intermediates: bool, byte: u8 },
    CsiDispatch { params: Vec<CsiArg>, parameters_truncated: bool, byte: u8 },
    OscDispatch(Vec<Vec<u8>>),
    ApcDispatch(Vec<u8>),
}

#[verifier::external_type_specification]
#[verifier::external_body]
pub struct ExVtAction(vtparse::VTAction);

#[verifier::external_type_specification]
#[verifier::external_body]
pub struct ExCsiParam(vtparse::CsiParam);

/// A `vtparse::CsiParam` as the library's parameter, variant for variant.
#[verifier::external_body]
fn csi_arg_of(p: &vtparse::CsiParam) -> CsiArg {
    match p {
        vtparse::CsiParam::Integer(n) => CsiArg::Integer(*n),
        vtparse::CsiParam::P(b) => CsiArg::P(*b),
    }
}

/// A `vtparse::VTAction` as the library's event, variant for variant,
/// fields moved across. Nothing is stated of the result: it is only ever
/// reached through `parse_vt`, whose contract names the whole parse.
#[verifier::external_body]
fn vt_event_of(a: vtparse::VTAction) -> VtEvent {
    match a {
        vtparse::VTAction::Print(c) => VtEvent::Print(c),
        vtparse::VTAction::ExecuteC0orC1(b) => VtEvent::ExecuteC0orC1(b),
        vtparse::VTAction::DcsHook { params, intermediates, ignored_excess_intermediates, byte } =>
            VtEvent::DcsHook { params, intermediates, ignored_excess_intermediates, byte },
        vtparse::VTAction::DcsPut(b) => VtEvent::DcsPut(b),
        vtparse::VTAction::DcsUnhook => VtEvent::DcsUnhook,
        vtparse::VTAction::EscDispatch { params, intermediates, ignored_excess_intermediates, byte } =>
            VtEvent::EscDispatch { params, intermediates, ignored_excess_intermediates, byte },
        vtparse::VTAction::CsiDispatch { params, parameters_truncated, byte } =>
            VtEvent::CsiDispatch { params: params.iter().map(csi_arg_of).collect(), parameters_truncated, byte },
        vtparse::VTAction::OscDispatch(fields) => VtEvent::OscDispatch(fields),
        vtparse::VTAction::ApcDispatch(data) => VtEvent::ApcDispatch(data),
    }
}

/// The actions a fresh `vtparse::VTParser` reports, in order, when it is
/// fed `bytes`.
pub uninterp spec fn vt_actions(bytes: Seq<u8>) -> Seq<VtEvent>;

/// `bytes` run through a fresh `vtparse::VTParser` (`VTParser::parse`),
/// the actions collected by `vtparse::CollectingVTActor` and taken into
/// the library's events. The parse depends on the bytes alone; what it
/// makes of them is named, not stated.
#[verifier::external_body]
fn parse_vt(bytes: &[u8]) -> (r: Vec<VtEvent>)
    ensures
        r@ == vt_actions(bytes@),
{
    let mut parser = vtparse::VTParser::new();
    let mut actor = vtparse::CollectingVTActor::default();
    parser.parse(bytes, &mut actor);
    actor.into_vec().into_iter().map(vt_event_of).collect()
}

/// The most events a tooltip document is built from: each adds at most
/// five bytes of text, and the text's length must stay a `usize`.
pub const MAX_TOOLTIP_EVENTS: usize = usize::MAX / 8;

/// Whether `e` is an SGR update (`CSI ... m`).
pub open spec fn is_sgr(e: VtEvent) -> bool {
    e matches VtEvent::CsiDispatch { byte, .. } && byte == 109
}

/// The parameters of a CSI event.
pub open spec fn csi_params(e: VtEvent) -> Seq<CsiArg> {
    match e {
        VtEvent::CsiDispatch { params, .. } => params@,
        _ => Seq::empty(),
    }
}

/// How many SGR updates `events` holds.
pub open spec fn sgr_count(events: Seq<VtEvent>) -> nat
    decreases events.len(),
{
    if events.len() == 0 {
        0
    } else {
        sgr_count(events.drop_last()) + if is_sgr(events.last()) {
            1nat
        } else {
            0nat
        }
    }
}

/// The document `events` build from an empty one in `plain`, the `k`th SGR
/// update switching to `styles[k]`; events other than prints, controls
/// and SGR updates leave it as it is.
pub open spec fn tooltip_doc_after<S>(events: Seq<VtEvent>, plain: S, styles: Seq<S>) -> TooltipDoc<S>
    decreases events.len(),
{
    if events.len() == 0 {
        empty_doc(plain)
    } else {
        let d = tooltip_doc_after(events.drop_last(), plain, styles);
        match events.last() {
            VtEvent::Print(c) => doc_print(d, c),
            VtEvent::ExecuteC0orC1(x) => doc_control(d, x),
            VtEvent::CsiDispatch { byte, .. } => if byte == 109 {
                doc_restyle(d, styles[sgr_count(events.drop_last()) as int])
            } else {
                d
            },
            _ => d,
        }
    }
}

/// The style in force before the `k`th SGR update.
pub open spec fn style_before<S>(plain: S, styles: Seq<S>, k: int) -> S {
    if k <= 0 {
        plain
    } else {
        styles[k - 1]
    }
}

/// `styles` is what the interpreter `sgr` made of the SGR updates of
/// `events`, each from the style in force and the update's parameters.
pub open spec fn styles_follow<S, F: Fn(S, &[CsiArg]) -> S>(
    sgr: F,
    events: Seq<VtEvent>,
    plain: S,
    styles: Seq<S>,
) -> bool {
    &&& styles.len() == sgr_count(events)
    &&& forall|i: int|
        0 <= i < events.len() && is_sgr(#[trigger] events[i]) ==> exists|p: &[CsiArg]|
            p@ == csi_params(events[i]) && sgr.ensures(
                (style_before(plain, styles, sgr_count(events.take(i)) as int), p),
                styles[sgr_count(events.take(i)) as int],
            )
}

proof fn lemma_doc_after_styles<S>(events: Seq<VtEvent>, plain: S, s1: Seq<S>, s2: Seq<S>)
    requires
        s1.len() >= sgr_count(events),
        s2.len() >= sgr_count(events),
        forall|k: int| 0 <= k < sgr_count(events) ==> s1[k] == s2[k],
    ensures
        tooltip_doc_after(events, plain, s1) == tooltip_doc_after(events, plain, s2),
    decreases events.len(),
{
    if events.len() > 0 {
        lemma_doc_after_styles(events.drop_last(), plain, s1, s2);
    }
}

/// Build tooltip copy from parser events: prints and controls become
/// text, each SGR update asks `sgr` for the style it leads to, and every
/// other event is dropped; the document is then finished.
pub fn tooltip_from_events<S: Copy + PartialEq, F: Fn(S, &[CsiArg]) -> S>(
    events: &[VtEvent],
    plain: S,
    sgr: F,
) -> (r: Option<LinkTooltipText<S>>)
    requires
        events@.len() <= MAX_TOOLTIP_EVENTS,
        forall|s: S, p: &[CsiArg]| #[trigger] sgr.requires((s, p)),
        vstd::laws_eq::obeys_concrete_eq::<S>(),
    ensures
        exists|styles: Seq<S>|
            styles_follow(sgr, events@, plain, styles) && #[trigger] finished_as(
                tooltip_doc_after(events@, plain, styles),
                r,
            ),
{
    let mut actor = TooltipAnsiActor::new(plain);
    let ghost mut styles: Seq<S> = Seq::empty();
    let mut i: usize = 0;
    while i < events.len()
        invariant
            i <= events@.len(),
            events@.len() <= MAX_TOOLTIP_EVENTS,
            forall|s: S, p: &[CsiArg]| #[trigger] sgr.requires((s, p)),
            vstd::laws_eq::obeys_concrete_eq::<S>(),
            actor.wf(),
            actor.byte_len() <= 5 * i,
            actor.doc() == tooltip_doc_after(events@.take(i as int), plain, styles),
            actor.style_view() == style_before(plain, styles, styles.len() as int),
            styles_follow(sgr, events@.take(i as int), plain, styles),
        decreases events@.len() - i,
    {
        let ghost prefix = events@.take(i as int);
        let ghost before = styles;
        proof {
            assert(events@.take(i + 1).drop_last() =~= prefix);
            assert(events@.take(i + 1).last() == events@[i as int]);
        }
        match &events[i] {
            VtEvent::Print(c) => {
                actor.print(*c);
            },
            VtEvent::ExecuteC0orC1(x) => {
                actor.execute_c0_or_c1(*x);
            },
            VtEvent::CsiDispatch { params, byte, .. } => {
                if *byte == 109 {
                    let p = params.as_slice();
                    let next = sgr(actor.style(), p);
                    actor.set_style(next);
                    proof {
                        styles = before.push(next);
                        lemma_doc_after_styles(prefix, plain, before, styles);
                    }
                }
            },
            _ => {},
        }
        proof {
            let grown = events@.take(i + 1);
            assert forall|j: int| 0 <= j < grown.len() && is_sgr(#[trigger] grown[j]) implies exists|p: &[CsiArg]|
                p@ == csi_params(grown[j]) && sgr.ensures(
                    (style_before(plain, styles, sgr_count(grown.take(j)) as int), p),
                    styles[sgr_count(grown.take(j)) as int],
                ) by {
                if j < i {
                    assert(grown.take(j) =~= prefix.take(j));
                    assert(grown[j] == prefix[j]);
                    let k = sgr_count(prefix.take(j)) as int;
                    lemma_sgr_count_prefix(prefix, j);
                    assert(styles[k] == before[k]);
                    assert(style_before(plain, styles, k) == style_before(plain, before, k));
                } else {
                    assert(grown.take(j) =~= prefix);
                }
            }
        }
        i += 1;
    }
    proof {
        assert(events@.take(events@.len() as int) =~= events@);
    }
    let r = actor.finish();
    r
}

proof fn lemma_sgr_count_prefix(events: Seq<VtEvent>, j: int)
    requires
        0 <= j < events.len(),
    ensures
        sgr_count(events.take(j)) < sgr_count(events) || !is_sgr(events[j]),
        is_sgr(events[j]) ==> sgr_count(events.take(j)) < sgr_count(events),
    decreases events.len(),
{
    if j < events.len() - 1 {
        lemma_sgr_count_prefix(events.drop_last(), j);
        assert(events.drop_last().take(j) =~= events.take(j));
        assert(events.drop_last()[j] == events[j]);
    } else {
        assert(events.drop_last() =~= events.take(j));
    }
}

/// `r` is what the authored tooltip copy `text` parses to: no document
/// where the parser reports more events than a document may be built
/// from; otherwise the document its events build, each SGR update styled
/// by `sgr`.
pub open spec fn tooltip_parsed_as<S, F: Fn(S, &[CsiArg]) -> S>(
    text: Seq<char>,
    plain: S,
    sgr: F,
    r: Option<LinkTooltipText<S>>,
) -> bool {
    let events = vt_actions(vstd::utf8::encode_utf8(text));
    if events.len() > MAX_TOOLTIP_EVENTS {
        r is None
    } else {
        exists|styles: Seq<S>|
            styles_follow(sgr, events, plain, styles) && #[trigger] finished_as(
                tooltip_doc_after(events, plain, styles),
                r,
            )
    }
}

/// Parse authored tooltip copy as a safe SGR-only ANSI document: SGR
/// updates become styled spans; every other terminal sequence is dropped.
pub fn parse_link_tooltip_text<S: Copy + PartialEq, F: Fn(S, &[CsiArg]) -> S>(
    text: &str,
    plain: S,
    sgr: F,
) -> (r: Option<LinkTooltipText<S>>)
    requires
        forall|s: S, p: &[CsiArg]| #[trigger] sgr.requires((s, p)),
        vstd::laws_eq::obeys_concrete_eq::<S>(),
    ensures
        tooltip_parsed_as(text@, plain, sgr, r),
{
    let events = parse_vt(text.as_bytes());
    if events.len() > MAX_TOOLTIP_EVENTS {
        return None;
    }
    tooltip_from_events(events.as_slice(), plain, sgr)
}

/// Whether `events` print the character `c` somewhere.
pub open spec fn printed(events: Seq<VtEvent>, c: char) -> bool {
    exists|i: int| 0 <= i < events.len() && events[i] == VtEvent::Print(c)
}

/// Whether `c` may stand in tooltip text built from `events`: a printed
/// character, a line break, or the space a control shows as.
pub open spec fn tooltip_char(events: Seq<VtEvent>, c: char) -> bool {
    c == '\n' || c == ' ' || printed(events, c)
}

proof fn lemma_doc_text_printed<S>(events: Seq<VtEvent>, plain: S, styles: Seq<S>)
    ensures
        forall|j: int|
            0 <= j < tooltip_doc_after(events, plain, styles).text.len() ==> tooltip_char(
                events,
                #[trigger] tooltip_doc_after(events, plain, styles).text[j],
            ),
    decreases events.len(),
{
    if events.len() > 0 {
        let rest = events.drop_last();
        lemma_doc_text_printed(rest, plain, styles);
        let d = tooltip_doc_after(rest, plain, styles);
        let t = tooltip_doc_after(events, plain, styles).text;
        assert forall|j: int| 0 <= j < t.len() implies tooltip_char(events, #[trigger] t[j]) by {
            if j < d.text.len() && t[j] == d.text[j] {
                if printed(rest, d.text[j]) {
                    let i = choose|i: int| 0 <= i < rest.len() && rest[i] == VtEvent::Print(d.text[j]);
                    assert(events[i] == rest[i]);
                }
            } else if let VtEvent::Print(c) = events.last() {
                if t[j] == c {
                    assert(events[events.len() - 1] == VtEvent::Print(c));
                }
            }
        }
    }
}

/// No terminal sequence reaches tooltip text: every character of parsed
/// tooltip copy is one the parser printed, a line break, or the space a
/// control shows as. Escape sequences, OSC, DCS, APC and every CSI
/// contribute nothing but (for SGR) style.
pub proof fn lemma_tooltip_text_is_printed<S, F: Fn(S, &[CsiArg]) -> S>(
    text: Seq<char>,
    plain: S,
    sgr: F,
    r: Option<LinkTooltipText<S>>,
)
    requires
        tooltip_parsed_as(text, plain, sgr, r),
    ensures
        r matches Some(t) ==> forall|j: int|
            0 <= j < t.text@.len() ==> tooltip_char(vt_actions(vstd::utf8::encode_utf8(text)), #[trigger] t.text@[j]),
{
    let events = vt_actions(vstd::utf8::encode_utf8(text));
    if events.len() <= MAX_TOOLTIP_EVENTS && r is Some {
        let styles = choose|styles: Seq<S>|
            styles_follow(sgr, events, plain, styles) && #[trigger] finished_as(
                tooltip_doc_after(events, plain, styles),
                r,
            );
        let d = tooltip_doc_after(events, plain, styles);
        lemma_doc_text_printed(events, plain, styles);
        let full = doc_flushed(d);
        lemma_trim_keeps_a_stretch(full);
        let t = r->0;
        assert forall|j: int| 0 <= j < t.text@.len() implies tooltip_char(events, #[trigger] t.text@[j]) by {
            let k = leading_space(full, 0) + j;
            assert(t.text@[j] == full[k]);
            if k < d.text.len() {
                assert(full[k] == d.text[k]);
            }
        }
    }
}

} // verus!
