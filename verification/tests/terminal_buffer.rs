use smudgy_panes::link_config::{LinkDecoration, LinkTextStyle};
use smudgy_panes::terminal_buffer::{
    concealed_text, span_decorations, BoldMode, SgrAttributes, SgrUnderline,
    strip_possessive_suffix, BufferLine, LinkSpan, RenderedOffsets, RenderedOffsetsBuilder, TerminalBuffer,
};

type Buffer = TerminalBuffer<(), String, u64>;
type Line = BufferLine<(), String>;

fn sl(s: &str) -> Line {
    BufferLine { line: (), text: s.to_string(), links: Vec::new() }
}

fn linked_line(text: &str, begin: usize, end: usize) -> Line {
    BufferLine {
        line: (),
        text: text.to_string(),
        links: vec![LinkSpan { begin_pos: begin, end_pos: end, link: "north".to_string() }],
    }
}

fn join(a: Line, b: Line) -> Line {
    let mut links = a.links;
    let shift = a.text.len();
    links.extend(b.links.into_iter().map(|l| LinkSpan {
        begin_pos: l.begin_pos + shift,
        end_pos: l.end_pos + shift,
        link: l.link,
    }));
    BufferLine { line: (), text: a.text + &b.text, links }
}

fn texts_rev(buffer: &Buffer) -> Vec<(usize, String)> {
    buffer
        .lines_rev_with_line_number(None)
        .into_iter()
        .map(|(n, l)| (n, l.text.clone()))
        .collect()
}

#[test]
fn test_new_buffer_initial_state() {
    let buffer = Buffer::new(0);
    assert_eq!(buffer.len(), 0);
    assert!(buffer.is_empty());
    assert_eq!(buffer.last_line_number(), 0);
    assert_eq!(buffer.max_lines(), 10_000);
    assert!(!buffer.line_terminated());
}

#[test]
fn test_new_with_max_lines_initial_state() {
    let buffer = Buffer::new_with_max_lines(50, 0);
    assert_eq!(buffer.len(), 0);
    assert!(buffer.is_empty());
    assert_eq!(buffer.last_line_number(), 0);
    assert_eq!(buffer.max_lines(), 50);
    assert!(!buffer.line_terminated());
}

#[test]
fn test_push_line_increments_current_line_number() {
    let mut buffer = Buffer::new_with_max_lines(3, 0);
    assert_eq!(buffer.last_line_number(), 0);

    buffer.push_line(sl("line 1"));
    assert_eq!(buffer.len(), 1);
    assert_eq!(buffer.last_line_number(), 1);
    assert!(buffer.line_terminated());

    buffer.push_line(sl("line 2"));
    assert_eq!(buffer.len(), 2);
    assert_eq!(buffer.last_line_number(), 2);
    assert!(buffer.line_terminated());
}

#[test]
fn test_extend_line_increments_current_line_number() {
    let mut buffer = Buffer::new_with_max_lines(3, 0);

    buffer.commit_current_line();
    assert!(buffer.line_terminated());
    buffer.extend_line(sl("line 1 part 1"), join);
    assert_eq!(buffer.len(), 1);
    assert_eq!(buffer.last_line_number(), 1);
    assert!(!buffer.line_terminated());

    let previous_line_number = buffer.last_line_number();
    buffer.extend_line(sl("line 1 part 2 - ignored"), join);
    assert_eq!(buffer.len(), 1);
    assert_eq!(buffer.last_line_number(), previous_line_number);
    assert!(!buffer.line_terminated());

    let mut buffer2 = Buffer::new_with_max_lines(3, 0);
    assert!(!buffer2.line_terminated());
    assert!(buffer2.is_empty());
    buffer2.extend_line(sl("first line segment"), join);
    assert_eq!(buffer2.len(), 1);
    assert_eq!(buffer2.last_line_number(), 1);
    assert!(!buffer2.line_terminated());
}

#[test]
fn selected_text_survives_clear_and_scrollback_eviction() {
    let mut buffer = Buffer::new_with_max_lines(10, 0);
    buffer.push_line(sl("alpha"));
    buffer.push_line(sl("bravo"));
    let selection = Some(((1, 0), (2, 5)));
    assert_eq!(buffer.selected_text(selection), "alpha\nbravo");

    buffer.clear_lines();
    assert_eq!(buffer.selected_text(selection), "");

    buffer.push_line(sl("charlie"));
    assert_eq!(buffer.selected_text(selection), "");

    let straddling = Some(((2, 2), (3, 7)));
    assert_eq!(buffer.selected_text(straddling), "charlie");
}

#[test]
fn test_buffer_wrapping_and_current_line_number() {
    let mut buffer = Buffer::new_with_max_lines(2, 0);
    buffer.push_line(sl("1"));
    buffer.push_line(sl("2"));
    assert_eq!(buffer.len(), 2);
    assert_eq!(buffer.last_line_number(), 2);

    buffer.push_line(sl("3"));
    assert_eq!(buffer.len(), 2);
    assert_eq!(buffer.last_line_number(), 3);
    assert_eq!(buffer.line(2).unwrap().text, "2");
    assert_eq!(buffer.line(3).unwrap().text, "3");

    buffer.push_line(sl("4"));
    assert_eq!(buffer.len(), 2);
    assert_eq!(buffer.last_line_number(), 4);
    assert_eq!(buffer.line(3).unwrap().text, "3");
    assert_eq!(buffer.line(4).unwrap().text, "4");
    assert!(buffer.line(2).is_none());
}

#[test]
fn test_iter_rev_with_line_number_empty() {
    let buffer = Buffer::new(0);
    assert_eq!(buffer.lines_rev_with_line_number(None).len(), 0);
}

#[test]
fn test_iter_rev_with_line_number_no_wrap() {
    let mut buffer = Buffer::new_with_max_lines(5, 0);
    buffer.push_line(sl("L1"));
    buffer.push_line(sl("L2"));
    buffer.push_line(sl("L3"));
    assert_eq!(
        texts_rev(&buffer),
        vec![(3, "L3".to_string()), (2, "L2".to_string()), (1, "L1".to_string())]
    );
}

#[test]
fn test_iter_rev_with_line_number_with_wrap() {
    let mut buffer = Buffer::new_with_max_lines(2, 0);
    buffer.push_line(sl("L1"));
    buffer.push_line(sl("L2"));
    buffer.push_line(sl("L3"));
    assert_eq!(texts_rev(&buffer), vec![(3, "L3".to_string()), (2, "L2".to_string())]);
}

#[test]
fn lines_rev_with_line_number_starts_at_the_given_line() {
    let mut buffer = Buffer::new_with_max_lines(5, 0);
    for t in ["a", "b", "c", "d"] {
        buffer.push_line(sl(t));
    }
    let from_two: Vec<(usize, String)> =
        buffer.lines_rev_with_line_number(Some(2)).into_iter().map(|(n, l)| (n, l.text.clone())).collect();
    assert_eq!(from_two, vec![(2, "b".to_string()), (1, "a".to_string())]);
}

#[test]
fn link_at_resolves_by_absolute_line_and_column() {
    let mut buffer = Buffer::new_with_max_lines(10, 0);
    buffer.push_line(sl("plain"));
    buffer.push_line(linked_line("go north now", 3, 8));
    let at = |line: usize, column: usize| buffer.link_span_at(line, column).map(|l| l.link.clone());

    assert_eq!(at(2, 5), Some("north".to_string()));
    assert_eq!(at(2, 3), Some("north".to_string()));
    assert_eq!(at(2, 8), None);
    assert_eq!(at(2, 0), None);
    assert_eq!(at(1, 5), None);
    assert_eq!(at(0, 5), None);
    assert_eq!(at(99, 5), None);
    assert!(buffer.has_links());
}

#[test]
fn concealed_spoiler_offsets_map_back_to_the_source_line() {
    let mut builder = RenderedOffsetsBuilder::new();
    builder.push("A", "A");
    builder.push("\u{1f5dd}\u{fe0f}", " ");
    builder.push("B", "B");
    let offsets = builder.finish();
    assert!(matches!(offsets, RenderedOffsets::Mapped { .. }));

    assert_eq!(offsets.source_to_rendered(1), 1);
    assert_eq!(offsets.source_to_rendered(8), 2);
    assert_eq!(offsets.rendered_to_source(1), 1);
    assert_eq!(offsets.rendered_to_source(2), 8);
    assert_eq!(offsets.rendered_to_source(3), 9);
}

#[test]
fn unchanged_fragments_make_the_identity_map() {
    let mut builder = RenderedOffsetsBuilder::new();
    builder.push("ab", "ab");
    builder.push("\u{e9}", "\u{e9}");
    let offsets = builder.finish();
    assert!(matches!(offsets, RenderedOffsets::Identity));
    assert_eq!(offsets.source_to_rendered(3), 3);
}

#[test]
fn extend_line_joins_the_open_line_and_evicts_when_full() {
    let mut buffer = Buffer::new_with_max_lines(2, 0);
    buffer.push_line(sl("one"));
    buffer.push_line(sl("two"));
    buffer.extend_line(sl("thr"), join);
    buffer.extend_line(linked_line("ee!", 0, 2), join);
    assert_eq!(buffer.len(), 2);
    assert_eq!(buffer.last_line_number(), 3);
    assert_eq!(buffer.line(3).unwrap().text, "three!");
    assert_eq!(buffer.link_span_at(3, 3).map(|l| (l.begin_pos, l.end_pos)), Some((3, 5)));
    assert!(buffer.line(1).is_none());
}

#[test]
fn strip_possessive_suffix_drops_one_ascii_or_curly_suffix() {
    assert_eq!(strip_possessive_suffix("Bob's"), "Bob");
    assert_eq!(strip_possessive_suffix("BOB'S"), "BOB");
    assert_eq!(strip_possessive_suffix("Bob\u{2019}s"), "Bob");
    assert_eq!(strip_possessive_suffix("Bobs"), "Bobs");
    assert_eq!(strip_possessive_suffix("'s"), "");
}

#[test]
fn find_recent_word_logic() {
    let mut buffer = Buffer::new_with_max_lines(10, 0);
    buffer.push_line(sl("hello world"));
    buffer.push_line(sl("test another one"));
    buffer.push_line(sl("prefix_found here"));
    buffer.push_line(sl("try prefix_again"));

    assert_eq!(buffer.find_recent_word_by_prefix("pref", None, &[], 4), Some("prefix_again".to_string()));
    assert_eq!(buffer.find_recent_word_by_prefix("pref", None, &[], 2), Some("prefix_again".to_string()));
    assert_eq!(buffer.find_recent_word_by_prefix("anot", None, &[], 4), Some("another".to_string()));

    assert_eq!(buffer.find_recent_word_by_prefix("PREFIX", None, &[], 4), Some("prefix_again".to_string()));

    assert_eq!(buffer.find_recent_word_by_prefix("nonexistent", None, &[], 4), None);

    let mut skip_set = vec!["prefix_again".to_string()];
    assert_eq!(
        buffer.find_recent_word_by_prefix("pref", Some(skip_set.as_slice()), &[], 4),
        Some("prefix_found".to_string())
    );

    skip_set.push("prefix_found".to_string());
    assert_eq!(buffer.find_recent_word_by_prefix("pref", Some(skip_set.as_slice()), &[], 4), None);

    assert_eq!(buffer.find_recent_word_by_prefix("hello", None, &[], 1), None);
    assert_eq!(buffer.find_recent_word_by_prefix("hello", None, &[], 4), Some("hello".to_string()));
}

#[test]
fn find_recent_word_handles_colon_segments() {
    let mut buffer = Buffer::new_with_max_lines(10, 0);
    buffer.push_line(sl("[SC:Order] [Rr'Kar:Awful] guard:Awful Mem:2 T:40 Exits:N(S)W>"));
    buffer.push_line(sl("An alert militia guard misses Zurek with his slash."));

    assert_eq!(buffer.find_recent_word_by_prefix("sc", None, &[], 5), Some("SC".to_string()));
    assert_eq!(buffer.find_recent_word_by_prefix("sc:", None, &[], 5), Some("SC:Order".to_string()));
    assert_eq!(buffer.find_recent_word_by_prefix("rr", None, &[], 5), Some("Rr'Kar".to_string()));
    assert_eq!(buffer.find_recent_word_by_prefix("gu", None, &[], 5), Some("guard".to_string()));
    assert_eq!(buffer.find_recent_word_by_prefix("guard:", None, &[], 5), Some("guard:Awful".to_string()));

    buffer.push_line(sl("Half-orc's strike leaves a scratch-!"));
    assert_eq!(buffer.find_recent_word_by_prefix("half", None, &[], 5), Some("Half-orc".to_string()));
    assert_eq!(buffer.find_recent_word_by_prefix("half-orc'", None, &[], 5), Some("Half-orc's".to_string()));
    assert_eq!(buffer.find_recent_word_by_prefix("scr", None, &[], 5), Some("scratch".to_string()));
}

#[test]
fn find_recent_word_skips_folded_sets() {
    let mut buffer = Buffer::new_with_max_lines(10, 0);
    buffer.push_line(sl("Zurek zone ZEBRA"));
    let folded = vec![vec!["zebra".to_string()], vec!["zone".to_string()]];
    assert_eq!(buffer.find_recent_word_by_prefix("z", None, &folded, 1), Some("Zurek".to_string()));
    let folded = vec![vec!["zurek".to_string(), "zone".to_string()], vec!["zebra".to_string()]];
    assert_eq!(buffer.find_recent_word_by_prefix("z", None, &folded, 1), None);
    assert_eq!(buffer.find_recent_word_by_prefix("", None, &[], 0), None);
    assert_eq!(buffer.find_recent_word_by_prefix("", None, &[], 9), Some("Zurek".to_string()));
}

#[test]
fn all_link_spans_lists_every_link_with_its_line_number() {
    let mut buffer = Buffer::new_with_max_lines(2, 0);
    buffer.push_line(linked_line("evicted", 0, 3));
    buffer.push_line(sl("plain"));
    buffer.push_line(join(linked_line("go north", 3, 8), linked_line(" or up", 4, 6)));
    let spans: Vec<(usize, usize, usize)> =
        buffer.all_link_spans().into_iter().map(|(n, l)| (n, l.begin_pos, l.end_pos)).collect();
    assert_eq!(spans, vec![(3, 3, 8), (3, 12, 14)]);
}

#[test]
fn visibility_epochs_count_each_kind_of_event() {
    let mut buffer = Buffer::new(0);
    assert_eq!(buffer.visibility_epochs(), (0, 0, 0, None));
    buffer.note_visibility_input();
    buffer.note_visibility_output(40);
    buffer.note_visibility_output(45);
    assert_eq!(buffer.visibility_epochs(), (1, 0, 2, Some(45)));
}

#[test]
fn default_offsets_builder_maps_identically() {
    let offsets = RenderedOffsetsBuilder::default().finish();
    assert!(matches!(offsets, RenderedOffsets::Identity));
}

const PLAIN: SgrAttributes = SgrAttributes {
    bold: false,
    italic: false,
    faint: false,
    reverse: false,
    crossed_out: false,
    underline: SgrUnderline::NoLine,
    explicit_background: false,
};

fn empty_style() -> LinkTextStyle {
    LinkTextStyle {
        foreground: None,
        background: None,
        bold: None,
        italic: None,
        underline: None,
        overline: None,
        strikethrough: None,
        decoration_color: None,
    }
}

#[test]
fn sgr_bold_modes_preserve_the_regular_font_and_choose_weight_and_color() {
    let bold_sgr = SgrAttributes { bold: true, ..PLAIN };
    let bold = span_decorations(bold_sgr, None, false, false, false, false, BoldMode::Bold);
    assert!(bold.bold_weight);
    assert!(!bold.bright_foreground);
    let bright = span_decorations(bold_sgr, None, false, false, false, false, BoldMode::Bright);
    assert!(!bright.bold_weight, "the regular font is kept");
    assert!(bright.bright_foreground);
    let both = span_decorations(bold_sgr, None, false, false, false, false, BoldMode::BoldAndBright);
    assert!(both.bold_weight);
    assert_eq!(both.bright_foreground, bright.bright_foreground);
}

#[test]
fn make_span_renders_sgr_attributes_and_reverse_colors() {
    let sgr = SgrAttributes {
        faint: true,
        italic: true,
        underline: SgrUnderline::Double,
        crossed_out: true,
        reverse: true,
        explicit_background: true,
        ..PLAIN
    };
    let span = span_decorations(sgr, None, false, false, false, false, BoldMode::Bold);
    assert!(span.reverse && span.faint && span.background);
    assert!(span.italic);
    assert_eq!(span.underline, LinkDecoration::Double);
    assert_eq!(span.strikethrough, LinkDecoration::Solid);
    assert_eq!(span.overline, LinkDecoration::NoLine);
    assert!(!span.link_wash);
}

#[test]
fn concealed_spoiler_replaces_each_grapheme_with_a_space() {
    assert_eq!(concealed_text("\u{1f52e}\u{1f480}\u{1f5dd}\u{fe0f}"), "   ");
    let span = span_decorations(PLAIN, None, true, false, false, true, BoldMode::Bold);
    assert!(!span.link_wash && !span.background, "no highlight");
    assert_eq!(span.underline, LinkDecoration::NoLine);
}

#[test]
fn protocol_concealment_suppresses_every_visual_affordance() {
    let span = span_decorations(PLAIN, None, true, false, true, false, BoldMode::Bold);
    assert!(span.transparent);
    assert!(!span.link_wash && !span.background, "no highlight");
    assert_eq!(span.underline, LinkDecoration::NoLine);
    assert_eq!(span.strikethrough, LinkDecoration::NoLine);
}

#[test]
fn authored_osc_style_suppresses_fallback_link_affordance() {
    let authored = empty_style();
    let span = span_decorations(PLAIN, Some(&authored), true, true, false, false, BoldMode::Bold);
    assert_eq!(span.underline, LinkDecoration::NoLine, "an empty authored style is not auto-underlined");
    assert!(!span.link_wash, "an authored style gets no fallback wash");
}

#[test]
fn authored_osc_false_values_override_active_sgr_attributes() {
    let authored = LinkTextStyle {
        bold: Some(false),
        italic: Some(false),
        underline: Some(LinkDecoration::NoLine),
        strikethrough: Some(LinkDecoration::NoLine),
        ..empty_style()
    };
    let sgr = SgrAttributes {
        bold: true,
        italic: true,
        underline: SgrUnderline::Single,
        crossed_out: true,
        ..PLAIN
    };
    let span = span_decorations(sgr, Some(&authored), true, true, false, false, BoldMode::BoldAndBright);
    assert!(!span.bold_weight);
    assert!(!span.bright_foreground);
    assert!(!span.italic);
    assert_eq!(span.underline, LinkDecoration::NoLine);
    assert_eq!(span.strikethrough, LinkDecoration::NoLine);
}

#[test]
fn to_spans_keeps_explicit_background_under_a_link() {
    let sgr = SgrAttributes { explicit_background: true, ..PLAIN };
    let span = span_decorations(sgr, None, true, false, false, false, BoldMode::Bold);
    // The author's background wins over the wash; the underline stays.
    assert_eq!(span.underline, LinkDecoration::Solid);
    assert!(span.background);
    assert!(!span.link_wash);
}

#[test]
fn an_unauthored_link_gets_the_underline_and_the_wash() {
    let span = span_decorations(PLAIN, None, true, false, false, false, BoldMode::Bold);
    assert_eq!(span.underline, LinkDecoration::Solid);
    assert!(span.link_wash && !span.background);
    let authored = LinkTextStyle {
        overline: Some(LinkDecoration::Wavy),
        decoration_color: Some("red".to_string()),
        ..empty_style()
    };
    let styled = span_decorations(PLAIN, Some(&authored), true, true, false, false, BoldMode::Bold);
    assert_eq!(styled.overline, LinkDecoration::Wavy);
    assert!(styled.decoration_color);
    assert_eq!(concealed_text("ab"), "  ");
}
