use smudgy_panes::ansi::{parse_link_tooltip_text as parse_tooltip, tooltip_from_events, CsiArg, VtEvent};
use smudgy_panes::json::{first_config_document, JsonValue};
use smudgy_panes::link_config::{
    interpret_config, link_action_for_uri, osc8_config, parse_link_style, parse_menu, LinkDecoration,
    LinkMenuItem, LinkTooltip, ParsedLink, MAX_OSC8_URI_LEN,
};
use smudgy_panes::vt_processor::{
    osc8_request, osc8_target, percent_decode, sanitize_single_line_text, server_action_for_uri,
    LinkTooltipText, Osc8Request, RuntimeAction, ServerAction, StyledLine, TooltipAnsiActor,
    VtProcessor,
};
use vtparse::{CsiParam, VTActor, VTParser};

/// The style these tests track: the last SGR code seen (0 after a reset),
/// with bold kept apart.
#[derive(Debug, Clone, Copy, PartialEq, Eq)]
struct Sgr {
    code: i64,
    bold: bool,
}

const PLAIN: Sgr = Sgr { code: 0, bold: false };

fn sgr(mut style: Sgr, params: &[CsiArg]) -> Sgr {
    let codes: Vec<i64> = params
        .iter()
        .filter_map(|p| match p {
            CsiArg::Integer(n) => Some(*n),
            CsiArg::P(_) => None,
        })
        .collect();
    if codes.is_empty() {
        return PLAIN;
    }
    let mut i = 0;
    while i < codes.len() {
        match codes[i] {
            0 => style = PLAIN,
            1 => style.bold = true,
            38 | 48 => {
                style.code = codes[i];
                i += if codes.get(i + 1) == Some(&2) { 4 } else { 2 };
            }
            n => style.code = n,
        }
        i += 1;
    }
    style
}

type Link = ParsedLink<Sgr>;
type Action = RuntimeAction<Sgr, Link>;

fn to_json(v: &serde_json::Value) -> JsonValue {
    match v {
        serde_json::Value::Null => JsonValue::Null,
        serde_json::Value::Bool(b) => JsonValue::Bool(*b),
        serde_json::Value::Number(n) => JsonValue::Number(n.to_string()),
        serde_json::Value::String(s) => JsonValue::Text(s.clone()),
        serde_json::Value::Array(a) => JsonValue::Array(a.iter().map(to_json).collect()),
        serde_json::Value::Object(o) => {
            JsonValue::Object(o.iter().map(|(k, v)| (k.clone(), to_json(v))).collect())
        }
    }
}

fn csi_args(params: &[CsiParam]) -> Vec<CsiArg> {
    params
        .iter()
        .map(|p| match p {
            CsiParam::Integer(n) => CsiArg::Integer(*n),
            CsiParam::P(b) => CsiArg::P(*b),
        })
        .collect()
}

fn parse_link_tooltip_text(text: &str) -> Option<LinkTooltipText<Sgr>> {
    parse_tooltip(text, PLAIN, sgr)
}

fn link_for(uri: &str) -> Option<Link> {
    link_action_for_uri(uri, PLAIN, sgr)
}

struct Driver {
    processor: VtProcessor<Sgr, Link>,
    out: Vec<Action>,
    flag: bool,
}

impl VTActor for Driver {
    fn print(&mut self, c: char) {
        let actions = self.processor.print(c);
        self.out.extend(actions);
    }
    fn execute_c0_or_c1(&mut self, control: u8) {
        let actions = self.processor.execute_c0_or_c1(control, self.flag);
        self.out.extend(actions);
    }
    fn dcs_hook(&mut self, _byte: u8, _params: &[i64], _intermediates: &[u8], _ignored: bool) {}
    fn dcs_put(&mut self, _byte: u8) {}
    fn dcs_unhook(&mut self) {}
    fn esc_dispatch(&mut self, _params: &[i64], _intermediates: &[u8], _ignored: bool, _byte: u8) {}
    fn csi_dispatch(&mut self, params: &[CsiParam], _truncated: bool, byte: u8) {
        if byte == b'm' {
            let next = sgr(self.processor.cursor_style(), &csi_args(params));
            self.processor.change_style(next);
        }
    }
    fn osc_dispatch(&mut self, params: &[&[u8]]) {
        let fields: Vec<Vec<u8>> = params.iter().map(|p| p.to_vec()).collect();
        self.processor.osc_dispatch(&fields, PLAIN, sgr);
    }
    fn apc_dispatch(&mut self, _data: Vec<u8>) {}
}

struct Harness {
    parser: VTParser,
    driver: Driver,
}

fn harness() -> Harness {
    Harness {
        parser: VTParser::new(),
        driver: Driver { processor: VtProcessor::new(PLAIN), out: Vec::new(), flag: true },
    }
}

impl Harness {
    /// Raw bytes (minus CR/LF) are pushed before the parser sees each byte.
    fn feed(&mut self, bytes: &[u8]) {
        for &b in bytes {
            self.driver.processor.receive_raw_byte(b);
            self.parser.parse_byte(b, &mut self.driver);
        }
    }

    fn actions(&mut self) -> Vec<Action> {
        std::mem::take(&mut self.driver.out)
    }

    fn notify_end_of_buffer(&mut self) {
        let actions = self.driver.processor.notify_end_of_buffer(self.driver.flag);
        self.driver.out.extend(actions);
    }

    fn commit_prompt(&mut self) {
        let actions = self.driver.processor.commit_prompt(self.driver.flag);
        self.driver.out.extend(actions);
    }
}

fn transcript(actions: &[Action]) -> Vec<String> {
    actions
        .iter()
        .filter_map(|action| match action {
            RuntimeAction::HandleIncomingLine(line) => Some(format!("line:{}", line.text)),
            RuntimeAction::HandleIncomingPartialLine(line) => Some(format!("partial:{}", line.text)),
            RuntimeAction::RetractIncomingPartialLine => Some("retract".to_string()),
            _ => None,
        })
        .collect()
}

fn committed_lines(actions: &[Action]) -> Vec<StyledLine<Sgr, Link>> {
    actions
        .iter()
        .filter_map(|action| match action {
            RuntimeAction::HandleIncomingLine(line) => Some(line.clone()),
            _ => None,
        })
        .collect()
}

fn raw_text(line: &StyledLine<Sgr, Link>) -> Option<String> {
    line.raw.as_ref().map(|r| String::from_utf8(r.clone()).unwrap())
}

fn display(tooltip: &LinkTooltip<Sgr>) -> (String, Option<String>) {
    match tooltip {
        LinkTooltip::Styled { text, target } => (text.text.clone(), Some(target.clone())),
        LinkTooltip::Plain { text, target } => (text.clone(), target.clone()),
    }
}

fn open_url(s: &str) -> ServerAction {
    ServerAction::OpenUrl(s.to_string())
}

#[test]
fn bare_cr_overprints_the_open_line() {
    let mut h = harness();
    h.feed(b"10%\r20%\r100%\n");
    assert_eq!(transcript(&h.actions()), ["retract", "retract", "line:100%"]);
}

#[test]
fn crlf_commits_normally() {
    let mut h = harness();
    h.feed(b"a\r\nb\r\n");
    assert_eq!(transcript(&h.actions()), ["line:a", "line:b"]);
}

#[test]
fn newline_then_cr_line_endings_commit_normally() {
    let mut h = harness();
    h.feed(b"a\n\rb\n");
    let transcript = transcript(&h.actions());
    assert_eq!(transcript[0], "line:a");
    assert_eq!(transcript.last().unwrap(), "line:b");
}

#[test]
fn cursor_style_survives_an_overprint() {
    let mut h = harness();
    h.feed(b"\x1b[31mold\rnew\n");
    let actions = h.actions();
    let line = committed_lines(&actions).into_iter().next().expect("a committed line");
    assert_eq!(line.text, "new");
    assert!(line.spans.iter().all(|span| span.style == Sgr { code: 31, bold: false }));
    assert_eq!(raw_text(&line).as_deref(), Some("new"));
}

#[test]
fn raw_capture_rises_at_batch_boundaries_and_falls_at_line_boundaries() {
    let mut h = harness();
    h.driver.flag = false;
    h.driver.processor.set_raw_wanted_flag(false);

    h.feed(b"\x1b[31mplain\x1b[0m\n");
    let lines = committed_lines(&h.actions());
    assert_eq!(lines[0].text, "plain");
    assert_eq!(raw_text(&lines[0]), None);

    h.feed(b"mid");
    h.driver.flag = true;
    h.feed(b"line\n\x1b[32mnext\x1b[0m\n");
    let lines = committed_lines(&h.actions());
    assert_eq!(raw_text(&lines[0]), None, "a rise never applies mid-batch");
    assert_eq!(raw_text(&lines[1]), None, "a rise never applies mid-batch");

    h.notify_end_of_buffer();
    h.feed(b"\x1b[32mnow\x1b[0m\n");
    let lines = committed_lines(&h.actions());
    assert_eq!(raw_text(&lines[0]).as_deref(), Some("\x1b[32mnow\x1b[0m"));

    h.driver.flag = false;
    h.feed(b"latched\nafter\n");
    let lines = committed_lines(&h.actions());
    assert_eq!(raw_text(&lines[0]).as_deref(), Some("latched"));
    assert_eq!(raw_text(&lines[1]), None);
}

#[test]
fn overprint_after_a_flushed_partial_retracts_it() {
    let mut h = harness();
    h.feed(b"10%");
    h.notify_end_of_buffer();
    h.feed(b"\r20%\n");
    assert_eq!(transcript(&h.actions()), ["partial:10%", "retract", "line:20%"]);
}

#[test]
fn prompt_boundary_clears_a_pending_cr() {
    let mut h = harness();
    h.feed(b"> \r");
    h.commit_prompt();
    h.feed(b"ok\n");
    assert_eq!(transcript(&h.actions()), ["partial:> ", "line:ok"]);
}

#[test]
fn osc8_http_link_spans_the_enclosed_text() {
    let mut h = harness();
    h.feed(b"\x1b]8;;https://example.com\x1b\\click me\x1b]8;;\x1b\\ done\n");
    let lines = committed_lines(&h.actions());
    assert_eq!(lines[0].text, "click me done");
    assert_eq!(lines[0].links.len(), 1);
    assert_eq!(lines[0].links[0].begin_pos, 0);
    assert_eq!(lines[0].links[0].end_pos, "click me".len());
    assert_eq!(lines[0].links[0].link.primary, open_url("https://example.com"));
    assert_eq!(
        display(&lines[0].links[0].link.tooltip),
        ("https://example.com".to_string(), None)
    );
}

#[test]
fn osc8_basic_style_parses_full_and_compact_properties() {
    let mut h = harness();
    h.feed(
        b"\x1b]8;;send:look?config=%7B%22s%22%3A%7B%22c%22%3A%22red%22%2C%22bg%22%3A%22%2301020380%22%2C%22b%22%3Afalse%2C%22i%22%3Atrue%2C%22u%22%3Afalse%2C%22o%22%3A%22dotted%22%2C%22st%22%3A%22wavy%22%2C%22tdc%22%3A%22blue%22%7D%7D\x1b\\styled\x1b]8;;\x1b\\\n",
    );
    let lines = committed_lines(&h.actions());
    let style = lines[0].links[0].link.style.as_ref().expect("authored style");
    // Colors stay as the CSS text that the color canonicalizer reads.
    assert_eq!(style.foreground.as_deref(), Some("red"));
    assert_eq!(style.background.as_deref(), Some("#01020380"));
    assert_eq!(style.bold, Some(false));
    assert_eq!(style.italic, Some(true));
    assert_eq!(style.underline, Some(LinkDecoration::NoLine));
    assert_eq!(style.overline, Some(LinkDecoration::Dotted));
    assert_eq!(style.strikethrough, Some(LinkDecoration::Wavy));
    assert_eq!(style.decoration_color.as_deref(), Some("blue"));
}

#[test]
fn osc8_empty_authored_style_is_retained() {
    let mut h = harness();
    h.feed(b"\x1b]8;;send:look?config=%7B%22style%22%3A%7B%7D%7D\x1b\\look\x1b]8;;\x1b\\\n");
    let lines = committed_lines(&h.actions());
    assert!(lines[0].links[0].link.style.is_some());
}

#[test]
fn osc8_config_tooltip_strips_config_and_discloses_the_target() {
    let mut h = harness();
    h.feed(
        b"\x1b]8;;https://example.com/pay?x=1&config=%7B%22tooltip%22%3A%22Trusted%20checkout%22%7D#receipt\x1b\\pay\x1b]8;;\x1b\\\n",
    );
    let lines = committed_lines(&h.actions());
    let link = &lines[0].links[0].link;
    assert_eq!(link.primary, open_url("https://example.com/pay?x=1#receipt"));
    assert_eq!(
        display(&link.tooltip),
        (
            "Trusted checkout".to_string(),
            Some("https://example.com/pay?x=1#receipt".to_string())
        )
    );
}

#[test]
fn osc8_tooltip_preserves_json_lf_and_normalizes_crlf() {
    let cases = [
        (
            b"%7B%22tooltip%22%3A%22Line%20one%5CnLine%20two%22%7D".as_slice(),
            "Line one\nLine two",
        ),
        (
            b"%7B%22tooltip%22%3A%22Line%20one%5Cr%5CnLine%20two%22%7D".as_slice(),
            "Line one\nLine two",
        ),
    ];
    for (config, expected) in cases {
        let mut h = harness();
        let mut input = b"\x1b]8;;https://example.com/stats?config=".to_vec();
        input.extend_from_slice(config);
        input.extend_from_slice(b"\x1b\\stats\x1b]8;;\x1b\\\n");
        h.feed(&input);
        let lines = committed_lines(&h.actions());
        assert_eq!(
            display(&lines[0].links[0].link.tooltip),
            (expected.to_string(), Some("https://example.com/stats".to_string()))
        );
    }
}

#[test]
fn tooltip_ansi_parser_keeps_sgr_spans_and_discards_active_controls() {
    let parsed = parse_link_tooltip_text("\x1b[38;2;255;128;0mEPIC\x1b[0m\nDamage: \x1b[1;31m42\x1b[0m")
        .expect("styled tooltip");
    assert_eq!(parsed.text, "EPIC\nDamage: 42");
    assert_eq!(&parsed.text[parsed.spans[0].begin_pos..parsed.spans[0].end_pos], "EPIC");
    assert_ne!(parsed.spans[0].style, PLAIN);
    assert!(parsed.spans.iter().any(|span| {
        &parsed.text[span.begin_pos..span.end_pos] == "42" && span.style == Sgr { code: 31, bold: true }
    }));
    assert_eq!(parsed.spans.first().map(|span| span.begin_pos), Some(0));
    assert_eq!(parsed.spans.last().map(|span| span.end_pos), Some(parsed.text.len()));
    assert!(parsed.spans.windows(2).all(|pair| pair[0].end_pos == pair[1].begin_pos));

    let safe = parse_link_tooltip_text("safe\x1b]8;;https://example.com/hidden\x1b\\text\x1b[2J\0end")
        .expect("safe tooltip");
    assert_eq!(safe.text, "safetext end");
    assert!(!safe.text.contains('\x1b'));
}

#[test]
fn osc8_compact_tooltip_key_is_supported() {
    let mut h = harness();
    h.feed(
        b"\x1b]8;;send:north?config=%7B%22t%22%3A%22Take%20the%20north%20exit%22%7D\x1b\\north\x1b]8;;\x1b\\\n",
    );
    let lines = committed_lines(&h.actions());
    let link = &lines[0].links[0].link;
    assert_eq!(link.primary, ServerAction::ServerSend("north".to_string()));
    assert_eq!(
        display(&link.tooltip),
        ("Take the north exit".to_string(), Some("send:north".to_string()))
    );
}

#[test]
fn osc8_reserved_config_is_stripped_even_when_malformed() {
    let mut h = harness();
    h.feed(b"\x1b]8;;https://example.com/?x=1&config=not-json\x1b\\x\x1b]8;;\x1b\\\n");
    let lines = committed_lines(&h.actions());
    assert_eq!(lines[0].links[0].link.primary, open_url("https://example.com/?x=1"));
}

#[test]
fn osc8_percent_encoded_config_key_remains_part_of_web_url() {
    let mut h = harness();
    h.feed(b"\x1b]8;;https://example.com/?%63%6f%6e%66%69%67=value\x1b\\x\x1b]8;;\x1b\\\n");
    let lines = committed_lines(&h.actions());
    assert_eq!(
        lines[0].links[0].link.primary,
        open_url("https://example.com/?%63%6f%6e%66%69%67=value")
    );
}

#[test]
fn osc8_uri_may_contain_semicolons_and_bel_terminates() {
    let mut h = harness();
    h.feed(b"\x1b]8;;https://example.com/a;b=1\x07x\x1b]8;;\x07\n");
    let lines = committed_lines(&h.actions());
    assert_eq!(lines[0].links[0].link.primary, open_url("https://example.com/a;b=1"));
}

#[test]
fn osc8_link_continues_across_a_line_commit() {
    let mut h = harness();
    h.feed(b"\x1b]8;;https://example.com\x1b\\one\ntwo\x1b]8;;\x1b\\!\n");
    let lines = committed_lines(&h.actions());
    assert_eq!(lines[0].text, "one");
    assert_eq!((lines[0].links[0].begin_pos, lines[0].links[0].end_pos), (0, 3));
    assert_eq!(lines[1].text, "two!");
    assert_eq!(
        (lines[1].links[0].begin_pos, lines[1].links[0].end_pos),
        (0, 3),
        "the continuation restarts at column 0 and ends at the close"
    );
}

#[test]
fn osc8_send_scheme_percent_decodes_into_server_send() {
    let mut h = harness();
    h.feed(b"\x1b]8;;send:say%20hello%2C%20world\x1b\\hi\x1b]8;;\x1b\\\n");
    let lines = committed_lines(&h.actions());
    assert_eq!(
        lines[0].links[0].link.primary,
        ServerAction::ServerSend("say hello, world".to_string())
    );
}

#[test]
fn osc8_prompt_prefills_percent_decoded_text() {
    let mut h = harness();
    h.feed(b"\x1b]8;;prompt:cast%20fireball\x1b\\cast\x1b]8;;\x1b\\\n");
    let lines = committed_lines(&h.actions());
    assert_eq!(lines[0].links[0].link.primary, ServerAction::Prompt("cast fireball".to_string()));
}

#[test]
fn osc8_compact_disabled_link_keeps_tooltip_but_has_no_primary_action() {
    let mut h = harness();
    h.feed(
        b"\x1b]8;;send:north?config=%7B%22d%22%3Atrue%2C%22t%22%3A%22Unavailable%22%7D\x1b\\north\x1b]8;;\x1b\\\n",
    );
    let lines = committed_lines(&h.actions());
    let link = &lines[0].links[0].link;
    assert!(link.configured && link.disabled);
    assert!(link.menu.is_none());
    assert_eq!(
        display(&link.tooltip),
        ("Unavailable".to_string(), Some("send:north".to_string()))
    );
}

#[test]
fn osc8_compact_menu_supports_actions_separators_title_and_default_tooltip() {
    let mut h = harness();
    h.feed(
        b"\x1b]8;;send:look?config=%7B%22m%22%3A%5B%7B%22Look%22%3A%22send%3Alook%22%7D%2C%22-%22%2C%7B%22Cast%22%3A%22prompt%3Acast%2520fireball%22%7D%5D%2C%22ti%22%3A%22Actions%22%7D\x1b\\actions\x1b]8;;\x1b\\\n",
    );
    let lines = committed_lines(&h.actions());
    let link = &lines[0].links[0].link;
    assert!(link.configured && !link.disabled);
    let menu = link.menu.as_ref().expect("an enabled menu");
    assert_eq!(menu.title.as_deref(), Some("Actions"));
    assert_eq!(menu.items.len(), 3);
    assert!(matches!(menu.items[1], LinkMenuItem::Separator));
    assert!(matches!(
        &menu.items[2],
        LinkMenuItem::Action { label, action: ServerAction::Prompt(command) }
            if label == "Cast" && command == "cast fireball"
    ));
    assert_eq!(
        display(&link.tooltip),
        ("Right-click for menu".to_string(), Some("send:look".to_string()))
    );
}

#[test]
fn osc8_unsupported_schemes_render_plain_text() {
    let mut h = harness();
    h.feed(b"\x1b]8;;file:///etc/passwd\x1b\\name\x1b]8;;\x1b\\\n");
    let lines = committed_lines(&h.actions());
    assert_eq!(lines[0].text, "name");
    assert!(lines[0].links.is_empty());
}

#[test]
fn osc8_oversized_uri_is_ignored() {
    let mut payload = b"\x1b]8;;https://example.com/".to_vec();
    payload.extend(std::iter::repeat_n(b'x', MAX_OSC8_URI_LEN));
    payload.extend_from_slice(b"\x1b\\text\x1b]8;;\x1b\\\n");
    let mut h = harness();
    h.feed(&payload);
    let lines = committed_lines(&h.actions());
    assert_eq!(lines[0].text, "text");
    assert!(lines[0].links.is_empty());
}

#[test]
fn osc8_uri_at_byte_cap_is_accepted() {
    const PREFIX: &[u8] = b"https://example.com/";
    let mut payload = b"\x1b]8;;".to_vec();
    payload.extend_from_slice(PREFIX);
    payload.extend(std::iter::repeat_n(b'x', MAX_OSC8_URI_LEN - PREFIX.len()));
    payload.extend_from_slice(b"\x1b\\text\x1b]8;;\x1b\\\n");
    let mut h = harness();
    h.feed(&payload);
    let lines = committed_lines(&h.actions());
    assert_eq!(lines[0].text, "text");
    assert_eq!(lines[0].links.len(), 1);
}

#[test]
fn osc8_multibyte_uri_does_not_panic() {
    let mut h = harness();
    h.feed("\x1b]8;;\u{e9}\u{e9}\u{e9}\u{e9}\x1b\\text\x1b]8;;\x1b\\\n".as_bytes());
    let lines = committed_lines(&h.actions());
    assert_eq!(lines[0].text, "text");
    assert!(lines[0].links.is_empty());
}

#[test]
fn osc8_link_survives_a_cr_overprint() {
    let mut h = harness();
    h.feed(b"\x1b]8;;https://example.com\x1b\\old\rnew\x1b]8;;\x1b\\\n");
    let lines = committed_lines(&h.actions());
    assert_eq!(lines[0].text, "new");
    assert_eq!(lines[0].links.len(), 1);
    assert_eq!((lines[0].links[0].begin_pos, lines[0].links[0].end_pos), (0, 3));
}

// ----------------------------------------------------------------------
// The pieces on their own
// ----------------------------------------------------------------------

#[test]
fn percent_decode_handles_escapes_and_malformed_sequences() {
    assert_eq!(percent_decode("say%20hello%2C%20world"), "say hello, world");
    assert_eq!(percent_decode("100%"), "100%");
    assert_eq!(percent_decode("%zz%4"), "%zz%4");
    assert_eq!(percent_decode("a+b"), "a+b");
    assert_eq!(percent_decode("%C3%A9"), "\u{e9}");
    assert_eq!(percent_decode("%FF"), "\u{fffd}");
    assert_eq!(percent_decode("plain text"), "plain text");
}

#[test]
fn server_action_scheme_allowlist_ignores_case() {
    assert_eq!(server_action_for_uri("HTTP://X"), Some(open_url("HTTP://X")));
    assert_eq!(server_action_for_uri("Ftp://host/f"), Some(open_url("Ftp://host/f")));
    assert_eq!(
        server_action_for_uri("SEND:look%20north"),
        Some(ServerAction::ServerSend("look north".to_string()))
    );
    assert_eq!(server_action_for_uri("javascript:alert(1)"), None);
    assert_eq!(server_action_for_uri("http:/x"), None);
    assert_eq!(server_action_for_uri(""), None);
}

#[test]
fn sanitize_single_line_text_blanks_controls_and_trims() {
    assert_eq!(sanitize_single_line_text("  a\tb\nc  ").as_deref(), Some("a b c"));
    assert_eq!(sanitize_single_line_text("\n\t "), None);
    assert_eq!(sanitize_single_line_text(""), None);
    assert_eq!(sanitize_single_line_text("Look").as_deref(), Some("Look"));
}

#[test]
fn osc8_target_splits_config_fields_in_order() {
    let (target, configs) = osc8_target("https://e.com/p?a=1&config=%7B%7D&b=2&config=x#frag");
    assert_eq!(target, "https://e.com/p?a=1&b=2#frag");
    assert_eq!(configs, vec!["{}".to_string(), "x".to_string()]);

    let (target, configs) = osc8_target("https://e.com/p?config=1");
    assert_eq!(target, "https://e.com/p");
    assert_eq!(configs, vec!["1".to_string()]);

    let (target, configs) = osc8_target("https://e.com/p?a&&b#x?config=1");
    assert_eq!(target, "https://e.com/p?a&&b#x?config=1");
    assert!(configs.is_empty());

    let (target, configs) = osc8_target("send:x?&config=&");
    assert_eq!(target, "send:x?&");
    assert_eq!(configs, vec![String::new()]);
}

#[test]
fn osc8_request_reads_the_fields() {
    let f = |parts: &[&[u8]]| parts.iter().map(|p| p.to_vec()).collect::<Vec<_>>();
    assert_eq!(osc8_request(&f(&[b"0", b"title"])), Osc8Request::Ignore);
    assert_eq!(osc8_request(&f(&[b"8"])), Osc8Request::Close);
    assert_eq!(osc8_request(&f(&[b"8", b""])), Osc8Request::Close);
    assert_eq!(osc8_request(&f(&[b"8", b"id=1", b""])), Osc8Request::Close);
    assert_eq!(
        osc8_request(&f(&[b"8", b"", b"https://a", b"b=1"])),
        Osc8Request::Open("https://a;b=1".to_string())
    );
    assert_eq!(osc8_request(&f(&[])), Osc8Request::Ignore);
}

#[test]
fn tooltip_actor_turns_cr_into_breaks_only_before_text() {
    let mut actor = TooltipAnsiActor::new(PLAIN);
    for c in "one".chars() {
        actor.print(c);
    }
    actor.execute_c0_or_c1(b'\r');
    actor.execute_c0_or_c1(b'\n');
    actor.print('t');
    actor.execute_c0_or_c1(b'\r');
    actor.execute_c0_or_c1(7);
    actor.execute_c0_or_c1(b'\r');
    let doc = actor.finish().expect("text");
    assert_eq!(doc.text, "one\nt");

    let blank = TooltipAnsiActor::<Sgr>::new(PLAIN);
    assert!(blank.finish().is_none());
}

#[test]
fn tooltip_actor_clips_spans_to_the_trimmed_text() {
    let mut actor = TooltipAnsiActor::new(PLAIN);
    actor.print(' ');
    actor.set_style(Sgr { code: 31, bold: false });
    for c in "red".chars() {
        actor.print(c);
    }
    actor.set_style(Sgr { code: 31, bold: false });
    actor.set_style(PLAIN);
    actor.print(' ');
    let doc = actor.finish().expect("text");
    assert_eq!(doc.text, "red");
    assert_eq!(doc.spans.len(), 1);
    assert_eq!((doc.spans[0].begin_pos, doc.spans[0].end_pos), (0, 3));
    assert_eq!(doc.spans[0].style, Sgr { code: 31, bold: false });
}

#[test]
fn interpret_config_prefers_full_keys_and_defaults_disabled() {
    let json = |s: &str| to_json(&serde_json::from_str::<serde_json::Value>(s).unwrap());
    let c = interpret_config(&json(r#"{"tooltip":"full","t":"compact","d":"yes"}"#));
    assert_eq!(c.tooltip.as_deref(), Some("full"));
    assert!(!c.disabled);
    assert!(c.menu.is_none());
    assert!(c.style.is_none());

    let c = interpret_config(&json(r#"{"tooltip":3,"t":"compact"}"#));
    assert_eq!(c.tooltip, None);

    let c = interpret_config(&json(r#"[1,2]"#));
    assert_eq!(c.tooltip, None);
    assert!(!c.disabled);

    let c = interpret_config(&json(r#"{"menu":["-"],"title":{"text":" T\n "}}"#));
    let menu = c.menu.expect("menu");
    assert_eq!(menu.title.as_deref(), Some("T"));
    assert!(matches!(menu.items[..], [LinkMenuItem::Separator]));
}

#[test]
fn parse_menu_skips_blank_labels_and_refused_targets() {
    let json = |s: &str| to_json(&serde_json::from_str::<serde_json::Value>(s).unwrap());
    let m = parse_menu(
        &json(r#"[{" ":"send:x"},{"Bad":"file:///x"},{"n":1,"Go":"send:go"},"x",3]"#),
        None,
    )
    .expect("one entry");
    assert_eq!(m.items.len(), 1);
    assert!(matches!(
        &m.items[0],
        LinkMenuItem::Action { label, action: ServerAction::ServerSend(c) } if label == "Go" && c == "go"
    ));
    assert!(parse_menu(&json(r#"[{"Bad":"file:///x"}]"#), None).is_none());
    assert!(parse_menu(&json(r#"{"a":"send:x"}"#), None).is_none());
}

#[test]
fn parse_link_style_reads_decorations_in_any_case() {
    let json = |s: &str| to_json(&serde_json::from_str::<serde_json::Value>(s).unwrap());
    let st = parse_link_style(&json(r#"{"underline":"DOUBLE","u":"wavy","o":true,"color":"  #fff ","bg":5}"#))
        .expect("style");
    assert_eq!(st.underline, Some(LinkDecoration::Double));
    assert_eq!(st.overline, Some(LinkDecoration::Solid));
    assert_eq!(st.strikethrough, None);
    assert_eq!(st.foreground.as_deref(), Some("#fff"));
    assert_eq!(st.background, None);
    assert!(parse_link_style(&json(r#""bold""#)).is_none());
}

#[test]
fn the_first_config_field_that_parses_configures_the_link() {
    let (target, cfg) =
        osc8_config("https://example.com/?config=nope&x=1&config=%7B%22t%22%3A%22second%22%7D&config=%7B%22t%22%3A%22third%22%7D");
    assert_eq!(target, "https://example.com/?x=1");
    assert_eq!(cfg.tooltip.as_deref(), Some("second"));
    let (target, cfg) = osc8_config("https://example.com/?x=1&config=not-json");
    assert_eq!(target, "https://example.com/?x=1");
    assert!(cfg.tooltip.is_none() && !cfg.disabled && cfg.menu.is_none() && cfg.style.is_none());
    assert_eq!(first_config_document(&["[".to_string(), "[1]".to_string()]).map(|d| matches!(d, JsonValue::Array(_))), Some(true));
    assert!(first_config_document(&[]).is_none());
}

#[test]
fn tooltip_events_build_text_and_sgr_spans_and_drop_everything_else() {
    let events = vec![
        VtEvent::CsiDispatch { params: vec![CsiArg::Integer(31)], parameters_truncated: false, byte: b'm' },
        VtEvent::Print('h'),
        VtEvent::Print('i'),
        VtEvent::CsiDispatch { params: vec![CsiArg::Integer(2)], parameters_truncated: false, byte: b'J' },
        VtEvent::OscDispatch(vec![b"0".to_vec(), b"title".to_vec()]),
        VtEvent::CsiDispatch { params: vec![CsiArg::Integer(0)], parameters_truncated: false, byte: b'm' },
        VtEvent::ExecuteC0orC1(b'\r'),
        VtEvent::ExecuteC0orC1(b'\n'),
        VtEvent::Print('!'),
        VtEvent::ExecuteC0orC1(0x07),
    ];
    let doc = tooltip_from_events(&events, PLAIN, sgr).expect("text remains");
    assert_eq!(doc.text, "hi\n!");
    assert_eq!(doc.spans.len(), 2);
    assert_eq!((doc.spans[0].style.code, doc.spans[0].begin_pos, doc.spans[0].end_pos), (31, 0, 2));
    assert_eq!((doc.spans[1].style, doc.spans[1].begin_pos, doc.spans[1].end_pos), (PLAIN, 2, 4));
    assert!(tooltip_from_events(&[VtEvent::ExecuteC0orC1(b'\n'), VtEvent::DcsUnhook], PLAIN, sgr).is_none());
}

#[test]
fn tooltip_copy_is_parsed_from_its_bytes() {
    let doc = parse_tooltip("\u{1b}[1mBold\u{1b}[0m \u{1b}]0;t\u{7}\u{1b}[Hplain", PLAIN, sgr).expect("text");
    assert_eq!(doc.text, "Bold plain");
    assert_eq!(doc.spans.len(), 2);
    assert!(doc.spans[0].style.bold);
    assert_eq!((doc.spans[0].begin_pos, doc.spans[0].end_pos), (0, 4));
    assert!(parse_tooltip("\u{1b}[31m \r\n ", PLAIN, sgr).is_none());
}

#[test]
fn a_uri_makes_a_link_only_within_the_limit_and_for_allowed_schemes() {
    let link = link_for("send:look?config=%7B%22t%22%3A%22%5Cu001b%5B1mLook%22%7D").expect("send link");
    assert_eq!(link.primary, ServerAction::ServerSend("look".to_string()));
    assert_eq!(display(&link.tooltip), ("Look".to_string(), Some("send:look".to_string())));
    assert!(link_for("file:///etc/passwd").is_none());
    let long = format!("https://example.com/{}", "a".repeat(MAX_OSC8_URI_LEN));
    assert!(link_for(&long).is_none());
}
