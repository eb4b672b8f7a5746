//! The JSON configuration an OSC 8 link may carry in its `config` query
//! field: a tooltip, a disabled flag, a right-click menu with a title, and
//! a text style. The document is read as a [`JsonValue`]; every lookup
//! takes the full key first and the compact one only when the full key is
//! absent.

use vstd::prelude::*;
use vstd::string::{StrSliceExecFns, StringExecFns};

use crate::ansi::{parse_link_tooltip_text, tooltip_parsed_as, CsiArg};
use crate::json::{first_config_document, first_document, json_view, JsonValue};
use crate::remote_interop::{eq_ignore_ascii_case, eq_ignore_ascii_case_spec};
use crate::text::{spec_trim, str_eq, trim, utf8_len, utf8_longer_than};
use crate::vt_processor::{
    blank_controls, join_params, links_closed, lossy_text, osc8_request, param_views, sanitize_single_line_text,
    server_action_for_uri, spec_action_for, ActionKind, osc8_target, spec_osc8_configs, spec_osc8_target,
    LinkTooltipText, Osc8Request, ServerAction, VtProcessor, VtState,
};

verus! {

/// The value of the first entry named `key`, from the `i`th on.
pub open spec fn entry_for(entries: Seq<(String, JsonValue)>, key: Seq<char>, i: int) -> Option<JsonValue>
    decreases entries.len() - i,
{
    if i < 0 || i >= entries.len() {
        None
    } else if entries[i].0@ == key {
        Some(entries[i].1)
    } else {
        entry_for(entries, key, i + 1)
    }
}

/// The member `key` of an object; nothing of any other value.
pub open spec fn json_get(v: JsonValue, key: Seq<char>) -> Option<JsonValue> {
    match v {
        JsonValue::Object(es) => entry_for(es@, key, 0),
        _ => None,
    }
}

/// The member `full`, or `compact` where `full` is absent.
pub open spec fn json_get_either(v: JsonValue, full: Seq<char>, compact: Seq<char>) -> Option<JsonValue> {
    match json_get(v, full) {
        Some(x) => Some(x),
        None => json_get(v, compact),
    }
}

/// The text of a string value.
pub open spec fn json_text(v: Option<JsonValue>) -> Option<Seq<char>> {
    match v {
        Some(JsonValue::Text(s)) => Some(s@),
        _ => None,
    }
}

/// The truth value of a boolean value.
pub open spec fn json_flag(v: Option<JsonValue>) -> Option<bool> {
    match v {
        Some(JsonValue::Bool(b)) => Some(b),
        _ => None,
    }
}

/// The views of an optional string.
pub open spec fn opt_view(o: Option<String>) -> Option<Seq<char>> {
    match o {
        Some(s) => Some(s@),
        None => None,
    }
}

fn entry<'a>(v: &'a JsonValue, key: &str) -> (r: Option<&'a JsonValue>)
    ensures
        match r {
            Some(x) => json_get(*v, key@) == Some(*x),
            None => json_get(*v, key@) is None,
        },
{
    match v {
        JsonValue::Object(es) => {
            let mut i: usize = 0;
            while i < es.len()
                invariant
                    i <= es@.len(),
                    json_get(*v, key@) == entry_for(es@, key@, i as int),
                decreases es@.len() - i,
            {
                if str_eq(es[i].0.as_str(), key) {
                    return Some(&es[i].1);
                }
                i += 1;
            }
            None
        },
        _ => None,
    }
}

fn entry_either<'a>(v: &'a JsonValue, full: &str, compact: &str) -> (r: Option<&'a JsonValue>)
    ensures
        match r {
            Some(x) => json_get_either(*v, full@, compact@) == Some(*x),
            None => json_get_either(*v, full@, compact@) is None,
        },
{
    match entry(v, full) {
        Some(x) => Some(x),
        None => entry(v, compact),
    }
}

fn text_of(v: Option<&JsonValue>) -> (r: Option<String>)
    ensures
        opt_view(r) == json_text(
            match v {
                Some(x) => Some(*x),
                None => None,
            },
        ),
{
    match v {
        Some(JsonValue::Text(s)) => Some(s.clone()),
        _ => None,
    }
}

fn flag_of(v: Option<&JsonValue>) -> (r: Option<bool>)
    ensures
        r == json_flag(
            match v {
                Some(x) => Some(*x),
                None => None,
            },
        ),
{
    match v {
        Some(JsonValue::Bool(b)) => Some(*b),
        _ => None,
    }
}

// ----------------------------------------------------------------------
// Text decoration
// ----------------------------------------------------------------------

/// How a link's text is decorated.
#[derive(Debug, Clone, Copy, PartialEq, Eq, Structural)]
pub enum LinkDecoration {
    NoLine,
    Solid,
    Double,
    Dotted,
    Dashed,
    Wavy,
}

/// The decoration a keyword names, in any ASCII case.
pub open spec fn spec_decoration_word(s: Seq<char>) -> Option<LinkDecoration> {
    if eq_ignore_ascii_case_spec(s, "none"@) || eq_ignore_ascii_case_spec(s, "false"@) {
        Some(LinkDecoration::NoLine)
    } else if eq_ignore_ascii_case_spec(s, "solid"@) || eq_ignore_ascii_case_spec(s, "single"@)
        || eq_ignore_ascii_case_spec(s, "true"@) {
        Some(LinkDecoration::Solid)
    } else if eq_ignore_ascii_case_spec(s, "double"@) {
        Some(LinkDecoration::Double)
    } else if eq_ignore_ascii_case_spec(s, "dotted"@) {
        Some(LinkDecoration::Dotted)
    } else if eq_ignore_ascii_case_spec(s, "dashed"@) {
        Some(LinkDecoration::Dashed)
    } else if eq_ignore_ascii_case_spec(s, "wavy"@) {
        Some(LinkDecoration::Wavy)
    } else {
        None
    }
}

/// The decoration a value asks for: `true` is a solid line and `false`
/// none; a keyword names one; anything else asks for nothing.
pub open spec fn spec_decoration(v: Option<JsonValue>) -> Option<LinkDecoration> {
    match v {
        Some(JsonValue::Bool(b)) => Some(
            if b {
                LinkDecoration::Solid
            } else {
                LinkDecoration::NoLine
            },
        ),
        Some(JsonValue::Text(s)) => spec_decoration_word(s@),
        _ => None,
    }
}

fn decoration_of(v: Option<&JsonValue>) -> (r: Option<LinkDecoration>)
    ensures
        r == spec_decoration(
            match v {
                Some(x) => Some(*x),
                None => None,
            },
        ),
{
    match v {
        Some(JsonValue::Bool(b)) => Some(
            if *b {
                LinkDecoration::Solid
            } else {
                LinkDecoration::NoLine
            },
        ),
        Some(JsonValue::Text(s)) => {
            let w = s.as_str();
            if eq_ignore_ascii_case(w, "none") || eq_ignore_ascii_case(w, "false") {
                Some(LinkDecoration::NoLine)
            } else if eq_ignore_ascii_case(w, "solid") || eq_ignore_ascii_case(w, "single")
                || eq_ignore_ascii_case(w, "true") {
                Some(LinkDecoration::Solid)
            } else if eq_ignore_ascii_case(w, "double") {
                Some(LinkDecoration::Double)
            } else if eq_ignore_ascii_case(w, "dotted") {
                Some(LinkDecoration::Dotted)
            } else if eq_ignore_ascii_case(w, "dashed") {
                Some(LinkDecoration::Dashed)
            } else if eq_ignore_ascii_case(w, "wavy") {
                Some(LinkDecoration::Wavy)
            } else {
                None
            }
        },
        _ => None,
    }
}

// ----------------------------------------------------------------------
// Text style
// ----------------------------------------------------------------------

/// An authored link style. Colors stay as the trimmed CSS text that the
/// color canonicalizer reads.
#[derive(Debug, Clone)]
pub struct LinkTextStyle {
    pub foreground: Option<String>,
    pub background: Option<String>,
    pub bold: Option<bool>,
    pub italic: Option<bool>,
    pub underline: Option<LinkDecoration>,
    pub overline: Option<LinkDecoration>,
    pub strikethrough: Option<LinkDecoration>,
    pub decoration_color: Option<String>,
}

/// The trimmed text of a color value.
pub open spec fn spec_color(v: Option<JsonValue>) -> Option<Seq<char>> {
    match json_text(v) {
        Some(s) => Some(spec_trim(s)),
        None => None,
    }
}

fn color_of(v: Option<&JsonValue>) -> (r: Option<String>)
    ensures
        opt_view(r) == spec_color(
            match v {
                Some(x) => Some(*x),
                None => None,
            },
        ),
{
    match v {
        Some(JsonValue::Text(s)) => Some(String::from_str(trim(s.as_str()))),
        _ => None,
    }
}

/// The style an object asks for, field by field; nothing of any other
/// value.
pub open spec fn style_matches(v: JsonValue, r: Option<LinkTextStyle>) -> bool {
    match r {
        None => !(v is Object),
        Some(st) => {
            &&& v is Object
            &&& opt_view(st.foreground) == spec_color(json_get_either(v, "color"@, "c"@))
            &&& opt_view(st.background) == spec_color(json_get_either(v, "bg"@, "bg"@))
            &&& st.bold == json_flag(json_get_either(v, "bold"@, "b"@))
            &&& st.italic == json_flag(json_get_either(v, "italic"@, "i"@))
            &&& st.underline == spec_decoration(json_get_either(v, "underline"@, "u"@))
            &&& st.overline == spec_decoration(json_get_either(v, "overline"@, "o"@))
            &&& st.strikethrough == spec_decoration(json_get_either(v, "strikethrough"@, "st"@))
            &&& opt_view(st.decoration_color) == spec_color(
                json_get_either(v, "text-decoration-color"@, "tdc"@),
            )
        },
    }
}

/// Read a link style object; anything but an object is no style.
pub fn parse_link_style(v: &JsonValue) -> (r: Option<LinkTextStyle>)
    ensures
        style_matches(*v, r),
{
    if !matches!(v, JsonValue::Object(_)) {
        return None;
    }
    Some(
        LinkTextStyle {
            foreground: color_of(entry_either(v, "color", "c")),
            background: color_of(entry_either(v, "bg", "bg")),
            bold: flag_of(entry_either(v, "bold", "b")),
            italic: flag_of(entry_either(v, "italic", "i")),
            underline: decoration_of(entry_either(v, "underline", "u")),
            overline: decoration_of(entry_either(v, "overline", "o")),
            strikethrough: decoration_of(entry_either(v, "strikethrough", "st")),
            decoration_color: color_of(entry_either(v, "text-decoration-color", "tdc")),
        },
    )
}

// ----------------------------------------------------------------------
// Menu
// ----------------------------------------------------------------------

/// An entry of a link's right-click menu.
#[derive(Debug, Clone)]
pub enum LinkMenuItem {
    Separator,
    Action { label: String, action: ServerAction },
}

impl LinkMenuItem {
    /// A separator as nothing; an action as its label and what it does.
    pub open spec fn view_entry(self) -> Option<(Seq<char>, (ActionKind, Seq<char>))> {
        match self {
            LinkMenuItem::Separator => None,
            LinkMenuItem::Action { label, action } => Some((label@, action.view_pair())),
        }
    }
}

/// A link's right-click menu: an optional title and at least one entry.
#[derive(Debug, Clone)]
pub struct LinkMenu {
    pub title: Option<String>,
    pub items: Vec<LinkMenuItem>,
}

/// One-line text as a menu shows it, if anything is left of it.
pub open spec fn one_line(t: Seq<char>) -> Option<Seq<char>> {
    let c = spec_trim(blank_controls(t));
    if c.len() == 0 {
        None
    } else {
        Some(c)
    }
}

/// The first entry, from the `i`th on, whose value is a string: its name
/// and that string.
pub open spec fn first_text_entry(es: Seq<(String, JsonValue)>, i: int) -> Option<(Seq<char>, Seq<char>)>
    decreases es.len() - i,
{
    if i < 0 || i >= es.len() {
        None
    } else {
        match es[i].1 {
            JsonValue::Text(u) => Some((es[i].0@, u@)),
            _ => first_text_entry(es, i + 1),
        }
    }
}

/// The menu entry a labelled target makes: none where the label is blank
/// or the target's scheme is not allowed.
pub open spec fn entry_menu_item(label: Seq<char>, uri: Seq<char>) -> Option<
    Option<(Seq<char>, (ActionKind, Seq<char>))>,
> {
    match one_line(label) {
        Some(l) => match spec_action_for(uri) {
            Some(a) => Some(Some((l, a))),
            None => None,
        },
        None => None,
    }
}

/// The menu entry a value makes: `"-"` is a separator; an object is its
/// first string-valued entry, label to target; anything else is skipped.
pub open spec fn spec_menu_item(v: JsonValue) -> Option<Option<(Seq<char>, (ActionKind, Seq<char>))>> {
    match v {
        JsonValue::Text(s) => if s@ == seq!['-'] {
            Some(None)
        } else {
            None
        },
        JsonValue::Object(es) => match first_text_entry(es@, 0) {
            Some(p) => entry_menu_item(p.0, p.1),
            None => None,
        },
        _ => None,
    }
}

/// The entries an array of values makes, skipped ones left out.
pub open spec fn spec_menu_items(vs: Seq<JsonValue>) -> Seq<Option<(Seq<char>, (ActionKind, Seq<char>))>>
    decreases vs.len(),
{
    if vs.len() == 0 {
        Seq::empty()
    } else {
        let rest = spec_menu_items(vs.drop_last());
        match spec_menu_item(vs.last()) {
            Some(e) => rest.push(e),
            None => rest,
        }
    }
}

/// The menu a value makes under `title`: an array with at least one entry
/// that is kept; nothing otherwise.
pub open spec fn menu_matches(v: JsonValue, title: Option<Seq<char>>, r: Option<LinkMenu>) -> bool {
    match v {
        JsonValue::Array(vs) => match r {
            Some(m) => {
                &&& opt_view(m.title) == title
                &&& m.items@.map_values(|it: LinkMenuItem| it.view_entry()) == spec_menu_items(vs@)
                &&& spec_menu_items(vs@).len() > 0
            },
            None => spec_menu_items(vs@).len() == 0,
        },
        _ => r is None,
    }
}

fn menu_item(v: &JsonValue) -> (r: Option<LinkMenuItem>)
    ensures
        match r {
            Some(it) => spec_menu_item(*v) == Some(it.view_entry()),
            None => spec_menu_item(*v) is None,
        },
{
    match v {
        JsonValue::Text(s) => {
            proof {
                reveal_strlit("-");
                assert("-"@ =~= seq!['-']);
            }
            if str_eq(s.as_str(), "-") {
                Some(LinkMenuItem::Separator)
            } else {
                None
            }
        },
        JsonValue::Object(es) => {
            let mut i: usize = 0;
            while i < es.len()
                invariant
                    i <= es@.len(),
                    spec_menu_item(*v) == match first_text_entry(es@, i as int) {
                        Some(p) => entry_menu_item(p.0, p.1),
                        None => None,
                    },
                decreases es@.len() - i,
            {
                if let JsonValue::Text(u) = &es[i].1 {
                    let label = sanitize_single_line_text(es[i].0.as_str());
                    match label {
                        Some(l) => match server_action_for_uri(u.as_str()) {
                            Some(a) => {
                                return Some(LinkMenuItem::Action { label: l, action: a });
                            },
                            None => {
                                return None;
                            },
                        },
                        None => {
                            return None;
                        },
                    }
                }
                i += 1;
            }
            None
        },
        _ => None,
    }
}

/// Read a link menu under `title`: an array of `"-"` separators and
/// `{label: target}` objects; entries with a blank label or a target whose
/// scheme is not allowed are skipped, and a menu with no entry is none.
pub fn parse_menu(v: &JsonValue, title: Option<String>) -> (r: Option<LinkMenu>)
    ensures
        menu_matches(*v, opt_view(title), r),
{
    match v {
        JsonValue::Array(vs) => {
            let mut items: Vec<LinkMenuItem> = Vec::new();
            let mut i: usize = 0;
            while i < vs.len()
                invariant
                    i <= vs@.len(),
                    items@.map_values(|it: LinkMenuItem| it.view_entry()) == spec_menu_items(vs@.take(i as int)),
                decreases vs@.len() - i,
            {
                let ghost before = items@;
                let item = menu_item(&vs[i]);
                proof {
                    assert(vs@.take(i + 1).drop_last() =~= vs@.take(i as int));
                }
                match item {
                    Some(it) => {
                        items.push(it);
                        proof {
                            assert(items@.map_values(|it: LinkMenuItem| it.view_entry()) =~= before.map_values(
                                |it: LinkMenuItem| it.view_entry(),
                            ).push(it.view_entry()));
                        }
                    },
                    None => {},
                }
                i += 1;
            }
            proof {
                assert(vs@.take(vs@.len() as int) =~= vs@);
            }
            if items.len() == 0 {
                None
            } else {
                Some(LinkMenu { title, items })
            }
        },
        _ => None,
    }
}

/// A menu title: a string, or an object's `text` string, as one line.
pub open spec fn spec_menu_title(v: JsonValue) -> Option<Seq<char>> {
    let t = match v {
        JsonValue::Text(s) => Some(s@),
        _ => json_text(json_get(v, "text"@)),
    };
    match t {
        Some(t) => one_line(t),
        None => None,
    }
}

fn menu_title(v: &JsonValue) -> (r: Option<String>)
    ensures
        opt_view(r) == spec_menu_title(*v),
{
    let text = match v {
        JsonValue::Text(s) => Some(s.clone()),
        _ => text_of(entry(v, "text")),
    };
    match text {
        Some(t) => sanitize_single_line_text(t.as_str()),
        None => None,
    }
}

// ----------------------------------------------------------------------
// The whole configuration
// ----------------------------------------------------------------------

/// What a link's configuration asks for. The tooltip stays the authored
/// SGR document, for the tooltip parser.
#[derive(Debug, Clone)]
pub struct Osc8Config {
    pub tooltip: Option<String>,
    pub disabled: bool,
    pub menu: Option<LinkMenu>,
    pub style: Option<LinkTextStyle>,
}

/// The menu title a configuration asks for.
pub open spec fn spec_config_title(config: JsonValue) -> Option<Seq<char>> {
    match json_get_either(config, "title"@, "ti"@) {
        Some(t) => spec_menu_title(t),
        None => None,
    }
}

/// Whether `r` is what `config` asks for (see [`interpret_config`]).
pub open spec fn config_interprets(config: JsonValue, r: Osc8Config) -> bool {
    &&& opt_view(r.tooltip) == json_text(json_get_either(config, "tooltip"@, "t"@))
    &&& r.disabled == (json_flag(json_get_either(config, "disabled"@, "d"@)) == Some(true))
    &&& match json_get_either(config, "menu"@, "m"@) {
        Some(m) => menu_matches(m, spec_config_title(config), r.menu),
        None => r.menu is None,
    }
    &&& match json_get_either(config, "style"@, "s"@) {
        Some(st) => style_matches(st, r.style),
        None => r.style is None,
    }
}

/// Read a link configuration: `tooltip`/`t`, `disabled`/`d` (absent or not
/// a boolean is `false`), `menu`/`m` under `title`/`ti`, `style`/`s`.
pub fn interpret_config(config: &JsonValue) -> (r: Osc8Config)
    ensures
        config_interprets(*config, r),
        opt_view(r.tooltip) == json_text(json_get_either(*config, "tooltip"@, "t"@)),
        r.disabled == (json_flag(json_get_either(*config, "disabled"@, "d"@)) == Some(true)),
        match json_get_either(*config, "menu"@, "m"@) {
            Some(m) => menu_matches(m, spec_config_title(*config), r.menu),
            None => r.menu is None,
        },
        match json_get_either(*config, "style"@, "s"@) {
            Some(st) => style_matches(st, r.style),
            None => r.style is None,
        },
{
    let tooltip = text_of(entry_either(config, "tooltip", "t"));
    let disabled = match flag_of(entry_either(config, "disabled", "d")) {
        Some(b) => b,
        None => false,
    };
    let title = match entry_either(config, "title", "ti") {
        Some(t) => menu_title(t),
        None => None,
    };
    let menu = match entry_either(config, "menu", "m") {
        Some(m) => parse_menu(m, title),
        None => None,
    };
    let style = match entry_either(config, "style", "s") {
        Some(st) => parse_link_style(st),
        None => None,
    };
    Osc8Config { tooltip, disabled, menu, style }
}

/// The configuration an OSC 8 link asks for when it asks for none.
pub open spec fn no_config(r: Osc8Config) -> bool {
    r.tooltip is None && !r.disabled && r.menu is None && r.style is None
}

/// `c` is the configuration the OSC 8 URI `uri` asks for: what the first
/// `config` field that is a JSON document says, or nothing.
pub open spec fn osc8_configured(uri: Seq<char>, c: Osc8Config) -> bool {
    match first_document(spec_osc8_configs(uri)) {
        Some(d) => exists|doc: JsonValue| json_view(doc) == d && #[trigger] config_interprets(doc, c),
        None => no_config(c),
    }
}

/// An OSC 8 URI split into the target it discloses and its configuration:
/// the first `config` field whose percent-decoded value parses as JSON
/// configures the link; with none, the link asks for nothing.
pub fn osc8_config(uri: &str) -> (r: (String, Osc8Config))
    ensures
        r.0@ == spec_osc8_target(uri@),
        osc8_configured(uri@, r.1),
{
    let (target, configs) = osc8_target(uri);
    proof {
        assert(configs@.map_values(|s: String| s@) == spec_osc8_configs(uri@));
    }
    let cands = configs.as_slice();
    let found = first_config_document(cands);
    proof {
        assert(cands@.map_values(|s: String| s@) =~= spec_osc8_configs(uri@));
    }
    match found {
        Some(doc) => {
            let config = interpret_config(&doc);
            proof {
                assert(json_view(doc) == first_document(spec_osc8_configs(uri@))->0);
                assert(config_interprets(doc, config));
            }
            (target, config)
        },
        None => (target, Osc8Config { tooltip: None, disabled: false, menu: None, style: None }),
    }
}

// ----------------------------------------------------------------------
// The link an OSC 8 target makes
// ----------------------------------------------------------------------

/// The most bytes an OSC 8 URI may carry; a longer link is ignored (its
/// text still shows, unlinked).
pub const MAX_OSC8_URI_LEN: usize = 4096;

/// Whether an OSC 8 URI is short enough to be a link.
pub fn uri_within_limit(uri: &str) -> (r: bool)
    ensures
        r == (utf8_len(uri@, uri@.len() as int) <= MAX_OSC8_URI_LEN),
{
    !utf8_longer_than(uri, MAX_OSC8_URI_LEN)
}

/// What a link's hover shows.
#[derive(Debug, Clone)]
pub enum LinkTooltip<S> {
    /// Authored copy, with the disclosed target beneath.
    Styled { text: LinkTooltipText<S>, target: String },
    /// Plain text, with the disclosed target beneath where there is one.
    Plain { text: String, target: Option<String> },
}

/// A link as an OSC 8 target makes it: what a click does, whether the
/// configuration wraps that action (disabled, or with a menu), the hover
/// text and the authored style.
#[derive(Debug, Clone)]
pub struct ParsedLink<S> {
    pub primary: ServerAction,
    pub configured: bool,
    pub disabled: bool,
    pub menu: Option<LinkMenu>,
    pub tooltip: LinkTooltip<S>,
    pub style: Option<LinkTextStyle>,
}

/// How an action shows its target: a URL as itself, a command under its
/// scheme.
pub open spec fn spec_display_target(a: ServerAction) -> Seq<char> {
    match a {
        ServerAction::OpenUrl(u) => u@,
        ServerAction::ServerSend(c) => "send:"@ + c@,
        ServerAction::Prompt(c) => "prompt:"@ + c@,
    }
}

fn display_target(a: &ServerAction) -> (r: String)
    ensures
        r@ == spec_display_target(*a),
{
    match a {
        ServerAction::OpenUrl(u) => u.clone(),
        ServerAction::ServerSend(c) => String::from_str("send:").concat(c.as_str()),
        ServerAction::Prompt(c) => String::from_str("prompt:").concat(c.as_str()),
    }
}

/// The hint a link with a menu and no authored tooltip shows.
pub open spec fn menu_hint() -> Seq<char> {
    "Right-click for menu"@
}

/// `r` is the link the target `target` makes with the given tooltip copy,
/// disabled flag, menu and style: none where the target's scheme is not
/// allowed; otherwise its action, wrapped by the configuration, with the
/// authored tooltip (or the menu hint, or the target itself) above the
/// disclosed target.
pub open spec fn link_made<S>(
    target: Seq<char>,
    tooltip: Option<LinkTooltipText<S>>,
    disabled: bool,
    menu: Option<LinkMenu>,
    style: Option<LinkTextStyle>,
    r: Option<ParsedLink<S>>,
) -> bool {
    &&& r is None <==> spec_action_for(target) is None
    &&& r matches Some(l) ==> {
            &&& spec_action_for(target) == Some(l.primary.view_pair())
            &&& l.configured == (disabled || menu is Some)
            &&& l.disabled == disabled
            &&& l.menu == menu
            &&& l.style == style
            &&& match tooltip {
                Some(t) => l.tooltip matches LinkTooltip::Styled { text, target: d } && text == t && d@
                    == spec_display_target(l.primary),
                None => if menu is Some && !disabled {
                    l.tooltip matches LinkTooltip::Plain { text, target: Some(d) } && text@ == menu_hint()
                        && d@ == spec_display_target(l.primary)
                } else {
                    l.tooltip matches LinkTooltip::Plain { text, target: None } && text@ == spec_display_target(
                        l.primary,
                    )
                },
            }
        }
}

/// The link a target makes with its configuration: none where the
/// target's scheme is not allowed. Authored tooltip copy shows with the
/// target beneath; without it an enabled menu shows a hint with the target
/// beneath, and otherwise the target itself is the tooltip. A disabled
/// link, or one with a menu, wraps its action.
pub fn link_from_parts<S>(
    target: &str,
    tooltip: Option<LinkTooltipText<S>>,
    disabled: bool,
    menu: Option<LinkMenu>,
    style: Option<LinkTextStyle>,
) -> (r: Option<ParsedLink<S>>)
    ensures
        link_made(target@, tooltip, disabled, menu, style, r),
{
    let primary = match server_action_for_uri(target) {
        Some(a) => a,
        None => {
            return None;
        },
    };
    let shown = display_target(&primary);
    let has_menu = menu.is_some();
    let tip = match tooltip {
        Some(t) => LinkTooltip::Styled { text: t, target: shown },
        None => if has_menu && !disabled {
            LinkTooltip::Plain { text: String::from_str("Right-click for menu"), target: Some(shown) }
        } else {
            LinkTooltip::Plain { text: shown, target: None }
        },
    };
    Some(
        ParsedLink {
            primary,
            configured: disabled || has_menu,
            disabled,
            menu,
            tooltip: tip,
            style,
        },
    )
}

/// Whether `r` is what the configured tooltip copy `text` becomes: none
/// without copy, the parsed document with it.
pub open spec fn tooltip_from_config<S, F: Fn(S, &[CsiArg]) -> S>(
    text: Option<String>,
    plain: S,
    sgr: F,
    r: Option<LinkTooltipText<S>>,
) -> bool {
    match text {
        None => r is None,
        Some(t) => tooltip_parsed_as(t@, plain, sgr, r),
    }
}

/// `r` is the link the OSC 8 URI `uri` makes: none when it is too long;
/// otherwise the link its disclosed target makes under the configuration
/// it carries, with the configured tooltip copy parsed as an SGR-only
/// document.
pub open spec fn link_for_uri<S, F: Fn(S, &[CsiArg]) -> S>(
    uri: Seq<char>,
    plain: S,
    sgr: F,
    r: Option<ParsedLink<S>>,
) -> bool {
    &&& utf8_len(uri, uri.len() as int) > MAX_OSC8_URI_LEN ==> r is None
    &&& utf8_len(uri, uri.len() as int) <= MAX_OSC8_URI_LEN ==> exists|
        config: Osc8Config,
        tooltip: Option<LinkTooltipText<S>>,
    |
        #![trigger osc8_configured(uri, config), tooltip_from_config(config.tooltip, plain, sgr, tooltip)]
        osc8_configured(uri, config) && tooltip_from_config(config.tooltip, plain, sgr, tooltip) && link_made(
            spec_osc8_target(uri),
            tooltip,
            config.disabled,
            config.menu,
            config.style,
            r,
        )
}

/// The link an OSC 8 URI makes: none when it is too long or its scheme is
/// not allowed; otherwise the link its disclosed target makes under the
/// configuration it carries, with its tooltip copy parsed as an SGR-only
/// document.
pub fn link_action_for_uri<S: Copy + PartialEq, F: Fn(S, &[CsiArg]) -> S>(
    uri: &str,
    plain: S,
    sgr: F,
) -> (r: Option<ParsedLink<S>>)
    requires
        forall|s: S, p: &[CsiArg]| #[trigger] sgr.requires((s, p)),
        vstd::laws_eq::obeys_concrete_eq::<S>(),
    ensures
        link_for_uri(uri@, plain, sgr, r),
{
    if !uri_within_limit(uri) {
        return None;
    }
    let (target, config) = osc8_config(uri);
    let tooltip = match &config.tooltip {
        Some(t) => parse_link_tooltip_text(t.as_str(), plain, sgr),
        None => None,
    };
    let Osc8Config { tooltip: copy, disabled, menu, style } = config;
    let ghost copy_view = copy;
    let r = link_from_parts(target.as_str(), tooltip, disabled, menu, style);
    proof {
        assert(tooltip_from_config(copy_view, plain, sgr, tooltip));
        assert(osc8_configured(uri@, Osc8Config { tooltip: copy_view, disabled, menu, style }));
    }
    r
}

/// The active link ended where the line stands: its range closed, no link
/// active, the next one opening here.
pub open spec fn link_closed_from<S, L: Clone>(before: VtState<S, L>, after: VtState<S, L>) -> bool {
    &&& links_closed(before, after.links)
    &&& after == VtState { links: after.links, link: None, link_open: before.byte_len() as usize, ..before }
}

/// The active link (if any) ended where the line stands and `link` begins
/// there.
pub open spec fn link_opened_from<S, L: Clone>(before: VtState<S, L>, after: VtState<S, L>, link: L) -> bool {
    &&& links_closed(before, after.links)
    &&& after == VtState { links: after.links, link: Some(link), link_open: before.byte_len() as usize, ..before }
}

impl<S: Copy + PartialEq> VtProcessor<S, ParsedLink<S>> {
    /// An OSC sequence's fields: an OSC 8 with a target opens the link
    /// that target makes (closing the active one), or closes the active
    /// link where the target makes none; an OSC 8 without a target closes
    /// it; any other OSC changes nothing.
    pub fn osc_dispatch<F: Fn(S, &[CsiArg]) -> S>(&mut self, params: &[Vec<u8>], plain: S, sgr: F)
        requires
            old(self).wf(),
            forall|s: S, p: &[CsiArg]| #[trigger] sgr.requires((s, p)),
            vstd::laws_eq::obeys_concrete_eq::<S>(),
        ensures
            final(self).wf(),
            !(params@.len() > 0 && params@[0]@ == seq![56u8]) ==> final(self)@ == old(self)@,
            params@.len() > 0 && params@[0]@ == seq![56u8] && (params@.len() < 3 || join_params(
                param_views(params@).skip(2),
            ).len() == 0) ==> link_closed_from(old(self)@, final(self)@),
            params@.len() >= 3 && params@[0]@ == seq![56u8] && join_params(param_views(params@).skip(2)).len() > 0
                ==> exists|link: Option<ParsedLink<S>>|
                #![trigger link_for_uri(lossy_text(join_params(param_views(params@).skip(2))), plain, sgr, link)]
                link_for_uri(lossy_text(join_params(param_views(params@).skip(2))), plain, sgr, link) && match link {
                    Some(l) => link_opened_from(old(self)@, final(self)@, l),
                    None => link_closed_from(old(self)@, final(self)@),
                },
    {
        match osc8_request(params) {
            Osc8Request::Ignore => {},
            Osc8Request::Close => self.close_link(),
            Osc8Request::Open(uri) => {
                let link = link_action_for_uri(uri.as_str(), plain, sgr);
                match link {
                    Some(l) => {
                        let ghost chosen = Some(l);
                        self.open_link(l);
                        proof {
                            assert(link_for_uri(uri@, plain, sgr, chosen));
                        }
                    },
                    None => {
                        self.close_link();
                        proof {
                            assert(link_for_uri(uri@, plain, sgr, None::<ParsedLink<S>>));
                        }
                    },
                }
            },
        }
    }
}

} // verus!
