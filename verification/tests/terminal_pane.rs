use smudgy_panes::terminal_pane::{
    append_query_flag, clipped_tooltip_text, link_navigation_index, safe_link_target, with_selected_callback,
    blink_hidden, blink_visible, hidden_blink_spans, loading_tooltip_display, next_blink_ms, Blink,
    FAST_BLINK_HALF_PERIOD_MS, SLOW_BLINK_HALF_PERIOD_MS, TOOLTIP_SPINNER_FRAME_MS,
    click_activates, expiry_fires, release_step, LinkRelease, hover_step, keep_press, retain_live, RedrawLater, TooltipHover, LinkFocus, LinkSelection, SeenEpochs, SelectionMemory, VisibilityAction, VisibilityExpire,
    VisibilityState, VisitedTargets,
};
use smudgy_panes::vt_processor::{LinkTooltipText, ServerAction, VtSpan};

#[test]
fn keyboard_link_navigation_skips_current_and_wraps_in_both_directions() {
    assert_eq!(link_navigation_index(0, None, false), None);
    assert_eq!(link_navigation_index(2, None, false), Some(0));
    assert_eq!(link_navigation_index(2, Some(0), false), Some(1));
    assert_eq!(link_navigation_index(2, Some(1), false), Some(0));

    assert_eq!(link_navigation_index(2, None, true), Some(1));
    assert_eq!(link_navigation_index(2, Some(1), true), Some(0));
    assert_eq!(link_navigation_index(2, Some(0), true), Some(1));
}

#[test]
fn selected_callback_preserves_existing_query_and_fragment() {
    let action = with_selected_callback(ServerAction::ServerSend("vote?choice=yes#receipt".to_string()), true);
    assert_eq!(action, ServerAction::ServerSend("vote?choice=yes&selected=true#receipt".to_string()));
}

#[test]
fn append_query_flag_starts_a_query_where_there_is_none() {
    assert_eq!(append_query_flag("look", "selected", false), "look?selected=false");
    assert_eq!(append_query_flag("a#b?c", "x", true), "a?x=true#b?c");
    assert_eq!(append_query_flag("", "x", true), "?x=true");
    assert_eq!(
        with_selected_callback(ServerAction::OpenUrl("https://e.com/?a=1".to_string()), false),
        ServerAction::OpenUrl("https://e.com/?a=1&selected=false".to_string())
    );
}

#[test]
fn visibility_initial_state_matches_each_action() {
    let conceal = VisibilityState::new(VisibilityAction::Conceal, 0u64);
    assert!(!conceal.concealed);
    let reveal = VisibilityState::new(VisibilityAction::Reveal, 0u64);
    assert!(reveal.concealed);
    let cycle = VisibilityState::new(VisibilityAction::RevealThenConceal, 0u64);
    assert!(cycle.concealed);
    assert!(!cycle.revealed_phase);
}

#[test]
fn visibility_expiry_applies_without_a_prior_click() {
    let mut conceal = VisibilityState::new(VisibilityAction::Conceal, 0u64);
    assert!(conceal.apply_expiry(VisibilityAction::Conceal));
    assert!(conceal.concealed);

    let mut reveal = VisibilityState::new(VisibilityAction::Reveal, 0u64);
    assert!(reveal.concealed);
    assert!(reveal.apply_expiry(VisibilityAction::Reveal));
    assert!(!reveal.concealed);
}

#[test]
fn reveal_then_conceal_reveals_once() {
    let mut cycle = VisibilityState::new(VisibilityAction::RevealThenConceal, 5u64);
    cycle.activated = Some(7);
    assert!(cycle.apply_expiry(VisibilityAction::RevealThenConceal));
    assert!(!cycle.concealed && cycle.revealed_phase);
    assert_eq!(cycle.activated, None);
    assert!(!cycle.apply_expiry(VisibilityAction::RevealThenConceal));
    assert!(!cycle.concealed);
    assert!(cycle.apply_expiry(VisibilityAction::Conceal));
    assert!(cycle.concealed);
}

#[test]
fn safe_link_target_escapes_hidden_characters_and_caps_length() {
    assert_eq!(safe_link_target("send:look"), "send:look");
    assert_eq!(safe_link_target("a\u{202e}b\nc"), "a\\u{202E}b\\u{000A}c");
    assert_eq!(safe_link_target("\u{feff}\u{200b}"), "\\u{FEFF}\\u{200B}");
    let long: String = std::iter::repeat('x').take(600).collect();
    let shown = safe_link_target(&long);
    assert_eq!(shown.chars().count(), 513);
    assert!(shown.ends_with('\u{2026}'));
    let exact: String = std::iter::repeat('y').take(512).collect();
    assert_eq!(safe_link_target(&exact), exact);
}

#[test]
fn clipped_tooltip_text_cuts_long_copy_and_extends_the_last_span() {
    let short = LinkTooltipText { text: "short".to_string(), spans: vec![VtSpan { style: 1u8, begin_pos: 0, end_pos: 5 }] };
    let same = clipped_tooltip_text(&short);
    assert_eq!(same.text, "short");
    assert_eq!(same.spans.len(), 1);

    let text: String = std::iter::repeat('\u{e9}').take(5000).collect();
    let long = LinkTooltipText {
        text,
        spans: vec![
            VtSpan { style: 1u8, begin_pos: 0, end_pos: 100 },
            VtSpan { style: 2u8, begin_pos: 100, end_pos: 9000 },
            VtSpan { style: 3u8, begin_pos: 9000, end_pos: 10000 },
        ],
    };
    let clipped = clipped_tooltip_text(&long);
    assert_eq!(clipped.text.chars().count(), 4097);
    assert!(clipped.text.ends_with('\u{2026}'));
    assert_eq!(clipped.spans.len(), 2);
    assert_eq!((clipped.spans[0].begin_pos, clipped.spans[0].end_pos), (0, 100));
    assert_eq!((clipped.spans[1].begin_pos, clipped.spans[1].end_pos), (100, clipped.text.len()));
    assert_eq!(clipped.spans[1].style, 2);
}

fn difficulty(value: &str, toggle: bool, exclusive: bool) -> LinkSelection {
    LinkSelection {
        group: "difficulty".to_string(),
        value: value.to_string(),
        toggle,
        selected: false,
        exclusive,
        disabled: false,
    }
}

#[test]
fn visited_and_selection_state_are_semantic_and_stable() {
    let selection = difficulty("hard", true, true);
    let target = "hard";
    let mut visited: VisitedTargets<&str> = VisitedTargets::new();
    let mut selections = SelectionMemory::new();

    assert!(!visited.visited(Some(&target)));
    visited.mark_visited(Some(&target));
    visited.mark_visited(Some(&target));
    assert!(visited.visited(Some(&target)));
    assert_eq!(visited.len(), 1);

    assert!(!selections.selected(&selection));
    assert!(selections.toggle_link_selection(&selection));
    assert!(selections.selected(&selection));
    assert!(!selections.toggle_link_selection(&selection));
    assert!(!selections.selected(&selection));
}

#[test]
fn links_without_a_target_are_never_visited() {
    let mut visited: VisitedTargets<u32> = VisitedTargets::new();
    visited.mark_visited(None);
    assert!(!visited.visited(None));
    assert_eq!(visited.len(), 0);
}

#[test]
fn selecting_an_exclusive_value_clears_the_rest_of_its_group() {
    let mut selections = SelectionMemory::new();
    let easy = difficulty("easy", false, true);
    let hard = difficulty("hard", false, true);
    let other = LinkSelection { group: "color".to_string(), ..difficulty("red", false, true) };
    assert!(selections.toggle_link_selection(&easy));
    assert!(selections.toggle_link_selection(&other));
    assert!(selections.toggle_link_selection(&hard));
    assert!(selections.selected(&hard));
    assert!(!selections.selected(&easy), "the group's other value is cleared");
    assert!(selections.selected(&other), "other groups are untouched");
    // A radio link stays selected when activated again.
    assert!(selections.toggle_link_selection(&hard));
}

#[test]
fn inert_and_initially_selected_links() {
    let mut selections = SelectionMemory::new();
    let inert = LinkSelection { disabled: true, selected: true, ..difficulty("easy", true, true) };
    assert!(selections.toggle_link_selection(&inert), "an inert link reports its state unchanged");
    let preset = LinkSelection { selected: true, ..difficulty("normal", true, true) };
    let hard = difficulty("hard", true, true);
    assert!(selections.toggle_link_selection(&hard));
    selections.ensure_selection(&preset);
    assert!(selections.selected(&preset));
    assert!(!selections.selected(&hard), "an initially selected exclusive link clears its group");
    // Registering again keeps what was remembered.
    assert!(!selections.toggle_link_selection(&preset));
    selections.ensure_selection(&preset);
    assert!(!selections.selected(&preset));
}

#[test]
fn navigation_reset_drops_focus_once_per_epoch() {
    let mut focus: LinkFocus<u32> = LinkFocus::new();
    focus.is_focused = true;
    focus.focused = Some(3);
    focus.focus_visible = true;
    focus.hovered = Some(4);
    assert_eq!(focus.keyboard_focused_link(), Some(3));
    focus.process_link_navigation_reset(1);
    assert!(!focus.is_focused);
    assert_eq!(focus.focused, None);
    assert_eq!(focus.keyboard_focused_link(), None);
    assert_eq!(focus.hovered, Some(4));
    assert_eq!(focus.generation, 1);
    focus.process_link_navigation_reset(1);
    assert_eq!(focus.generation, 1, "an answered epoch changes nothing");
    focus.process_link_navigation_reset(2);
    assert_eq!(focus.generation, 1, "nothing to drop, nothing to restyle");
    assert_eq!(focus.seen_reset_epoch, 2);
}

#[test]
fn pruning_forgets_links_that_scrolled_away() {
    let mut focus: LinkFocus<u32> = LinkFocus::new();
    focus.hovered = Some(1);
    focus.active = Some(2);
    focus.focused = Some(3);
    focus.focus_visible = true;
    focus.prune_link_instances(&[1, 3]);
    assert_eq!((focus.hovered, focus.active, focus.focused), (Some(1), None, Some(3)));
    assert!(focus.focus_visible);
    focus.prune_link_instances(&[1]);
    assert_eq!(focus.focused, None);
    assert!(!focus.focus_visible);
    let kept = retain_live(vec![(1u32, 'a'), (2, 'b'), (3, 'c')], &[3, 1]);
    assert_eq!(kept, vec![(1, 'a'), (3, 'c')]);
}

#[test]
fn concealing_rules_arm_on_activation() {
    let mut state = VisibilityState::new(VisibilityAction::Conceal, 10u64);
    assert_eq!(state.timer(VisibilityAction::Conceal, Some(50)), None);
    assert_eq!(state.activate_visibility(VisibilityAction::Conceal, Some(50), 12), Some(50));
    assert_eq!(state.timer(VisibilityAction::Conceal, Some(50)), Some((12, 50)));
    state.fire(VisibilityAction::Conceal);
    assert!(state.concealed);
    assert_eq!(state.activated, None);
    let mut at_once = VisibilityState::new(VisibilityAction::Conceal, 0u64);
    assert_eq!(at_once.activate_visibility(VisibilityAction::Conceal, Some(0), 5), None);
    assert!(at_once.concealed);
}

#[test]
fn revealing_rules_count_from_creation_and_conceal_after_reveal() {
    let mut state = VisibilityState::new(VisibilityAction::RevealThenConceal, 7u64);
    assert_eq!(state.timer(VisibilityAction::RevealThenConceal, Some(30)), Some((7, 30)));
    assert_eq!(state.activate_visibility(VisibilityAction::RevealThenConceal, None, 8), None);
    assert!(state.concealed, "activation before the reveal does nothing");
    state.fire(VisibilityAction::RevealThenConceal);
    assert!(!state.concealed && state.revealed_phase);
    assert_eq!(state.timer(VisibilityAction::RevealThenConceal, Some(30)), None);
    assert_eq!(state.activate_visibility(VisibilityAction::RevealThenConceal, None, 9), None);
    assert!(state.concealed && !state.revealed_phase);
}

#[test]
fn expiry_needs_a_configured_event() {
    let expire = VisibilityExpire { input: true, prompt: false, output: true, output_delay_ms: 500 };
    assert!(expiry_fires(expire, true, false, None));
    assert!(!expiry_fires(expire, false, true, None));
    assert!(!expiry_fires(expire, false, false, Some(499)));
    assert!(expiry_fires(expire, false, false, Some(500)));
    let mut seen = SeenEpochs { input: 0, prompt: 0, output: 0 };
    assert_eq!(seen.observe(1, 0, 2), (true, false, true));
    assert_eq!(seen.observe(1, 0, 2), (false, false, false));
}

#[test]
fn keyboard_activation_requires_visible_link_focus_and_editor_focus_clears_it() {
    let key: (usize, usize, usize) = (7, 3, 9);
    let mut state = LinkFocus::new();
    state.is_focused = true;
    state.focused = Some(key);
    state.focus_visible = false;

    assert_eq!(state.keyboard_focused_link(), None);
    state.focus_visible = true;
    assert_eq!(state.keyboard_focused_link(), Some(key));

    let generation = state.generation;
    state.process_link_navigation_reset(1);
    assert!(!state.is_focused);
    assert_eq!(state.focused, None);
    assert!(!state.focus_visible);
    assert_ne!(state.generation, generation);
}

#[test]
fn a_click_is_a_press_and_release_on_the_same_cell() {
    assert!(click_activates(Some((3usize, 4usize)), Some((3, 4))));
    assert!(!click_activates(Some((3usize, 4usize)), Some((3, 5))));
    assert!(!click_activates(None, Some((3usize, 4usize))));
    assert_eq!(keep_press(Some(7u32), Some(7)), Some(7));
    assert_eq!(keep_press(Some(7u32), Some(8)), None, "leaving the cell makes it a drag");
    assert_eq!(keep_press(Some(7u32), None), None);
    assert_eq!(keep_press(None, Some(7u32)), None);
}

#[test]
fn hover_tooltips_wait_then_open() {
    let (h, now, later) = hover_step::<u32, u64>(None, Some(1), false, 10, false, false);
    assert_eq!(h, Some(TooltipHover::Waiting { link: 1, at: 10 }));
    assert!(!now);
    assert_eq!(later, RedrawLater::AfterDelay);
    let (h, _, later) = hover_step(h, Some(1), false, 12, false, false);
    assert_eq!(h, Some(TooltipHover::Waiting { link: 1, at: 10 }), "the wait keeps its start");
    assert_eq!(later, RedrawLater::AfterRemaining);
    let (h, now, _) = hover_step(h, Some(1), false, 20, true, false);
    assert_eq!(h, Some(TooltipHover::Open(1)));
    assert!(now);
    let (h2, now, later) = hover_step(h.clone(), Some(2), false, 21, false, false);
    assert_eq!(h2, Some(TooltipHover::Waiting { link: 2, at: 21 }), "a new link starts over");
    assert!(now, "the open tooltip is cleared at once");
    assert_eq!(later, RedrawLater::AfterDelay);
    let (gone, now, _) = hover_step(h, None, false, 22, false, false);
    assert_eq!(gone, None);
    assert!(now);
    let (open, now, _) = hover_step::<u32, u64>(None, Some(5), true, 30, false, false);
    assert_eq!(open, Some(TooltipHover::Open(5)), "no delay opens at once");
    assert!(now);
}

#[test]
fn blink_variants_hide_only_the_requested_rates() {
    let spans = [Blink::Slow, Blink::Fast];
    let slow = hidden_blink_spans(&spans, true, false).expect("slow variant");
    assert_eq!(slow, vec![true, false]);

    let fast = hidden_blink_spans(&spans, false, true).expect("fast variant");
    assert_eq!(fast, vec![false, true]);

    let all = hidden_blink_spans(&spans, true, true).expect("combined variant");
    assert!(all.iter().all(|hidden| *hidden));
}

#[test]
fn steady_lines_and_visible_phases_hide_nothing() {
    assert_eq!(hidden_blink_spans(&[Blink::Steady, Blink::Slow], false, true), None);
    assert_eq!(hidden_blink_spans(&[], true, true), None);
    assert!(!blink_hidden(Blink::Steady, true, true));
}

#[test]
fn blink_phases_alternate_every_half_period() {
    assert!(blink_visible(0, SLOW_BLINK_HALF_PERIOD_MS));
    assert!(blink_visible(499, SLOW_BLINK_HALF_PERIOD_MS));
    assert!(!blink_visible(500, SLOW_BLINK_HALF_PERIOD_MS));
    assert!(blink_visible(1000, SLOW_BLINK_HALF_PERIOD_MS));
    assert!(!blink_visible(260, FAST_BLINK_HALF_PERIOD_MS));
    assert!(blink_visible(510, FAST_BLINK_HALF_PERIOD_MS));
}

#[test]
fn the_next_blink_redraw_comes_at_the_nearest_phase_change() {
    assert_eq!(next_blink_ms(100, true, false), 400);
    assert_eq!(next_blink_ms(100, false, true), 150);
    assert_eq!(next_blink_ms(100, true, true), 150);
    assert_eq!(next_blink_ms(740, true, true), 10);
}

#[test]
fn loading_tooltip_animates_and_retains_the_disclosed_target() {
    let target = String::from("send:inspect");
    let (first, first_target) = loading_tooltip_display(0, "Loading…", Some(target.clone()));
    let (second, second_target) = loading_tooltip_display(1, "Loading…", Some(target.clone()));

    assert!(first.starts_with("| "));
    assert!(second.starts_with("/ "));
    assert_ne!(first, second);
    assert_eq!(first_target.as_deref(), Some(target.as_str()));
    assert_eq!(second_target.as_deref(), Some(target.as_str()));
    assert_eq!(loading_tooltip_display(7, "wait", None), (String::from("\\ wait"), None));
    assert_eq!(TOOLTIP_SPINNER_FRAME_MS, 100);
}

#[test]
fn a_release_on_the_pressed_link_cell_activates_or_reveals() {
    let send = || Some(ServerAction::ServerSend("vote?choice=yes".to_string()));
    // Same cell, links handled: the primary action fires.
    assert_eq!(
        release_step(Some((3, 4)), Some((3, 4)), true, true, true, false, send(), None, false, false),
        (None, LinkRelease::Activate(ServerAction::ServerSend("vote?choice=yes".to_string())))
    );
    // The selection state rides along on a link without a menu.
    assert_eq!(
        release_step(Some((3, 4)), Some((3, 4)), true, true, true, false, send(), Some(true), false, false).1,
        LinkRelease::Activate(ServerAction::ServerSend("vote?choice=yes&selected=true".to_string()))
    );
    assert_eq!(
        release_step(Some((3, 4)), Some((3, 4)), true, true, true, false, send(), Some(true), true, false).1,
        LinkRelease::Activate(ServerAction::ServerSend("vote?choice=yes".to_string()))
    );
    // A first spoiler reveal stops there.
    assert_eq!(
        release_step(Some((3, 4)), Some((3, 4)), true, true, true, true, send(), None, false, false).1,
        LinkRelease::Reveal
    );
    // A drag (different cell), no handler, or no link: nothing.
    assert_eq!(release_step(Some((3, 4)), Some((3, 5)), true, true, true, false, send(), None, false, false).1, LinkRelease::Ignore);
    assert_eq!(release_step(Some((3, 4)), Some((3, 4)), false, true, true, false, send(), None, false, false).1, LinkRelease::Ignore);
    assert_eq!(release_step(Some((3, 4)), Some((3, 4)), true, true, false, false, send(), None, false, false).1, LinkRelease::Ignore);
    assert_eq!(release_step::<(usize, usize)>(None, Some((3, 4)), true, true, true, false, send(), None, false, false).1, LinkRelease::Ignore);
    // Without a primary action, a left-click menu opens.
    assert_eq!(release_step(Some(1), Some(1), true, true, true, false, None, None, true, true).1, LinkRelease::OpenMenu);
    assert_eq!(release_step(Some(1), Some(1), true, true, true, false, None, None, true, false).1, LinkRelease::Ignore);
}
