use smudgy_panes::layouts::{
    Action, Event, LayoutsMenu, Message, OmittedRow, OverwriteAction, SaveOutcome, Stage,
};

#[derive(Debug, Clone, PartialEq)]
enum Source {
    Named(String),
    LastSession,
}

type Menu = LayoutsMenu<u64, Source>;

/// A store of layout names standing in for the host's directory, with the
/// host's name rules: no path separators, no reserved device names.
struct Host {
    layouts: Vec<String>,
}

impl Host {
    fn validate(name: &str) -> Result<(), String> {
        if name.is_empty() || name.contains('/') || name.contains('\\') {
            return Err("invalid name".to_string());
        }
        if name.eq_ignore_ascii_case("nul") || name.eq_ignore_ascii_case("con") {
            return Err("reserved name".to_string());
        }
        Ok(())
    }

    fn holds(&self, name: &str) -> bool {
        self.layouts.iter().any(|l| l.eq_ignore_ascii_case(name))
    }

    /// Run one message through the menu, performing the actions it asks
    /// for, and return the event it emits.
    fn event(&mut self, menu: &mut Menu, message: Message<u64>) -> Option<Event<u64, Source>> {
        let mut action = menu.update(message);
        loop {
            action = match action {
                Action::Nothing | Action::FocusNameInput => return None,
                Action::Emit(event) => return Some(event),
                Action::CheckSaveName { name } => {
                    let valid = Self::validate(&name);
                    let exists = self.holds(&name);
                    menu.save_name_checked(name, valid, exists)
                }
                Action::CheckRenameName { from, to } => {
                    let valid = Self::validate(&to);
                    let conflict = from.eq_ignore_ascii_case(&to);
                    let exists = self.holds(&to);
                    menu.rename_name_checked(from, to, valid, conflict, exists)
                }
                Action::Rename { from, to } => {
                    // Renaming over another file keeps the displaced stem.
                    let displaced = self.holds(&to) && !from.eq_ignore_ascii_case(&to);
                    self.layouts.retain(|l| !l.eq_ignore_ascii_case(&from));
                    if !displaced {
                        self.layouts.push(to.clone());
                    }
                    self.layouts.sort();
                    menu.rename_finished(from, to, Ok(()));
                    return None;
                }
                Action::Delete { name } => {
                    self.layouts.retain(|l| l != &name);
                    return None;
                }
            };
        }
    }
}

fn host(names: &[&str]) -> Host {
    Host {
        layouts: names.iter().map(|n| n.to_string()).collect(),
    }
}

fn is_browsing(menu: &Menu) -> bool {
    matches!(menu.stage, Stage::Browse)
}

#[test]
fn clicking_a_layout_applies_it() {
    let mut host = host(&["combat"]);
    let mut menu = Menu::new();
    match host.event(&mut menu, Message::ApplyPressed("combat".to_string())) {
        Some(Event::Apply { name }) => assert_eq!(name, "combat"),
        other => panic!("expected an apply, got {other:?}"),
    }
}

#[test]
fn save_as_validates_the_name_before_anything_happens() {
    let mut host = host(&[]);
    let mut menu = Menu::new();
    assert!(host.event(&mut menu, Message::SaveAsPressed).is_none());
    assert!(host.event(&mut menu, Message::NameChanged("a/b".to_string())).is_none());
    assert!(host.event(&mut menu, Message::SaveAsConfirmed).is_none());
    let Stage::SaveAs { error, .. } = &menu.stage else {
        panic!("still in the save-as stage");
    };
    assert!(error.is_some(), "the invalid name is called out");
}

#[test]
fn save_as_over_a_case_variant_requires_the_overwrite_confirmation() {
    let mut host = host(&["Combat"]);
    let mut menu = Menu::new();
    host.event(&mut menu, Message::SaveAsPressed);
    host.event(&mut menu, Message::NameChanged("COMBAT".to_string()));
    assert!(host.event(&mut menu, Message::SaveAsConfirmed).is_none());
    assert!(matches!(
        &menu.stage,
        Stage::ConfirmOverwrite { name, action: OverwriteAction::Save } if name == "COMBAT"
    ));
    match host.event(&mut menu, Message::OverwriteConfirmed) {
        Some(Event::Save { name }) => assert_eq!(name, "COMBAT"),
        other => panic!("expected a save, got {other:?}"),
    }
    assert!(is_browsing(&menu));
}

#[test]
fn fresh_names_save_without_a_confirmation() {
    let mut host = host(&[]);
    let mut menu = Menu::new();
    host.event(&mut menu, Message::SaveAsPressed);
    host.event(&mut menu, Message::NameChanged("  peace ".to_string()));
    match host.event(&mut menu, Message::SaveAsConfirmed) {
        Some(Event::Save { name }) => assert_eq!(name, "peace", "the name is trimmed"),
        other => panic!("expected a save, got {other:?}"),
    }
}

#[test]
fn delete_requires_its_confirmation_and_refreshes_the_list() {
    let mut host = host(&["combat"]);
    let mut menu = Menu::new();
    assert!(host.event(&mut menu, Message::DeletePressed("combat".to_string())).is_none());
    assert_eq!(host.layouts, vec!["combat".to_string()]);
    assert!(host.event(&mut menu, Message::DeleteConfirmed).is_none());
    assert!(host.layouts.is_empty());
    assert!(is_browsing(&menu));
}

#[test]
fn cancelling_a_confirmation_changes_nothing() {
    let mut host = host(&["combat"]);
    let mut menu = Menu::new();
    host.event(&mut menu, Message::DeletePressed("combat".to_string()));
    assert!(host.event(&mut menu, Message::Back).is_none());
    assert!(is_browsing(&menu));
    assert_eq!(host.layouts, vec!["combat".to_string()]);
}

#[test]
fn rename_validates_and_renames_in_the_store() {
    let mut host = host(&["combat"]);
    let mut menu = Menu::new();
    host.event(&mut menu, Message::RenamePressed("combat".to_string()));
    host.event(&mut menu, Message::NameChanged("nul".to_string()));
    assert!(host.event(&mut menu, Message::RenameConfirmed).is_none());
    assert!(matches!(&menu.stage, Stage::Rename { error: Some(_), .. }));
    host.event(&mut menu, Message::NameChanged("peace".to_string()));
    assert!(host.event(&mut menu, Message::RenameConfirmed).is_none());
    assert!(is_browsing(&menu));
    assert_eq!(host.layouts, vec!["peace".to_string()]);
}

#[test]
fn rename_onto_a_different_layout_requires_the_overwrite_confirmation() {
    let mut host = host(&["combat", "peace"]);
    let mut menu = Menu::new();
    host.event(&mut menu, Message::RenamePressed("combat".to_string()));
    host.event(&mut menu, Message::NameChanged("PEACE".to_string()));
    assert!(host.event(&mut menu, Message::RenameConfirmed).is_none());
    assert!(matches!(
        &menu.stage,
        Stage::ConfirmOverwrite { name, action: OverwriteAction::Rename { from } }
            if name == "PEACE" && from == "combat"
    ));
    assert_eq!(host.layouts, vec!["combat".to_string(), "peace".to_string()]);
    assert!(host.event(&mut menu, Message::OverwriteConfirmed).is_none());
    assert!(is_browsing(&menu));
    assert_eq!(host.layouts, vec!["peace".to_string()]);
}

#[test]
fn rename_replace_cancels_back_to_browsing_untouched() {
    let mut host = host(&["combat", "peace"]);
    let mut menu = Menu::new();
    host.event(&mut menu, Message::RenamePressed("combat".to_string()));
    host.event(&mut menu, Message::NameChanged("peace".to_string()));
    host.event(&mut menu, Message::RenameConfirmed);
    assert!(host.event(&mut menu, Message::Back).is_none());
    assert!(is_browsing(&menu));
    assert_eq!(host.layouts, vec!["combat".to_string(), "peace".to_string()]);
}

#[test]
fn case_only_renames_stay_free_of_confirmation() {
    let mut host = host(&["combat"]);
    let mut menu = Menu::new();
    host.event(&mut menu, Message::RenamePressed("combat".to_string()));
    host.event(&mut menu, Message::NameChanged("COMBAT".to_string()));
    assert!(host.event(&mut menu, Message::RenameConfirmed).is_none());
    assert!(is_browsing(&menu));
    assert_eq!(host.layouts, vec!["COMBAT".to_string()]);
}

#[test]
fn reset_requires_its_confirmation() {
    let mut host = host(&[]);
    let mut menu = Menu::new();
    assert!(host.event(&mut menu, Message::ResetPressed).is_none());
    assert!(matches!(host.event(&mut menu, Message::ResetConfirmed), Some(Event::Reset)));
}

#[test]
fn keep_or_close_defaults_to_keep_and_partitions_by_explicit_toggle() {
    let mut host = host(&["combat"]);
    let mut menu = Menu::new();
    menu.prompt_keep_or_close(
        Source::Named("combat".to_string()),
        vec![
            OmittedRow { session: 1, label: "imm on Arctic".to_string(), close: false },
            OmittedRow { session: 2, label: "alt on Arctic".to_string(), close: false },
        ],
    );
    let mut untouched = Menu::new();
    untouched.prompt_keep_or_close(
        Source::LastSession,
        vec![OmittedRow { session: 7, label: "imm on Arctic".to_string(), close: false }],
    );
    match host.event(&mut untouched, Message::KeepOrCloseConfirmed) {
        Some(Event::ApplyWithAnswers { source, close, keep }) => {
            assert_eq!(source, Source::LastSession);
            assert_eq!(close, Vec::<u64>::new());
            assert_eq!(keep, vec![7]);
        }
        other => panic!("expected answers, got {other:?}"),
    }

    host.event(&mut menu, Message::ToggleClose(2, true));
    match host.event(&mut menu, Message::KeepOrCloseConfirmed) {
        Some(Event::ApplyWithAnswers { source, close, keep }) => {
            assert_eq!(source, Source::Named("combat".to_string()));
            assert_eq!(close, vec![2]);
            assert_eq!(keep, vec![1]);
        }
        other => panic!("expected answers, got {other:?}"),
    }
    assert!(is_browsing(&menu));
}

#[test]
fn save_outcome_annotates_partial_captures() {
    let mut menu = Menu::new();
    menu.record_save_outcome(SaveOutcome::Saved { name: "combat".to_string(), omitted: 2 });
    assert_eq!(
        menu.outcome,
        Some(SaveOutcome::Saved { name: "combat".to_string(), omitted: 2 })
    );
}

#[test]
fn a_failed_rename_returns_to_the_form_with_the_error() {
    let mut menu = Menu::new();
    menu.update(Message::RenamePressed("combat".to_string()));
    let refreshed = menu.rename_finished("combat".to_string(), "peace".to_string(), Err("busy".to_string()));
    assert!(!refreshed);
    assert!(matches!(
        &menu.stage,
        Stage::Rename { from, to, error: Some(e) } if from == "combat" && to == "peace" && e == "busy"
    ));
}
