use bp_review::diagnostics::{filter_informational, Config, Diagnostic};
use bp_review::session::{App, Effect, InputEvent, InputMode};

fn diag(path: &str, moniker: &str, justification: &str) -> Diagnostic {
    Diagnostic {
        diagnostic_type: "BPError".to_owned(),
        severity: "Error".to_owned(),
        path: path.to_owned(),
        moniker: moniker.to_owned(),
        message: "msg".to_owned(),
        justification: justification.to_owned(),
    }
}

fn diags(n: usize) -> Vec<Diagnostic> {
    (0..n).map(|i| diag(&format!("Node{i}"), "M", "")).collect()
}

fn config(models: &[&str]) -> Config {
    Config {
        modelpath: "/models".to_owned(),
        models: models.iter().map(|m| (*m).to_owned()).collect(),
    }
}

/// A session already in `Normal` mode showing `n` diagnostics.
fn normal_app(n: usize) -> App {
    let mut app = App::new(vec![], config(&["ModelA", "ModelB"]), String::new());
    let eff = app.step(InputEvent::ConfirmModel);
    assert_eq!(eff, Effect::LoadModel);
    app.set_model("ModelA".to_owned(), Ok(diags(n)));
    assert_eq!(app.mode, InputMode::Normal);
    app
}

#[test]
fn selection_wraps_forward_at_end() {
    let mut app = normal_app(3);
    app.selected = Some(2);
    app.step(InputEvent::SelectNext);
    assert_eq!(app.selected, Some(0));
}

#[test]
fn selection_wraps_back_at_head() {
    let mut app = normal_app(3);
    assert_eq!(app.selected, Some(0));
    app.step(InputEvent::SelectPrev);
    assert_eq!(app.selected, Some(2));
}

#[test]
fn selection_steps_one_at_a_time() {
    let mut app = normal_app(3);
    app.step(InputEvent::SelectNext);
    assert_eq!(app.selected, Some(1));
    app.step(InputEvent::SelectNext);
    assert_eq!(app.selected, Some(2));
    app.step(InputEvent::SelectPrev);
    assert_eq!(app.selected, Some(1));
}

#[test]
fn selection_stays_none_on_empty_list() {
    let mut app = normal_app(0);
    assert_eq!(app.selected, None);
    app.step(InputEvent::SelectNext);
    assert_eq!(app.selected, None);
    app.step(InputEvent::SelectPrev);
    assert_eq!(app.selected, None);
}

#[test]
fn model_switch_resets_selection() {
    let mut app = normal_app(5);
    app.step(InputEvent::SelectNext);
    app.step(InputEvent::SelectNext);
    app.step(InputEvent::SelectNext);
    assert_eq!(app.selected, Some(3));
    app.step(InputEvent::SwitchModel);
    assert_eq!(app.mode, InputMode::ModelSelect);
    let eff = app.step(InputEvent::ConfirmModel);
    assert_eq!(eff, Effect::LoadModel);
    app.set_model("ModelB".to_owned(), Ok(diags(2)));
    assert_eq!(app.mode, InputMode::Normal);
    assert_eq!(app.selected, Some(0));
    assert_eq!(app.items.len(), 2);
}

#[test]
fn failed_save_preserves_edits() {
    let mut app = normal_app(2);
    app.step(InputEvent::EnterEdit);
    assert_eq!(app.mode, InputMode::Justification);
    for c in "because".chars() {
        app.step(InputEvent::AppendChar(c));
    }
    app.step(InputEvent::ExitEdit);
    let eff = app.step(InputEvent::Save);
    assert_eq!(eff, Effect::Save);
    app.apply_save_result(Err("Suppressions file doesn't exist in model".to_owned()));
    assert_eq!(app.mode, InputMode::Error);
    assert_eq!(app.error_message, "Suppressions file doesn't exist in model");
    assert_eq!(app.items[0].justification, "because");
    assert_eq!(app.items[1].justification, "");
}

#[test]
fn successful_save_stays_normal() {
    let mut app = normal_app(1);
    let eff = app.step(InputEvent::Save);
    assert_eq!(eff, Effect::Save);
    app.apply_save_result(Ok(()));
    assert_eq!(app.mode, InputMode::Normal);
    assert_eq!(app.error_message, "");
}

#[test]
fn append_and_backspace_edit_selected_justification() {
    let mut app = normal_app(2);
    app.step(InputEvent::SelectNext);
    app.step(InputEvent::EnterEdit);
    app.step(InputEvent::AppendChar('o'));
    app.step(InputEvent::AppendChar('k'));
    assert_eq!(app.items[1].justification, "ok");
    assert_eq!(app.items[0].justification, "");
    app.step(InputEvent::Backspace);
    assert_eq!(app.items[1].justification, "o");
    app.step(InputEvent::Backspace);
    app.step(InputEvent::Backspace);
    assert_eq!(app.items[1].justification, "");
}

#[test]
fn edit_without_selection_is_a_noop() {
    let mut app = normal_app(0);
    app.step(InputEvent::EnterEdit);
    app.step(InputEvent::AppendChar('x'));
    app.step(InputEvent::Backspace);
    assert_eq!(app.items.len(), 0);
    assert_eq!(app.mode, InputMode::Justification);
}

#[test]
fn theme_cycles_and_wraps() {
    let mut app = normal_app(1);
    assert_eq!(app.color_index, 0);
    app.step(InputEvent::ThemePrev);
    assert_eq!(app.color_index, 3);
    app.step(InputEvent::ThemeNext);
    assert_eq!(app.color_index, 0);
    app.step(InputEvent::ThemeNext);
    assert_eq!(app.color_index, 1);
}

#[test]
fn quit_is_reported_from_every_mode() {
    let mut app = normal_app(1);
    assert_eq!(app.step(InputEvent::Quit), Effect::Quit);
    app.step(InputEvent::SwitchModel);
    assert_eq!(app.step(InputEvent::Quit), Effect::Quit);
    app.apply_save_result(Err("boom".to_owned()));
    assert_eq!(app.step(InputEvent::Quit), Effect::Quit);
}

#[test]
fn error_mode_ignores_everything_but_quit() {
    let mut app = normal_app(3);
    app.apply_save_result(Err("boom".to_owned()));
    assert_eq!(app.step(InputEvent::SelectNext), Effect::Continue);
    assert_eq!(app.step(InputEvent::Save), Effect::Continue);
    assert_eq!(app.mode, InputMode::Error);
}

#[test]
fn failed_model_load_goes_to_error_and_keeps_list() {
    let mut app = normal_app(2);
    app.step(InputEvent::SwitchModel);
    let eff = app.step(InputEvent::ConfirmModel);
    assert_eq!(eff, Effect::LoadModel);
    app.set_model("ModelA".to_owned(), Err("Model in config doesn't exist".to_owned()));
    assert_eq!(app.mode, InputMode::Error);
    assert_eq!(app.error_message, "Model in config doesn't exist");
    assert_eq!(app.items.len(), 2);
}

#[test]
fn model_load_filters_informational() {
    let mut app = App::new(vec![], config(&["ModelA"]), String::new());
    app.step(InputEvent::ConfirmModel);
    let mut info = diag("I", "N", "");
    info.severity = "Informational".to_owned();
    app.set_model("ModelA".to_owned(), Ok(vec![diag("A", "X", ""), info, diag("B", "Y", "")]));
    assert_eq!(app.items.len(), 2);
    assert_eq!(app.items[0].path, "A");
    assert_eq!(app.items[1].path, "B");
}

#[test]
fn filter_informational_drops_only_informational() {
    let mut warn = diag("W", "M", "");
    warn.severity = "Warning".to_owned();
    let mut info = diag("I", "M", "");
    info.severity = "Informational".to_owned();
    let kept = filter_informational(vec![warn.clone(), info, diag("E", "M", "")]);
    assert_eq!(kept.len(), 2);
    assert_eq!(kept[0], warn);
    assert_eq!(kept[1], diag("E", "M", ""));
}

#[test]
fn confirm_model_sets_active_model_name() {
    let mut app = App::new(vec![], config(&["ModelA", "ModelB"]), String::new());
    assert_eq!(app.mode, InputMode::ModelSelect);
    app.step(InputEvent::SelectNext);
    let eff = app.step(InputEvent::ConfirmModel);
    assert_eq!(eff, Effect::LoadModel);
    assert_eq!(app.model, "ModelB");
}

#[test]
fn confirm_with_no_models_is_a_noop() {
    let mut app = App::new(vec![], config(&[]), String::new());
    assert_eq!(app.selected, None);
    let eff = app.step(InputEvent::ConfirmModel);
    assert_eq!(eff, Effect::Continue);
    assert_eq!(app.mode, InputMode::ModelSelect);
}

#[test]
fn get_selected_returns_the_selected_diagnostic() {
    let mut app = normal_app(3);
    app.step(InputEvent::SelectNext);
    let d = app.get_selected().expect("a diagnostic is selected");
    assert_eq!(d.path, "Node1");
    let app2 = normal_app(0);
    assert!(app2.get_selected().is_none());
}

#[test]
fn get_selected_model_tracks_selection() {
    let mut app = App::new(vec![], config(&["ModelA", "ModelB"]), String::new());
    assert_eq!(app.get_selected_model().map(String::as_str), Some("ModelA"));
    app.step(InputEvent::SelectNext);
    assert_eq!(app.get_selected_model().map(String::as_str), Some("ModelB"));
    let empty = App::new(vec![], config(&[]), String::new());
    assert!(empty.get_selected_model().is_none());
}

#[test]
fn switching_to_a_shorter_list_pulls_selection_back() {
    let mut app = normal_app(5);
    app.selected = Some(4);
    app.step(InputEvent::SwitchModel);
    assert_eq!(app.mode, InputMode::ModelSelect);
    match app.selected {
        Some(i) => assert!(i < 2),
        None => panic!("a model list with entries keeps a selection"),
    }
}
