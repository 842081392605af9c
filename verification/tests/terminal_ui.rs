use rage::env::Env;
use rage::remote::{AGENT_AUTH_BUNDLE, AGENT_AUTH_DISPLAY_VALUE};
use rage::tui::{
    bundle_lines, detail_lines, detail_title, editor_text, handle_key, hint_text, key_allowed,
    status_text,
    Action, AppState, EditorMode, EditorStage, EditorState, KeyCode, KeyPress, SyncOutcome, View,
    MASK_GLYPHS,
};

fn key(code: KeyCode) -> KeyPress {
    KeyPress { code, ctrl: false }
}

fn env_of(pairs: &[(&str, &str)]) -> Env {
    let mut env = Env::new();
    for (k, v) in pairs {
        env.insert(k.to_string(), v.to_string());
    }
    env
}

/// The text of both panes, one row per line.
fn screen(state: &AppState) -> String {
    let mut text = bundle_lines(state).join("\n");
    text.push('\n');
    text.push_str(&detail_title(state));
    text.push('\n');
    text.push_str(&detail_lines(state).join("\n"));
    text
}

fn seeded_state() -> AppState {
    let mut state = AppState::new();
    state.set_bundles(vec!["global".to_string(), "project/foo/dev".to_string()]);
    let env = env_of(&[("OPENAI_API_KEY", "sk-abcdef"), ("DATABASE_URL", "postgres://secret")]);
    state.set_detail("global".to_string(), env);
    state
}

fn seeded_agents_state() -> AppState {
    let mut state = AppState::new();
    state.set_bundles(vec![AGENT_AUTH_BUNDLE.to_string()]);
    let env = env_of(&[
        ("AUTHLESS_CODEX_JSON", AGENT_AUTH_DISPLAY_VALUE),
        ("AUTHLESS_GROK_JSON", AGENT_AUTH_DISPLAY_VALUE),
        ("DOPPLER_TOKEN", "dp.st.secret"),
    ]);
    state.set_detail(AGENT_AUTH_BUNDLE.to_string(), env);
    state.view = View::Detail;
    state
}

#[test]
fn bundle_list_renders_names_and_selection() {
    let state = seeded_state();
    let text = screen(&state);
    assert!(text.contains("global"), "missing 'global' in:\n{text}");
    assert!(text.contains("project/foo/dev"), "missing 'project/foo/dev' in:\n{text}");
    assert!(text.contains("> global"), "selection indicator missing in:\n{text}");
}

#[test]
fn detail_view_masks_values_by_default() {
    let mut state = seeded_state();
    state.view = View::Detail;
    assert!(state.masked, "mask should default to on");
    let text = screen(&state);
    assert!(text.contains("OPENAI_API_KEY"), "key name missing in:\n{text}");
    assert!(text.contains(MASK_GLYPHS), "mask glyphs missing in:\n{text}");
    assert!(!text.contains("sk-abcdef"), "secret leaked into masked view:\n{text}");
    assert!(!text.contains("postgres://secret"), "secret leaked into masked view:\n{text}");
}

#[test]
fn mask_toggle_reveals_values() {
    let mut state = seeded_state();
    state.view = View::Detail;
    let action = handle_key(&mut state, key(KeyCode::Char('m')));
    assert_eq!(action, Action::NoOp);
    assert!(!state.masked, "pressing 'm' should toggle mask off");
    let text = screen(&state);
    assert!(text.contains("sk-abcdef"), "value missing after reveal:\n{text}");
}

#[test]
fn agents_detail_renders_imported_auth_records_as_managed_entries() {
    let mut state = seeded_agents_state();
    state.masked = false;
    let text = screen(&state);
    assert!(text.contains("AUTHLESS_CODEX_JSON"), "Codex auth import missing in:\n{text}");
    assert!(text.contains("AUTHLESS_GROK_JSON"), "Grok auth import missing in:\n{text}");
    assert!(text.contains("DOPPLER_TOKEN"), "ordinary agents bundle key missing in:\n{text}");
    assert!(text.contains(AGENT_AUTH_DISPLAY_VALUE), "managed auth placeholder missing in:\n{text}");
    assert!(!text.contains("access_token"), "auth JSON should not be rendered:\n{text}");
}

#[test]
fn agents_auth_records_cannot_be_edited_or_deleted_in_tui() {
    let mut state = seeded_agents_state();
    state.detail_index = 0;

    let action = handle_key(&mut state, key(KeyCode::Char('e')));
    assert_eq!(action, Action::NoOp);
    assert!(matches!(state.view, View::Detail));
    assert!(state.status.as_ref().is_some_and(|s| s.is_error));

    let action = handle_key(&mut state, key(KeyCode::Char('d')));
    assert_eq!(action, Action::NoOp);
    assert!(matches!(state.view, View::Detail));
    assert!(state.status.as_ref().is_some_and(|s| s.is_error));
}

#[test]
fn open_bundle_action_uses_selected_bundle() {
    let mut state = seeded_state();
    state.view = View::Bundles;
    state.bundle_index = 1;
    let action = handle_key(&mut state, key(KeyCode::Enter));
    assert_eq!(action, Action::OpenBundle("project/foo/dev".to_string()));
}

#[test]
fn add_key_editor_two_stage_emits_set_action() {
    let mut state = seeded_state();
    state.view = View::Detail;
    let action = handle_key(&mut state, key(KeyCode::Char('a')));
    assert_eq!(action, Action::NoOp);
    assert!(matches!(state.view, View::Editor(_)));

    for ch in "NEW_KEY".chars() {
        handle_key(&mut state, key(KeyCode::Char(ch)));
    }
    let action = handle_key(&mut state, key(KeyCode::Enter));
    assert_eq!(action, Action::NoOp);
    for ch in "v1".chars() {
        handle_key(&mut state, key(KeyCode::Char(ch)));
    }
    let action = handle_key(&mut state, key(KeyCode::Enter));
    assert_eq!(
        action,
        Action::SetKey {
            bundle: "global".to_string(),
            key: "NEW_KEY".to_string(),
            value: "v1".to_string(),
        }
    );
    assert!(matches!(state.view, View::Detail));
}

#[test]
fn delete_key_confirm_yields_unset_action() {
    let mut state = seeded_state();
    state.view = View::Detail;
    state.detail_index = 0; // DATABASE_URL: names are kept sorted
    let action = handle_key(&mut state, key(KeyCode::Char('d')));
    assert_eq!(action, Action::NoOp);
    assert!(matches!(state.view, View::Confirm(_)));

    let action = handle_key(&mut state, key(KeyCode::Char('y')));
    assert_eq!(
        action,
        Action::UnsetKey { bundle: "global".to_string(), key: "DATABASE_URL".to_string() }
    );
    assert!(matches!(state.view, View::Detail));
}

#[test]
fn quit_key_returns_quit_action() {
    let mut state = seeded_state();
    let action = handle_key(&mut state, key(KeyCode::Char('q')));
    assert_eq!(action, Action::Quit);
}

#[test]
fn control_c_quits_from_any_view() {
    let mut state = seeded_state();
    state.view = View::Detail;
    let action = handle_key(&mut state, KeyPress { code: KeyCode::Char('c'), ctrl: true });
    assert_eq!(action, Action::Quit);
}

#[test]
fn navigation_stays_inside_the_list() {
    let mut state = seeded_state();
    handle_key(&mut state, key(KeyCode::Down));
    handle_key(&mut state, key(KeyCode::Down));
    assert_eq!(state.bundle_index, 1);
    handle_key(&mut state, key(KeyCode::Char('k')));
    handle_key(&mut state, key(KeyCode::Up));
    assert_eq!(state.bundle_index, 0);
}

#[test]
fn editor_escape_returns_without_action() {
    let mut state = seeded_state();
    state.view = View::Detail;
    handle_key(&mut state, key(KeyCode::Char('a')));
    handle_key(&mut state, key(KeyCode::Char('X')));
    handle_key(&mut state, key(KeyCode::Backspace));
    if let View::Editor(editor) = &state.view {
        assert_eq!(editor.key_buffer, "");
    } else {
        panic!("editor should be open");
    }
    let action = handle_key(&mut state, key(KeyCode::Esc));
    assert_eq!(action, Action::NoOp);
    assert!(matches!(state.view, View::Detail));
}

#[test]
fn editor_text_shows_the_active_field() {
    let editor = EditorState {
        mode: EditorMode::AddKey,
        stage: EditorStage::Key,
        key_buffer: "NEW".to_string(),
        value_buffer: String::new(),
    };
    let (title, key_line, _value_line) = editor_text(&editor);
    assert_eq!(title, " Add key ");
    assert_eq!(key_line, "KEY> NEW_");
}

#[test]
fn applying_results_updates_state() {
    let mut state = AppState::new();
    state.apply_bundle_list(Ok(vec!["global".to_string()]), true);
    assert_eq!(status_text(&state), "refreshed bundle list");
    state.apply_bundle_list(Err("offline".to_string()), false);
    assert!(state.status.as_ref().is_some_and(|s| s.is_error && s.text == "list bundles: offline"));

    state.apply_opened("global".to_string(), Ok(env_of(&[("A", "1")])), true);
    assert!(matches!(state.view, View::Detail));
    assert_eq!(state.detail_keys, vec!["A"]);
    assert_eq!(state.status.as_ref().unwrap().text, "synced and opened global");

    state.apply_synced("global".to_string(), SyncOutcome::Read(env_of(&[("A", "2"), ("B", "3")])));
    assert_eq!(state.detail_keys, vec!["A", "B"]);
    assert_eq!(state.status.as_ref().unwrap().text, "synced global");
    assert!(!hint_text(&state).is_empty());
}

#[test]
fn detail_pane_hints_without_keys() {
    let state = AppState::new();
    assert_eq!(detail_lines(&state), vec!["(select a bundle and press Enter)"]);
    let mut opened = AppState::new();
    opened.set_detail("empty".to_string(), Env::new());
    assert_eq!(detail_lines(&opened), vec!["(empty bundle — press 'a' to add a key)"]);
}

#[test]
fn default_state_and_key_guard() {
    let state = AppState::default();
    assert!(state.masked);
    assert!(matches!(state.view, View::Bundles));
    assert_eq!(status_text(&state), "ready");
    let mut at_end = seeded_state();
    assert!(key_allowed(&at_end, key(KeyCode::Down)));
    at_end.bundle_index = usize::MAX;
    assert!(!key_allowed(&at_end, key(KeyCode::Char('j'))));
    assert!(key_allowed(&at_end, KeyPress { code: KeyCode::Char('c'), ctrl: true }));
}

#[test]
fn key_write_keeps_list_and_mask_and_follows_the_open_bundle() {
    let mut state = seeded_state();
    state.bundle_index = 1;
    state.detail_index = 1;
    state.masked = false;
    state.apply_key_written(
        "global".to_string(),
        "NEW".to_string(),
        true,
        Ok(env_of(&[("NEW", "v")])),
    );
    assert_eq!(state.bundles, vec!["global", "project/foo/dev"]);
    assert_eq!(state.bundle_index, 1);
    assert!(!state.masked);
    assert_eq!(state.current_bundle.as_deref(), Some("global"));
    assert_eq!(state.detail_keys, vec!["NEW"]);
    assert_eq!(state.detail_index, 0);
    assert_eq!(state.status.as_ref().unwrap().text, "set NEW in global");

    state.apply_key_written(
        "project/foo/dev".to_string(),
        "X".to_string(),
        false,
        Ok(env_of(&[])),
    );
    assert_eq!(state.detail_keys, vec!["NEW"]);
    assert_eq!(state.current_bundle.as_deref(), Some("global"));
    assert_eq!(state.status.as_ref().unwrap().text, "unset X in project/foo/dev");
}

#[test]
fn bundle_list_refresh_clamps_selection_and_keeps_detail() {
    let mut state = seeded_state();
    state.bundle_index = 1;
    state.apply_bundle_list(Ok(vec!["only".to_string()]), false);
    assert_eq!(state.bundle_index, 0);
    assert_eq!(state.current_bundle.as_deref(), Some("global"));
    assert_eq!(state.detail_keys, vec!["DATABASE_URL", "OPENAI_API_KEY"]);
    assert!(state.masked);
    assert!(state.status.is_none());
}

#[test]
fn deleting_another_bundle_keeps_the_detail_pane() {
    let mut state = seeded_state();
    state.view = View::Detail;
    state.detail_index = 1;
    state.apply_deleted("project/foo/dev".to_string(), Ok(()));
    assert_eq!(state.bundles, vec!["global"]);
    assert_eq!(state.detail_keys, vec!["DATABASE_URL", "OPENAI_API_KEY"]);
    assert_eq!(state.detail_index, 1);
    assert!(matches!(state.view, View::Detail));
    assert_eq!(state.status.as_ref().unwrap().text, "deleted project/foo/dev");
}

#[test]
fn typing_then_backspace_restores_the_editor() {
    let mut state = seeded_state();
    state.view = View::Detail;
    assert!(matches!(handle_key(&mut state, key(KeyCode::Char('a'))), Action::NoOp));
    let View::Editor(before) = state.view.clone() else { panic!("editor expected") };
    assert!(matches!(handle_key(&mut state, key(KeyCode::Char('Z'))), Action::NoOp));
    let View::Editor(typed) = state.view.clone() else { panic!("editor expected") };
    assert_eq!(typed.key_buffer, "Z");
    assert!(matches!(handle_key(&mut state, key(KeyCode::Backspace)), Action::NoOp));
    let View::Editor(after) = state.view.clone() else { panic!("editor expected") };
    assert_eq!(after.key_buffer, before.key_buffer);
    assert_eq!(after.value_buffer, before.value_buffer);
    assert_eq!(state.detail_keys, vec!["DATABASE_URL", "OPENAI_API_KEY"]);
}

#[test]
fn detail_selection_stays_inside_the_rows() {
    let mut state = seeded_state();
    state.view = View::Detail;
    handle_key(&mut state, key(KeyCode::Down));
    assert_eq!(state.detail_index, 1);
    handle_key(&mut state, key(KeyCode::Char('j')));
    assert_eq!(state.detail_index, 1);
    handle_key(&mut state, key(KeyCode::Up));
    handle_key(&mut state, key(KeyCode::Char('k')));
    assert_eq!(state.detail_index, 0);
}
