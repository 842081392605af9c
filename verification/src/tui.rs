//! The state of the terminal UI and how it answers keys: pure functions
//! from state and key to next state and the action the program performs.

use vstd::prelude::*;
use vstd::view::View as _;

use crate::env::{pair_keys, string_views, Env};
use crate::text::{push_char, push_str, text_eq};
use crate::validate::{is_reserved_key, is_reserved_remote_key};

verus! {

/// What the glyphs of a masked value look like.
pub const MASK_GLYPHS: &'static str = "••••••••";

/// Which pane has the focus, or which dialog is open.
#[derive(Debug, Clone, PartialEq, Eq)]
pub enum View {
    Bundles,
    Detail,
    Editor(EditorState),
    Confirm(ConfirmState),
}

#[derive(Debug, Clone, Copy, PartialEq, Eq)]
pub enum EditorMode {
    AddKey,
    EditValue,
}

#[derive(Debug, Clone, Copy, PartialEq, Eq)]
pub enum EditorStage {
    Key,
    Value,
}

/// The dialog that adds a key or edits a value.
#[derive(Debug, Clone, PartialEq, Eq)]
pub struct EditorState {
    pub mode: EditorMode,
    pub stage: EditorStage,
    pub key_buffer: String,
    pub value_buffer: String,
}

/// A yes/no question before a deletion.
#[derive(Debug, Clone, PartialEq, Eq)]
pub struct ConfirmState {
    pub prompt: String,
    pub action: ConfirmAction,
}

#[derive(Debug, Clone, PartialEq, Eq)]
pub enum ConfirmAction {
    DeleteKey { bundle: String, key: String },
    DeleteBundle { bundle: String },
}

/// What the program should do after a key.
#[derive(Debug, Clone, PartialEq, Eq)]
pub enum Action {
    NoOp,
    Quit,
    RefreshBundles,
    OpenBundle(String),
    SyncBundle(String),
    DeleteBundle(String),
    SetKey { bundle: String, key: String, value: String },
    UnsetKey { bundle: String, key: String },
}

/// The message at the bottom of the screen.
#[derive(Debug, Clone, PartialEq, Eq)]
pub struct StatusLine {
    pub text: String,
    pub is_error: bool,
}

/// A key the UI reacts to.
#[derive(Debug, Clone, Copy, PartialEq, Eq)]
pub enum KeyCode {
    Char(char),
    Enter,
    Esc,
    Backspace,
    Up,
    Down,
    Left,
    Right,
    Other,
}

/// A key press, with whether Control was held.
#[derive(Debug, Clone, Copy, PartialEq, Eq)]
pub struct KeyPress {
    pub code: KeyCode,
    pub ctrl: bool,
}

/// Everything the UI shows.
#[derive(Debug)]
pub struct AppState {
    pub bundles: Vec<String>,
    pub bundle_index: usize,
    pub current_bundle: Option<String>,
    pub detail: Env,
    pub detail_keys: Vec<String>,
    pub detail_index: usize,
    pub masked: bool,
    pub view: View,
    pub status: Option<StatusLine>,
}

/// The `i`-th element, if there is one.
pub open spec fn sel(v: Seq<String>, i: usize) -> Option<String> {
    if i < v.len() {
        Some(v[i as int])
    } else {
        None
    }
}

/// Nothing but the view and the status line differ.
pub open spec fn same_data(a: AppState, b: AppState) -> bool {
    &&& a.bundles == b.bundles
    &&& a.bundle_index == b.bundle_index
    &&& a.current_bundle == b.current_bundle
    &&& a.detail == b.detail
    &&& a.detail_keys == b.detail_keys
    &&& a.detail_index == b.detail_index
    &&& a.masked == b.masked
}

/// Only the view changed, to `v`.
pub open spec fn moved_to(a: AppState, b: AppState, v: View) -> bool {
    same_data(a, b) && b.status == a.status && b.view == v
}

/// `b` is `a` with the status line set to `text`.
pub open spec fn reported(a: AppState, b: AppState, text: Seq<char>, is_error: bool) -> bool {
    &&& same_data(a, b)
    &&& b.view == a.view
    &&& b.status matches Some(st) && st.text@ == text && st.is_error == is_error
}

/// A selection kept inside a list of `len` rows.
pub open spec fn clamp_index(i: usize, len: nat) -> usize {
    if len == 0 {
        0
    } else if i >= len {
        (len - 1) as usize
    } else {
        i
    }
}

/// `b` shows `env` as bundle `bundle` in the detail pane, the selection of
/// `a` kept inside the new rows.
pub open spec fn shows_detail(a: AppState, b: AppState, bundle: String, env: Env) -> bool {
    &&& b.current_bundle == Some(bundle)
    &&& b.detail == env
    &&& string_views(b.detail_keys@) == pair_keys(env@)
    &&& b.detail_index == clamp_index(a.detail_index, env@.len())
}

/// The detail pane of `b` is that of `a`.
pub open spec fn detail_kept(a: AppState, b: AppState) -> bool {
    &&& b.current_bundle == a.current_bundle
    &&& b.detail == a.detail
    &&& b.detail_keys == a.detail_keys
    &&& b.detail_index == a.detail_index
}

/// The bundle list, its selection and the mask of `b` are those of `a`.
pub open spec fn list_kept(a: AppState, b: AppState) -> bool {
    &&& b.bundles == a.bundles
    &&& b.bundle_index == a.bundle_index
    &&& b.masked == a.masked
}

/// The status line of `b` is the message `text`.
pub open spec fn informed(b: AppState, text: Seq<char>) -> bool {
    b.status matches Some(st) && !st.is_error && st.text@ == text
}

pub open spec fn delete_bundle_prompt(b: Seq<char>) -> Seq<char> {
    "Delete bundle '"@ + b + "' from Infisical? (y/n)"@
}

pub open spec fn delete_key_prompt(b: Seq<char>, k: Seq<char>) -> Seq<char> {
    "Delete key '"@ + k + "' from "@ + b + "? (y/n)"@
}

pub open spec fn managed_by_import_text() -> Seq<char> {
    "agent auth records are managed by rage import"@
}

/// Moving the selection down a list of `len` rows.
pub open spec fn step_down(i: usize, len: nat) -> usize {
    if len > 0 && i + 1 < len {
        (i + 1) as usize
    } else {
        i
    }
}

pub open spec fn step_up(i: usize) -> usize {
    if i > 0 {
        (i - 1) as usize
    } else {
        i
    }
}

/// How the bundle list answers a key.
pub open spec fn bundles_step(s: AppState, t: AppState, c: KeyCode, a: Action) -> bool {
    match c {
        KeyCode::Char('q') => t == s && a == Action::Quit,
        KeyCode::Char('j') | KeyCode::Down => t == (AppState {
            bundle_index: step_down(s.bundle_index, s.bundles@.len()),
            ..s
        }) && a == Action::NoOp,
        KeyCode::Char('k') | KeyCode::Up => t == (AppState {
            bundle_index: step_up(s.bundle_index),
            ..s
        }) && a == Action::NoOp,
        KeyCode::Enter | KeyCode::Char('l') | KeyCode::Right => t == s && a == (match sel(
            s.bundles@,
            s.bundle_index,
        ) {
            Some(b) => Action::OpenBundle(b),
            None => Action::NoOp,
        }),
        KeyCode::Char('s') => t == s && a == (match sel(s.bundles@, s.bundle_index) {
            Some(b) => Action::SyncBundle(b),
            None => Action::NoOp,
        }),
        KeyCode::Char('r') => t == s && a == Action::RefreshBundles,
        KeyCode::Char('D') => a == Action::NoOp && match sel(s.bundles@, s.bundle_index) {
            Some(b) => same_data(s, t) && t.status == s.status && (t.view matches View::Confirm(cs)
                && cs.prompt@ == delete_bundle_prompt(b@) && cs.action
                == ConfirmAction::DeleteBundle { bundle: b }),
            None => t == s,
        },
        KeyCode::Char('m') => t == (AppState { masked: !s.masked, ..s }) && a == Action::NoOp,
        _ => t == s && a == Action::NoOp,
    }
}

/// How the detail pane answers a key.
pub open spec fn detail_step(s: AppState, t: AppState, c: KeyCode, a: Action) -> bool {
    let key = sel(s.detail_keys@, s.detail_index);
    match c {
        KeyCode::Char('q') => t == s && a == Action::Quit,
        KeyCode::Esc | KeyCode::Char('h') | KeyCode::Left => moved_to(s, t, View::Bundles) && a
            == Action::NoOp,
        KeyCode::Char('j') | KeyCode::Down => t == (AppState {
            detail_index: step_down(s.detail_index, s.detail_keys@.len()),
            ..s
        }) && a == Action::NoOp,
        KeyCode::Char('k') | KeyCode::Up => t == (AppState {
            detail_index: step_up(s.detail_index),
            ..s
        }) && a == Action::NoOp,
        KeyCode::Char('m') => t == (AppState { masked: !s.masked, ..s }) && a == Action::NoOp,
        KeyCode::Char('a') => a == Action::NoOp && same_data(s, t) && t.status == s.status
            && (t.view matches View::Editor(e) && e.mode == EditorMode::AddKey && e.stage
            == EditorStage::Key && e.key_buffer@.len() == 0 && e.value_buffer@.len() == 0),
        KeyCode::Char('e') => a == Action::NoOp && match (s.current_bundle, key) {
            (Some(_), Some(k)) => if is_reserved_key(k@) {
                reported(s, t, managed_by_import_text(), true)
            } else {
                same_data(s, t) && t.status == s.status && (t.view matches View::Editor(e) && e.mode
                    == EditorMode::EditValue && e.stage == EditorStage::Value && e.key_buffer
                    == k && e.value_buffer@ == (if s.detail.map().dom().contains(k@) {
                    s.detail.map()[k@]
                } else {
                    Seq::empty()
                }))
            },
            _ => t == s,
        },
        KeyCode::Char('d') => a == Action::NoOp && match (s.current_bundle, key) {
            (Some(b), Some(k)) => if is_reserved_key(k@) {
                reported(s, t, managed_by_import_text(), true)
            } else {
                same_data(s, t) && t.status == s.status && (t.view matches View::Confirm(cs)
                    && cs.prompt@ == delete_key_prompt(b@, k@) && cs.action
                    == ConfirmAction::DeleteKey { bundle: b, key: k })
            },
            _ => t == s,
        },
        KeyCode::Char('s') => t == s && a == (match s.current_bundle {
            Some(b) => Action::SyncBundle(b),
            None => Action::NoOp,
        }),
        _ => t == s && a == Action::NoOp,
    }
}

/// How the editor dialog answers a key.
pub open spec fn editor_step(s: AppState, t: AppState, e: EditorState, c: KeyCode, a: Action) -> bool {
    match c {
        KeyCode::Esc => moved_to(s, t, View::Detail) && a == Action::NoOp,
        KeyCode::Enter => if e.mode == EditorMode::AddKey && e.stage == EditorStage::Key {
            a == Action::NoOp && if e.key_buffer@.len() == 0 {
                t == s
            } else {
                moved_to(
                    s,
                    t,
                    View::Editor(EditorState { stage: EditorStage::Value, ..e }),
                )
            }
        } else {
            moved_to(s, t, View::Detail) && a == (match s.current_bundle {
                Some(b) => Action::SetKey { bundle: b, key: e.key_buffer, value: e.value_buffer },
                None => Action::NoOp,
            })
        },
        KeyCode::Backspace => a == Action::NoOp && same_data(s, t) && t.status == s.status
            && (t.view matches View::Editor(e2) && e2.mode == e.mode && e2.stage == e.stage && (
        if e.stage == EditorStage::Key {
            e2.key_buffer@ == e.key_buffer@.take(
                if e.key_buffer@.len() > 0 {
                    e.key_buffer@.len() - 1
                } else {
                    0
                },
            ) && e2.value_buffer == e.value_buffer
        } else {
            e2.value_buffer@ == e.value_buffer@.take(
                if e.value_buffer@.len() > 0 {
                    e.value_buffer@.len() - 1
                } else {
                    0
                },
            ) && e2.key_buffer == e.key_buffer
        })),
        KeyCode::Char(ch) => a == Action::NoOp && same_data(s, t) && t.status == s.status
            && (t.view matches View::Editor(e2) && e2.mode == e.mode && e2.stage == e.stage && (
        if e.stage == EditorStage::Key {
            e2.key_buffer@ == e.key_buffer@.push(ch) && e2.value_buffer == e.value_buffer
        } else {
            e2.value_buffer@ == e.value_buffer@.push(ch) && e2.key_buffer == e.key_buffer
        })),
        _ => t == s && a == Action::NoOp,
    }
}

/// The pane a closed dialog returns to.
pub open spec fn back_view(s: AppState) -> View {
    if s.current_bundle is Some {
        View::Detail
    } else {
        View::Bundles
    }
}

/// How the confirmation dialog answers a key.
pub open spec fn confirm_step(s: AppState, t: AppState, cs: ConfirmState, c: KeyCode, a: Action) -> bool {
    match c {
        KeyCode::Char('y') | KeyCode::Enter => moved_to(s, t, back_view(s)) && a == (match cs.action {
            ConfirmAction::DeleteKey { bundle, key } => Action::UnsetKey { bundle, key },
            ConfirmAction::DeleteBundle { bundle } => Action::DeleteBundle(bundle),
        }),
        KeyCode::Char('n') | KeyCode::Esc => moved_to(s, t, back_view(s)) && a == Action::NoOp,
        _ => t == s && a == Action::NoOp,
    }
}

/// Control-C and Control-D quit from anywhere.
pub open spec fn is_quit_chord(k: KeyPress) -> bool {
    k.ctrl && (k.code == KeyCode::Char('c') || k.code == KeyCode::Char('d'))
}

/// The whole answer of the UI to a key.
pub open spec fn key_step(s: AppState, t: AppState, k: KeyPress, a: Action) -> bool {
    if is_quit_chord(k) {
        t == s && a == Action::Quit
    } else {
        match s.view {
            View::Bundles => bundles_step(s, t, k.code, a),
            View::Detail => detail_step(s, t, k.code, a),
            View::Editor(e) => editor_step(s, t, e, k.code, a),
            View::Confirm(cs) => confirm_step(s, t, cs, k.code, a),
        }
    }
}

/// Keys the UI takes in a state: moving down is left out where the selection
/// already stands at the largest index, since the index would overflow.
pub open spec fn key_in_range(s: AppState, k: KeyPress) -> bool {
    let down = k.code == KeyCode::Char('j') || k.code == KeyCode::Down;
    !(down && !is_quit_chord(k) && s.view == View::Bundles && s.bundles@.len() > 0
        && s.bundle_index == usize::MAX) && !(down && !is_quit_chord(k) && s.view == View::Detail
        && s.detail_keys@.len() > 0 && s.detail_index == usize::MAX)
}

/// Whether `handle_key` takes the key in this state: moving down is refused
/// only where the selection already stands at the largest index.
pub fn key_allowed(state: &AppState, key: KeyPress) -> (r: bool)
    ensures
        r == key_in_range(*state, key),
{
    let down = match key.code {
        KeyCode::Char('j') | KeyCode::Down => true,
        _ => false,
    };
    let quit = key.ctrl && match key.code {
        KeyCode::Char('c') | KeyCode::Char('d') => true,
        _ => false,
    };
    if !down || quit {
        return true;
    }
    match &state.view {
        View::Bundles => !(state.bundles.len() > 0 && state.bundle_index == usize::MAX),
        View::Detail => !(state.detail_keys.len() > 0 && state.detail_index == usize::MAX),
        _ => true,
    }
}

/// Removes the last character of a string (`String::pop`).
#[verifier::external_body]
fn pop_char(s: &mut String)
    ensures
        final(s)@ == old(s)@.take(
            if old(s)@.len() > 0 {
                old(s)@.len() - 1
            } else {
                0
            },
        ),
{
    s.pop();
}

fn clone_opt(o: &Option<String>) -> (r: Option<String>)
    ensures
        r == *o,
{
    match o {
        Some(s) => Some(s.clone()),
        None => None,
    }
}

impl Default for AppState {
    /// The same state as `AppState::new`.
    fn default() -> (r: AppState)
        ensures
            r.bundles@.len() == 0,
            r.bundle_index == 0,
            r.current_bundle is None,
            r.detail@.len() == 0,
            r.detail_keys@.len() == 0,
            r.detail_index == 0,
            r.masked,
            r.view == View::Bundles,
            r.status is None,
    {
        AppState::new()
    }
}

impl AppState {
    /// The state the UI opens with: no bundles, values masked.
    pub fn new() -> (r: AppState)
        ensures
            r.bundles@.len() == 0,
            r.bundle_index == 0,
            r.current_bundle is None,
            r.detail@.len() == 0,
            r.detail_keys@.len() == 0,
            r.detail_index == 0,
            r.masked,
            r.view == View::Bundles,
            r.status is None,
    {
        AppState {
            bundles: Vec::new(),
            bundle_index: 0,
            current_bundle: None,
            detail: Env::new(),
            detail_keys: Vec::new(),
            detail_index: 0,
            masked: true,
            view: View::Bundles,
            status: None,
        }
    }

    /// Replaces the bundle list, keeping the selection inside it.
    pub fn set_bundles(&mut self, bundles: Vec<String>)
        ensures
            final(self).bundles == bundles,
            final(self).bundle_index == (if bundles@.len() == 0 {
                0
            } else if old(self).bundle_index >= bundles@.len() {
                (bundles@.len() - 1) as usize
            } else {
                old(self).bundle_index
            }),
            final(self).current_bundle == old(self).current_bundle,
            final(self).detail == old(self).detail,
            final(self).detail_keys == old(self).detail_keys,
            final(self).detail_index == old(self).detail_index,
            final(self).masked == old(self).masked,
            final(self).view == old(self).view,
            final(self).status == old(self).status,
    {
        self.bundles = bundles;
        if self.bundles.len() == 0 {
            self.bundle_index = 0;
        } else if self.bundle_index >= self.bundles.len() {
            self.bundle_index = self.bundles.len() - 1;
        }
    }

    /// Shows a bundle's variables, keeping the selection inside them.
    pub fn set_detail(&mut self, bundle: String, env: Env)
        ensures
            final(self).current_bundle == Some(bundle),
            final(self).detail == env,
            string_views(final(self).detail_keys@) == pair_keys(env@),
            final(self).detail_index == (if env@.len() == 0 {
                0
            } else if old(self).detail_index >= env@.len() {
                (env@.len() - 1) as usize
            } else {
                old(self).detail_index
            }),
            final(self).bundles == old(self).bundles,
            final(self).bundle_index == old(self).bundle_index,
            final(self).masked == old(self).masked,
            final(self).view == old(self).view,
            final(self).status == old(self).status,
    {
        self.current_bundle = Some(bundle);
        self.detail_keys = env.keys();
        self.detail = env;
        let n = self.detail_keys.len();
        assert(n == self.detail@.len()) by {
            assert(string_views(self.detail_keys@).len() == n);
        }
        if n == 0 {
            self.detail_index = 0;
        } else if self.detail_index >= n {
            self.detail_index = n - 1;
        }
    }

    /// The selected bundle, if any.
    pub fn selected_bundle(&self) -> (r: Option<&String>)
        ensures
            r == (match sel(self.bundles@, self.bundle_index) {
                Some(b) => Some(&b),
                None => None::<&String>,
            }),
    {
        if self.bundle_index < self.bundles.len() {
            Some(&self.bundles[self.bundle_index])
        } else {
            None
        }
    }

    /// The selected variable name, if any.
    pub fn selected_key(&self) -> (r: Option<&String>)
        ensures
            r == (match sel(self.detail_keys@, self.detail_index) {
                Some(k) => Some(&k),
                None => None::<&String>,
            }),
    {
        if self.detail_index < self.detail_keys.len() {
            Some(&self.detail_keys[self.detail_index])
        } else {
            None
        }
    }

    /// Shows a message.
    pub fn info(&mut self, msg: String)
        ensures
            final(self).status == Some(StatusLine { text: msg, is_error: false }),
            same_data(*old(self), *final(self)),
            final(self).view == old(self).view,
    {
        self.status = Some(StatusLine { text: msg, is_error: false });
    }

    /// Shows an error.
    pub fn error(&mut self, msg: String)
        ensures
            final(self).status == Some(StatusLine { text: msg, is_error: true }),
            same_data(*old(self), *final(self)),
            final(self).view == old(self).view,
    {
        self.status = Some(StatusLine { text: msg, is_error: true });
    }
}

fn handle_bundles_key(state: &mut AppState, code: KeyCode) -> (r: Action)
    requires
        old(state).view == View::Bundles,
        !((code == KeyCode::Char('j') || code == KeyCode::Down) && old(state).bundles@.len() > 0
            && old(state).bundle_index == usize::MAX),
    ensures
        bundles_step(*old(state), *final(state), code, r),
{
    match code {
        KeyCode::Char('q') => Action::Quit,
        KeyCode::Char('j') | KeyCode::Down => {
            if state.bundles.len() > 0 && state.bundle_index + 1 < state.bundles.len() {
                state.bundle_index = state.bundle_index + 1;
            }
            Action::NoOp
        },
        KeyCode::Char('k') | KeyCode::Up => {
            if state.bundle_index > 0 {
                state.bundle_index = state.bundle_index - 1;
            }
            Action::NoOp
        },
        KeyCode::Enter | KeyCode::Char('l') | KeyCode::Right => {
            match state.selected_bundle() {
                Some(b) => Action::OpenBundle(b.clone()),
                None => Action::NoOp,
            }
        },
        KeyCode::Char('s') => {
            match state.selected_bundle() {
                Some(b) => Action::SyncBundle(b.clone()),
                None => Action::NoOp,
            }
        },
        KeyCode::Char('r') => Action::RefreshBundles,
        KeyCode::Char('D') => {
            let chosen = match state.selected_bundle() {
                Some(b) => Some(b.clone()),
                None => None,
            };
            if let Some(bundle) = chosen {
                let mut prompt = "Delete bundle '".to_owned();
                push_str(&mut prompt, bundle.as_str());
                push_str(&mut prompt, "' from Infisical? (y/n)");
                state.view = View::Confirm(
                    ConfirmState { prompt, action: ConfirmAction::DeleteBundle { bundle } },
                );
            }
            Action::NoOp
        },
        KeyCode::Char('m') => {
            state.masked = !state.masked;
            Action::NoOp
        },
        _ => Action::NoOp,
    }
}

fn handle_detail_key(state: &mut AppState, code: KeyCode) -> (r: Action)
    requires
        old(state).view == View::Detail,
        !((code == KeyCode::Char('j') || code == KeyCode::Down) && old(state).detail_keys@.len()
            > 0 && old(state).detail_index == usize::MAX),
    ensures
        detail_step(*old(state), *final(state), code, r),
{
    match code {
        KeyCode::Char('q') => Action::Quit,
        KeyCode::Esc | KeyCode::Char('h') | KeyCode::Left => {
            state.view = View::Bundles;
            Action::NoOp
        },
        KeyCode::Char('j') | KeyCode::Down => {
            if state.detail_keys.len() > 0 && state.detail_index + 1 < state.detail_keys.len() {
                state.detail_index = state.detail_index + 1;
            }
            Action::NoOp
        },
        KeyCode::Char('k') | KeyCode::Up => {
            if state.detail_index > 0 {
                state.detail_index = state.detail_index - 1;
            }
            Action::NoOp
        },
        KeyCode::Char('m') => {
            state.masked = !state.masked;
            Action::NoOp
        },
        KeyCode::Char('a') => {
            state.view = View::Editor(
                EditorState {
                    mode: EditorMode::AddKey,
                    stage: EditorStage::Key,
                    key_buffer: String::new(),
                    value_buffer: String::new(),
                },
            );
            Action::NoOp
        },
        KeyCode::Char('e') => {
            if state.current_bundle.is_none() {
                return Action::NoOp;
            }
            let key = match state.selected_key() {
                Some(k) => k.clone(),
                None => {
                    return Action::NoOp;
                },
            };
            if is_reserved_remote_key(key.as_str()) {
                state.error("agent auth records are managed by rage import".to_owned());
                return Action::NoOp;
            }
            let value = match state.detail.get(key.as_str()) {
                Some(v) => v.clone(),
                None => String::new(),
            };
            state.view = View::Editor(
                EditorState {
                    mode: EditorMode::EditValue,
                    stage: EditorStage::Value,
                    key_buffer: key,
                    value_buffer: value,
                },
            );
            Action::NoOp
        },
        KeyCode::Char('d') => {
            let bundle = match clone_opt(&state.current_bundle) {
                Some(b) => b,
                None => {
                    return Action::NoOp;
                },
            };
            let key = match state.selected_key() {
                Some(k) => k.clone(),
                None => {
                    return Action::NoOp;
                },
            };
            if is_reserved_remote_key(key.as_str()) {
                state.error("agent auth records are managed by rage import".to_owned());
                return Action::NoOp;
            }
            let mut prompt = "Delete key '".to_owned();
            push_str(&mut prompt, key.as_str());
            push_str(&mut prompt, "' from ");
            push_str(&mut prompt, bundle.as_str());
            push_str(&mut prompt, "? (y/n)");
            state.view = View::Confirm(
                ConfirmState { prompt, action: ConfirmAction::DeleteKey { bundle, key } },
            );
            Action::NoOp
        },
        KeyCode::Char('s') => match clone_opt(&state.current_bundle) {
            Some(b) => Action::SyncBundle(b),
            None => Action::NoOp,
        },
        _ => Action::NoOp,
    }
}

fn handle_editor_key(state: &mut AppState, code: KeyCode) -> (r: Action)
    requires
        old(state).view is Editor,
    ensures
        editor_step(*old(state), *final(state), old(state).view->Editor_0, code, r),
{
    let mut view = View::Detail;
    std::mem::swap(&mut view, &mut state.view);
    let mut editor = match view {
        View::Editor(e) => e,
        other => {
            state.view = other;
            return Action::NoOp;
        },
    };
    let ghost e0 = editor;
    match code {
        KeyCode::Esc => {
            state.view = View::Detail;
            Action::NoOp
        },
        KeyCode::Enter => {
            match (editor.mode, editor.stage) {
                (EditorMode::AddKey, EditorStage::Key) => {
                    if editor.key_buffer.as_str().unicode_len() == 0 {
                        state.view = View::Editor(editor);
                        return Action::NoOp;
                    }
                    editor.stage = EditorStage::Value;
                    state.view = View::Editor(editor);
                    Action::NoOp
                },
                _ => {
                    state.view = View::Detail;
                    match clone_opt(&state.current_bundle) {
                        Some(bundle) => Action::SetKey {
                            bundle,
                            key: editor.key_buffer,
                            value: editor.value_buffer,
                        },
                        None => Action::NoOp,
                    }
                },
            }
        },
        KeyCode::Backspace => {
            match editor.stage {
                EditorStage::Key => {
                    pop_char(&mut editor.key_buffer);
                },
                EditorStage::Value => {
                    pop_char(&mut editor.value_buffer);
                },
            }
            state.view = View::Editor(editor);
            Action::NoOp
        },
        KeyCode::Char(ch) => {
            match editor.stage {
                EditorStage::Key => {
                    crate::text::push_char(&mut editor.key_buffer, ch);
                },
                EditorStage::Value => {
                    crate::text::push_char(&mut editor.value_buffer, ch);
                },
            }
            state.view = View::Editor(editor);
            Action::NoOp
        },
        _ => {
            state.view = View::Editor(editor);
            Action::NoOp
        },
    }
}

fn handle_confirm_key(state: &mut AppState, code: KeyCode) -> (r: Action)
    requires
        old(state).view is Confirm,
    ensures
        confirm_step(*old(state), *final(state), old(state).view->Confirm_0, code, r),
{
    let back = if state.current_bundle.is_some() {
        View::Detail
    } else {
        View::Bundles
    };
    match code {
        KeyCode::Char('y') | KeyCode::Enter => {
            let mut view = back;
            std::mem::swap(&mut view, &mut state.view);
            match view {
                View::Confirm(cs) => match cs.action {
                    ConfirmAction::DeleteKey { bundle, key } => Action::UnsetKey { bundle, key },
                    ConfirmAction::DeleteBundle { bundle } => Action::DeleteBundle(bundle),
                },
                other => {
                    state.view = other;
                    Action::NoOp
                },
            }
        },
        KeyCode::Char('n') | KeyCode::Esc => {
            state.view = back;
            Action::NoOp
        },
        _ => Action::NoOp,
    }
}

/// Answers a key: updates the state and says what the program should do.
pub fn handle_key(state: &mut AppState, key: KeyPress) -> (r: Action)
    requires
        key_in_range(*old(state), key),
    ensures
        key_step(*old(state), *final(state), key, r),
{
    if key.ctrl {
        match key.code {
            KeyCode::Char('c') | KeyCode::Char('d') => {
                return Action::Quit;
            },
            _ => {},
        }
    }
    let which: u8 = match &state.view {
        View::Bundles => 0,
        View::Detail => 1,
        View::Editor(_) => 2,
        View::Confirm(_) => 3,
    };
    if which == 0 {
        handle_bundles_key(state, key.code)
    } else if which == 1 {
        handle_detail_key(state, key.code)
    } else if which == 2 {
        handle_editor_key(state, key.code)
    } else {
        handle_confirm_key(state, key.code)
    }
}

// ---------------------------------------------------------------- what the panes show

/// The row marker: `> ` on the selected row, two spaces elsewhere.
pub open spec fn marker(selected: bool) -> Seq<char> {
    if selected {
        seq!['>', ' ']
    } else {
        seq![' ', ' ']
    }
}

/// Rows of the bundle list.
pub open spec fn bundle_rows(names: Seq<Seq<char>>, selected: int) -> Seq<Seq<char>> {
    Seq::new(names.len(), |i: int| marker(i == selected) + names[i])
}

/// Rows of the bundle list, with the selection marked.
pub fn bundle_lines(state: &AppState) -> (r: Vec<String>)
    ensures
        string_views(r@) == bundle_rows(string_views(state.bundles@), state.bundle_index as int),
{
    let mut out: Vec<String> = Vec::new();
    let mut i: usize = 0;
    while i < state.bundles.len()
        invariant
            i <= state.bundles@.len(),
            out@.len() == i,
            string_views(out@) =~= bundle_rows(
                string_views(state.bundles@),
                state.bundle_index as int,
            ).take(i as int),
        decreases state.bundles@.len() - i,
    {
        let mut line = String::new();
        if i == state.bundle_index {
            push_str(&mut line, "> ");
        } else {
            push_str(&mut line, "  ");
        }
        push_str(&mut line, state.bundles[i].as_str());
        proof {
            reveal_strlit("> ");
            reveal_strlit("  ");
        }
        let ghost before = out@;
        out.push(line);
        proof {
            let want = bundle_rows(string_views(state.bundles@), state.bundle_index as int);
            assert forall|j: int| 0 <= j <= i implies #[trigger] string_views(out@)[j] == want.take(
                i + 1,
            )[j] by {
                if j < i {
                    assert(out@[j] == before[j]);
                    assert(string_views(before)[j] == want.take(i as int)[j]);
                }
            }
            assert(string_views(out@) =~= want.take(i + 1));
        }
        i = i + 1;
    }
    out
}

pub open spec fn shown_value(masked: bool, value: Seq<char>) -> Seq<char> {
    if masked {
        MASK_GLYPHS@
    } else {
        value
    }
}

pub open spec fn value_of(detail: Env, k: Seq<char>) -> Seq<char> {
    if detail.map().dom().contains(k) {
        detail.map()[k]
    } else {
        Seq::empty()
    }
}

pub open spec fn empty_bundle_hint() -> Seq<char> {
    "(empty bundle — press 'a' to add a key)"@
}

pub open spec fn no_bundle_hint() -> Seq<char> {
    "(select a bundle and press Enter)"@
}

/// Rows of the detail pane: a hint when there is nothing to list, else one
/// `NAME = value` row per variable, the value masked unless revealed.
pub open spec fn detail_rows(s: AppState) -> Seq<Seq<char>> {
    let keys = string_views(s.detail_keys@);
    if keys.len() == 0 {
        seq![if s.current_bundle is Some { empty_bundle_hint() } else { no_bundle_hint() }]
    } else {
        Seq::new(
            keys.len(),
            |i: int|
                marker(i == s.detail_index) + keys[i] + " = "@ + shown_value(
                    s.masked,
                    value_of(s.detail, keys[i]),
                ),
        )
    }
}

/// Rows of the detail pane.
pub fn detail_lines(state: &AppState) -> (r: Vec<String>)
    ensures
        string_views(r@) == detail_rows(*state),
{
    let mut out: Vec<String> = Vec::new();
    let n = state.detail_keys.len();
    if n == 0 {
        let hint = if state.current_bundle.is_some() {
            "(empty bundle — press 'a' to add a key)".to_owned()
        } else {
            "(select a bundle and press Enter)".to_owned()
        };
        out.push(hint);
        assert(string_views(out@) =~= detail_rows(*state));
        return out;
    }
    let mut i: usize = 0;
    while i < n
        invariant
            n == state.detail_keys@.len(),
            n > 0,
            i <= n,
            out@.len() == i,
            string_views(out@) =~= detail_rows(*state).take(i as int),
        decreases n - i,
    {
        let key = &state.detail_keys[i];
        let mut line = String::new();
        if i == state.detail_index {
            push_str(&mut line, "> ");
        } else {
            push_str(&mut line, "  ");
        }
        push_str(&mut line, key.as_str());
        push_str(&mut line, " = ");
        if state.masked {
            push_str(&mut line, MASK_GLYPHS);
        } else {
            match state.detail.get(key.as_str()) {
                Some(v) => push_str(&mut line, v.as_str()),
                None => {},
            }
        }
        proof {
            reveal_strlit("> ");
            reveal_strlit("  ");
        }
        let ghost before = out@;
        out.push(line);
        proof {
            let want = detail_rows(*state);
            assert forall|j: int| 0 <= j <= i implies #[trigger] string_views(out@)[j] == want.take(
                i + 1,
            )[j] by {
                if j < i {
                    assert(out@[j] == before[j]);
                    assert(string_views(before)[j] == want.take(i as int)[j]);
                } else {
                    assert(string_views(state.detail_keys@)[j] == key@);
                }
            }
            assert(string_views(out@) =~= want.take(i + 1));
        }
        i = i + 1;
    }
    out
}

/// Law: while values are masked, no row of the detail pane shows a value;
/// each row is a name followed by the mask glyphs.
pub proof fn law_masked_rows_hide_values(s: AppState, i: int)
    requires
        s.masked,
        s.detail_keys@.len() > 0,
        0 <= i < s.detail_keys@.len(),
    ensures
        detail_rows(s)[i] == marker(i == s.detail_index) + s.detail_keys@[i]@ + " = "@
            + MASK_GLYPHS@,
{
}

/// The detail pane's title.
pub fn detail_title(state: &AppState) -> (r: String)
    ensures
        r@ == (match state.current_bundle {
            Some(b) => " Bundle: "@ + b@ + " "@,
            None => " Bundle "@,
        }),
{
    match &state.current_bundle {
        Some(b) => {
            let mut t = " Bundle: ".to_owned();
            push_str(&mut t, b.as_str());
            push_str(&mut t, " ");
            t
        },
        None => " Bundle ".to_owned(),
    }
}

/// The status row: the last message, `error: ` before an error, or `ready`.
pub fn status_text(state: &AppState) -> (r: String)
    ensures
        r@ == (match state.status {
            Some(st) => if st.is_error {
                "error: "@ + st.text@
            } else {
                st.text@
            },
            None => "ready"@,
        }),
{
    match &state.status {
        Some(st) => {
            if st.is_error {
                let mut t = "error: ".to_owned();
                push_str(&mut t, st.text.as_str());
                t
            } else {
                st.text.clone()
            }
        },
        None => "ready".to_owned(),
    }
}

pub open spec fn hint_for(v: View) -> Seq<char> {
    match v {
        View::Bundles => "j/k move  Enter open  s sync  r refresh  D delete bundle  m mask  q quit"@,
        View::Detail => "j/k move  a add  e edit  d delete  s sync  m mask  Esc back  q quit"@,
        View::Editor(_) => "type value  Enter confirm  Esc cancel"@,
        View::Confirm(_) => "y/Enter confirm  n/Esc cancel"@,
    }
}

/// The key hints for the focused pane or dialog.
pub fn hint_text(state: &AppState) -> (r: String)
    ensures
        r@ == hint_for(state.view),
{
    match &state.view {
        View::Bundles => "j/k move  Enter open  s sync  r refresh  D delete bundle  m mask  q quit".to_owned(),
        View::Detail => "j/k move  a add  e edit  d delete  s sync  m mask  Esc back  q quit".to_owned(),
        View::Editor(_) => "type value  Enter confirm  Esc cancel".to_owned(),
        View::Confirm(_) => "y/Enter confirm  n/Esc cancel".to_owned(),
    }
}

/// Title and rows of the editor dialog.
pub fn editor_text(editor: &EditorState) -> (r: (String, String, String))
    ensures
        r.0@ == (if editor.mode == EditorMode::AddKey { " Add key "@ } else { " Edit value "@ }),
        r.1@ == (if editor.mode == EditorMode::AddKey && editor.stage == EditorStage::Key {
            "KEY> "@ + editor.key_buffer@ + "_"@
        } else {
            "KEY: "@ + editor.key_buffer@
        }),
        r.2@ == (if editor.mode == EditorMode::AddKey && editor.stage == EditorStage::Key {
            "VAL: "@
        } else {
            "VAL> "@ + editor.value_buffer@ + "_"@
        }),
{
    let title = match editor.mode {
        EditorMode::AddKey => " Add key ".to_owned(),
        EditorMode::EditValue => " Edit value ".to_owned(),
    };
    let typing_key = match (editor.mode, editor.stage) {
        (EditorMode::AddKey, EditorStage::Key) => true,
        _ => false,
    };
    let key_line = if typing_key {
        let mut t = "KEY> ".to_owned();
        push_str(&mut t, editor.key_buffer.as_str());
        push_str(&mut t, "_");
        t
    } else {
        let mut t = "KEY: ".to_owned();
        push_str(&mut t, editor.key_buffer.as_str());
        t
    };
    let value_line = if typing_key {
        "VAL: ".to_owned()
    } else {
        let mut t = "VAL> ".to_owned();
        push_str(&mut t, editor.value_buffer.as_str());
        push_str(&mut t, "_");
        t
    };
    (title, key_line, value_line)
}

// ---------------------------------------------------------------- results of actions

/// The names of `s` other than `b`, in order.
pub open spec fn without(s: Seq<Seq<char>>, b: Seq<char>) -> Seq<Seq<char>>
    decreases s.len(),
{
    if s.len() == 0 {
        Seq::empty()
    } else if s.last() == b {
        without(s.drop_last(), b)
    } else {
        without(s.drop_last(), b).push(s.last())
    }
}

fn retain_other(names: &Vec<String>, bundle: &str) -> (r: Vec<String>)
    ensures
        string_views(r@) == without(string_views(names@), bundle@),
{
    let mut out: Vec<String> = Vec::new();
    let mut i: usize = 0;
    while i < names.len()
        invariant
            i <= names@.len(),
            string_views(out@) == without(string_views(names@).take(i as int), bundle@),
        decreases names@.len() - i,
    {
        let ghost before = out@;
        let ghost t = string_views(names@).take(i + 1);
        assert(t.drop_last() =~= string_views(names@).take(i as int));
        assert(t.last() == names@[i as int]@);
        if !text_eq(names[i].as_str(), bundle) {
            out.push(names[i].clone());
            assert(string_views(out@) =~= string_views(before).push(names@[i as int]@));
        }
        i = i + 1;
    }
    assert(string_views(names@).take(names@.len() as int) =~= string_views(names@));
    out
}

fn joined(a: &str, b: &str) -> (r: String)
    ensures
        r@ == a@ + b@,
{
    let mut t = a.to_owned();
    push_str(&mut t, b);
    t
}

impl AppState {
    /// The bundle list came back (or failed); `announce` after a refresh the
    /// user asked for.
    pub fn apply_bundle_list(&mut self, listed: Result<Vec<String>, String>, announce: bool)
        ensures
            match listed {
                Ok(b) => final(self).bundles == b && final(self).bundle_index == clamp_index(
                    old(self).bundle_index,
                    b@.len(),
                ) && detail_kept(*old(self), *final(self)) && final(self).masked == old(self).masked
                    && final(self).view == old(self).view && (if announce {
                    informed(*final(self), "refreshed bundle list"@)
                } else {
                    final(self).status == old(self).status
                }),
                Err(e) => reported(*old(self), *final(self), "list bundles: "@ + e@, true),
            },
    {
        match listed {
            Ok(b) => {
                self.set_bundles(b);
                if announce {
                    self.info("refreshed bundle list".to_owned());
                }
            },
            Err(e) => {
                self.error(joined("list bundles: ", e.as_str()));
            },
        }
    }

    /// A bundle was read for display (`synced` when it had to be fetched
    /// first), or could not be.
    pub fn apply_opened(&mut self, bundle: String, result: Result<Env, String>, synced: bool)
        ensures
            match result {
                Ok(env) => shows_detail(*old(self), *final(self), bundle, env) && list_kept(
                    *old(self),
                    *final(self),
                ) && final(self).view == View::Detail && informed(
                    *final(self),
                    (if synced {
                        "synced and opened "@
                    } else {
                        "opened "@
                    }) + bundle@,
                ),
                Err(e) => reported(*old(self), *final(self), "open "@ + bundle@ + ": "@ + e@, true),
            },
    {
        match result {
            Ok(env) => {
                let msg = if synced {
                    joined("synced and opened ", bundle.as_str())
                } else {
                    joined("opened ", bundle.as_str())
                };
                self.set_detail(bundle, env);
                self.view = View::Detail;
                self.info(msg);
            },
            Err(e) => {
                let mut msg = joined("open ", bundle.as_str());
                push_str(&mut msg, ": ");
                push_str(&mut msg, e.as_str());
                self.error(msg);
            },
        }
    }

    /// A bundle was synced and read again, or one of the two failed.
    pub fn apply_synced(&mut self, bundle: String, result: SyncOutcome)
        ensures
            match result {
                SyncOutcome::Read(env) => list_kept(*old(self), *final(self)) && final(self).view
                    == old(self).view && (if (old(self).current_bundle matches Some(c) && c@
                    == bundle@) {
                    shows_detail(*old(self), *final(self), bundle, env)
                } else {
                    detail_kept(*old(self), *final(self))
                }) && informed(*final(self), "synced "@ + bundle@),
                SyncOutcome::SyncFailed(e) => reported(
                    *old(self),
                    *final(self),
                    "sync "@ + bundle@ + ": "@ + e@,
                    true,
                ),
                SyncOutcome::ReadFailed(e) => reported(
                    *old(self),
                    *final(self),
                    "read cache for "@ + bundle@ + ": "@ + e@,
                    true,
                ),
            },
    {
        match result {
            SyncOutcome::Read(env) => {
                let same = match &self.current_bundle {
                    Some(c) => text_eq(c.as_str(), bundle.as_str()),
                    None => false,
                };
                let msg = joined("synced ", bundle.as_str());
                if same {
                    self.set_detail(bundle, env);
                }
                self.info(msg);
            },
            SyncOutcome::SyncFailed(e) => {
                let mut msg = joined("sync ", bundle.as_str());
                push_str(&mut msg, ": ");
                push_str(&mut msg, e.as_str());
                self.error(msg);
            },
            SyncOutcome::ReadFailed(e) => {
                let mut msg = joined("read cache for ", bundle.as_str());
                push_str(&mut msg, ": ");
                push_str(&mut msg, e.as_str());
                self.error(msg);
            },
        }
    }

    /// A bundle was deleted remotely, or the deletion failed.
    pub fn apply_deleted(&mut self, bundle: String, result: Result<(), String>)
        ensures
            match result {
                Ok(()) => {
                    &&& string_views(final(self).bundles@) == without(
                        string_views(old(self).bundles@),
                        bundle@,
                    )
                    &&& final(self).bundle_index == (if old(self).bundle_index
                        >= final(self).bundles@.len() && final(self).bundles@.len() > 0 {
                        (final(self).bundles@.len() - 1) as usize
                    } else {
                        old(self).bundle_index
                    })
                    &&& (match old(self).current_bundle {
                        Some(c) if c@ == bundle@ => final(self).current_bundle is None
                            && final(self).detail@.len() == 0 && final(self).detail_keys@.len()
                            == 0 && final(self).detail_index == 0 && final(self).view
                            == View::Bundles,
                        _ => detail_kept(*old(self), *final(self)) && final(self).view == old(
                            self,
                        ).view,
                    })
                    &&& final(self).masked == old(self).masked
                    &&& final(self).status matches Some(st) && !st.is_error && st.text@
                        == "deleted "@ + bundle@
                },
                Err(e) => reported(
                    *old(self),
                    *final(self),
                    "delete "@ + bundle@ + ": "@ + e@,
                    true,
                ),
            },
    {
        match result {
            Ok(()) => {
                let kept = retain_other(&self.bundles, bundle.as_str());
                self.bundles = kept;
                if self.bundle_index >= self.bundles.len() && self.bundles.len() > 0 {
                    self.bundle_index = self.bundles.len() - 1;
                }
                let same = match &self.current_bundle {
                    Some(c) => text_eq(c.as_str(), bundle.as_str()),
                    None => false,
                };
                if same {
                    self.current_bundle = None;
                    self.detail = Env::new();
                    self.detail_keys = Vec::new();
                    self.detail_index = 0;
                    self.view = View::Bundles;
                }
                self.info(joined("deleted ", bundle.as_str()));
            },
            Err(e) => {
                let mut msg = joined("delete ", bundle.as_str());
                push_str(&mut msg, ": ");
                push_str(&mut msg, e.as_str());
                self.error(msg);
            },
        }
    }

    /// A key was set (`set`) or removed in a bundle, with the bundle's new
    /// variables, or the write failed.
    pub fn apply_key_written(&mut self, bundle: String, key: String, set: bool, result: Result<Env, String>)
        ensures
            match result {
                Ok(env) => list_kept(*old(self), *final(self)) && final(self).view == old(self).view
                    && (if (old(self).current_bundle matches Some(c) && c@ == bundle@) {
                    shows_detail(*old(self), *final(self), bundle, env)
                } else {
                    detail_kept(*old(self), *final(self))
                }) && informed(
                    *final(self),
                    (if set {
                        "set "@
                    } else {
                        "unset "@
                    }) + key@ + " in "@ + bundle@,
                ),
                Err(e) => reported(
                    *old(self),
                    *final(self),
                    (if set {
                        "set "@
                    } else {
                        "unset "@
                    }) + key@ + ": "@ + e@,
                    true,
                ),
            },
    {
        let verb = if set {
            "set "
        } else {
            "unset "
        };
        match result {
            Ok(env) => {
                let mut msg = joined(verb, key.as_str());
                push_str(&mut msg, " in ");
                push_str(&mut msg, bundle.as_str());
                let same = match &self.current_bundle {
                    Some(c) => text_eq(c.as_str(), bundle.as_str()),
                    None => false,
                };
                if same {
                    self.set_detail(bundle, env);
                }
                self.info(msg);
            },
            Err(e) => {
                let mut msg = joined(verb, key.as_str());
                push_str(&mut msg, ": ");
                push_str(&mut msg, e.as_str());
                self.error(msg);
            },
        }
    }
}

/// Law: in the bundle list, `s` asks for the selected bundle to be synced
/// (never opened from the cache) and leaves the state as it is; with no
/// bundle selected it asks for nothing.
pub proof fn law_sync_key_syncs_selected(s: AppState, t: AppState, k: KeyPress, a: Action)
    requires
        s.view == View::Bundles,
        k.code == KeyCode::Char('s'),
        key_step(s, t, k, a),
    ensures
        t == s,
        s.bundle_index < s.bundles@.len() ==> a == Action::SyncBundle(s.bundles@[s.bundle_index as int]),
        s.bundle_index >= s.bundles@.len() ==> a == Action::NoOp,
        !(a is OpenBundle),
{
}

/// Law: in the bundle list, Enter, `l` and Right ask for the selected bundle
/// to be opened (never synced) and leave the state as it is.
pub proof fn law_open_keys_open_selected(s: AppState, t: AppState, k: KeyPress, a: Action)
    requires
        s.view == View::Bundles,
        k.code == KeyCode::Enter || k.code == KeyCode::Char('l') || k.code == KeyCode::Right,
        key_step(s, t, k, a),
    ensures
        t == s,
        s.bundle_index < s.bundles@.len() ==> a == Action::OpenBundle(s.bundles@[s.bundle_index as int]),
        s.bundle_index >= s.bundles@.len() ==> a == Action::NoOp,
        !(a is SyncBundle),
{
}

/// Law: in the detail pane, `j`/Down and `k`/Up move the selection one row
/// where there is room and keep it inside the rows; nothing else changes and
/// the program is asked to do nothing.
pub proof fn law_detail_moves_stay_in_rows(s: AppState, t: AppState, k: KeyPress, a: Action)
    requires
        s.view == View::Detail,
        s.detail_keys@.len() == 0 || s.detail_index < s.detail_keys@.len(),
        k.code == KeyCode::Char('j') || k.code == KeyCode::Down || k.code == KeyCode::Char('k')
            || k.code == KeyCode::Up,
        key_step(s, t, k, a),
    ensures
        a == Action::NoOp,
        t.detail_keys@.len() == 0 || t.detail_index < t.detail_keys@.len(),
        k.code == KeyCode::Char('j') || k.code == KeyCode::Down ==> t == (AppState {
            detail_index: if s.detail_index + 1 < s.detail_keys@.len() {
                (s.detail_index + 1) as usize
            } else {
                s.detail_index
            },
            ..s
        }),
        k.code == KeyCode::Char('k') || k.code == KeyCode::Up ==> t == (AppState {
            detail_index: if s.detail_index > 0 {
                (s.detail_index - 1) as usize
            } else {
                0
            },
            ..s
        }),
{
}

/// Law: in the editor, typing a character and then Backspace leaves the
/// buffers, the editor's mode and stage, and every other field as they were;
/// neither key asks the program to do anything.
pub proof fn law_editor_type_then_backspace(
    s: AppState,
    t: AppState,
    u: AppState,
    e: EditorState,
    ch: char,
    a1: Action,
    a2: Action,
)
    requires
        s.view == View::Editor(e),
        key_step(s, t, KeyPress { code: KeyCode::Char(ch), ctrl: false }, a1),
        key_step(t, u, KeyPress { code: KeyCode::Backspace, ctrl: false }, a2),
    ensures
        a1 == Action::NoOp,
        a2 == Action::NoOp,
        same_data(s, u),
        u.status == s.status,
        u.view matches View::Editor(e2) && e2.mode == e.mode && e2.stage == e.stage
            && e2.key_buffer@ == e.key_buffer@ && e2.value_buffer@ == e.value_buffer@,
{
    let e1 = t.view->Editor_0;
    if e.stage == EditorStage::Key {
        assert(e1.key_buffer@.take(e1.key_buffer@.len() - 1) =~= e.key_buffer@);
    } else {
        assert(e1.value_buffer@.take(e1.value_buffer@.len() - 1) =~= e.value_buffer@);
    }
}

/// Law: an action that failed changes the status line alone: it becomes an
/// error message, and the bundle list, its selection, the open bundle, the
/// detail rows and selection, the mask and the view stay as they were. Every
/// `apply_*` update reports a failure this way.
pub proof fn law_failure_keeps_data(a: AppState, b: AppState, text: Seq<char>)
    requires
        reported(a, b, text, true),
    ensures
        b == (AppState { status: b.status, ..a }),
        b.status matches Some(st) && st.is_error && st.text@ == text,
{
}

/// What came of syncing a bundle and reading it back.
#[derive(Debug)]
pub enum SyncOutcome {
    SyncFailed(String),
    ReadFailed(String),
    Read(Env),
}

} // verus!
