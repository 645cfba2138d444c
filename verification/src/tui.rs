//! The interactive flow's state machine: find a key, tick services, tick
//! file kinds, choose set or generate, type a value, preview and apply.
//!
//! Each key press moves the state; what the terminal cannot do from here
//! (building the change set from the files, writing them, quitting) comes
//! back as an [`Effect`] for the caller to carry out and report.

use vstd::prelude::*;

use crate::model::FileKind;
use crate::parser::strings_view;
use crate::search::{blank_query, fuzzy_list, fuzzy_strings};
use crate::text::{chars_of, dec_s, decimal, string_of};

verus! {

/// The screen on show.
#[derive(Debug, Clone, Copy, PartialEq, Eq, Structural)]
pub enum Screen {
    /// Type a query and pick a key.
    Find,
    /// Tick the services to change.
    Services,
    /// Tick the file kinds to change.
    Files,
    /// Choose to set a value or generate a secret.
    Action,
    /// Type the value.
    Value,
    /// Review the diff and confirm.
    Preview,
}

/// What to do to the key.
#[derive(Debug, Clone, Copy, PartialEq, Eq, Structural)]
pub enum Action {
    SetValue,
    Generate,
}

/// A key press, as the flow reads it.
#[derive(Debug, Clone, Copy, PartialEq, Eq, Structural)]
pub enum Key {
    Char(char),
    Backspace,
    Up,
    Down,
    Enter,
    Esc,
    Other,
}

/// What the caller must do after a key press.
#[derive(Debug, Clone, Copy, PartialEq, Eq, Structural)]
pub enum Effect {
    /// Nothing more; redraw.
    Stay,
    /// Leave the interface.
    Quit,
    /// Build the change set from the selections, then report with `built`.
    Build,
    /// Write the change set, then report with `applied`.
    Apply,
}

/// The file kinds shown on the files screen, in order.
pub open spec fn kinds_s() -> Seq<FileKind> {
    seq![FileKind::Dotenv, FileKind::DotenvExample, FileKind::ConfigMap, FileKind::Secret]
}

/// The whole state of the flow.
pub struct TuiState {
    pub screen: Screen,
    pub status: String,
    pub dry_run: bool,
    /// Every distinct key, sorted.
    pub all_keys: Vec<String>,
    pub query: String,
    /// The keys matching the query, best first.
    pub matches: Vec<String>,
    pub key_cursor: Option<usize>,
    pub selected_key: Option<String>,
    pub service_names: Vec<String>,
    pub service_sel: Vec<bool>,
    pub service_cursor: Option<usize>,
    /// One tick per kind of `kinds_s()`.
    pub kind_sel: Vec<bool>,
    pub kind_cursor: Option<usize>,
    pub action: Action,
    pub action_cursor: Option<usize>,
    pub value_input: String,
    pub preview_scroll: u16,
}

/// A cursor that is either absent or on one of `len` rows.
pub open spec fn cursor_ok(c: Option<usize>, len: nat) -> bool {
    c matches Some(i) ==> i < len
}

/// The cursor after moving by `delta` rows, wrapping around; unchanged on
/// an empty list.
pub open spec fn moved(c: Option<usize>, len: nat, delta: int) -> Option<usize> {
    if len == 0 {
        c
    } else {
        let cur: int = match c {
            Some(i) => i as int,
            None => 0,
        };
        Some(((cur + delta) % (len as int)) as usize)
    }
}

/// Move a cursor one row up or down over `len` rows, wrapping around.
pub fn move_cursor(c: Option<usize>, len: usize, up: bool) -> (r: Option<usize>)
    requires
        cursor_ok(c, len as nat),
    ensures
        r == moved(c, len as nat, if up { -1 } else { 1 }),
        cursor_ok(r, len as nat),
{
    if len == 0 {
        return c;
    }
    let cur: usize = match c {
        Some(i) => i,
        None => 0,
    };
    if up {
        let r = if cur == 0 { len - 1 } else { cur - 1 };
        assert(((cur - 1) as int) % (len as int) == r) by (nonlinear_arith)
            requires
                cur < len,
                r == if cur == 0 { len - 1 } else { cur - 1 },
        ;
        Some(r)
    } else {
        let r = if cur + 1 == len { 0 } else { cur + 1 };
        assert(((cur + 1) as int) % (len as int) == r) by (nonlinear_arith)
            requires
                cur < len,
                r == if cur + 1 == len { 0usize } else { (cur + 1) as usize },
        ;
        Some(r)
    }
}

/// Whether every tick is set.
pub open spec fn all_set(v: Seq<bool>) -> bool {
    forall|i: int| 0 <= i < v.len() ==> v[i]
}

/// Whether some tick is set.
pub open spec fn any_set(v: Seq<bool>) -> bool {
    exists|i: int| 0 <= i < v.len() && v[i]
}

fn all_of(v: &Vec<bool>) -> (r: bool)
    ensures
        r == all_set(v@),
{
    let mut i: usize = 0;
    while i < v.len()
        invariant
            i <= v.len(),
            forall|j: int| 0 <= j < i ==> v@[j],
        decreases v.len() - i,
    {
        if !v[i] {
            return false;
        }
        i = i + 1;
    }
    true
}

fn any_of(v: &Vec<bool>) -> (r: bool)
    ensures
        r == any_set(v@),
{
    let mut i: usize = 0;
    while i < v.len()
        invariant
            i <= v.len(),
            forall|j: int| 0 <= j < i ==> !v@[j],
        decreases v.len() - i,
    {
        if v[i] {
            return true;
        }
        i = i + 1;
    }
    false
}

/// Set every tick to `b`.
fn fill(v: &mut Vec<bool>, b: bool)
    ensures
        final(v)@ == Seq::new(old(v)@.len(), |i: int| b),
{
    let mut i: usize = 0;
    while i < v.len()
        invariant
            i <= v.len(),
            v@.len() == old(v)@.len(),
            forall|j: int| 0 <= j < i ==> v@[j] == b,
        decreases v.len() - i,
    {
        v.set(i, b);
        i = i + 1;
    }
    assert(v@ =~= Seq::new(old(v)@.len(), |i: int| b));
}

/// The ticks after the "all" key: all cleared when all were set, all set
/// otherwise.
pub open spec fn toggled_all(v: Seq<bool>) -> Seq<bool> {
    Seq::new(v.len(), |i: int| !all_set(v))
}

/// The ticks after toggling the row under the cursor.
pub open spec fn toggled_at(v: Seq<bool>, c: Option<usize>) -> Seq<bool> {
    match c {
        Some(i) => v.update(i as int, !v[i as int]),
        None => v,
    }
}

/// The status shown on the preview screen.
pub open spec fn preview_status_s(dry_run: bool) -> Seq<char> {
    if dry_run {
        "DRY RUN — review diff, Esc to go back"@
    } else {
        "y/Enter to apply, n to cancel, Up/Down to scroll"@
    }
}

/// The match cursor after the matches change: on the first row kept, or
/// absent when nothing matches.
pub open spec fn clamped(c: Option<usize>, len: nat) -> Option<usize> {
    if len == 0 {
        None
    } else {
        let cur: int = match c {
            Some(i) => i as int,
            None => 0,
        };
        Some(if cur < len { cur as usize } else { (len - 1) as usize })
    }
}

/// The keys matching a query.
pub open spec fn matches_for(all: Seq<Seq<char>>, q: Seq<char>) -> Seq<Seq<char>> {
    if blank_query(q) {
        all
    } else {
        fuzzy_list(all, q)
    }
}

impl TuiState {
    /// The state keeps its rows and cursors consistent.
    pub open spec fn wf(&self) -> bool {
        &&& self.service_sel@.len() == self.service_names@.len()
        &&& self.kind_sel@.len() == 4
        &&& cursor_ok(self.key_cursor, self.matches@.len())
        &&& (self.matches@.len() == 0 ==> self.key_cursor is None)
        &&& cursor_ok(self.service_cursor, self.service_names@.len())
        &&& cursor_ok(self.kind_cursor, 4)
        &&& cursor_ok(self.action_cursor, 2)
    }

    /// The starting state: every key listed, every service and kind ticked,
    /// the first row of each list under the cursor.
    pub fn new(all_keys: Vec<String>, service_names: Vec<String>, dry_run: bool) -> (r: TuiState)
        ensures
            r.wf(),
            r.screen == Screen::Find,
            r.status@ == "Type to search, Up/Down to move, Enter to pick, Esc to quit"@,
            strings_view(r.matches@) == strings_view(all_keys@),
            strings_view(r.all_keys@) == strings_view(all_keys@),
            r.key_cursor == (if all_keys@.len() == 0 { None } else { Some(0usize) }),
            r.query@.len() == 0,
            r.selected_key is None,
            strings_view(r.service_names@) == strings_view(service_names@),
            r.service_sel@ == Seq::new(service_names@.len(), |i: int| true),
            r.service_cursor == (if service_names@.len() == 0 { None } else { Some(0usize) }),
            r.kind_sel@ == seq![true, true, true, true],
            r.kind_cursor == Some(0usize),
            r.action == Action::SetValue,
            r.action_cursor == Some(0usize),
            r.value_input@.len() == 0,
            r.preview_scroll == 0,
            r.dry_run == dry_run,
    {
        let matches = crate::context::copy_strings(&all_keys);
        let mut service_sel: Vec<bool> = Vec::new();
        let mut i: usize = 0;
        while i < service_names.len()
            invariant
                i <= service_names.len(),
                service_sel@ == Seq::new(i as nat, |j: int| true),
            decreases service_names.len() - i,
        {
            service_sel.push(true);
            assert(service_sel@ =~= Seq::new((i + 1) as nat, |j: int| true));
            i = i + 1;
        }
        assert(matches@.len() == strings_view(matches@).len());
        assert(all_keys@.len() == strings_view(all_keys@).len());
        let key_cursor = if matches.len() == 0 { None } else { Some(0) };
        let service_cursor = if service_names.len() == 0 { None } else { Some(0) };
        let kind_sel = vec![true, true, true, true];
        let r = TuiState {
            screen: Screen::Find,
            status: string_of(&chars_of("Type to search, Up/Down to move, Enter to pick, Esc to quit")),
            dry_run,
            all_keys,
            query: String::new(),
            matches,
            key_cursor,
            selected_key: None,
            service_names,
            service_sel,
            service_cursor,
            kind_sel,
            kind_cursor: Some(0),
            action: Action::SetValue,
            action_cursor: Some(0),
            value_input: String::new(),
            preview_scroll: 0,
        };
        assert(r.kind_sel@ =~= seq![true, true, true, true]);
        r
    }

    /// Recompute the matches for the query, keeping the cursor on a row.
    fn refresh_matches(&mut self)
        requires
            old(self).wf(),
        ensures
            final(self).wf(),
            strings_view(final(self).matches@) == matches_for(strings_view(old(self).all_keys@), old(self).query@),
            final(self).key_cursor == clamped(old(self).key_cursor, final(self).matches@.len()),
            final(self).screen == old(self).screen,
            final(self).status == old(self).status,
            final(self).query == old(self).query,
            final(self).all_keys == old(self).all_keys,
            final(self).selected_key == old(self).selected_key,
            final(self).service_names == old(self).service_names,
            final(self).service_sel == old(self).service_sel,
            final(self).service_cursor == old(self).service_cursor,
            final(self).kind_sel == old(self).kind_sel,
            final(self).kind_cursor == old(self).kind_cursor,
            final(self).action == old(self).action,
            final(self).action_cursor == old(self).action_cursor,
            final(self).value_input == old(self).value_input,
            final(self).preview_scroll == old(self).preview_scroll,
            final(self).dry_run == old(self).dry_run,
    {
        self.matches = fuzzy_strings(&self.all_keys, self.query.as_str());
        assert(self.matches@.len() == strings_view(self.matches@).len());
        if self.matches.len() == 0 {
            self.key_cursor = None;
        } else {
            let cur: usize = match self.key_cursor {
                Some(i) => i,
                None => 0,
            };
            let sel = if cur < self.matches.len() { cur } else { self.matches.len() - 1 };
            self.key_cursor = Some(sel);
        }
    }

    /// The text of the title bar: where the flow stands, after the key.
    pub fn breadcrumb(&self) -> (r: String)
        ensures
            r@ == breadcrumb_s(self.screen, match self.selected_key {
                Some(k) => k@,
                None => "-"@,
            }),
    {
        let key = match &self.selected_key {
            Some(k) => chars_of(k.as_str()),
            None => chars_of("-"),
        };
        let tail = match self.screen {
            Screen::Find => {
                return string_of(&chars_of("find key"));
            },
            Screen::Services => " > services",
            Screen::Files => " > files",
            Screen::Action => " > action",
            Screen::Value => " > value",
            Screen::Preview => " > preview",
        };
        let mut out = key;
        crate::text::append(&mut out, chars_of(tail).as_slice());
        string_of(&out)
    }

    /// The kinds ticked, in display order.
    pub fn selected_kinds(&self) -> (r: Vec<FileKind>)
        requires
            self.wf(),
        ensures
            r@ == kinds_s().filter(|k: FileKind| self.kind_sel@[kind_index(k)]),
    {
        let kinds = vec![FileKind::Dotenv, FileKind::DotenvExample, FileKind::ConfigMap, FileKind::Secret];
        assert(kinds@ =~= kinds_s());
        let ghost p = |k: FileKind| self.kind_sel@[kind_index(k)];
        let mut out: Vec<FileKind> = Vec::new();
        let mut i: usize = 0;
        while i < 4
            invariant
                i <= 4,
                kinds@ == kinds_s(),
                self.kind_sel@.len() == 4,
                p == (|k: FileKind| self.kind_sel@[kind_index(k)]),
                out@ == kinds_s().take(i as int).filter(p),
            decreases 4 - i,
        {
            proof {
                assert(kinds_s().take(i + 1) =~= kinds_s().take(i as int).push(kinds_s()[i as int]));
                kinds_s().take(i as int).lemma_filter_push(kinds_s()[i as int], p);
                assert(kind_index(kinds_s()[i as int]) == i);
            }
            if self.kind_sel[i] {
                out.push(kinds[i]);
            }
            i = i + 1;
        }
        assert(kinds_s().take(4) =~= kinds_s());
        out
    }

    /// The names of the services ticked, in order.
    pub fn selected_service_names(&self) -> (r: Vec<String>)
        requires
            self.wf(),
        ensures
            strings_view(r@) == ticked(strings_view(self.service_names@), self.service_sel@, self.service_names@.len() as int),
    {
        let mut out: Vec<String> = Vec::new();
        let mut i: usize = 0;
        while i < self.service_names.len()
            invariant
                i <= self.service_names.len(),
                self.service_sel@.len() == self.service_names@.len(),
                strings_view(out@) == ticked(strings_view(self.service_names@), self.service_sel@, i as int),
            decreases self.service_names.len() - i,
        {
            if self.service_sel[i] {
                let ghost before = strings_view(out@);
                out.push(self.service_names[i].clone());
                assert(strings_view(out@) =~= before.push(self.service_names@[i as int]@));
            }
            i = i + 1;
        }
        out
    }

    /// React to one key press. Esc steps back a screen (and quits from the
    /// first); every other key goes to the current screen.
    pub fn handle_key(&mut self, key: Key) -> (e: Effect)
        requires
            old(self).wf(),
        ensures
            final(self).wf(),
            step_ok(*old(self), key, *final(self), e),
    {
        if key == Key::Esc {
            match self.screen {
                Screen::Find => {
                    return Effect::Quit;
                },
                Screen::Services => self.screen = Screen::Find,
                Screen::Files => self.screen = Screen::Services,
                Screen::Action => self.screen = Screen::Files,
                Screen::Value => self.screen = Screen::Action,
                Screen::Preview => self.screen = Screen::Action,
            }
            return Effect::Stay;
        }
        match self.screen {
            Screen::Find => self.on_find(key),
            Screen::Services => self.on_services(key),
            Screen::Files => self.on_files(key),
            Screen::Action => self.on_action(key),
            Screen::Value => self.on_value(key),
            Screen::Preview => self.on_preview(key),
        }
    }

    fn on_find(&mut self, key: Key) -> (e: Effect)
        requires
            old(self).wf(),
            old(self).screen == Screen::Find,
            key != Key::Esc,
        ensures
            final(self).wf(),
            find_step(*old(self), key, *final(self)),
            e == Effect::Stay,
    {
        match key {
            Key::Char(c) => {
                crate::text::push_char(&mut self.query, c);
                self.refresh_matches();
            },
            Key::Backspace => {
                self.query = string_of(&drop_last(&chars_of(self.query.as_str())));
                self.refresh_matches();
            },
            Key::Up => {
                self.key_cursor = move_cursor(self.key_cursor, self.matches.len(), true);
            },
            Key::Down => {
                self.key_cursor = move_cursor(self.key_cursor, self.matches.len(), false);
            },
            Key::Enter => {
                if let Some(i) = self.key_cursor {
                    let k = self.matches[i].clone();
                    self.selected_key = Some(k);
                    self.screen = Screen::Services;
                    self.status = string_of(&chars_of("Space to toggle services, 'a' all, Enter to continue"));
                }
            },
            _ => {},
        }
        Effect::Stay
    }

    fn on_services(&mut self, key: Key) -> (e: Effect)
        requires
            old(self).wf(),
            old(self).screen == Screen::Services,
            key != Key::Esc,
        ensures
            final(self).wf(),
            services_step(*old(self), key, *final(self)),
            e == Effect::Stay,
    {
        match key {
            Key::Up => {
                self.service_cursor = move_cursor(self.service_cursor, self.service_names.len(), true);
            },
            Key::Down => {
                self.service_cursor = move_cursor(self.service_cursor, self.service_names.len(), false);
            },
            Key::Char(' ') => {
                if let Some(i) = self.service_cursor {
                    let b = self.service_sel[i];
                    self.service_sel.set(i, !b);
                }
            },
            Key::Char('a') => {
                let all = all_of(&self.service_sel);
                fill(&mut self.service_sel, !all);
            },
            Key::Enter => {
                if any_of(&self.service_sel) {
                    self.screen = Screen::Files;
                    self.status = string_of(&chars_of("Space to toggle file kinds, Enter to continue"));
                } else {
                    self.status = string_of(&chars_of("Select at least one service"));
                }
            },
            _ => {},
        }
        Effect::Stay
    }

    fn on_files(&mut self, key: Key) -> (e: Effect)
        requires
            old(self).wf(),
            old(self).screen == Screen::Files,
            key != Key::Esc,
        ensures
            final(self).wf(),
            files_step(*old(self), key, *final(self)),
            e == Effect::Stay,
    {
        match key {
            Key::Up => {
                self.kind_cursor = move_cursor(self.kind_cursor, 4, true);
            },
            Key::Down => {
                self.kind_cursor = move_cursor(self.kind_cursor, 4, false);
            },
            Key::Char(' ') => {
                if let Some(i) = self.kind_cursor {
                    let b = self.kind_sel[i];
                    self.kind_sel.set(i, !b);
                }
            },
            Key::Char('a') => {
                let all = all_of(&self.kind_sel);
                fill(&mut self.kind_sel, !all);
            },
            Key::Enter => {
                if any_of(&self.kind_sel) {
                    self.screen = Screen::Action;
                    self.status = string_of(&chars_of("Choose an action"));
                } else {
                    self.status = string_of(&chars_of("Select at least one file kind"));
                }
            },
            _ => {},
        }
        Effect::Stay
    }

    fn on_action(&mut self, key: Key) -> (e: Effect)
        requires
            old(self).wf(),
            old(self).screen == Screen::Action,
            key != Key::Esc,
        ensures
            final(self).wf(),
            action_step(*old(self), key, *final(self), e),
    {
        match key {
            Key::Up => {
                self.action_cursor = move_cursor(self.action_cursor, 2, true);
                Effect::Stay
            },
            Key::Down => {
                self.action_cursor = move_cursor(self.action_cursor, 2, false);
                Effect::Stay
            },
            Key::Enter => {
                if self.action_cursor == Some(0usize) {
                    self.action = Action::SetValue;
                    self.value_input = String::new();
                    self.screen = Screen::Value;
                    self.status = string_of(&chars_of("Type a value, Enter to preview"));
                    Effect::Stay
                } else {
                    self.action = Action::Generate;
                    Effect::Build
                }
            },
            _ => Effect::Stay,
        }
    }

    fn on_value(&mut self, key: Key) -> (e: Effect)
        requires
            old(self).wf(),
            old(self).screen == Screen::Value,
            key != Key::Esc,
        ensures
            final(self).wf(),
            value_step(*old(self), key, *final(self), e),
    {
        match key {
            Key::Char(c) => {
                crate::text::push_char(&mut self.value_input, c);
                Effect::Stay
            },
            Key::Backspace => {
                self.value_input = string_of(&drop_last(&chars_of(self.value_input.as_str())));
                Effect::Stay
            },
            Key::Enter => Effect::Build,
            _ => Effect::Stay,
        }
    }

    fn on_preview(&mut self, key: Key) -> (e: Effect)
        requires
            old(self).wf(),
            old(self).screen == Screen::Preview,
            key != Key::Esc,
        ensures
            final(self).wf(),
            preview_step(*old(self), key, *final(self), e),
    {
        match key {
            Key::Up => {
                self.preview_scroll = if self.preview_scroll == 0 { 0 } else { self.preview_scroll - 1 };
                Effect::Stay
            },
            Key::Down => {
                self.preview_scroll = if self.preview_scroll == u16::MAX { u16::MAX } else { self.preview_scroll + 1 };
                Effect::Stay
            },
            Key::Char('y') | Key::Enter => {
                if self.dry_run {
                    self.status = string_of(&chars_of("Dry run: no files written. Esc to go back."));
                    Effect::Stay
                } else {
                    Effect::Apply
                }
            },
            Key::Char('n') => {
                self.screen = Screen::Action;
                Effect::Stay
            },
            _ => Effect::Stay,
        }
    }

    /// Report how building the change set went: on success the preview
    /// opens at its top, on failure the error is shown where the flow is.
    pub fn built(&mut self, error: Option<String>)
        requires
            old(self).wf(),
        ensures
            final(self).wf(),
            error matches Some(m) ==> final(self).status@ == "Error: "@ + m@ && final(self).screen == old(self).screen
                && final(self).preview_scroll == old(self).preview_scroll,
            error is None ==> final(self).screen == Screen::Preview && final(self).preview_scroll == 0
                && final(self).status@ == preview_status_s(old(self).dry_run),
            *final(self) == (TuiState {
                status: final(self).status,
                screen: final(self).screen,
                preview_scroll: final(self).preview_scroll,
                ..*old(self)
            }),
    {
        match error {
            Some(m) => {
                let mut s = chars_of("Error: ");
                crate::text::append(&mut s, chars_of(m.as_str()).as_slice());
                self.status = string_of(&s);
            },
            None => {
                self.preview_scroll = 0;
                self.screen = Screen::Preview;
                self.status = if self.dry_run {
                    string_of(&chars_of("DRY RUN — review diff, Esc to go back"))
                } else {
                    string_of(&chars_of("y/Enter to apply, n to cancel, Up/Down to scroll"))
                };
            },
        }
    }

    /// Report that `written` files were written.
    pub fn applied(&mut self, written: usize)
        requires
            old(self).wf(),
        ensures
            final(self).wf(),
            final(self).status@ == "Wrote "@ + dec_s(written as nat) + " file(s). Esc to quit."@,
            *final(self) == (TuiState { status: final(self).status, ..*old(self) }),
    {
        let mut s = chars_of("Wrote ");
        crate::text::append(&mut s, decimal(written).as_slice());
        crate::text::append(&mut s, chars_of(" file(s). Esc to quit.").as_slice());
        self.status = string_of(&s);
    }
}

/// The position of a kind on the files screen.
pub open spec fn kind_index(k: FileKind) -> int {
    match k {
        FileKind::Dotenv => 0,
        FileKind::DotenvExample => 1,
        FileKind::ConfigMap => 2,
        FileKind::Secret => 3,
    }
}

/// The names of the first `n` rows that are ticked, in order.
pub open spec fn ticked(names: Seq<Seq<char>>, sel: Seq<bool>, n: int) -> Seq<Seq<char>>
    decreases n,
{
    if n <= 0 {
        seq![]
    } else if sel[n - 1] {
        ticked(names, sel, n - 1).push(names[n - 1])
    } else {
        ticked(names, sel, n - 1)
    }
}

/// The title for a screen, after the key.
pub open spec fn breadcrumb_s(screen: Screen, key: Seq<char>) -> Seq<char> {
    match screen {
        Screen::Find => "find key"@,
        Screen::Services => key + " > services"@,
        Screen::Files => key + " > files"@,
        Screen::Action => key + " > action"@,
        Screen::Value => key + " > value"@,
        Screen::Preview => key + " > preview"@,
    }
}

/// A copy of all but the last character.
fn drop_last(v: &Vec<char>) -> (r: Vec<char>)
    ensures
        r@ == (if v@.len() == 0 { v@ } else { v@.drop_last() }),
{
    if v.len() == 0 {
        crate::text::slice(v, 0, 0)
    } else {
        crate::text::slice(v, 0, v.len() - 1)
    }
}

/// The text without its last character (unchanged when empty).
pub open spec fn popped(s: Seq<char>) -> Seq<char> {
    if s.len() == 0 {
        s
    } else {
        s.drop_last()
    }
}

/// Two states that agree on everything but the find screen's fields.
pub open spec fn same_but_find(a: TuiState, b: TuiState) -> bool {
    &&& b.all_keys == a.all_keys
    &&& b.service_names == a.service_names
    &&& b.service_sel == a.service_sel
    &&& b.service_cursor == a.service_cursor
    &&& b.kind_sel == a.kind_sel
    &&& b.kind_cursor == a.kind_cursor
    &&& b.action == a.action
    &&& b.action_cursor == a.action_cursor
    &&& b.value_input == a.value_input
    &&& b.preview_scroll == a.preview_scroll
    &&& b.dry_run == a.dry_run
}

/// The find screen: typing edits the query and refreshes the matches,
/// Up/Down move the cursor, Enter picks the key under it and opens the
/// services screen.
pub open spec fn find_step(a: TuiState, key: Key, b: TuiState) -> bool {
    &&& same_but_find(a, b)
    &&& match key {
        Key::Char(c) => {
            &&& b.query@ == a.query@.push(c)
            &&& strings_view(b.matches@) == matches_for(strings_view(a.all_keys@), b.query@)
            &&& b.key_cursor == clamped(a.key_cursor, b.matches@.len())
            &&& b.screen == a.screen && b.status == a.status && b.selected_key == a.selected_key
        },
        Key::Backspace => {
            &&& b.query@ == popped(a.query@)
            &&& strings_view(b.matches@) == matches_for(strings_view(a.all_keys@), b.query@)
            &&& b.key_cursor == clamped(a.key_cursor, b.matches@.len())
            &&& b.screen == a.screen && b.status == a.status && b.selected_key == a.selected_key
        },
        Key::Up | Key::Down => {
            &&& b.key_cursor == moved(a.key_cursor, a.matches@.len(), if key == Key::Up { -1 } else { 1 })
            &&& b.query == a.query && b.matches == a.matches
            &&& b.screen == a.screen && b.status == a.status && b.selected_key == a.selected_key
        },
        Key::Enter => {
            &&& b.query == a.query && b.matches == a.matches && b.key_cursor == a.key_cursor
            &&& match a.key_cursor {
                Some(i) => {
                    &&& b.selected_key matches Some(k) && k@ == a.matches@[i as int]@
                    &&& b.screen == Screen::Services
                    &&& b.status@ == "Space to toggle services, 'a' all, Enter to continue"@
                },
                None => b.screen == a.screen && b.status == a.status && b.selected_key == a.selected_key,
            }
        },
        _ => b == a,
    }
}

/// Two states that agree on everything but the given selection fields.
pub open spec fn same_but_lists(a: TuiState, b: TuiState) -> bool {
    &&& b.all_keys == a.all_keys
    &&& b.query == a.query
    &&& b.matches == a.matches
    &&& b.key_cursor == a.key_cursor
    &&& b.selected_key == a.selected_key
    &&& b.service_names == a.service_names
    &&& b.value_input == a.value_input
    &&& b.preview_scroll == a.preview_scroll
    &&& b.dry_run == a.dry_run
    &&& b.action == a.action
    &&& b.action_cursor == a.action_cursor
}

/// The services screen: Up/Down move, Space toggles the row, `a` toggles
/// all, Enter goes on to the files screen once a service is ticked.
pub open spec fn services_step(a: TuiState, key: Key, b: TuiState) -> bool {
    &&& same_but_lists(a, b)
    &&& b.kind_sel == a.kind_sel && b.kind_cursor == a.kind_cursor
    &&& match key {
        Key::Up | Key::Down => b.service_cursor == moved(a.service_cursor, a.service_names@.len(), if key == Key::Up { -1 } else { 1 })
            && b.service_sel == a.service_sel && b.screen == a.screen && b.status == a.status,
        Key::Char(' ') => b.service_sel@ == toggled_at(a.service_sel@, a.service_cursor) && b.service_cursor == a.service_cursor
            && b.screen == a.screen && b.status == a.status,
        Key::Char('a') => b.service_sel@ == toggled_all(a.service_sel@) && b.service_cursor == a.service_cursor
            && b.screen == a.screen && b.status == a.status,
        Key::Enter => b.service_sel == a.service_sel && b.service_cursor == a.service_cursor && if any_set(a.service_sel@) {
            b.screen == Screen::Files && b.status@ == "Space to toggle file kinds, Enter to continue"@
        } else {
            b.screen == a.screen && b.status@ == "Select at least one service"@
        },
        _ => b == a,
    }
}

/// The files screen: like the services screen, over the four kinds.
pub open spec fn files_step(a: TuiState, key: Key, b: TuiState) -> bool {
    &&& same_but_lists(a, b)
    &&& b.service_sel == a.service_sel && b.service_cursor == a.service_cursor
    &&& match key {
        Key::Up | Key::Down => b.kind_cursor == moved(a.kind_cursor, 4, if key == Key::Up { -1 } else { 1 })
            && b.kind_sel == a.kind_sel && b.screen == a.screen && b.status == a.status,
        Key::Char(' ') => b.kind_sel@ == toggled_at(a.kind_sel@, a.kind_cursor) && b.kind_cursor == a.kind_cursor
            && b.screen == a.screen && b.status == a.status,
        Key::Char('a') => b.kind_sel@ == toggled_all(a.kind_sel@) && b.kind_cursor == a.kind_cursor
            && b.screen == a.screen && b.status == a.status,
        Key::Enter => b.kind_sel == a.kind_sel && b.kind_cursor == a.kind_cursor && if any_set(a.kind_sel@) {
            b.screen == Screen::Action && b.status@ == "Choose an action"@
        } else {
            b.screen == a.screen && b.status@ == "Select at least one file kind"@
        },
        _ => b == a,
    }
}

/// The action screen: Up/Down move over the two actions; Enter on "set"
/// clears the value and opens the value screen, on "generate" asks for the
/// change set.
pub open spec fn action_step(a: TuiState, key: Key, b: TuiState, e: Effect) -> bool {
    match key {
        Key::Up | Key::Down => b == (TuiState {
            action_cursor: moved(a.action_cursor, 2, if key == Key::Up { -1 } else { 1 }),
            ..a
        }) && e == Effect::Stay,
        Key::Enter => if a.action_cursor == Some(0usize) {
            &&& b.action == Action::SetValue && b.value_input@.len() == 0 && b.screen == Screen::Value
            &&& b.status@ == "Type a value, Enter to preview"@
            &&& b == (TuiState { action: b.action, value_input: b.value_input, screen: b.screen, status: b.status, ..a })
            &&& e == Effect::Stay
        } else {
            b == (TuiState { action: Action::Generate, ..a }) && e == Effect::Build
        },
        _ => b == a && e == Effect::Stay,
    }
}

/// The value screen: typing edits the value, Enter asks for the change set.
pub open spec fn value_step(a: TuiState, key: Key, b: TuiState, e: Effect) -> bool {
    match key {
        Key::Char(c) => b.value_input@ == a.value_input@.push(c) && b == (TuiState { value_input: b.value_input, ..a })
            && e == Effect::Stay,
        Key::Backspace => b.value_input@ == popped(a.value_input@) && b == (TuiState { value_input: b.value_input, ..a })
            && e == Effect::Stay,
        Key::Enter => b == a && e == Effect::Build,
        _ => b == a && e == Effect::Stay,
    }
}

/// The preview screen: Up/Down scroll (saturating), `y`/Enter apply (or
/// only say so on a dry run), `n` goes back to the action screen.
pub open spec fn preview_step(a: TuiState, key: Key, b: TuiState, e: Effect) -> bool {
    match key {
        Key::Up => b == (TuiState { preview_scroll: if a.preview_scroll == 0 { 0 } else { (a.preview_scroll - 1) as u16 }, ..a })
            && e == Effect::Stay,
        Key::Down => b == (TuiState {
            preview_scroll: if a.preview_scroll == u16::MAX { u16::MAX } else { (a.preview_scroll + 1) as u16 },
            ..a
        }) && e == Effect::Stay,
        Key::Char('y') | Key::Enter => if a.dry_run {
            b.status@ == "Dry run: no files written. Esc to go back."@ && b == (TuiState { status: b.status, ..a })
                && e == Effect::Stay
        } else {
            b == a && e == Effect::Apply
        },
        Key::Char('n') => b == (TuiState { screen: Screen::Action, ..a }) && e == Effect::Stay,
        _ => b == a && e == Effect::Stay,
    }
}

/// The screen Esc leads back to.
pub open spec fn back_of(s: Screen) -> Screen {
    match s {
        Screen::Find => Screen::Find,
        Screen::Services => Screen::Find,
        Screen::Files => Screen::Services,
        Screen::Action => Screen::Files,
        Screen::Value => Screen::Action,
        Screen::Preview => Screen::Action,
    }
}

/// One key press: Esc quits from the find screen and otherwise steps back;
/// any other key is the current screen's.
pub open spec fn step_ok(a: TuiState, key: Key, b: TuiState, e: Effect) -> bool {
    if key == Key::Esc {
        if a.screen == Screen::Find {
            b == a && e == Effect::Quit
        } else {
            b == (TuiState { screen: back_of(a.screen), ..a }) && e == Effect::Stay
        }
    } else {
        match a.screen {
            Screen::Find => find_step(a, key, b) && e == Effect::Stay,
            Screen::Services => services_step(a, key, b) && e == Effect::Stay,
            Screen::Files => files_step(a, key, b) && e == Effect::Stay,
            Screen::Action => action_step(a, key, b, e),
            Screen::Value => value_step(a, key, b, e),
            Screen::Preview => preview_step(a, key, b, e),
        }
    }
}

} // verus!
