//! The popup's decisions: what a key does, editing the query, ranking the
//! result rows, pasted video URLs, moving the selection, what Enter does,
//! what a tray menu item runs and which font is drawn with.
//!
//! The query is held as characters with the caret as a character index.

use vstd::prelude::*;

use vstd::utf8::encode_utf8;

use crate::frecency::Frecency;
use crate::hidden::HiddenApps;
use crate::index::AppEntry;
use crate::matcher::{lemma_score_bounds, score, spec_score};
use crate::text::{
    spec_lowercase, chars_of, is_white, lemma_find, slice_vec, string_of, trim, trim_chars, trim_start,
    trim_start_chars,
};

verus! {

/// Actions reachable both from the tray menu and as typed commands.
#[derive(Clone, Copy, PartialEq, Eq, Debug)]
pub enum Action {
    OpenConfig,
    ReloadConfig,
    RefreshApps,
    Quit,
    Restart,
    Shutdown,
    Sleep,
    Lock,
    SignOut,
    UnhideAll,
    /// Reopen the watch queue in the player.
    WatchQueue,
    /// Empty the watch queue (after asking).
    ClearWatchQueue,
    /// Open the watch queue's cache folder.
    WatchQueueFolder,
    /// Toggle forced game mode.
    GameMode,
    /// The service steps of `services::services()`, in its order.
    KomorebiStart,
    KomorebiStop,
    KomorebiRestart,
    KomorebiReloadConfig,
    KomorebiTogglePause,
    KomorebiRetile,
    WhkdRestart,
    BarStart,
    BarRestart,
    BarStop,
}

/// Typed commands: (display name, extra match keywords, action). The
/// keywords let "exit", "settings" or "reboot" find their commands too.
pub const COMMANDS: [(&'static str, &'static str, Action); 24] = [
    ("optim: Open Config", "optim open config settings edit", Action::OpenConfig),
    ("optim: Reload Config", "optim reload config settings", Action::ReloadConfig),
    ("optim: Refresh Apps", "optim refresh apps index rescan", Action::RefreshApps),
    ("optim: Quit", "optim quit exit close", Action::Quit),
    ("Restart", "restart reboot system power", Action::Restart),
    ("Shut Down", "shut down shutdown power off system", Action::Shutdown),
    ("Sleep", "sleep suspend system power", Action::Sleep),
    ("Lock", "lock workstation system", Action::Lock),
    ("Sign Out", "sign out log off logoff system", Action::SignOut),
    ("optim: Unhide All Apps", "optim unhide all apps hidden show", Action::UnhideAll),
    ("optim: Watch Queue", "optim watch queue videos mpv", Action::WatchQueue),
    ("optim: Clear Watch Queue", "optim clear watch queue videos", Action::ClearWatchQueue),
    ("optim: Watch Queue Folder", "optim watch queue folder cache", Action::WatchQueueFolder),
    ("optim: Game Mode", "optim game mode fullscreen", Action::GameMode),
    ("komorebi: Start", "komorebi start tiling", Action::KomorebiStart),
    ("komorebi: Stop", "komorebi stop tiling", Action::KomorebiStop),
    ("komorebi: Restart", "komorebi restart tiling", Action::KomorebiRestart),
    ("komorebi: Reload Config", "komorebi reload config", Action::KomorebiReloadConfig),
    ("komorebi: Toggle Pause", "komorebi toggle pause", Action::KomorebiTogglePause),
    ("komorebi: Retile", "komorebi retile", Action::KomorebiRetile),
    ("whkd: Restart", "whkd restart hotkeys keybinds", Action::WhkdRestart),
    ("bar: Start", "bar start status", Action::BarStart),
    ("bar: Restart", "bar restart status", Action::BarRestart),
    ("bar: Stop", "bar stop status tray", Action::BarStop),
];

/// The service an action runs: its index in `services::services()`.
pub open spec fn spec_service_of(a: Action) -> Option<usize> {
    match a {
        Action::KomorebiStart => Some(0usize),
        Action::KomorebiStop => Some(1usize),
        Action::KomorebiRestart => Some(2usize),
        Action::KomorebiReloadConfig => Some(3usize),
        Action::KomorebiTogglePause => Some(4usize),
        Action::KomorebiRetile => Some(5usize),
        Action::WhkdRestart => Some(6usize),
        Action::BarStart => Some(7usize),
        Action::BarRestart => Some(8usize),
        Action::BarStop => Some(9usize),
        _ => None,
    }
}

/// Which service, if any, an action runs.
pub fn service_of(a: Action) -> (r: Option<usize>)
    ensures
        r == spec_service_of(a),
        r matches Some(i) ==> i < 10,
{
    match a {
        Action::KomorebiStart => Some(0),
        Action::KomorebiStop => Some(1),
        Action::KomorebiRestart => Some(2),
        Action::KomorebiReloadConfig => Some(3),
        Action::KomorebiTogglePause => Some(4),
        Action::KomorebiRetile => Some(5),
        Action::WhkdRestart => Some(6),
        Action::BarStart => Some(7),
        Action::BarRestart => Some(8),
        Action::BarStop => Some(9),
        _ => None,
    }
}

/// The window manager's commands run the `komorebic` subcommand their
/// names say: `komorebi: Toggle Pause` runs `toggle-pause`, `komorebi:
/// Retile` runs `retile`, `komorebi: Reload Config` reloads the config in
/// place, and `komorebi: Start` / `Stop` start and stop it with its hotkey
/// daemon.
pub proof fn lemma_komorebi_commands_run_their_subcommand()
    ensures
        COMMANDS[14].0@ == "komorebi: Start"@ && spec_service_of(COMMANDS[14].2) == Some(0usize),
        COMMANDS[15].0@ == "komorebi: Stop"@ && spec_service_of(COMMANDS[15].2) == Some(1usize),
        COMMANDS[17].0@ == "komorebi: Reload Config"@ && spec_service_of(COMMANDS[17].2) == Some(3usize),
        COMMANDS[18].0@ == "komorebi: Toggle Pause"@ && spec_service_of(COMMANDS[18].2) == Some(4usize),
        COMMANDS[19].0@ == "komorebi: Retile"@ && spec_service_of(COMMANDS[19].2) == Some(5usize),
        crate::services::spec_services()[0][0].1[0] == "start"@,
        crate::services::spec_services()[1][0].1[0] == "stop"@,
        crate::services::spec_services()[3][0].1[0] == "replace-configuration"@,
        crate::services::spec_services()[4] == seq![("komorebic.exe"@, seq!["toggle-pause"@], true)],
        crate::services::spec_services()[5] == seq![("komorebic.exe"@, seq!["retile"@], true)],
{
    crate::services::lemma_komorebi_services_differ();
}

/// A result row: an installed app, a built-in command, or the `>`
/// terminal runner.
#[derive(Clone, Copy, PartialEq, Eq, Debug)]
pub enum Hit {
    App(usize),
    Cmd(usize),
    Term,
    /// The pasted video URL, to queue for watching.
    Watch,
}

// ------------------------------------------------------------ caret moves

/// Index of the last `c` in `s`.
pub open spec fn rfind(s: Seq<char>, c: char) -> Option<int>
    decreases s.len(),
{
    if s.len() == 0 {
        None
    } else if s.last() == c {
        Some(s.len() - 1)
    } else {
        rfind(s.drop_last(), c)
    }
}

/// `s` without its trailing spaces.
pub open spec fn trim_end_spaces(s: Seq<char>) -> Seq<char>
    decreases s.len(),
{
    if s.len() > 0 && s.last() == ' ' {
        trim_end_spaces(s.drop_last())
    } else {
        s
    }
}

/// Number of leading spaces of `s`.
pub open spec fn leading_spaces(s: Seq<char>) -> int
    decreases s.len(),
{
    if s.len() > 0 && s[0] == ' ' {
        1 + leading_spaces(s.drop_first())
    } else {
        0
    }
}

/// Where the caret goes when it moves back: one character, or with `word`
/// to the start of the word before it (spaces before the caret skipped).
pub open spec fn spec_prev_boundary(text: Seq<char>, caret: int, word: bool) -> int {
    if !word {
        if caret > 0 {
            caret - 1
        } else {
            0
        }
    } else {
        match rfind(trim_end_spaces(text.take(caret)), ' ') {
            Some(i) => i + 1,
            None => 0,
        }
    }
}

/// Where the caret goes when it moves forward: one character, or with
/// `word` to the end of the word after it (spaces after the caret skipped).
pub open spec fn spec_next_boundary(text: Seq<char>, caret: int, word: bool) -> int {
    if !word {
        if caret < text.len() {
            caret + 1
        } else {
            caret
        }
    } else {
        let after = text.skip(caret);
        let skipped = leading_spaces(after);
        match crate::text::find(after.skip(skipped), ' ') {
            Some(i) => caret + skipped + i,
            None => text.len() as int,
        }
    }
}

proof fn lemma_trim_end_spaces_prefix(s: Seq<char>)
    ensures
        trim_end_spaces(s).len() <= s.len(),
        trim_end_spaces(s) == s.take(trim_end_spaces(s).len() as int),
    decreases s.len(),
{
    if s.len() > 0 && s.last() == ' ' {
        lemma_trim_end_spaces_prefix(s.drop_last());
        let t = trim_end_spaces(s.drop_last());
        assert(s.drop_last().take(t.len() as int) =~= s.take(t.len() as int));
    } else {
        assert(s.take(s.len() as int) =~= s);
    }
}

proof fn lemma_rfind(s: Seq<char>, c: char)
    ensures
        rfind(s, c) matches Some(i) ==> 0 <= i < s.len() && s[i] == c,
    decreases s.len(),
{
    if s.len() > 0 && s.last() != c {
        lemma_rfind(s.drop_last(), c);
    }
}

proof fn lemma_leading_spaces(s: Seq<char>)
    ensures
        0 <= leading_spaces(s) <= s.len(),
    decreases s.len(),
{
    if s.len() > 0 && s[0] == ' ' {
        lemma_leading_spaces(s.drop_first());
    }
}

/// The caret's new place after a move back.
pub fn prev_boundary(text: &[char], caret: usize, word: bool) -> (r: usize)
    requires
        caret <= text@.len(),
    ensures
        r == spec_prev_boundary(text@, caret as int, word),
        r <= caret,
{
    if !word {
        return if caret > 0 {
            caret - 1
        } else {
            0
        };
    }
    let mut j = caret;
    assert(text@.take(caret as int).take(j as int) =~= text@.take(caret as int));
    while j > 0 && text[j - 1] == ' '
        invariant
            j <= caret <= text@.len(),
            trim_end_spaces(text@.take(caret as int)) == trim_end_spaces(text@.take(j as int)),
        decreases j,
    {
        assert(text@.take(j as int).drop_last() =~= text@.take(j - 1));
        j = j - 1;
    }
    let ghost t = text@.take(j as int);
    assert(trim_end_spaces(t) == t);
    let mut k = j;
    assert(t.take(k as int) =~= t);
    while k > 0 && text[k - 1] != ' '
        invariant
            k <= j <= caret <= text@.len(),
            t == text@.take(j as int),
            rfind(t, ' ') == rfind(t.take(k as int), ' '),
        decreases k,
    {
        assert(t.take(k as int).drop_last() =~= t.take(k - 1));
        assert(t.take(k as int).last() == text@[k - 1]);
        k = k - 1;
    }
    if k == 0 {
        assert(t.take(0) =~= Seq::<char>::empty());
        0
    } else {
        assert(t.take(k as int).last() == text@[k - 1]);
        k
    }
}

/// The caret's new place after a move forward.
pub fn next_boundary(text: &[char], caret: usize, word: bool) -> (r: usize)
    requires
        caret <= text@.len(),
    ensures
        r == spec_next_boundary(text@, caret as int, word),
        caret <= r <= text@.len(),
{
    if !word {
        return if caret < text.len() {
            caret + 1
        } else {
            caret
        };
    }
    let ghost after = text@.skip(caret as int);
    let mut i = caret;
    assert(after.skip(0) =~= after);
    while i < text.len() && text[i] == ' '
        invariant
            caret <= i <= text@.len(),
            after == text@.skip(caret as int),
            leading_spaces(after) == (i - caret) + leading_spaces(text@.skip(i as int)),
        decreases text.len() - i,
    {
        assert(text@.skip(i as int).drop_first() =~= text@.skip(i + 1));
        i = i + 1;
    }
    assert(leading_spaces(text@.skip(i as int)) == 0);
    assert(after.skip(i - caret) =~= text@.skip(i as int));
    match crate::text::find_from(text, i, ' ') {
        Some(p) => p,
        None => text.len(),
    }
}

// ------------------------------------------------------------ editing

/// What a typed character does to the query.
pub enum CharEdit {
    /// Nothing changes and the results stay as they are.
    Ignore,
    /// The new query and caret; the results are recomputed.
    Edited(Vec<char>, usize),
}

/// `text` with `text[from..to]` removed.
pub open spec fn cut(text: Seq<char>, from: int, to: int) -> Seq<char> {
    text.take(from) + text.skip(to)
}

/// What `WM_CHAR` with code `c` does: Backspace (0x08) deletes back to the
/// previous character, or word with Ctrl; 0x7F (Ctrl+Backspace on some
/// layouts) deletes back a word; Enter, Esc and Tab, and other control
/// codes, are ignored; anything else is inserted at the caret when it is a
/// character (a lone surrogate is not, but still refreshes the results).
pub open spec fn spec_edit_char(text: Seq<char>, caret: int, c: u16, ctrl: bool) -> Option<
    (Seq<char>, int),
> {
    if c == 0x08 {
        let start = spec_prev_boundary(text, caret, ctrl);
        Some((cut(text, start, caret), start))
    } else if c == 0x7F {
        let start = spec_prev_boundary(text, caret, true);
        Some((cut(text, start, caret), start))
    } else if c == 0x0D || c == 0x1B || c == 0x09 || c < 0x20 {
        None
    } else if vstd::utf8::is_scalar(c as u32) {
        Some((text.take(caret).push(crate::text::scalar_char(c as u32)) + text.skip(caret), caret + 1))
    } else {
        Some((text, caret))
    }
}

fn cut_exec(text: &[char], from: usize, to: usize) -> (r: Vec<char>)
    requires
        from <= to <= text@.len(),
    ensures
        r@ == cut(text@, from as int, to as int),
{
    let a = slice_vec(text, 0, from);
    let b = slice_vec(text, to, text.len());
    assert(a@ =~= text@.take(from as int));
    assert(b@ =~= text@.skip(to as int));
    crate::text::concat(a.as_slice(), b.as_slice())
}

/// Applies a typed character to the query.
pub fn edit_char(text: &[char], caret: usize, c: u16, ctrl: bool) -> (r: CharEdit)
    requires
        caret <= text@.len(),
    ensures
        match spec_edit_char(text@, caret as int, c, ctrl) {
            Some((t, k)) => r matches CharEdit::Edited(v, n) && v@ == t && n == k && n <= v@.len(),
            None => r is Ignore,
        },
{
    if c == 0x08 {
        let start = prev_boundary(text, caret, ctrl);
        let t = cut_exec(text, start, caret);
        return CharEdit::Edited(t, start);
    }
    if c == 0x7F {
        let start = prev_boundary(text, caret, true);
        let t = cut_exec(text, start, caret);
        return CharEdit::Edited(t, start);
    }
    if c == 0x0D || c == 0x1B || c == 0x09 || c < 0x20 {
        return CharEdit::Ignore;
    }
    match crate::text::char_from_u32(c as u32) {
        Some(ch) => {
            let mut a = slice_vec(text, 0, caret);
            a.push(ch);
            let b = slice_vec(text, caret, text.len());
            assert(b@ =~= text@.skip(caret as int));
            let t = crate::text::concat(a.as_slice(), b.as_slice());
            let n = t.len();
            assert(caret < n);
            CharEdit::Edited(t, caret + 1)
        },
        None => CharEdit::Edited(slice_vec(text, 0, text.len()), caret),
    }
}

/// What the Delete key does: removes up to the next boundary (a word with
/// Ctrl). The caret stays.
pub fn delete_forward(text: &[char], caret: usize, ctrl: bool) -> (r: Vec<char>)
    requires
        caret <= text@.len(),
    ensures
        r@ == cut(text@, caret as int, spec_next_boundary(text@, caret as int, ctrl)),
{
    let end = next_boundary(text, caret, ctrl);
    cut_exec(text, caret, end)
}

/// A typed character when the whole query may be selected (`all`): with
/// the query selected, any edit replaces it, as if it were typed into an
/// empty query; otherwise as [`spec_edit_char`].
pub open spec fn spec_edit_selected(text: Seq<char>, caret: int, c: u16, ctrl: bool, all: bool) -> Option<
    (Seq<char>, int),
> {
    if all && spec_edit_char(text, caret, c, ctrl) is Some {
        spec_edit_char(Seq::empty(), 0, c, ctrl)
    } else {
        spec_edit_char(text, caret, c, ctrl)
    }
}

/// Applies a typed character, replacing the query when all of it is
/// selected.
pub fn edit_char_selected(text: &[char], caret: usize, c: u16, ctrl: bool, all: bool) -> (r: CharEdit)
    requires
        caret <= text@.len(),
    ensures
        match spec_edit_selected(text@, caret as int, c, ctrl, all) {
            Some((t, k)) => r matches CharEdit::Edited(v, n) && v@ == t && n == k && n <= v@.len(),
            None => r is Ignore,
        },
{
    let e = edit_char(text, caret, c, ctrl);
    match e {
        CharEdit::Ignore => CharEdit::Ignore,
        CharEdit::Edited(v, n) => if all {
            let empty: Vec<char> = Vec::new();
            edit_char(empty.as_slice(), 0, c, ctrl)
        } else {
            CharEdit::Edited(v, n)
        },
    }
}

/// The Delete key when all of the query may be selected (`all`): the
/// selected query is removed; otherwise as [`delete_forward`]. Returns the
/// new query and caret.
pub fn delete_key(text: &[char], caret: usize, ctrl: bool, all: bool) -> (r: (Vec<char>, usize))
    requires
        caret <= text@.len(),
    ensures
        all ==> r.0@ == Seq::<char>::empty() && r.1 == 0,
        !all ==> r.0@ == cut(text@, caret as int, spec_next_boundary(text@, caret as int, ctrl)) && r.1
            == caret,
        r.1 <= r.0@.len(),
{
    if all {
        (Vec::new(), 0)
    } else {
        let e = next_boundary(text, caret, ctrl);
        let t = delete_forward(text, caret, ctrl);
        assert(t@.len() == caret + (text@.len() - e));
        (t, caret)
    }
}

// ------------------------------------------------------------ the terminal

/// A query whose first non-blank character is `>` runs a shell command.
pub open spec fn is_terminal_query(text: Seq<char>) -> bool {
    trim_start(text).len() > 0 && trim_start(text)[0] == '>'
}

/// The command after a `>` prefix, trimmed (empty without the prefix).
pub open spec fn spec_terminal_command(text: Seq<char>) -> Seq<char> {
    if is_terminal_query(text) {
        trim(trim_start(text).drop_first())
    } else {
        Seq::empty()
    }
}

/// Whether the query is a `>` command.
pub fn terminal_query(text: &[char]) -> (r: bool)
    ensures
        r == is_terminal_query(text@),
{
    let t = trim_start_chars(text);
    t.len() > 0 && t[0] == '>'
}

/// The command text after a `>` prefix, trimmed.
pub fn terminal_command(text: &[char]) -> (r: Vec<char>)
    ensures
        r@ == spec_terminal_command(text@),
{
    let t = trim_start_chars(text);
    if t.len() > 0 && t[0] == '>' {
        let rest = slice_vec(t.as_slice(), 1, t.len());
        assert(rest@ =~= t@.drop_first());
        trim_chars(rest.as_slice())
    } else {
        Vec::new()
    }
}

// ------------------------------------------------------------ pasted URLs

/// Whether `s` starts with `p`.
pub open spec fn starts_with(s: Seq<char>, p: Seq<char>) -> bool {
    s.len() >= p.len() && s.take(p.len() as int) == p
}

/// A pasted video URL: the trimmed query starts with `http://` or
/// `https://`. Its row queues the URL (trimmed) for watching.
pub open spec fn is_url_query(text: Seq<char>) -> bool {
    starts_with(trim(text), "http://"@) || starts_with(trim(text), "https://"@)
}

fn starts_with_lit(s: &[char], lit: &str) -> (r: bool)
    ensures
        r == starts_with(s@, lit@),
{
    let p = chars_of(lit);
    if s.len() < p.len() {
        return false;
    }
    let mut i: usize = 0;
    while i < p.len()
        invariant
            p@ == lit@,
            p@.len() <= s@.len(),
            i <= p@.len(),
            forall|j: int| 0 <= j < i ==> s@[j] == p@[j],
        decreases p.len() - i,
    {
        if s[i] != p[i] {
            assert(s@.take(p@.len() as int)[i as int] != p@[i as int]);
            return false;
        }
        i = i + 1;
    }
    assert(s@.take(p@.len() as int) =~= p@);
    true
}

/// Whether the query is a pasted video URL.
pub fn url_query(text: &[char]) -> (r: bool)
    ensures
        r == is_url_query(text@),
{
    let t = trim_chars(text);
    starts_with_lit(t.as_slice(), "http://") || starts_with_lit(t.as_slice(), "https://")
}

// ------------------------------------------------------------ selection

/// The row above, wrapping from the first to the last.
pub fn select_up(sel: usize, rows: usize) -> (r: usize)
    requires
        rows > 0,
    ensures
        r == (if sel == 0 {
            rows - 1
        } else {
            sel - 1
        }),
{
    if sel == 0 {
        rows - 1
    } else {
        sel - 1
    }
}

/// The row below, wrapping from the last to the first.
pub fn select_down(sel: usize, rows: usize) -> (r: usize)
    requires
        rows > 0,
    ensures
        r == (sel + 1) % (rows as int),
        r < rows,
{
    let k = sel % rows;
    proof {
        vstd::arithmetic::div_mod::lemma_add_mod_noop(sel as int, 1, rows as int);
        if rows > 1 {
            vstd::arithmetic::div_mod::lemma_small_mod(1, rows as nat);
        } else {
            assert((k + 1) % (rows as int) == 0);
            assert((sel + 1) % (rows as int) == 0);
        }
    }
    (k + 1) % rows
}

/// What Enter does.
#[derive(Clone, Copy, PartialEq, Eq, Debug)]
pub enum EnterOutcome {
    /// Copy the calculator's result.
    CopyCalc,
    /// Launch app `i` of the index.
    Launch(usize),
    /// Run built-in command `i`.
    Command(usize),
    /// Run the `>` command in a terminal.
    Terminal,
    /// The selection names no row.
    Nothing,
    /// Launch app `i` of the index elevated.
    LaunchElevated(usize),
    /// Run the `>` command in an elevated terminal.
    TerminalElevated,
    /// Queue the pasted URL for watching.
    Watch,
}

/// Enter on row `sel`: the calculator row (row 0 when there is one) copies
/// its result; any other row acts on its result.
pub open spec fn spec_enter(sel: int, has_calc: bool, matches: Seq<Hit>) -> EnterOutcome {
    if has_calc && sel == 0 {
        EnterOutcome::CopyCalc
    } else {
        let k = sel - (if has_calc {
            1int
        } else {
            0
        });
        if 0 <= k < matches.len() {
            match matches[k] {
                Hit::App(i) => EnterOutcome::Launch(i),
                Hit::Cmd(i) => EnterOutcome::Command(i),
                Hit::Term => EnterOutcome::Terminal,
                Hit::Watch => EnterOutcome::Watch,
            }
        } else {
            EnterOutcome::Nothing
        }
    }
}

/// Decides what Enter does.
pub fn enter(sel: usize, has_calc: bool, matches: &Vec<Hit>) -> (r: EnterOutcome)
    ensures
        r == spec_enter(sel as int, has_calc, matches@),
{
    if has_calc && sel == 0 {
        return EnterOutcome::CopyCalc;
    }
    let k = if has_calc {
        sel - 1
    } else {
        sel
    };
    if k < matches.len() {
        match matches[k] {
            Hit::App(i) => EnterOutcome::Launch(i),
            Hit::Cmd(i) => EnterOutcome::Command(i),
            Hit::Term => EnterOutcome::Terminal,
            Hit::Watch => EnterOutcome::Watch,
        }
    } else {
        EnterOutcome::Nothing
    }
}

/// Enter with Ctrl+Shift held (`elevated`): an app launches elevated, and
/// so does a `>` command's terminal; everything else is as plain Enter.
pub open spec fn spec_enter_with(sel: int, has_calc: bool, matches: Seq<Hit>, elevated: bool) -> EnterOutcome {
    match spec_enter(sel, has_calc, matches) {
        EnterOutcome::Launch(i) => if elevated {
            EnterOutcome::LaunchElevated(i)
        } else {
            EnterOutcome::Launch(i)
        },
        EnterOutcome::Terminal => if elevated {
            EnterOutcome::TerminalElevated
        } else {
            EnterOutcome::Terminal
        },
        o => o,
    }
}

/// Decides what Enter does, with Ctrl+Shift (`elevated`) or without.
pub fn enter_with(sel: usize, has_calc: bool, matches: &Vec<Hit>, elevated: bool) -> (r: EnterOutcome)
    ensures
        r == spec_enter_with(sel as int, has_calc, matches@, elevated),
{
    match enter(sel, has_calc, matches) {
        EnterOutcome::Launch(i) => if elevated {
            EnterOutcome::LaunchElevated(i)
        } else {
            EnterOutcome::Launch(i)
        },
        EnterOutcome::Terminal => if elevated {
            EnterOutcome::TerminalElevated
        } else {
            EnterOutcome::Terminal
        },
        o => o,
    }
}

/// The app that Ctrl+H or Shift+Delete hides: the selected row's, when
/// that row is an app.
pub open spec fn spec_hide_target(sel: int, has_calc: bool, matches: Seq<Hit>) -> Option<usize> {
    match spec_enter(sel, has_calc, matches) {
        EnterOutcome::Launch(i) => Some(i),
        _ => None,
    }
}

/// Which app, if any, hiding the selection hides.
pub fn hide_target(sel: usize, has_calc: bool, matches: &Vec<Hit>) -> (r: Option<usize>)
    ensures
        r == spec_hide_target(sel as int, has_calc, matches@),
{
    match enter(sel, has_calc, matches) {
        EnterOutcome::Launch(i) => Some(i),
        _ => None,
    }
}

// ------------------------------------------------------------ keys

/// Virtual-key codes the popup handles.
pub const VK_RETURN: u16 = 0x0D;
pub const VK_ESCAPE: u16 = 0x1B;
pub const VK_END: u16 = 0x23;
pub const VK_HOME: u16 = 0x24;
pub const VK_LEFT: u16 = 0x25;
pub const VK_UP: u16 = 0x26;
pub const VK_RIGHT: u16 = 0x27;
pub const VK_DOWN: u16 = 0x28;
pub const VK_DELETE: u16 = 0x2E;
pub const VK_A: u16 = 0x41;
pub const VK_H: u16 = 0x48;

/// What a key press does in the popup.
#[derive(Clone, Copy, PartialEq, Eq, Debug)]
pub enum KeyAction {
    /// Esc: hide the popup.
    Close,
    /// Enter; elevated with Ctrl+Shift.
    Enter(bool),
    Up,
    Down,
    /// Caret back; a word with Ctrl.
    Left(bool),
    /// Caret forward; a word with Ctrl.
    Right(bool),
    Home,
    End,
    /// Delete forward; a word with Ctrl.
    Delete(bool),
    /// Ctrl+H or Shift+Delete: hide the selected app from the results.
    HideSelected,
    /// Ctrl+A: select the whole query; typing replaces it.
    SelectAll,
    /// Not a key the popup handles.
    Other,
}

/// The action of key `vk` with Ctrl and Shift as given.
pub open spec fn spec_key_action(vk: u16, ctrl: bool, shift: bool) -> KeyAction {
    if vk == VK_ESCAPE {
        KeyAction::Close
    } else if vk == VK_RETURN {
        KeyAction::Enter(ctrl && shift)
    } else if vk == VK_UP {
        KeyAction::Up
    } else if vk == VK_DOWN {
        KeyAction::Down
    } else if vk == VK_LEFT {
        KeyAction::Left(ctrl)
    } else if vk == VK_RIGHT {
        KeyAction::Right(ctrl)
    } else if vk == VK_HOME {
        KeyAction::Home
    } else if vk == VK_END {
        KeyAction::End
    } else if vk == VK_DELETE {
        if shift {
            KeyAction::HideSelected
        } else {
            KeyAction::Delete(ctrl)
        }
    } else if vk == VK_H && ctrl {
        KeyAction::HideSelected
    } else if vk == VK_A && ctrl {
        KeyAction::SelectAll
    } else {
        KeyAction::Other
    }
}

/// Decides what a key press does.
pub fn key_action(vk: u16, ctrl: bool, shift: bool) -> (r: KeyAction)
    ensures
        r == spec_key_action(vk, ctrl, shift),
{
    if vk == VK_ESCAPE {
        KeyAction::Close
    } else if vk == VK_RETURN {
        KeyAction::Enter(ctrl && shift)
    } else if vk == VK_UP {
        KeyAction::Up
    } else if vk == VK_DOWN {
        KeyAction::Down
    } else if vk == VK_LEFT {
        KeyAction::Left(ctrl)
    } else if vk == VK_RIGHT {
        KeyAction::Right(ctrl)
    } else if vk == VK_HOME {
        KeyAction::Home
    } else if vk == VK_END {
        KeyAction::End
    } else if vk == VK_DELETE {
        if shift {
            KeyAction::HideSelected
        } else {
            KeyAction::Delete(ctrl)
        }
    } else if vk == VK_H && ctrl {
        KeyAction::HideSelected
    } else if vk == VK_A && ctrl {
        KeyAction::SelectAll
    } else {
        KeyAction::Other
    }
}

// ------------------------------------------------------------ ranking

/// A name short enough that its score, plus the largest boost, fits an
/// `i32`.
pub open spec fn fits(t: Seq<char>) -> bool {
    t.len() * 12 + 60 <= i32::MAX && encode_utf8(t).len() <= i32::MAX
}

/// Every name up to a thousand characters fits.
pub proof fn lemma_short_fits(t: Seq<char>)
    requires
        t.len() <= 1000,
    ensures
        fits(t),
{
    crate::text::lemma_utf8_len_bound(t);
}

/// Frequently launched apps rank higher: four points per launch, up to ten
/// launches.
pub open spec fn boost(count: u32) -> int {
    (if count < 10 {
        count as int
    } else {
        10
    }) * 4
}

/// Launch counts boost frequent apps: more launches never boost less, and
/// the boost is capped at forty points (ten launches).
pub proof fn lemma_boost_grows(c1: u32, c2: u32)
    ensures
        c1 <= c2 ==> boost(c1) <= boost(c2),
        0 <= boost(c1) <= 40,
        c1 < 10 ==> boost(c1) == 4 * c1,
{
}

/// How often `name` was launched.
pub open spec fn launches(frec: Map<Seq<char>, u32>, name: Seq<char>) -> u32 {
    if frec.dom().contains(name) {
        frec[name]
    } else {
        0
    }
}

/// The matching apps among the first `n` that are not hidden (their key is
/// not in `hidden`), each with its score plus boost, in index order.
pub open spec fn scored_apps(
    q: Seq<char>,
    apps: Seq<AppEntry>,
    frec: Map<Seq<char>, u32>,
    hidden: Set<Seq<char>>,
    n: int,
) -> Seq<(int, Hit)>
    decreases n,
{
    if n <= 0 {
        Seq::empty()
    } else if hidden.contains(apps[n - 1].key@) {
        scored_apps(q, apps, frec, hidden, n - 1)
    } else {
        scored_apps(q, apps, frec, hidden, n - 1) + match spec_score(q, apps[n - 1].name_lower@) {
            Some(s) => seq![(s + boost(launches(frec, apps[n - 1].name@)), Hit::App((n - 1) as usize))],
            None => Seq::empty(),
        }
    }
}

/// The matching commands among the first `n`, scored against their
/// keywords, in table order.
pub open spec fn scored_commands(q: Seq<char>, n: int) -> Seq<(int, Hit)>
    decreases n,
{
    if n <= 0 {
        Seq::empty()
    } else {
        scored_commands(q, n - 1) + match spec_score(q, COMMANDS[n - 1].1@) {
            Some(s) => seq![(s, Hit::Cmd((n - 1) as usize))],
            None => Seq::empty(),
        }
    }
}

/// `s` with `x` placed after every row scoring at least as high: one step
/// of a stable insertion sort, best first.
pub open spec fn insert_desc(s: Seq<(int, Hit)>, x: (int, Hit)) -> Seq<(int, Hit)>
    decreases s.len(),
{
    if s.len() == 0 || s.last().0 >= x.0 {
        s.push(x)
    } else {
        insert_desc(s.drop_last(), x).push(s.last())
    }
}

/// `s` sorted best first; rows with equal scores keep their order.
pub open spec fn sort_desc(s: Seq<(int, Hit)>) -> Seq<(int, Hit)>
    decreases s.len(),
{
    if s.len() == 0 {
        s
    } else {
        insert_desc(sort_desc(s.drop_last()), s.last())
    }
}

/// The rows for a lowercase query: matching apps that are not hidden and
/// matching commands, best first, at most `max_rows`.
pub open spec fn spec_ranked(
    q: Seq<char>,
    apps: Seq<AppEntry>,
    frec: Map<Seq<char>, u32>,
    hidden: Set<Seq<char>>,
    max_rows: nat,
) -> Seq<Hit> {
    let sorted = sort_desc(scored_apps(q, apps, frec, hidden, apps.len() as int) + scored_commands(q, 24));
    let n = if sorted.len() < max_rows {
        sorted.len()
    } else {
        max_rows
    };
    sorted.take(n as int).map_values(|p: (int, Hit)| p.1)
}

/// The result rows for a query. A `>` query shows only the terminal row
/// (when a command follows the `>`) and no calculator; a pasted video URL
/// shows only the row that queues it; any other non-blank query is
/// matched, trimmed and lowercased, against apps and commands.
pub struct Matches {
    pub hits: Vec<Hit>,
    /// A `>` query: the calculator row is off.
    pub terminal: bool,
}

/// What `update_matches` computes for `query`.
pub open spec fn spec_update(
    query: Seq<char>,
    apps: Seq<AppEntry>,
    frec: Map<Seq<char>, u32>,
    hidden: Set<Seq<char>>,
    max_rows: nat,
) -> (Seq<Hit>, bool) {
    if is_terminal_query(query) {
        (
            if spec_terminal_command(query).len() > 0 {
                seq![Hit::Term]
            } else {
                Seq::empty()
            },
            true,
        )
    } else if is_url_query(query) {
        (
            if max_rows > 0 {
                seq![Hit::Watch]
            } else {
                Seq::empty()
            },
            false,
        )
    } else {
        let q = spec_lowercase(trim(query));
        (
            if q.len() == 0 {
                Seq::empty()
            } else {
                spec_ranked(q, apps, frec, hidden, max_rows)
            },
            false,
        )
    }
}

/// The results depend on the query only through its trimmed text:
/// whitespace typed before or after it changes nothing.
pub proof fn lemma_update_ignores_surrounding_whitespace(
    query: Seq<char>,
    w: Seq<char>,
    apps: Seq<AppEntry>,
    frec: Map<Seq<char>, u32>,
    hidden: Set<Seq<char>>,
    max_rows: nat,
)
    requires
        crate::text::all_white(w),
    ensures
        spec_update(query + w, apps, frec, hidden, max_rows) == spec_update(query, apps, frec, hidden, max_rows),
        spec_update(w + query, apps, frec, hidden, max_rows) == spec_update(query, apps, frec, hidden, max_rows),
{
    crate::text::lemma_trim_surrounding_white(query, w);
    crate::text::lemma_trim_start_append_white(query, w);
    crate::text::lemma_trim_start_prepend_white(w, query);
    let t = trim_start(query);
    if t.len() > 0 {
        assert((t + w)[0] == t[0]);
        assert((t + w).drop_first() =~= t.drop_first() + w);
        crate::text::lemma_trim_surrounding_white(t.drop_first(), w);
    }
    assert(is_terminal_query(query + w) == is_terminal_query(query));
    assert(spec_terminal_command(query + w) == spec_terminal_command(query));
    assert(is_url_query(query + w) == is_url_query(query));
    assert(is_url_query(w + query) == is_url_query(query));
}

proof fn lemma_commands_fit()
    ensures
        forall|i: int| 0 <= i < 24 ==> fits(#[trigger] COMMANDS[i].1@),
{
    reveal_strlit("optim open config settings edit");
    reveal_strlit("optim reload config settings");
    reveal_strlit("optim refresh apps index rescan");
    reveal_strlit("optim quit exit close");
    reveal_strlit("restart reboot system power");
    reveal_strlit("shut down shutdown power off system");
    reveal_strlit("sleep suspend system power");
    reveal_strlit("lock workstation system");
    reveal_strlit("sign out log off logoff system");
    reveal_strlit("optim unhide all apps hidden show");
    reveal_strlit("optim watch queue videos mpv");
    reveal_strlit("optim clear watch queue videos");
    reveal_strlit("optim watch queue folder cache");
    reveal_strlit("optim game mode fullscreen");
    reveal_strlit("komorebi start tiling");
    reveal_strlit("komorebi stop tiling");
    reveal_strlit("komorebi restart tiling");
    reveal_strlit("komorebi reload config");
    reveal_strlit("komorebi toggle pause");
    reveal_strlit("komorebi retile");
    reveal_strlit("whkd restart hotkeys keybinds");
    reveal_strlit("bar start status");
    reveal_strlit("bar restart status");
    reveal_strlit("bar stop status tray");
    assert forall|i: int| 0 <= i < 24 implies fits(#[trigger] COMMANDS[i].1@) by {
        lemma_short_fits(COMMANDS[i].1@);
    }
}

/// Best first: no row scores higher than one before it.
pub open spec fn desc_sorted(s: Seq<(int, Hit)>) -> bool {
    forall|i: int, j: int| 0 <= i < j < s.len() ==> (#[trigger] s[i]).0 >= (#[trigger] s[j]).0
}

proof fn lemma_insert_desc(s: Seq<(int, Hit)>, x: (int, Hit))
    requires
        desc_sorted(s),
    ensures
        desc_sorted(insert_desc(s, x)),
        insert_desc(s, x).len() == s.len() + 1,
        forall|i: int|
            0 <= i < insert_desc(s, x).len() ==> #[trigger] insert_desc(s, x)[i] == x || s.contains(
                insert_desc(s, x)[i],
            ),
    decreases s.len(),
{
    if s.len() > 0 && s.last().0 < x.0 {
        let d = s.drop_last();
        lemma_insert_desc(d, x);
        let r = insert_desc(d, x);
        assert forall|i: int| 0 <= i < r.push(s.last()).len() implies #[trigger] r.push(s.last())[i]
            == x || s.contains(r.push(s.last())[i]) by {
            if i < r.len() {
                assert(r.push(s.last())[i] == r[i]);
                if r[i] != x {
                    let k = choose|k: int| 0 <= k < d.len() && d[k] == r[i];
                    assert(s[k] == d[k]);
                }
            } else {
                assert(s[s.len() - 1] == r.push(s.last())[i]);
            }
        }
        assert forall|i: int, j: int| 0 <= i < j < r.len() + 1 implies (#[trigger] r.push(s.last())[i]).0
            >= (#[trigger] r.push(s.last())[j]).0 by {
            assert(r.push(s.last())[i] == r[i] || i == r.len());
            if j == r.len() {
                assert(r.push(s.last())[i] == r[i]);
                if r[i] != x {
                    let k = choose|k: int| 0 <= k < d.len() && d[k] == r[i];
                    assert(s[k] == d[k]);
                }
            } else {
                assert(r.push(s.last())[j] == r[j]);
            }
        }
    } else {
        assert forall|i: int| 0 <= i < s.push(x).len() implies #[trigger] s.push(x)[i] == x
            || s.contains(s.push(x)[i]) by {
            if i < s.len() {
                assert(s[i] == s.push(x)[i]);
            }
        }
    }
}

/// Rows come best first, and none is lost or added.
pub proof fn lemma_sort_desc(s: Seq<(int, Hit)>)
    ensures
        desc_sorted(sort_desc(s)),
        sort_desc(s).len() == s.len(),
        forall|i: int| 0 <= i < sort_desc(s).len() ==> s.contains(#[trigger] sort_desc(s)[i]),
    decreases s.len(),
{
    if s.len() > 0 {
        let d = s.drop_last();
        lemma_sort_desc(d);
        lemma_insert_desc(sort_desc(d), s.last());
        let r = sort_desc(s);
        assert forall|i: int| 0 <= i < r.len() implies s.contains(#[trigger] r[i]) by {
            if r[i] == s.last() {
                assert(s[s.len() - 1] == r[i]);
            } else {
                let k = choose|k: int| 0 <= k < sort_desc(d).len() && sort_desc(d)[k] == r[i];
                let m = choose|m: int| 0 <= m < d.len() && d[m] == sort_desc(d)[k];
                assert(s[m] == d[m]);
            }
        }
    }
}

/// The app rows scored among the first `n` apps name apps below `n` that
/// are not hidden.
proof fn lemma_scored_apps_visible(
    q: Seq<char>,
    apps: Seq<AppEntry>,
    frec: Map<Seq<char>, u32>,
    hidden: Set<Seq<char>>,
    n: int,
)
    requires
        n <= apps.len() <= usize::MAX,
    ensures
        forall|i: int|
            0 <= i < scored_apps(q, apps, frec, hidden, n).len() ==> ((#[trigger] scored_apps(
                q,
                apps,
                frec,
                hidden,
                n,
            )[i]).1 matches Hit::App(k) ==> k < n && !hidden.contains(apps[k as int].key@)),
    decreases n,
{
    if n > 0 {
        lemma_scored_apps_visible(q, apps, frec, hidden, n - 1);
        let prev = scored_apps(q, apps, frec, hidden, n - 1);
        let cur = scored_apps(q, apps, frec, hidden, n);
        if !hidden.contains(apps[n - 1].key@) {
            assert forall|i: int| 0 <= i < cur.len() implies ((#[trigger] cur[i]).1 matches Hit::App(
                k,
            ) ==> k < n && !hidden.contains(apps[k as int].key@)) by {
                let tail = match spec_score(q, apps[n - 1].name_lower@) {
                    Some(sc) => seq![(sc + boost(launches(frec, apps[n - 1].name@)), Hit::App((n - 1) as usize))],
                    None => Seq::<(int, Hit)>::empty(),
                };
                assert(cur == prev + tail);
                if i < prev.len() {
                    assert(cur[i] == prev[i]);
                } else {
                    assert(cur[i] == tail[i - prev.len()]);
                }
            }
        }
    }
}

/// Command rows are all `Hit::Cmd`.
proof fn lemma_scored_commands_are_commands(q: Seq<char>, n: int)
    ensures
        forall|i: int| 0 <= i < scored_commands(q, n).len() ==> (#[trigger] scored_commands(q, n)[i]).1 is Cmd,
    decreases n,
{
    if n > 0 {
        lemma_scored_commands_are_commands(q, n - 1);
    }
}

/// Hidden apps are never suggested: every app row of the results names an
/// app of the index whose key is not hidden. (`apps` is an index held in a
/// `Vec`, so its positions fit a `usize`.)
pub proof fn lemma_hidden_apps_not_suggested(
    query: Seq<char>,
    apps: Seq<AppEntry>,
    frec: Map<Seq<char>, u32>,
    hidden: Set<Seq<char>>,
    max_rows: nat,
)
    requires
        apps.len() <= usize::MAX,
    ensures
        forall|i: int|
            0 <= i < spec_update(query, apps, frec, hidden, max_rows).0.len() ==> ((#[trigger] spec_update(
                query,
                apps,
                frec,
                hidden,
                max_rows,
            ).0[i]) matches Hit::App(k) ==> k < apps.len() && !hidden.contains(apps[k as int].key@)),
{
    if !is_terminal_query(query) && !is_url_query(query) {
        let q = spec_lowercase(trim(query));
        if q.len() > 0 {
            let a = scored_apps(q, apps, frec, hidden, apps.len() as int);
            let c = scored_commands(q, 24);
            let all = a + c;
            lemma_scored_apps_visible(q, apps, frec, hidden, apps.len() as int);
            lemma_scored_commands_are_commands(q, 24);
            lemma_sort_desc(all);
            let sorted = sort_desc(all);
            let n = if sorted.len() < max_rows {
                sorted.len()
            } else {
                max_rows
            };
            let out = sorted.take(n as int).map_values(|p: (int, Hit)| p.1);
            assert(out == spec_update(query, apps, frec, hidden, max_rows).0);
            assert forall|i: int| 0 <= i < out.len() implies ((#[trigger] out[i]) matches Hit::App(k) ==> k
                < apps.len() && !hidden.contains(apps[k as int].key@)) by {
                assert(out[i] == sorted[i].1);
                assert(all.contains(sorted[i]));
                let m = choose|m: int| 0 <= m < all.len() && all[m] == sorted[i];
                if m < a.len() {
                    assert(all[m] == a[m]);
                } else {
                    assert(all[m] == c[m - a.len()]);
                }
            }
        }
    }
}

/// Ranks scored rows best first.
fn sort_rows(rows: Vec<(i32, Hit)>) -> (r: Vec<(i32, Hit)>)
    ensures
        row_views(r@) == sort_desc(row_views(rows@)),
{
    let mut out: Vec<(i32, Hit)> = Vec::new();
    let mut i: usize = 0;
    while i < rows.len()
        invariant
            i <= rows@.len(),
            row_views(out@) == sort_desc(row_views(rows@.take(i as int))),
        decreases rows.len() - i,
    {
        let x = rows[i];
        let ghost ov = row_views(out@);
        let ghost xv = (x.0 as int, x.1);
        let mut p = out.len();
        while p > 0 && out[p - 1].0 < x.0
            invariant
                p <= out@.len(),
                ov == row_views(out@),
                xv == (x.0 as int, x.1),
                forall|k: int| p <= k < out@.len() ==> (#[trigger] ov[k]).0 < xv.0,
            decreases p,
        {
            p = p - 1;
        }
        proof {
            lemma_insert_desc_at(ov, xv, p as int);
            assert(row_views(rows@.take(i + 1)).drop_last() =~= row_views(rows@.take(i as int)));
            assert(row_views(rows@.take(i + 1)).last() == xv);
        }
        out.insert(p, x);
        assert(row_views(out@) =~= ov.take(p as int) + seq![xv] + ov.skip(p as int));
        i = i + 1;
    }
    assert(rows@.take(i as int) =~= rows@);
    out
}

/// Scored rows as plain values.
pub open spec fn row_views(s: Seq<(i32, Hit)>) -> Seq<(int, Hit)> {
    s.map_values(|p: (i32, Hit)| (p.0 as int, p.1))
}

proof fn lemma_insert_desc_at(s: Seq<(int, Hit)>, x: (int, Hit), p: int)
    requires
        0 <= p <= s.len(),
        p == 0 || s[p - 1].0 >= x.0,
        forall|k: int| p <= k < s.len() ==> (#[trigger] s[k]).0 < x.0,
    ensures
        insert_desc(s, x) == s.take(p) + seq![x] + s.skip(p),
    decreases s.len(),
{
    if p == s.len() {
        assert(s.take(p) + seq![x] + s.skip(p) =~= s.push(x));
    } else {
        let d = s.drop_last();
        lemma_insert_desc_at(d, x, p);
        assert(d.take(p) + seq![x] + d.skip(p) + seq![s.last()] =~= s.take(p) + seq![x] + s.skip(p));
    }
}

/// Ranks apps and commands for a lowercase, non-empty query `q`.
fn ranked(q: &[char], apps: &Vec<AppEntry>, frec: &Frecency, hidden: &HiddenApps, max_rows: usize) -> (r: Vec<Hit>)
    requires
        forall|i: int| 0 <= i < apps@.len() ==> fits((#[trigger] apps@[i]).name_lower@),
    ensures
        r@ == spec_ranked(q@, apps@, frec@, hidden@.dom(), max_rows as nat),
        r@.len() <= max_rows,
{
    let qs = string_of(q);
    let mut rows: Vec<(i32, Hit)> = Vec::new();
    let mut i: usize = 0;
    while i < apps.len()
        invariant
            qs@ == q@,
            i <= apps@.len(),
            forall|k: int| 0 <= k < apps@.len() ==> fits((#[trigger] apps@[k]).name_lower@),
            row_views(rows@) == scored_apps(q@, apps@, frec@, hidden@.dom(), i as int),
        decreases apps.len() - i,
    {
        let a = &apps[i];
        assert(fits(apps@[i as int].name_lower@));
        let ghost before = row_views(rows@);
        if hidden.contains(a.key.as_str()) {
            i = i + 1;
            continue;
        }
        match score(qs.as_str(), a.name_lower.as_str()) {
            Some(s) => {
                proof {
                    lemma_score_bounds(q@, a.name_lower@);
                }
                let c = frec.count(a.name.as_str());
                let b: i32 = if c < 10 {
                    c as i32 * 4
                } else {
                    40
                };
                rows.push((s + b, Hit::App(i)));
                assert(row_views(rows@) =~= before + seq![((s + b) as int, Hit::App(i))]);
            },
            None => {
                assert(row_views(rows@) =~= before);
            },
        }
        i = i + 1;
    }
    let ghost apps_part = row_views(rows@);
    let mut j: usize = 0;
    proof {
        lemma_commands_fit();
        assert(scored_commands(q@, 0) =~= Seq::<(int, Hit)>::empty());
        assert(apps_part + Seq::<(int, Hit)>::empty() =~= apps_part);
    }
    while j < 24
        invariant
            qs@ == q@,
            j <= 24,
            forall|k: int| 0 <= k < 24 ==> fits(#[trigger] COMMANDS[k].1@),
            row_views(rows@) == apps_part + scored_commands(q@, j as int),
        decreases 24 - j,
    {
        let keys = COMMANDS[j].1;
        assert(fits(COMMANDS[j as int].1@));
        let ghost before = row_views(rows@);
        match score(qs.as_str(), keys) {
            Some(s) => {
                rows.push((s, Hit::Cmd(j)));
                assert(row_views(rows@) =~= before + seq![(s as int, Hit::Cmd(j))]);
                assert(apps_part + scored_commands(q@, j + 1) =~= apps_part + scored_commands(q@, j as int)
                    + seq![(s as int, Hit::Cmd(j))]);
            },
            None => {
                assert(row_views(rows@) =~= before);
                assert(apps_part + scored_commands(q@, j + 1) =~= apps_part + scored_commands(q@, j as int));
            },
        }
        j = j + 1;
    }
    let sorted = sort_rows(rows);
    let n = if sorted.len() < max_rows {
        sorted.len()
    } else {
        max_rows
    };
    let mut out: Vec<Hit> = Vec::new();
    let mut k: usize = 0;
    let ghost sv = row_views(sorted@);
    while k < n
        invariant
            sv == row_views(sorted@),
            n <= sorted@.len(),
            k <= n,
            out@ == sv.take(k as int).map_values(|p: (int, Hit)| p.1),
        decreases n - k,
    {
        out.push(sorted[k].1);
        assert(out@ =~= sv.take(k + 1).map_values(|p: (int, Hit)| p.1));
        k = k + 1;
    }
    out
}

/// Recomputes the result rows for `query` (see [`Matches`]). Hidden apps
/// are left out; `max_rows` caps the rows.
pub fn update_matches(
    query: &[char],
    apps: &Vec<AppEntry>,
    frec: &Frecency,
    hidden: &HiddenApps,
    max_rows: usize,
) -> (r: Matches)
    requires
        forall|i: int| 0 <= i < apps@.len() ==> fits((#[trigger] apps@[i]).name_lower@),
    ensures
        (r.hits@, r.terminal) == spec_update(query@, apps@, frec@, hidden@.dom(), max_rows as nat),
        r.terminal || r.hits@.len() <= max_rows,
{
    if terminal_query(query) {
        let cmd = terminal_command(query);
        let mut hits: Vec<Hit> = Vec::new();
        if cmd.len() > 0 {
            hits.push(Hit::Term);
        }
        return Matches { hits, terminal: true };
    }
    if url_query(query) {
        let mut hits: Vec<Hit> = Vec::new();
        if max_rows > 0 {
            hits.push(Hit::Watch);
        }
        return Matches { hits, terminal: false };
    }
    let q = crate::text::lowercase(trim_chars(query).as_slice());
    if q.len() == 0 {
        return Matches { hits: Vec::new(), terminal: false };
    }
    Matches { hits: ranked(q.as_slice(), apps, frec, hidden, max_rows), terminal: false }
}

// ------------------------------------------------------------ the window

/// Tray menu item: open the config file.
pub const CMD_OPEN_CONFIG: usize = 1;
/// Tray menu item: reload the config.
pub const CMD_RELOAD_CONFIG: usize = 2;
/// Tray menu item: rebuild the app index.
pub const CMD_REFRESH_APPS: usize = 3;
/// Tray menu item: quit.
pub const CMD_EXIT: usize = 4;
/// Tray menu item: toggle forced game mode.
pub const CMD_GAME_MODE: usize = 5;
/// Tray menu items of the Hidden Apps submenu: item `CMD_UNHIDE_BASE + i`
/// unhides the `i`-th hidden app as the submenu lists them.
pub const CMD_UNHIDE_BASE: usize = 100;

/// What a tray menu item does.
#[derive(Clone, Copy, PartialEq, Eq, Debug)]
pub enum TrayCommand {
    /// Run an action.
    Run(Action),
    /// Unhide the `i`-th listed hidden app.
    Unhide(usize),
}

/// What the tray menu item `cmd` does when the Hidden Apps submenu lists
/// `n_hidden` apps; a dismissed menu (or any other id) does nothing.
pub open spec fn spec_tray_command(cmd: usize, n_hidden: usize) -> Option<TrayCommand> {
    if cmd == CMD_OPEN_CONFIG {
        Some(TrayCommand::Run(Action::OpenConfig))
    } else if cmd == CMD_RELOAD_CONFIG {
        Some(TrayCommand::Run(Action::ReloadConfig))
    } else if cmd == CMD_REFRESH_APPS {
        Some(TrayCommand::Run(Action::RefreshApps))
    } else if cmd == CMD_EXIT {
        Some(TrayCommand::Run(Action::Quit))
    } else if cmd == CMD_GAME_MODE {
        Some(TrayCommand::Run(Action::GameMode))
    } else if CMD_UNHIDE_BASE <= cmd < CMD_UNHIDE_BASE + n_hidden {
        Some(TrayCommand::Unhide((cmd - CMD_UNHIDE_BASE) as usize))
    } else {
        None
    }
}

/// Maps the id the tray menu returned to what it does.
pub fn tray_command(cmd: usize, n_hidden: usize) -> (r: Option<TrayCommand>)
    ensures
        r == spec_tray_command(cmd, n_hidden),
{
    if cmd == CMD_OPEN_CONFIG {
        Some(TrayCommand::Run(Action::OpenConfig))
    } else if cmd == CMD_RELOAD_CONFIG {
        Some(TrayCommand::Run(Action::ReloadConfig))
    } else if cmd == CMD_REFRESH_APPS {
        Some(TrayCommand::Run(Action::RefreshApps))
    } else if cmd == CMD_EXIT {
        Some(TrayCommand::Run(Action::Quit))
    } else if cmd == CMD_GAME_MODE {
        Some(TrayCommand::Run(Action::GameMode))
    } else if cmd >= CMD_UNHIDE_BASE && cmd - CMD_UNHIDE_BASE < n_hidden {
        Some(TrayCommand::Unhide(cmd - CMD_UNHIDE_BASE))
    } else {
        None
    }
}

/// The font the popup draws with.
pub enum FontChoice {
    /// The bundled Iosevka, from the private collection.
    Bundled,
    /// An installed family, by name.
    Installed(String),
}

/// Whether the configured font names the bundled one: empty, or
/// `iosevka` in any case.
pub open spec fn names_bundled(font: Seq<char>) -> bool {
    font.len() == 0 || crate::text::eq_ignore_ascii_case(font, "iosevka"@)
}

/// The installed family to use, or `None` for the bundled font: the
/// bundled one when the config names it and it loaded, a system font when
/// it names it but it failed to load, and otherwise the configured family.
pub open spec fn spec_font_choice(font: Seq<char>, bundled_loaded: bool) -> Option<Seq<char>> {
    if names_bundled(font) {
        if bundled_loaded {
            None
        } else {
            Some("Segoe UI Variable Text"@)
        }
    } else {
        Some(font)
    }
}

/// Picks the popup's font from the configured name and whether the
/// bundled collection loaded.
pub fn font_choice(font: &str, bundled_loaded: bool) -> (r: FontChoice)
    ensures
        match r {
            FontChoice::Bundled => spec_font_choice(font@, bundled_loaded) is None,
            FontChoice::Installed(f) => spec_font_choice(font@, bundled_loaded) == Some(f@),
        },
{
    let f = chars_of(font);
    let bundled = f.len() == 0 || crate::text::eq_ignore_case_str(f.as_slice(), "iosevka");
    if bundled {
        if bundled_loaded {
            FontChoice::Bundled
        } else {
            FontChoice::Installed(String::from_str("Segoe UI Variable Text"))
        }
    } else {
        FontChoice::Installed(String::from_str(font))
    }
}

} // verus!
