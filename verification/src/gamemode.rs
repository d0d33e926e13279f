//! Game mode: the popup does not open over a focused fullscreen app (in
//! `auto` mode), or anywhere while game mode is forced on. Pressing the
//! hotkey three times within two seconds always opens the popup, and
//! switches forced mode back off.

use vstd::prelude::*;

verus! {

/// Three hotkey presses this close together (ms) always open the popup.
pub const TRIPLE_PRESS_MS: u64 = 2000;

/// Game mode's state: whether it is forced on, and the times (ms) of the
/// last two hotkey presses, the newer first.
#[derive(Clone, Copy, PartialEq, Eq, Debug)]
pub struct GameMode {
    pub forced: bool,
    pub last: Option<u64>,
    pub before_last: Option<u64>,
}

/// What a hotkey press does.
#[derive(Clone, Copy, PartialEq, Eq, Debug)]
pub enum Hotkey {
    /// Open the popup.
    Show,
    /// Close the popup.
    Hide,
    /// Game mode keeps the popup closed.
    Blocked,
}

/// Game mode at startup: not forced, no presses yet.
pub fn initial() -> (g: GameMode)
    ensures
        !g.forced,
        g.last is None,
        g.before_last is None,
{
    GameMode { forced: false, last: None, before_last: None }
}

/// Whether a press at `now` is the third within two seconds: the press
/// before the last one was at most two seconds ago.
pub open spec fn is_triple(g: GameMode, now: u64) -> bool {
    match g.before_last {
        Some(t) => t <= now && now - t <= TRIPLE_PRESS_MS,
        None => false,
    }
}

/// A hotkey press at `now`, with the popup `visible` or not, a fullscreen
/// app focused or not, and game mode `auto` or off in the config. The
/// third press within two seconds opens the popup and turns forced mode
/// off; otherwise a visible popup closes, and a hidden one opens unless
/// game mode is forced or (`auto`) a fullscreen app has the focus.
pub open spec fn spec_press(g: GameMode, now: u64, visible: bool, fullscreen: bool, auto: bool) -> (
    GameMode,
    Hotkey,
) {
    let presses = GameMode { last: Some(now), before_last: g.last, ..g };
    if is_triple(g, now) {
        (GameMode { forced: false, ..presses }, Hotkey::Show)
    } else if visible {
        (presses, Hotkey::Hide)
    } else if g.forced || (auto && fullscreen) {
        (presses, Hotkey::Blocked)
    } else {
        (presses, Hotkey::Show)
    }
}

/// Decides what a hotkey press does, and game mode's next state.
pub fn press(g: GameMode, now: u64, visible: bool, fullscreen: bool, auto: bool) -> (r: (GameMode, Hotkey))
    ensures
        r == spec_press(g, now, visible, fullscreen, auto),
{
    let presses = GameMode { forced: g.forced, last: Some(now), before_last: g.last };
    let triple = match g.before_last {
        Some(t) => t <= now && now - t <= TRIPLE_PRESS_MS,
        None => false,
    };
    if triple {
        (GameMode { forced: false, last: presses.last, before_last: presses.before_last }, Hotkey::Show)
    } else if visible {
        (presses, Hotkey::Hide)
    } else if g.forced || (auto && fullscreen) {
        (presses, Hotkey::Blocked)
    } else {
        (presses, Hotkey::Show)
    }
}

/// The `optim: Game Mode` command and tray item: forced mode flips, the
/// presses are kept.
pub fn toggle_forced(g: GameMode) -> (r: GameMode)
    ensures
        r == (GameMode { forced: !g.forced, ..g }),
{
    GameMode { forced: !g.forced, last: g.last, before_last: g.before_last }
}

/// Whether a window with the rectangle (left, top, right, bottom) covers
/// its monitor's rectangle: the test for a fullscreen app, made against
/// the monitor the window is on.
pub open spec fn spec_covers(win: (i32, i32, i32, i32), mon: (i32, i32, i32, i32)) -> bool {
    win.0 <= mon.0 && win.1 <= mon.1 && win.2 >= mon.2 && win.3 >= mon.3
}

/// Whether the focused window is fullscreen on its monitor.
pub fn covers(win: (i32, i32, i32, i32), mon: (i32, i32, i32, i32)) -> (r: bool)
    ensures
        r == spec_covers(win, mon),
{
    win.0 <= mon.0 && win.1 <= mon.1 && win.2 >= mon.2 && win.3 >= mon.3
}

/// Pressing the hotkey three times within two seconds always opens the
/// popup and switches forced mode off, whatever the state, the popup, the
/// focused app and the config.
pub proof fn lemma_triple_press_opens(
    g: GameMode,
    t0: u64,
    t1: u64,
    t2: u64,
    v: (bool, bool, bool),
    f: (bool, bool, bool),
    auto: bool,
)
    requires
        t0 <= t1 <= t2,
        t2 - t0 <= TRIPLE_PRESS_MS,
    ensures
        ({
            let s1 = spec_press(g, t0, v.0, f.0, auto).0;
            let s2 = spec_press(s1, t1, v.1, f.1, auto).0;
            let r3 = spec_press(s2, t2, v.2, f.2, auto);
            r3.1 == Hotkey::Show && !r3.0.forced
        }),
{
}

/// Forced game mode blocks everywhere: a press that is not the third
/// within two seconds never opens a hidden popup while it is forced.
pub proof fn lemma_forced_blocks(g: GameMode, now: u64, fullscreen: bool, auto: bool)
    requires
        g.forced,
        !is_triple(g, now),
    ensures
        spec_press(g, now, false, fullscreen, auto).1 == Hotkey::Blocked,
{
}

} // verus!
