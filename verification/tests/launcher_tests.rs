use optim::frecency::Frecency;
use optim::hidden::{hide_app, unhide, HiddenApps};
use optim::index::{new_entry, AppEntry};
use optim::launcher::{
    delete_forward, edit_char, enter, next_boundary, prev_boundary, select_down, select_up,
    terminal_command, terminal_query, update_matches, CharEdit, EnterOutcome, Hit, COMMANDS,
};
use optim::launcher::{
    delete_key, edit_char_selected, enter_with, font_choice, hide_target, key_action, service_of,
    tray_command, url_query, Action, FontChoice, KeyAction, TrayCommand,
};
use optim::gamemode::{covers, initial, press, toggle_forced, Hotkey};

fn chars(s: &str) -> Vec<char> {
    s.chars().collect()
}

fn app(name: &str) -> AppEntry {
    new_entry(name, &format!("{name}.id"), None).unwrap()
}

#[test]
fn caret_moves() {
    let t = chars("open  the door");
    assert_eq!(prev_boundary(&t, 14, false), 13);
    assert_eq!(prev_boundary(&t, 14, true), 10);
    assert_eq!(prev_boundary(&t, 10, true), 6);
    assert_eq!(prev_boundary(&t, 6, true), 0);
    assert_eq!(prev_boundary(&t, 0, false), 0);
    assert_eq!(next_boundary(&t, 0, true), 4);
    assert_eq!(next_boundary(&t, 4, true), 9);
    assert_eq!(next_boundary(&t, 10, true), 14);
    assert_eq!(next_boundary(&t, 14, false), 14);
}

#[test]
fn typing_and_deleting() {
    let t = chars("ab");
    match edit_char(&t, 1, 'x' as u16, false) {
        CharEdit::Edited(v, c) => {
            assert_eq!(v, chars("axb"));
            assert_eq!(c, 2);
        }
        CharEdit::Ignore => panic!("typing is an edit"),
    }
    match edit_char(&chars("foo bar"), 7, 0x08, true) {
        CharEdit::Edited(v, c) => {
            assert_eq!(v, chars("foo "));
            assert_eq!(c, 4);
        }
        CharEdit::Ignore => panic!("backspace is an edit"),
    }
    match edit_char(&chars("foo bar"), 7, 0x7F, false) {
        CharEdit::Edited(v, _) => assert_eq!(v, chars("foo ")),
        CharEdit::Ignore => panic!("ctrl+backspace is an edit"),
    }
    assert!(matches!(edit_char(&t, 0, 0x0D, false), CharEdit::Ignore));
    assert!(matches!(edit_char(&t, 0, 0x01, false), CharEdit::Ignore));
    match edit_char(&t, 0, 0xD800, false) {
        CharEdit::Edited(v, c) => {
            assert_eq!(v, t);
            assert_eq!(c, 0);
        }
        CharEdit::Ignore => panic!("a lone surrogate still refreshes"),
    }
    assert_eq!(delete_forward(&chars("foo bar"), 0, true), chars(" bar"));
    assert_eq!(delete_forward(&chars("foo bar"), 3, false), chars("foobar"));
}

#[test]
fn terminal_queries() {
    assert!(terminal_query(&chars("  > ipconfig ")));
    assert_eq!(terminal_command(&chars("  > ipconfig ")), chars("ipconfig"));
    assert!(!terminal_query(&chars("ip > config")));
    assert_eq!(terminal_command(&chars("firefox")), chars(""));
}

#[test]
fn ranking_prefers_prefix_launches_and_caps_rows() {
    let apps = vec![app("Calculator"), app("Clamav"), app("Notepad")];
    let mut frec = Frecency::new();
    let m = update_matches(&chars("cla"), &apps, &frec, &HiddenApps::new(), 8);
    assert!(!m.terminal);
    assert_eq!(m.hits[0], Hit::App(1));
    assert!(m.hits.contains(&Hit::App(0)));
    assert!(!m.hits.contains(&Hit::App(2)));
    // calculator 31 + boost 40 beats clamav 48
    frec.set("Calculator", 25);
    let m = update_matches(&chars("cla"), &apps, &frec, &HiddenApps::new(), 8);
    assert_eq!(m.hits[0], Hit::App(0));
    let m = update_matches(&chars("o"), &apps, &frec, &HiddenApps::new(), 2);
    assert_eq!(m.hits.len(), 2);
    assert!(update_matches(&chars("   "), &apps, &frec, &HiddenApps::new(), 8).hits.is_empty());
}

#[test]
fn commands_ride_the_same_search() {
    let apps: Vec<AppEntry> = Vec::new();
    let frec = Frecency::new();
    let m = update_matches(&chars("Reboot"), &apps, &frec, &HiddenApps::new(), 8);
    assert_eq!(m.hits, vec![Hit::Cmd(4)]);
    assert_eq!(COMMANDS[4].0, "Restart");
    let m = update_matches(&chars(">"), &apps, &frec, &HiddenApps::new(), 8);
    assert!(m.terminal && m.hits.is_empty());
    let m = update_matches(&chars("> dir"), &apps, &frec, &HiddenApps::new(), 8);
    assert_eq!(m.hits, vec![Hit::Term]);
}

#[test]
fn selection_and_enter() {
    assert_eq!(select_up(0, 3), 2);
    assert_eq!(select_up(2, 3), 1);
    assert_eq!(select_down(2, 3), 0);
    let hits = vec![Hit::App(7), Hit::Cmd(2), Hit::Term];
    assert_eq!(enter(0, true, &hits), EnterOutcome::CopyCalc);
    assert_eq!(enter(1, true, &hits), EnterOutcome::Launch(7));
    assert_eq!(enter(1, false, &hits), EnterOutcome::Command(2));
    assert_eq!(enter(2, false, &hits), EnterOutcome::Terminal);
    assert_eq!(enter(3, false, &hits), EnterOutcome::Nothing);
}

#[test]
fn tray_items_run_their_actions() {
    assert_eq!(tray_command(1, 0), Some(TrayCommand::Run(Action::OpenConfig)));
    assert_eq!(tray_command(2, 0), Some(TrayCommand::Run(Action::ReloadConfig)));
    assert_eq!(tray_command(3, 0), Some(TrayCommand::Run(Action::RefreshApps)));
    assert_eq!(tray_command(4, 0), Some(TrayCommand::Run(Action::Quit)));
    // A dismissed menu returns 0.
    assert_eq!(tray_command(0, 2), None);
    assert_eq!(tray_command(5, 2), Some(TrayCommand::Run(Action::GameMode)));
    assert_eq!(tray_command(6, 2), None);
    // The Hidden Apps submenu: one item per listed app.
    assert_eq!(tray_command(100, 2), Some(TrayCommand::Unhide(0)));
    assert_eq!(tray_command(101, 2), Some(TrayCommand::Unhide(1)));
    assert_eq!(tray_command(102, 2), None);
}

#[test]
fn the_font_falls_back_when_the_bundled_one_is_missing() {
    assert!(matches!(font_choice("", true), FontChoice::Bundled));
    assert!(matches!(font_choice("IOSEVKA", true), FontChoice::Bundled));
    match font_choice("iosevka", false) {
        FontChoice::Installed(f) => assert_eq!(f, "Segoe UI Variable Text"),
        FontChoice::Bundled => panic!("the bundled font did not load"),
    }
    match font_choice("Cascadia Mono", true) {
        FontChoice::Installed(f) => assert_eq!(f, "Cascadia Mono"),
        FontChoice::Bundled => panic!("an installed family was named"),
    }
}

#[test]
fn hidden_apps_are_not_suggested() {
    let apps = vec![app("Calculator"), app("Clamav"), app("Notepad")];
    let frec = Frecency::new();
    let mut hidden = HiddenApps::new();
    // Hidden by key: the display name could collide or change.
    hide_app(&mut hidden, "Clamav.id", "Clamav");
    let m = update_matches(&chars("cla"), &apps, &frec, &hidden, 8);
    assert_eq!(m.hits[0], Hit::App(0));
    assert!(!m.hits.contains(&Hit::App(1)));
    // Hiding by a display name hides nothing.
    let mut by_name = HiddenApps::new();
    hide_app(&mut by_name, "Clamav", "Clamav");
    let m = update_matches(&chars("cla"), &apps, &frec, &by_name, 8);
    assert_eq!(m.hits[0], Hit::App(1));
    unhide(&mut hidden, "Clamav.id");
    let m = update_matches(&chars("cla"), &apps, &frec, &hidden, 8);
    assert_eq!(m.hits[0], Hit::App(1));
}

#[test]
fn unhide_all_is_a_command() {
    let apps: Vec<AppEntry> = Vec::new();
    let m = update_matches(&chars("unhide"), &apps, &Frecency::new(), &HiddenApps::new(), 8);
    assert_eq!(m.hits, vec![Hit::Cmd(9)]);
    assert_eq!(COMMANDS[9].0, "optim: Unhide All Apps");
    assert_eq!(COMMANDS[9].2, Action::UnhideAll);
}

#[test]
fn ctrl_shift_enter_launches_elevated() {
    let hits = vec![Hit::App(7), Hit::Cmd(2), Hit::Term];
    assert_eq!(enter_with(0, false, &hits, true), EnterOutcome::LaunchElevated(7));
    assert_eq!(enter_with(0, false, &hits, false), EnterOutcome::Launch(7));
    assert_eq!(enter_with(2, false, &hits, true), EnterOutcome::TerminalElevated);
    assert_eq!(enter_with(1, false, &hits, true), EnterOutcome::Command(2));
    assert_eq!(enter_with(0, true, &hits, true), EnterOutcome::CopyCalc);
    assert_eq!(key_action(0x0D, true, true), KeyAction::Enter(true));
    assert_eq!(key_action(0x0D, true, false), KeyAction::Enter(false));
}

#[test]
fn hiding_keys_pick_the_selected_app() {
    let hits = vec![Hit::App(7), Hit::Cmd(2)];
    assert_eq!(hide_target(0, false, &hits), Some(7));
    assert_eq!(hide_target(1, false, &hits), None);
    assert_eq!(hide_target(0, true, &hits), None);
    assert_eq!(key_action(0x48, true, false), KeyAction::HideSelected);
    assert_eq!(key_action(0x2E, false, true), KeyAction::HideSelected);
    assert_eq!(key_action(0x2E, true, false), KeyAction::Delete(true));
    assert_eq!(key_action(0x48, false, false), KeyAction::Other);
    assert_eq!(key_action(0x25, true, false), KeyAction::Left(true));
    assert_eq!(key_action(0x1B, false, false), KeyAction::Close);
}

#[test]
fn select_all_then_typing_replaces_the_query() {
    assert_eq!(key_action(0x41, true, false), KeyAction::SelectAll);
    match edit_char_selected(&chars("notepad"), 3, 'x' as u16, false, true) {
        CharEdit::Edited(t, k) => {
            assert_eq!(t, chars("x"));
            assert_eq!(k, 1);
        }
        CharEdit::Ignore => panic!("typing edits"),
    }
    match edit_char_selected(&chars("notepad"), 7, 0x08, false, true) {
        CharEdit::Edited(t, k) => assert!(t.is_empty() && k == 0),
        CharEdit::Ignore => panic!("backspace edits"),
    }
    // Without the selection, typing inserts.
    match edit_char_selected(&chars("ab"), 1, 'x' as u16, false, false) {
        CharEdit::Edited(t, k) => assert!(t == chars("axb") && k == 2),
        CharEdit::Ignore => panic!("typing edits"),
    }
    // Ctrl+A's own character changes nothing.
    assert!(matches!(edit_char_selected(&chars("ab"), 1, 0x01, true, true), CharEdit::Ignore));
    assert_eq!(delete_key(&chars("foo bar"), 2, false, true), (chars(""), 0));
    assert_eq!(delete_key(&chars("foo bar"), 2, false, false), (chars("fo bar"), 2));
}

#[test]
fn a_pasted_url_is_queued_for_watching() {
    let apps = vec![app("Calculator")];
    assert!(url_query(&chars("  https://host/clip.mp4 ")));
    assert!(url_query(&chars("http://x")));
    assert!(!url_query(&chars("htt")));
    assert!(!url_query(&chars("see https://x")));
    let m = update_matches(&chars(" https://host/clip.mp4"), &apps, &Frecency::new(), &HiddenApps::new(), 8);
    assert_eq!(m.hits, vec![Hit::Watch]);
    assert!(!m.terminal);
    assert_eq!(enter_with(0, false, &m.hits, false), EnterOutcome::Watch);
}

#[test]
fn service_commands_ride_the_search() {
    let apps: Vec<AppEntry> = Vec::new();
    let m = update_matches(&chars("komorebi retile"), &apps, &Frecency::new(), &HiddenApps::new(), 8);
    let Hit::Cmd(i) = m.hits[0] else { panic!("a command row") };
    assert_eq!(COMMANDS[i].0, "komorebi: Retile");
    assert_eq!(service_of(COMMANDS[i].2), Some(5));
    assert_eq!(service_of(Action::WhkdRestart), Some(6));
    assert_eq!(service_of(Action::Quit), None);
    let names: Vec<&str> = COMMANDS.iter().map(|c| c.0).collect();
    for n in [
        "optim: Watch Queue",
        "optim: Clear Watch Queue",
        "optim: Watch Queue Folder",
        "optim: Game Mode",
        "komorebi: Start",
        "komorebi: Stop",
        "komorebi: Restart",
        "komorebi: Reload Config",
        "komorebi: Toggle Pause",
        "whkd: Restart",
    ] {
        assert!(names.contains(&n), "{n}");
    }
}

#[test]
fn game_mode_blocks_until_a_triple_press() {
    let g = initial();
    // Off: a press opens, the next closes.
    let (g1, h) = press(g, 1_000, false, false, true);
    assert_eq!(h, Hotkey::Show);
    let (_, h) = press(g1, 10_000, true, false, true);
    assert_eq!(h, Hotkey::Hide);
    // Auto: a fullscreen app keeps it closed...
    let (g2, h) = press(initial(), 20_000, false, true, true);
    assert_eq!(h, Hotkey::Blocked);
    // ...unless game mode is off in the config.
    assert_eq!(press(initial(), 20_000, false, true, false).1, Hotkey::Show);
    // Forced: blocked anywhere, until three presses within two seconds.
    let forced = toggle_forced(g2);
    assert!(forced.forced);
    let (a, h) = press(forced, 30_000, false, false, true);
    assert_eq!(h, Hotkey::Blocked);
    let (b, h) = press(a, 30_900, false, false, true);
    assert_eq!(h, Hotkey::Blocked);
    let (c, h) = press(b, 31_800, false, false, true);
    assert_eq!(h, Hotkey::Show);
    assert!(!c.forced);
    // Three presses spread over more than two seconds are not a triple.
    let (a, _) = press(forced, 40_000, false, false, true);
    let (b, _) = press(a, 41_000, false, false, true);
    assert_eq!(press(b, 42_001, false, false, true).1, Hotkey::Blocked);
}

#[test]
fn fullscreen_is_covering_the_monitor() {
    assert!(covers((0, 0, 1920, 1080), (0, 0, 1920, 1080)));
    assert!(covers((-8, -8, 1928, 1088), (0, 0, 1920, 1080)));
    assert!(!covers((0, 0, 1920, 1040), (0, 0, 1920, 1080)));
    assert!(covers((1920, 0, 4480, 1440), (1920, 0, 4480, 1440)));
}

#[test]
fn the_selection_wraps_from_anywhere() {
    assert_eq!(select_down(5, 3), 0);
    assert_eq!(select_down(usize::MAX, 3), ((usize::MAX % 3) + 1) % 3);
}
