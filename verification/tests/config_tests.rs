use optim::config::{parse_config, parse_hotkey, THEMES};

#[test]
fn hotkeys() {
    assert_eq!(parse_hotkey("alt+space"), Some((1, 0x20)));
    assert_eq!(parse_hotkey("ctrl+alt+k"), Some((3, b'K' as u32)));
    assert_eq!(parse_hotkey("win+f2"), Some((8, 0x71)));
    assert_eq!(parse_hotkey("space"), None); // no modifier
    assert_eq!(parse_hotkey("alt+escape"), None);
}

#[test]
fn theme_table_sane() {
    assert_eq!(THEMES.len(), 11);
    assert!(THEMES.iter().any(|(n, ..)| *n == "dracula"));
    // every theme is dark: background luminance below foreground's
    for (name, bg, fg, ..) in THEMES {
        let lum = |v: u32| (v >> 16 & 0xFF) + (v >> 8 & 0xFF) + (v & 0xFF);
        assert!(lum(bg) < lum(fg), "{name} is not dark");
    }
}

#[test]
fn hotkey_edge_cases() {
    assert_eq!(parse_hotkey("ALT + Shift + F12"), Some((5, 0x7B)));
    assert_eq!(parse_hotkey("control+1"), Some((2, b'1' as u32)));
    assert_eq!(parse_hotkey("alt+f"), Some((1, b'F' as u32)));
    assert_eq!(parse_hotkey("alt+f13"), None);
    assert_eq!(parse_hotkey("alt+f0"), None);
    assert_eq!(parse_hotkey("alt+f+1"), None);
    assert_eq!(parse_hotkey("hyper+a"), None);
    assert_eq!(parse_hotkey("alt+alt+a"), Some((1, b'A' as u32)));
    assert_eq!(parse_hotkey(""), None);
}

#[test]
fn defaults_without_text() {
    let p = parse_config("");
    assert_eq!(p.config.bg, 0x1B1B1D);
    assert_eq!(p.config.fg, 0xECECEE);
    assert_eq!(p.config.font, "iosevka");
    assert_eq!((p.config.hotkey_mods, p.config.hotkey_vk), (1, 0x44));
    assert_eq!(p.config.max_rows, 8);
    assert!(p.config.game_mode_auto);
    assert_eq!(p.config.editor, "");
    assert!(p.width.is_empty() && p.font_size.is_empty());
}

#[test]
fn color_keys_override_the_theme_wherever_they_stand() {
    let p = parse_config("bg = 112233\ntheme = dracula\n");
    assert_eq!(p.config.bg, 0x112233);
    assert_eq!(p.config.fg, 0xF8F8F2);
    let p = parse_config("Theme = Nord # comment\nfg=abcdef");
    assert_eq!(p.config.bg, 0x2E3440);
    assert_eq!(p.config.fg, 0xABCDEF);
}

#[test]
fn config_values() {
    let text = "font = Fira Code\neditor = \"C:\\Tools\\ed.exe\"\nhotkey = ctrl+space\nmax_rows = 40\nwidth = 800\nwidth = abc\nfont_size = 12\ngame_mode = OFF\nbg = 12345\nsel = +12345\n";
    let p = parse_config(text);
    assert_eq!(p.config.font, "Fira Code");
    assert_eq!(p.config.editor, "C:\\Tools\\ed.exe");
    assert_eq!((p.config.hotkey_mods, p.config.hotkey_vk), (2, 0x20));
    assert_eq!(p.config.max_rows, 16);
    assert_eq!(p.width, vec!["800".to_string(), "abc".to_string()]);
    assert_eq!(p.font_size, vec!["12".to_string()]);
    assert!(!p.config.game_mode_auto);
    assert_eq!(p.config.bg, 0x1B1B1D); // five digits: ignored
    assert_eq!(p.config.sel, 0x12345); // from_str_radix takes a leading '+'
    let p = parse_config("max_rows = 0\nfont =\n");
    assert_eq!(p.config.max_rows, 1);
    assert_eq!(p.config.font, "iosevka");
}
