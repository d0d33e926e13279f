//! The `config.ini` format: themes, color overrides, font, hotkey, sizes,
//! game mode and editor.
//!
//! The text is read twice: first every `theme = ...` line applies its
//! palette, then every other key applies, so an explicit color key beats
//! the theme wherever the two lines stand. The two floating-point settings
//! (`width`, `font_size`) are handed on as the raw values their lines held,
//! in order, for the caller to parse and clamp.

use vstd::prelude::*;

use crate::text::{
    before, before_chars, chars_of, eq_ignore_ascii_case, eq_ignore_case_str, eq_str, lines, lines_of,
    split_once, split_once_chars, string_of, find, find_from, lemma_find, lowercase, parse_unsigned, parse_unsigned_chars,
    slice_vec, spec_lowercase, trim, trim_chars, views,
};

verus! {

/// Built-in dark themes: (name, bg, fg, dim, sel). Dark only, by design.
pub const THEMES: [(&'static str, u32, u32, u32, u32); 11] = [
    ("optim", 0x1B1B1D, 0xECECEE, 0x77777C, 0x2C2C31),
    ("dracula", 0x282A36, 0xF8F8F2, 0x6272A4, 0x44475A),
    ("one-dark", 0x282C34, 0xABB2BF, 0x5C6370, 0x3E4451),
    ("tokyo-night", 0x1A1B26, 0xC0CAF5, 0x565F89, 0x292E42),
    ("catppuccin-mocha", 0x1E1E2E, 0xCDD6F4, 0x6C7086, 0x313244),
    ("gruvbox", 0x282828, 0xEBDBB2, 0x928374, 0x3C3836),
    ("nord", 0x2E3440, 0xD8DEE9, 0x4C566A, 0x3B4252),
    ("monokai", 0x272822, 0xF8F8F2, 0x75715E, 0x49483E),
    ("solarized-dark", 0x002B36, 0x839496, 0x586E75, 0x073642),
    ("github-dark", 0x0D1117, 0xC9D1D9, 0x8B949E, 0x21262D),
    ("ayu-dark", 0x0A0E14, 0xB3B1AD, 0x4D5566, 0x1F2430),
];

/// Modifier bits as `RegisterHotKey` takes them.
pub const MOD_ALT: u32 = 0x0001;
pub const MOD_CONTROL: u32 = 0x0002;
pub const MOD_SHIFT: u32 = 0x0004;
pub const MOD_WIN: u32 = 0x0008;

/// Sum of the red, green and blue channels of `0xRRGGBB`.
pub open spec fn luminance(v: u32) -> int {
    (v / 0x10000) % 0x100 + (v / 0x100) % 0x100 + v % 0x100
}

/// Every built-in theme is dark: its background is less bright than its
/// foreground.
pub proof fn lemma_themes_are_dark()
    ensures
        forall|i: int| 0 <= i < 11 ==> luminance(#[trigger] THEMES[i].1) < luminance(THEMES[i].2),
{
    assert forall|i: int| 0 <= i < 11 implies luminance(#[trigger] THEMES[i].1) < luminance(
        THEMES[i].2,
    ) by {
        assert(0 <= i < 11);
    }
}

/// The settings that are not floating point.
pub struct Config {
    pub bg: u32,
    pub fg: u32,
    pub dim: u32,
    pub sel: u32,
    pub font: String,
    /// `MOD_*` bits.
    pub hotkey_mods: u32,
    pub hotkey_vk: u32,
    pub max_rows: usize,
    /// Auto game mode: don't pop over fullscreen apps (triple-press overrides).
    pub game_mode_auto: bool,
    /// Editor executable for "Open Config"; empty = system default for .ini.
    pub editor: String,
}

/// What a config text sets: the integer and text settings, and the raw
/// values of the `width` and `font_size` lines in the order they stand.
pub struct ParsedConfig {
    pub config: Config,
    pub width: Vec<String>,
    pub font_size: Vec<String>,
}

/// The mathematical form of the settings.
pub struct ConfigModel {
    pub bg: u32,
    pub fg: u32,
    pub dim: u32,
    pub sel: u32,
    pub font: Seq<char>,
    pub hotkey_mods: u32,
    pub hotkey_vk: u32,
    pub max_rows: usize,
    pub game_mode_auto: bool,
    pub editor: Seq<char>,
    pub width: Seq<Seq<char>>,
    pub font_size: Seq<Seq<char>>,
}

/// The characters of a vector of strings.
pub open spec fn string_views(v: Seq<String>) -> Seq<Seq<char>> {
    v.map_values(|s: String| s@)
}

impl ParsedConfig {
    pub open spec fn model(&self) -> ConfigModel {
        ConfigModel {
            bg: self.config.bg,
            fg: self.config.fg,
            dim: self.config.dim,
            sel: self.config.sel,
            font: self.config.font@,
            hotkey_mods: self.config.hotkey_mods,
            hotkey_vk: self.config.hotkey_vk,
            max_rows: self.config.max_rows,
            game_mode_auto: self.config.game_mode_auto,
            editor: self.config.editor@,
            width: string_views(self.width@),
            font_size: string_views(self.font_size@),
        }
    }
}

/// The settings before any line applies.
pub open spec fn default_model() -> ConfigModel {
    ConfigModel {
        bg: 0x1B1B1D,
        fg: 0xECECEE,
        dim: 0x77777C,
        sel: 0x2C2C31,
        font: "iosevka"@,
        hotkey_mods: MOD_ALT,
        hotkey_vk: 0x44,
        max_rows: 8,
        game_mode_auto: true,
        editor: Seq::empty(),
        width: Seq::empty(),
        font_size: Seq::empty(),
    }
}

impl Config {
    /// The defaults: the `optim` theme, bundled Iosevka, Alt+D, 8 rows,
    /// game mode on, the system editor.
    pub fn default_config() -> (c: Config)
        ensures
            c.bg == default_model().bg && c.fg == default_model().fg && c.dim
                == default_model().dim && c.sel == default_model().sel,
            c.font@ == default_model().font,
            c.hotkey_mods == default_model().hotkey_mods,
            c.hotkey_vk == default_model().hotkey_vk,
            c.max_rows == default_model().max_rows,
            c.game_mode_auto == default_model().game_mode_auto,
            c.editor@ == default_model().editor,
    {
        Config {
            bg: 0x1B1B1D,
            fg: 0xECECEE,
            dim: 0x77777C,
            sel: 0x2C2C31,
            font: String::from_str("iosevka"),
            hotkey_mods: MOD_ALT,
            hotkey_vk: 0x44,
            max_rows: 8,
            game_mode_auto: true,
            editor: String::new(),
        }
    }
}

// ------------------------------------------------------------ themes

/// The palette of the first theme from index `i` on named `name`.
pub open spec fn theme_from(name: Seq<char>, i: int) -> Option<(u32, u32, u32, u32)>
    decreases 11 - i,
{
    if !(0 <= i < 11) {
        None
    } else if THEMES[i].0@ == name {
        Some((THEMES[i].1, THEMES[i].2, THEMES[i].3, THEMES[i].4))
    } else {
        theme_from(name, i + 1)
    }
}

/// The palette of the built-in theme called `name`.
pub open spec fn theme_colors(name: Seq<char>) -> Option<(u32, u32, u32, u32)> {
    theme_from(name, 0)
}

/// Looks up a built-in theme by its exact name.
pub fn find_theme(name: &[char]) -> (r: Option<(u32, u32, u32, u32)>)
    ensures
        r == theme_colors(name@),
{
    let mut i: usize = 0;
    while i < 11
        invariant
            i <= 11,
            theme_colors(name@) == theme_from(name@, i as int),
        decreases 11 - i,
    {
        let t = THEMES[i];
        if eq_str(name, t.0) {
            return Some((t.1, t.2, t.3, t.4));
        }
        i = i + 1;
    }
    None
}

// ------------------------------------------------------------ hotkeys

/// `str::split(c)`: the pieces between the occurrences of `c`.
pub open spec fn split(s: Seq<char>, c: char) -> Seq<Seq<char>>
    decreases s.len(),
{
    match find(s, c) {
        Some(i) => {
            proof {
                lemma_find(s, c);
            }
            seq![s.take(i)] + split(s.skip(i + 1), c)
        },
        None => seq![s],
    }
}

/// The bit a modifier name stands for.
pub open spec fn modifier_bit(m: Seq<char>) -> Option<u32> {
    if m == "alt"@ {
        Some(MOD_ALT)
    } else if m == "ctrl"@ || m == "control"@ {
        Some(MOD_CONTROL)
    } else if m == "shift"@ {
        Some(MOD_SHIFT)
    } else if m == "win"@ {
        Some(MOD_WIN)
    } else {
        None
    }
}

/// The bits of all modifier names in `ms`, or `None` if one is unknown.
pub open spec fn modifier_bits(ms: Seq<Seq<char>>) -> Option<u32>
    decreases ms.len(),
{
    if ms.len() == 0 {
        Some(0)
    } else {
        match (modifier_bits(ms.drop_last()), modifier_bit(ms.last())) {
            (Some(a), Some(b)) => Some(a | b),
            _ => None,
        }
    }
}

/// The virtual-key code a key name stands for: `space`, one ASCII letter
/// or digit (its upper-case code), or `f1` to `f12`.
pub open spec fn key_code(k: Seq<char>) -> Option<u32> {
    if k == "space"@ {
        Some(0x20)
    } else if k.len() == 1 && (('a' <= k[0] && k[0] <= 'z') || ('A' <= k[0] && k[0] <= 'Z') || (
    '0' <= k[0] && k[0] <= '9')) {
        if 'a' <= k[0] && k[0] <= 'z' {
            Some((k[0] as u32 - 32) as u32)
        } else {
            Some(k[0] as u32)
        }
    } else if k.len() > 0 && k[0] == 'f' {
        match parse_unsigned(k.drop_first(), 10, u32::MAX as nat) {
            Some(n) => if 1 <= n <= 12 {
                Some((0x70 + n - 1) as u32)
            } else {
                None
            },
            None => None,
        }
    } else {
        None
    }
}

/// A hotkey written like `ctrl+alt+k`, already lowercase: the pieces
/// between `+` are trimmed, the last is the key, the others modifiers, and
/// at least one modifier is required so plain typing is never hijacked.
pub open spec fn spec_hotkey(v: Seq<char>) -> Option<(u32, u32)> {
    let parts = split(v, '+').map_values(|p: Seq<char>| trim(p));
    let key = parts.last();
    match modifier_bits(parts.drop_last()) {
        Some(m) => if m == 0 {
            None
        } else {
            match key_code(key) {
                Some(vk) => Some((m, vk)),
                None => None,
            }
        },
        None => None,
    }
}

/// Splitting always yields at least one piece, like `str::split`.
pub proof fn lemma_split_nonempty(s: Seq<char>, c: char)
    ensures
        split(s, c).len() >= 1,
    decreases s.len(),
{
    lemma_find(s, c);
    if let Some(i) = find(s, c) {
        lemma_split_nonempty(s.skip(i + 1), c);
    }
}

/// `str::split(c)`.
pub fn split_chars(s: &[char], c: char) -> (r: Vec<Vec<char>>)
    ensures
        views(r@) == split(s@, c),
{
    let mut out: Vec<Vec<char>> = Vec::new();
    let mut pos: usize = 0;
    assert(s@.skip(0) =~= s@);
    loop
        invariant
            pos <= s@.len(),
            split(s@, c) == views(out@) + split(s@.skip(pos as int), c),
        decreases s@.len() - pos,
    {
        let ghost rest = s@.skip(pos as int);
        match find_from(s, pos, c) {
            Some(i) => {
                let piece = slice_vec(s, pos, i);
                proof {
                    lemma_find(rest, c);
                    assert(rest.take(i - pos) =~= piece@);
                    assert(rest.skip(i - pos + 1) =~= s@.skip(i + 1));
                }
                let ghost before_push = views(out@);
                out.push(piece);
                assert(views(out@) =~= before_push + seq![piece@]);
                let n = s.len();
                assert(i < n);
                pos = i + 1;
            },
            None => {
                let piece = slice_vec(s, pos, s.len());
                assert(piece@ =~= rest);
                let ghost before_push = views(out@);
                out.push(piece);
                assert(views(out@) =~= before_push + seq![piece@]);
                assert(split(s@, c) =~= views(out@));
                return out;
            },
        }
    }
}

fn modifier_bit_exec(m: &[char]) -> (r: Option<u32>)
    ensures
        r == modifier_bit(m@),
{
    if eq_str(m, "alt") {
        Some(MOD_ALT)
    } else if eq_str(m, "ctrl") || eq_str(m, "control") {
        Some(MOD_CONTROL)
    } else if eq_str(m, "shift") {
        Some(MOD_SHIFT)
    } else if eq_str(m, "win") {
        Some(MOD_WIN)
    } else {
        None
    }
}

fn key_code_exec(k: &[char]) -> (r: Option<u32>)
    ensures
        r == key_code(k@),
{
    if eq_str(k, "space") {
        return Some(0x20);
    }
    if k.len() == 1 {
        let c = k[0];
        if 'a' <= c && c <= 'z' {
            return Some(c as u32 - 32);
        }
        if ('A' <= c && c <= 'Z') || ('0' <= c && c <= '9') {
            return Some(c as u32);
        }
    }
    if k.len() > 0 && k[0] == 'f' {
        let digits = slice_vec(k, 1, k.len());
        assert(digits@ =~= k@.drop_first());
        match parse_unsigned_chars(digits.as_slice(), 10, 0xFFFF_FFFF) {
            Some(n) => {
                if 1 <= n && n <= 12 {
                    return Some((0x70 + n - 1) as u32);
                }
                None
            },
            None => None,
        }
    } else {
        None
    }
}

/// A hotkey from text that is already lowercase.
pub fn hotkey_from_lower(v: &[char]) -> (r: Option<(u32, u32)>)
    ensures
        r == spec_hotkey(v@),
        r matches Some((m, _)) ==> m != 0,
{
    let raw = split_chars(v, '+');
    let ghost parts = split(v@, '+').map_values(|p: Seq<char>| trim(p));
    proof {
        lemma_split_nonempty(v@, '+');
    }
    let n = raw.len();
    let mut mods: u32 = 0;
    let mut i: usize = 0;
    while i + 1 < n
        invariant
            n == raw@.len(),
            n >= 1,
            views(raw@) == split(v@, '+'),
            parts == split(v@, '+').map_values(|p: Seq<char>| trim(p)),
            i + 1 <= n,
            modifier_bits(parts.drop_last().take(i as int)) == Some(mods),
        decreases n - i,
    {
        let m = trim_chars(raw[i].as_slice());
        assert(m@ == parts[i as int]);
        assert(parts.drop_last().take(i + 1).drop_last() =~= parts.drop_last().take(i as int));
        assert(parts.drop_last().take(i + 1).last() == parts[i as int]);
        match modifier_bit_exec(m.as_slice()) {
            Some(b) => {
                mods = mods | b;
            },
            None => {
                proof {
                    lemma_modifier_bits_none(parts.drop_last(), i as int + 1);
                }
                return None;
            },
        }
        i = i + 1;
    }
    assert(parts.drop_last().take(i as int) =~= parts.drop_last());
    if mods == 0 {
        return None;
    }
    let key = trim_chars(raw[n - 1].as_slice());
    assert(key@ == parts.last());
    match key_code_exec(key.as_slice()) {
        Some(vk) => Some((mods, vk)),
        None => None,
    }
}

proof fn lemma_modifier_bits_none(ms: Seq<Seq<char>>, k: int)
    requires
        0 <= k <= ms.len(),
        modifier_bits(ms.take(k)) is None,
    ensures
        modifier_bits(ms) is None,
    decreases ms.len() - k,
{
    if k < ms.len() {
        assert(ms.take(k + 1).drop_last() =~= ms.take(k));
        lemma_modifier_bits_none(ms, k + 1);
    } else {
        assert(ms.take(k) =~= ms);
    }
}

/// What [`parse_hotkey`] gives for `v`.
pub open spec fn spec_parse_hotkey(v: Seq<char>) -> Option<(u32, u32)> {
    spec_hotkey(spec_lowercase(v))
}

/// Parses a hotkey such as `alt+space`, `ctrl+alt+k` or `win+f2` into
/// (modifier bits, virtual-key code). The text is lowercased first.
pub fn parse_hotkey(v: &str) -> (r: Option<(u32, u32)>)
    ensures
        r == spec_hotkey(spec_lowercase(v@)),
        r == spec_parse_hotkey(v@),
        r matches Some((m, _)) ==> m != 0,
{
    let chars = chars_of(v);
    let lower = lowercase(chars.as_slice());
    hotkey_from_lower(lower.as_slice())
}

// ------------------------------------------------------------ the file

/// A line without its `#` comment.
pub open spec fn content(line: Seq<char>) -> Seq<char> {
    before(line, '#')
}

/// A six-character hex color (`RRGGBB`, optional `+` counting as one of
/// the six), as `set_hex` accepts it.
pub open spec fn hex_color(v: Seq<char>) -> Option<u32> {
    if v.len() == 6 {
        match parse_unsigned(v, 16, u32::MAX as nat) {
            Some(x) => Some(x as u32),
            None => None,
        }
    } else {
        None
    }
}

/// `s` without its leading `'"'` characters.
pub open spec fn strip_quotes_start(s: Seq<char>) -> Seq<char>
    decreases s.len(),
{
    if s.len() > 0 && s[0] == '"' {
        strip_quotes_start(s.drop_first())
    } else {
        s
    }
}

/// `s` without its trailing `'"'` characters.
pub open spec fn strip_quotes_end(s: Seq<char>) -> Seq<char>
    decreases s.len(),
{
    if s.len() > 0 && s.last() == '"' {
        strip_quotes_end(s.drop_last())
    } else {
        s
    }
}

/// `str::trim_matches('"')`.
pub open spec fn strip_quotes(s: Seq<char>) -> Seq<char> {
    strip_quotes_end(strip_quotes_start(s))
}

/// What one line does in the first pass: a `theme` line naming a built-in
/// theme sets the four colors.
pub open spec fn theme_line(c: ConfigModel, line: Seq<char>) -> ConfigModel {
    match split_once(content(line), '=') {
        Some((k, v)) => if eq_ignore_ascii_case(trim(k), "theme"@) {
            match theme_colors(spec_lowercase(trim(v))) {
                Some((bg, fg, dim, sel)) => ConfigModel { bg, fg, dim, sel, ..c },
                None => c,
            }
        } else {
            c
        },
        None => c,
    }
}

/// The first pass over `ls`, in order.
pub open spec fn apply_themes(c: ConfigModel, ls: Seq<Seq<char>>) -> ConfigModel
    decreases ls.len(),
{
    if ls.len() == 0 {
        c
    } else {
        theme_line(apply_themes(c, ls.drop_last()), ls.last())
    }
}

/// What one `key = value` does in the second pass. The key is trimmed and
/// lowercased, the value trimmed; a value a key cannot use leaves the
/// setting as it was.
pub open spec fn key_value(c: ConfigModel, key: Seq<char>, v: Seq<char>) -> ConfigModel {
    if key == "bg"@ {
        match hex_color(v) {
            Some(x) => ConfigModel { bg: x, ..c },
            None => c,
        }
    } else if key == "fg"@ {
        match hex_color(v) {
            Some(x) => ConfigModel { fg: x, ..c },
            None => c,
        }
    } else if key == "dim"@ {
        match hex_color(v) {
            Some(x) => ConfigModel { dim: x, ..c },
            None => c,
        }
    } else if key == "sel"@ {
        match hex_color(v) {
            Some(x) => ConfigModel { sel: x, ..c },
            None => c,
        }
    } else if key == "font"@ && v.len() > 0 {
        ConfigModel { font: v, ..c }
    } else if key == "editor"@ {
        ConfigModel { editor: strip_quotes(v), ..c }
    } else if key == "hotkey"@ {
        match spec_hotkey(spec_lowercase(v)) {
            Some((m, vk)) => ConfigModel { hotkey_mods: m, hotkey_vk: vk, ..c },
            None => c,
        }
    } else if key == "width"@ {
        ConfigModel { width: c.width.push(v), ..c }
    } else if key == "max_rows"@ {
        match parse_unsigned(v, 10, usize::MAX as nat) {
            Some(n) => ConfigModel {
                max_rows: (if n < 1 {
                    1
                } else if n > 16 {
                    16
                } else {
                    n
                }) as usize,
                ..c
            },
            None => c,
        }
    } else if key == "font_size"@ {
        ConfigModel { font_size: c.font_size.push(v), ..c }
    } else if key == "game_mode"@ {
        ConfigModel { game_mode_auto: !eq_ignore_ascii_case(v, "off"@), ..c }
    } else {
        c
    }
}

/// What one line does in the second pass.
pub open spec fn key_line(c: ConfigModel, line: Seq<char>) -> ConfigModel {
    match split_once(content(line), '=') {
        Some((k, v)) => key_value(c, spec_lowercase(trim(k)), trim(v)),
        None => c,
    }
}

/// The second pass over `ls`, in order.
pub open spec fn apply_keys(c: ConfigModel, ls: Seq<Seq<char>>) -> ConfigModel
    decreases ls.len(),
{
    if ls.len() == 0 {
        c
    } else {
        key_line(apply_keys(c, ls.drop_last()), ls.last())
    }
}

/// The settings a config text gives.
pub open spec fn spec_parse_config(text: Seq<char>) -> ConfigModel {
    let ls = lines(text);
    apply_keys(apply_themes(default_model(), ls), ls)
}

pub fn strip_quotes_chars(s: &[char]) -> (r: Vec<char>)
    ensures
        r@ == strip_quotes(s@),
{
    let mut i: usize = 0;
    assert(s@.skip(0) =~= s@);
    while i < s.len() && s[i] == '"'
        invariant
            i <= s@.len(),
            strip_quotes_start(s@) == strip_quotes_start(s@.skip(i as int)),
        decreases s.len() - i,
    {
        assert(s@.skip(i as int).drop_first() =~= s@.skip(i + 1));
        i = i + 1;
    }
    let a = slice_vec(s, i, s.len());
    proof {
        assert(a@ =~= s@.skip(i as int));
    }
    let mut j = a.len();
    assert(a@.take(j as int) =~= a@);
    while j > 0 && a[j - 1] == '"'
        invariant
            j <= a@.len(),
            strip_quotes_end(a@) == strip_quotes_end(a@.take(j as int)),
        decreases j,
    {
        assert(a@.take(j as int).drop_last() =~= a@.take(j - 1));
        j = j - 1;
    }
    assert(a@.take(a@.len() as int) =~= a@);
    let r = slice_vec(a.as_slice(), 0, j);
    assert(r@ =~= a@.take(j as int));
    r
}

fn hex_color_exec(v: &[char]) -> (r: Option<u32>)
    ensures
        r == hex_color(v@),
{
    if v.len() != 6 {
        return None;
    }
    match parse_unsigned_chars(v, 16, 0xFFFF_FFFF) {
        Some(x) => Some(x as u32),
        None => None,
    }
}

/// The hotkey in a value: lowercased, then parsed.
fn hotkey_value(v: &[char]) -> (r: Option<(u32, u32)>)
    ensures
        r == spec_hotkey(spec_lowercase(v@)),
{
    let lower = lowercase(v);
    hotkey_from_lower(lower.as_slice())
}

fn string_push(out: &mut Vec<String>, v: &[char])
    ensures
        string_views(final(out)@) == string_views(old(out)@).push(v@),
{
    let ghost old_v = string_views(out@);
    out.push(string_of(v));
    assert(string_views(out@) =~= old_v.push(v@));
}

impl ParsedConfig {
    fn apply_theme_line(&mut self, line: &[char])
        ensures
            final(self).model() == theme_line(old(self).model(), line@),
    {
        let body = before_chars(line, '#');
        match split_once_chars(body.as_slice(), '=') {
            Some((k, v)) => {
                let key = trim_chars(k.as_slice());
                if eq_ignore_case_str(key.as_slice(), "theme") {
                    let name = lowercase(trim_chars(v.as_slice()).as_slice());
                    match find_theme(name.as_slice()) {
                        Some((bg, fg, dim, sel)) => {
                            self.config.bg = bg;
                            self.config.fg = fg;
                            self.config.dim = dim;
                            self.config.sel = sel;
                        },
                        None => {},
                    }
                }
            },
            None => {},
        }
    }

    fn apply_key_line(&mut self, line: &[char])
        ensures
            final(self).model() == key_line(old(self).model(), line@),
    {
        let body = before_chars(line, '#');
        let (k, v0) = match split_once_chars(body.as_slice(), '=') {
            Some(kv) => kv,
            None => return ,
        };
        let key = lowercase(trim_chars(k.as_slice()).as_slice());
        let v = trim_chars(v0.as_slice());
        let k = key.as_slice();
        let v = v.as_slice();
        if eq_str(k, "bg") {
            if let Some(x) = hex_color_exec(v) {
                self.config.bg = x;
            }
        } else if eq_str(k, "fg") {
            if let Some(x) = hex_color_exec(v) {
                self.config.fg = x;
            }
        } else if eq_str(k, "dim") {
            if let Some(x) = hex_color_exec(v) {
                self.config.dim = x;
            }
        } else if eq_str(k, "sel") {
            if let Some(x) = hex_color_exec(v) {
                self.config.sel = x;
            }
        } else if eq_str(k, "font") && v.len() > 0 {
            self.config.font = string_of(v);
        } else if eq_str(k, "editor") {
            let e = strip_quotes_chars(v);
            self.config.editor = string_of(e.as_slice());
        } else if eq_str(k, "hotkey") {
            if let Some((m, vk)) = hotkey_value(v) {
                self.config.hotkey_mods = m;
                self.config.hotkey_vk = vk;
            }
        } else if eq_str(k, "width") {
            string_push(&mut self.width, v);
        } else if eq_str(k, "max_rows") {
            if let Some(n) = parse_unsigned_chars(v, 10, usize::MAX as u64) {
                let n = n as usize;
                self.config.max_rows = if n < 1 {
                    1
                } else if n > 16 {
                    16
                } else {
                    n
                };
            }
        } else if eq_str(k, "font_size") {
            string_push(&mut self.font_size, v);
        } else if eq_str(k, "game_mode") {
            self.config.game_mode_auto = !eq_ignore_case_str(v, "off");
        }
    }
}

/// Reads a config text: first the theme lines, then every other key.
pub fn parse_config(text: &str) -> (r: ParsedConfig)
    ensures
        r.model() == spec_parse_config(text@),
{
    let chars = chars_of(text);
    let ls = lines_of(chars.as_slice());
    let ghost lsv = views(ls@);
    let mut p = ParsedConfig {
        config: Config::default_config(),
        width: Vec::new(),
        font_size: Vec::new(),
    };
    assert(string_views(p.width@) =~= Seq::<Seq<char>>::empty());
    assert(string_views(p.font_size@) =~= Seq::<Seq<char>>::empty());
    assert(p.model() == default_model());
    let mut i: usize = 0;
    while i < ls.len()
        invariant
            lsv == views(ls@),
            i <= ls@.len(),
            p.model() == apply_themes(default_model(), lsv.take(i as int)),
        decreases ls.len() - i,
    {
        assert(lsv.take(i + 1).drop_last() =~= lsv.take(i as int));
        assert(ls@[i as int]@ == lsv[i as int]);
        p.apply_theme_line(ls[i].as_slice());
        i = i + 1;
    }
    assert(lsv.take(i as int) =~= lsv);
    let ghost themed = p.model();
    let mut j: usize = 0;
    while j < ls.len()
        invariant
            lsv == views(ls@),
            j <= ls@.len(),
            p.model() == apply_keys(themed, lsv.take(j as int)),
        decreases ls.len() - j,
    {
        assert(lsv.take(j + 1).drop_last() =~= lsv.take(j as int));
        assert(ls@[j as int]@ == lsv[j as int]);
        p.apply_key_line(ls[j].as_slice());
        j = j + 1;
    }
    assert(lsv.take(j as int) =~= lsv);
    p
}

// ------------------------------------------------------------ laws

/// The color that `key` (`bg`, `fg`, `dim` or `sel`) names.
pub open spec fn color(m: ConfigModel, key: Seq<char>) -> u32 {
    if key == "bg"@ {
        m.bg
    } else if key == "fg"@ {
        m.fg
    } else if key == "dim"@ {
        m.dim
    } else {
        m.sel
    }
}

/// The value a line gives the color key `key`, if it sets it validly.
pub open spec fn color_set_by(line: Seq<char>, key: Seq<char>) -> Option<u32> {
    match split_once(content(line), '=') {
        Some((k, v)) => if spec_lowercase(trim(k)) == key {
            hex_color(trim(v))
        } else {
            None
        },
        None => None,
    }
}

/// The four color keys.
pub open spec fn is_color_key(key: Seq<char>) -> bool {
    key == "bg"@ || key == "fg"@ || key == "dim"@ || key == "sel"@
}

proof fn lemma_key_line_color(c: ConfigModel, line: Seq<char>, key: Seq<char>)
    requires
        is_color_key(key),
    ensures
        color(key_line(c, line), key) == (match color_set_by(line, key) {
            Some(x) => x,
            None => color(c, key),
        }),
{
    reveal_strlit("bg");
    reveal_strlit("fg");
    reveal_strlit("dim");
    reveal_strlit("sel");
}

proof fn lemma_apply_keys_color(c: ConfigModel, ls: Seq<Seq<char>>, key: Seq<char>, i: int, x: u32)
    requires
        is_color_key(key),
        0 <= i < ls.len(),
        color_set_by(ls[i], key) == Some(x),
        forall|j: int| i < j < ls.len() ==> (#[trigger] color_set_by(ls[j], key)) is None,
    ensures
        color(apply_keys(c, ls), key) == x,
    decreases ls.len(),
{
    lemma_key_line_color(apply_keys(c, ls.drop_last()), ls.last(), key);
    if i < ls.len() - 1 {
        let d = ls.drop_last();
        assert forall|j: int| i < j < d.len() implies (#[trigger] color_set_by(d[j], key)) is None by {
            assert(d[j] == ls[j]);
        }
        lemma_apply_keys_color(c, d, key, i, x);
        assert(color_set_by(ls[ls.len() - 1], key) is None);
    }
}

/// Individual color keys override the theme: whatever `theme` lines the
/// text holds, and wherever they stand, a color takes the value of the last
/// line that sets it validly.
pub proof fn lemma_color_keys_override_theme(text: Seq<char>, key: Seq<char>, i: int, x: u32)
    requires
        is_color_key(key),
        0 <= i < lines(text).len(),
        color_set_by(lines(text)[i], key) == Some(x),
        forall|j: int|
            i < j < lines(text).len() ==> (#[trigger] color_set_by(lines(text)[j], key)) is None,
    ensures
        color(spec_parse_config(text), key) == x,
{
    let ls = lines(text);
    lemma_apply_keys_color(apply_themes(default_model(), ls), ls, key, i, x);
}

/// The (modifier bits, virtual-key code) a config holds.
pub open spec fn hotkey_of(m: ConfigModel) -> (u32, u32) {
    (m.hotkey_mods, m.hotkey_vk)
}

/// The value of a line whose key is `hotkey` (in any case), trimmed.
pub open spec fn hotkey_value_of(line: Seq<char>) -> Option<Seq<char>> {
    match split_once(content(line), '=') {
        Some((k, v)) => if spec_lowercase(trim(k)) == "hotkey"@ {
            Some(trim(v))
        } else {
            None
        },
        None => None,
    }
}

/// The hotkey a line sets: [`parse_hotkey`] of its value, when it is a
/// `hotkey` line whose value parses.
pub open spec fn hotkey_set_by(line: Seq<char>) -> Option<(u32, u32)> {
    match hotkey_value_of(line) {
        Some(v) => spec_parse_hotkey(v),
        None => None,
    }
}

proof fn lemma_key_line_hotkey(c: ConfigModel, line: Seq<char>)
    ensures
        hotkey_of(key_line(c, line)) == (match hotkey_set_by(line) {
            Some(h) => h,
            None => hotkey_of(c),
        }),
{
    reveal_strlit("bg");
    reveal_strlit("fg");
    reveal_strlit("dim");
    reveal_strlit("sel");
    reveal_strlit("font");
    reveal_strlit("editor");
    reveal_strlit("hotkey");
    match split_once(content(line), '=') {
        Some((k, v)) => {
            let key = spec_lowercase(trim(k));
            let val = trim(v);
            assert(key_line(c, line) == key_value(c, key, val));
            if key == "hotkey"@ {
                let hk = "hotkey"@;
                assert(hk.len() == 6 && hk[0] == 'h');
                assert("bg"@.len() == 2 && "fg"@.len() == 2 && "dim"@.len() == 3 && "sel"@.len() == 3);
                assert("font"@.len() == 4 && "editor"@[0] == 'e');
                assert(key != "bg"@ && key != "fg"@ && key != "dim"@ && key != "sel"@);
                assert(key != "font"@ && key != "editor"@);
                assert(hotkey_set_by(line) == spec_parse_hotkey(val));
            } else {
                assert(hotkey_set_by(line) is None);
                assert(hotkey_of(key_value(c, key, val)) == hotkey_of(c));
            }
        },
        None => {},
    }
}

proof fn lemma_apply_keys_hotkey(c: ConfigModel, ls: Seq<Seq<char>>, i: int, h: (u32, u32))
    requires
        0 <= i < ls.len(),
        hotkey_set_by(ls[i]) == Some(h),
        forall|j: int| i < j < ls.len() ==> (#[trigger] hotkey_set_by(ls[j])) is None,
    ensures
        hotkey_of(apply_keys(c, ls)) == h,
    decreases ls.len(),
{
    lemma_key_line_hotkey(apply_keys(c, ls.drop_last()), ls.last());
    if i < ls.len() - 1 {
        let d = ls.drop_last();
        assert forall|j: int| i < j < d.len() implies (#[trigger] hotkey_set_by(d[j])) is None by {
            assert(d[j] == ls[j]);
        }
        lemma_apply_keys_hotkey(c, d, i, h);
        assert(hotkey_set_by(ls[ls.len() - 1]) is None);
    }
}

/// The hotkey a config line sets is the one [`parse_hotkey`] gives for its
/// value, in whatever case it is written: the config's hotkey is that of
/// the last `hotkey` line whose value parses, and the key name's case does
/// not matter either.
pub proof fn lemma_hotkey_line_is_parse_hotkey(text: Seq<char>, i: int, m: u32, vk: u32)
    requires
        0 <= i < lines(text).len(),
        hotkey_value_of(lines(text)[i]) matches Some(v) && spec_parse_hotkey(v) == Some((m, vk)),
        forall|j: int| i < j < lines(text).len() ==> (#[trigger] hotkey_set_by(lines(text)[j])) is None,
    ensures
        spec_parse_config(text).hotkey_mods == m,
        spec_parse_config(text).hotkey_vk == vk,
{
    let ls = lines(text);
    lemma_apply_keys_hotkey(apply_themes(default_model(), ls), ls, i, (m, vk));
}

/// No hotkey line that parses: the hotkey stays the default Alt+D.
pub proof fn lemma_hotkey_default(text: Seq<char>)
    requires
        forall|j: int| 0 <= j < lines(text).len() ==> (#[trigger] hotkey_set_by(lines(text)[j])) is None,
    ensures
        hotkey_of(spec_parse_config(text)) == hotkey_of(default_model()),
{
    let ls = lines(text);
    lemma_apply_themes_hotkey(default_model(), ls);
    lemma_apply_keys_no_hotkey(apply_themes(default_model(), ls), ls);
}

proof fn lemma_apply_themes_hotkey(c: ConfigModel, ls: Seq<Seq<char>>)
    ensures
        hotkey_of(apply_themes(c, ls)) == hotkey_of(c),
    decreases ls.len(),
{
    if ls.len() > 0 {
        lemma_apply_themes_hotkey(c, ls.drop_last());
    }
}

proof fn lemma_apply_keys_no_hotkey(c: ConfigModel, ls: Seq<Seq<char>>)
    requires
        forall|j: int| 0 <= j < ls.len() ==> (#[trigger] hotkey_set_by(ls[j])) is None,
    ensures
        hotkey_of(apply_keys(c, ls)) == hotkey_of(c),
    decreases ls.len(),
{
    if ls.len() > 0 {
        let d = ls.drop_last();
        assert forall|j: int| 0 <= j < d.len() implies (#[trigger] hotkey_set_by(d[j])) is None by {
            assert(d[j] == ls[j]);
        }
        lemma_apply_keys_no_hotkey(c, d);
        lemma_key_line_hotkey(apply_keys(c, d), ls.last());
        assert(hotkey_set_by(ls[ls.len() - 1]) is None);
    }
}

} // verus!
