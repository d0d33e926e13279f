//! The watch queue: the history format, the mpv IPC commands, download
//! names and labels, and the policies that decide what the queue keeps.
//!
//! The history *is* the playlist. Nothing is ever evicted on a timer or a
//! size cap: a video leaves the queue only when it is explicitly dropped.

use vstd::prelude::*;
use vstd::utf8::encode_utf8;

use crate::text::{
    before, chars_of, concat, dec_digits, lines, dec_string, eq_chars, find, lemma_find, lowercase,
    parse_unsigned, parse_unsigned_chars, slice_vec, spec_lowercase, string_of, trim, trim_chars,
};
use crate::config::{split, split_chars};

verus! {

/// Nothing this small is a playable video; it's a host's error page.
pub const MIN_MEDIA_BYTES: u64 = 65536;

/// A file this young may be a download still in flight on another thread:
/// it is small and new for a reason, so never judge or delete it.
pub const IN_FLIGHT_GRACE_SECS: u64 = 300;

/// Downloads run a few at a time, so the first videos become watchable
/// while the rest are still coming down.
pub const MAX_PARALLEL_DOWNLOADS: usize = 3;

/// One remembered video: when it was queued (ms), where it landed, where it
/// came from.
#[derive(Clone, Debug, PartialEq)]
pub struct Entry {
    pub added: u64,
    pub path: String,
    pub url: String,
}

// ------------------------------------------------------------ JSON

/// Lowercase hex digit for `d < 16`.
pub open spec fn hex_digit(d: nat) -> char {
    if d < 10 {
        (48 + d) as char
    } else {
        (87 + d) as char
    }
}

/// How one character is written inside a JSON string.
pub open spec fn escape_char(c: char) -> Seq<char> {
    if c == '"' {
        seq!['\\', '"']
    } else if c == '\\' {
        seq!['\\', '\\']
    } else if (c as u32) < 0x20 {
        seq!['\\', 'u', '0', '0', hex_digit((c as u32 / 16) as nat), hex_digit((c as u32 % 16) as nat)]
    } else {
        seq![c]
    }
}

/// The characters of `s`, each escaped.
pub open spec fn escape_body(s: Seq<char>) -> Seq<char>
    decreases s.len(),
{
    if s.len() == 0 {
        Seq::empty()
    } else {
        escape_body(s.drop_last()) + escape_char(s.last())
    }
}

/// The escaped text holds no raw control character, so a command stays on
/// one line of the IPC pipe.
pub proof fn lemma_escape_no_control(s: Seq<char>)
    ensures
        forall|k: int| 0 <= k < escape_body(s).len() ==> (#[trigger] escape_body(s)[k]) as u32 >= 0x20,
    decreases s.len(),
{
    if s.len() > 0 {
        lemma_escape_no_control(s.drop_last());
        let a = escape_body(s.drop_last());
        let b = escape_char(s.last());
        assert forall|k: int| 0 <= k < b.len() implies (#[trigger] b[k]) as u32 >= 0x20 by {
            let c = s.last();
            if (c as u32) < 0x20 && c != '"' && c != '\\' {
                assert(c as u32 / 16 < 2);
            }
        }
        assert forall|k: int| 0 <= k < (a + b).len() implies ((#[trigger] (a + b)[k]) as u32 >= 0x20) by {
            if k < a.len() {
                assert((a + b)[k] == a[k]);
            } else {
                assert((a + b)[k] == b[k - a.len()]);
            }
        }
    }
}

/// `s` as a quoted JSON string.
pub open spec fn spec_json_escape(s: Seq<char>) -> Seq<char> {
    seq!['"'] + escape_body(s) + seq!['"']
}

/// The value of a hex digit (`0`-`9`, `a`-`f`); zero for anything else.
pub open spec fn hex_val(c: char) -> int {
    if '0' <= c && c <= '9' {
        c as int - 48
    } else if 'a' <= c && c <= 'f' {
        c as int - 87
    } else {
        0
    }
}

/// Decodes the inside of a JSON string: `\"`, `\\` and `\uXXXX` become the
/// characters they stand for; every other character stands for itself.
pub open spec fn json_unescape(t: Seq<char>) -> Seq<char>
    decreases t.len(),
{
    if t.len() == 0 {
        Seq::empty()
    } else if t[0] == '\\' && t.len() >= 2 && (t[1] == '"' || t[1] == '\\') {
        seq![t[1]] + json_unescape(t.skip(2))
    } else if t[0] == '\\' && t.len() >= 6 && t[1] == 'u' {
        let v = 4096 * hex_val(t[2]) + 256 * hex_val(t[3]) + 16 * hex_val(t[4]) + hex_val(t[5]);
        seq![(v as u32) as char] + json_unescape(t.skip(6))
    } else {
        seq![t[0]] + json_unescape(t.skip(1))
    }
}

/// The value of a JSON string literal: the decoded text between its quotes.
pub open spec fn json_string_value(t: Seq<char>) -> Option<Seq<char>> {
    if t.len() >= 2 && t[0] == '"' && t.last() == '"' {
        Some(json_unescape(t.subrange(1, t.len() - 1)))
    } else {
        None
    }
}

proof fn lemma_escape_body_front(s: Seq<char>)
    requires
        s.len() > 0,
    ensures
        escape_body(s) == escape_char(s[0]) + escape_body(s.drop_first()),
    decreases s.len(),
{
    if s.len() == 1 {
        assert(s.drop_last() =~= Seq::<char>::empty());
        assert(s.drop_first() =~= Seq::<char>::empty());
        assert(escape_body(s.drop_last()) == Seq::<char>::empty());
        assert(s.last() == s[0]);
        assert(escape_body(s) =~= Seq::<char>::empty() + escape_char(s[0]));
        assert(escape_body(s) =~= escape_char(s[0]) + escape_body(s.drop_first()));
    } else {
        lemma_escape_body_front(s.drop_last());
        assert(s.drop_last().drop_first() =~= s.drop_first().drop_last());
        assert(s.drop_first().last() == s.last());
        assert(escape_body(s) =~= escape_char(s[0]) + escape_body(s.drop_first()));
    }
}

proof fn lemma_hex_digit_val(d: nat)
    requires
        d < 16,
    ensures
        hex_val(hex_digit(d)) == d,
{
}

proof fn lemma_unescape_char(c: char, rest: Seq<char>)
    ensures
        json_unescape(escape_char(c) + rest) == seq![c] + json_unescape(rest),
{
    let t = escape_char(c) + rest;
    if c == '"' || c == '\\' {
        assert(t.skip(2) =~= rest);
    } else if (c as u32) < 0x20 {
        let u = c as u32;
        lemma_hex_digit_val((u / 16) as nat);
        lemma_hex_digit_val((u % 16) as nat);
        assert(hex_val('0') == 0);
        assert(t[2] == '0' && t[3] == '0');
        assert(t.skip(6) =~= rest);
        let v = 4096 * hex_val(t[2]) + 256 * hex_val(t[3]) + 16 * hex_val(t[4]) + hex_val(t[5]);
        assert(v == u);
        vstd::utf8::char_u32_cast(c, u);
    } else {
        assert(t[0] == c);
        assert(t.skip(1) =~= rest);
    }
}

proof fn lemma_unescape_body(s: Seq<char>)
    ensures
        json_unescape(escape_body(s)) == s,
    decreases s.len(),
{
    if s.len() == 0 {
    } else {
        lemma_escape_body_front(s);
        lemma_unescape_body(s.drop_first());
        lemma_unescape_char(s[0], escape_body(s.drop_first()));
        assert(seq![s[0]] + s.drop_first() =~= s);
    }
}

/// Escaping is undone by decoding: the escaped text is a JSON string
/// literal whose value is `s`.
pub proof fn lemma_json_escape_decodes(s: Seq<char>)
    ensures
        json_string_value(spec_json_escape(s)) == Some(s),
{
    let t = spec_json_escape(s);
    assert(t.subrange(1, t.len() - 1) =~= escape_body(s));
    lemma_unescape_body(s);
}

fn hex_digit_exec(d: u32) -> (c: char)
    requires
        d < 16,
    ensures
        c == hex_digit(d as nat),
{
    if d < 10 {
        (48 + d as u8) as char
    } else {
        (87 + d as u8) as char
    }
}

fn push_all(out: &mut Vec<char>, s: &[char])
    ensures
        final(out)@ == old(out)@ + s@,
{
    let mut i: usize = 0;
    while i < s.len()
        invariant
            i <= s@.len(),
            out@ == old(out)@ + s@.take(i as int),
        decreases s.len() - i,
    {
        out.push(s[i]);
        assert(out@ =~= old(out)@ + s@.take(i + 1));
        i = i + 1;
    }
    assert(s@.take(i as int) =~= s@);
}

fn json_escape_chars(s: &[char]) -> (r: Vec<char>)
    ensures
        r@ == spec_json_escape(s@),
{
    let mut out: Vec<char> = Vec::new();
    out.push('"');
    let mut i: usize = 0;
    while i < s.len()
        invariant
            i <= s@.len(),
            out@ == seq!['"'] + escape_body(s@.take(i as int)),
        decreases s.len() - i,
    {
        let c = s[i];
        let ghost before_c = out@;
        if c == '"' {
            out.push('\\');
            out.push('"');
        } else if c == '\\' {
            out.push('\\');
            out.push('\\');
        } else if (c as u32) < 0x20 {
            out.push('\\');
            out.push('u');
            out.push('0');
            out.push('0');
            out.push(hex_digit_exec(c as u32 / 16));
            out.push(hex_digit_exec(c as u32 % 16));
        } else {
            out.push(c);
        }
        assert(out@ =~= before_c + escape_char(c));
        assert(s@.take(i + 1).drop_last() =~= s@.take(i as int));
        i = i + 1;
    }
    assert(s@.take(i as int) =~= s@);
    out.push('"');
    out
}

/// `s` as a quoted JSON string: quotes and backslashes escaped, control
/// characters as `\u00XX`.
pub fn json_escape(s: &str) -> (r: String)
    ensures
        r@ == spec_json_escape(s@),
        json_string_value(r@) == Some(s@),
{
    proof {
        lemma_json_escape_decodes(s@);
    }
    let c = chars_of(s);
    let e = json_escape_chars(c.as_slice());
    string_of(e.as_slice())
}

/// The mpv command that loads `target` with `mode` (`append`,
/// `append-play`).
pub open spec fn spec_loadfile_cmd(target: Seq<char>, mode: Seq<char>) -> Seq<char> {
    "{\"command\":[\"loadfile\","@ + spec_json_escape(target) + ",\""@ + mode + "\"]}"@
}

/// `{"command":["loadfile",<target>,"<mode>"]}`.
pub fn loadfile_cmd(target: &str, mode: &str) -> (r: String)
    ensures
        r@ == spec_loadfile_cmd(target@, mode@),
{
    let mut out = String::from_str("{\"command\":[\"loadfile\",");
    let t = json_escape(target);
    out.append(t.as_str());
    out.append(",\"");
    out.append(mode);
    out.append("\"]}");
    out
}

/// The mpv command that shows `text` on the player for 2.5 s.
pub open spec fn spec_osd_cmd(text: Seq<char>) -> Seq<char> {
    "{\"command\":[\"show-text\","@ + spec_json_escape(text) + ",2500]}"@
}

/// `{"command":["show-text",<text>,2500]}`.
pub fn osd_cmd(text: &str) -> (r: String)
    ensures
        r@ == spec_osd_cmd(text@),
{
    let mut out = String::from_str("{\"command\":[\"show-text\",");
    let t = json_escape(text);
    out.append(t.as_str());
    out.append(",2500]}");
    out
}

/// The mpv command that selects playlist entry `pos`.
pub open spec fn spec_playlist_pos_cmd(pos: nat) -> Seq<char> {
    "{\"command\":[\"set_property\",\"playlist-pos\","@ + dec_digits(pos) + "]}"@
}

/// `{"command":["set_property","playlist-pos",<pos>]}`.
pub fn playlist_pos_cmd(pos: u64) -> (r: String)
    ensures
        r@ == spec_playlist_pos_cmd(pos as nat),
{
    let mut out = String::from_str("{\"command\":[\"set_property\",\"playlist-pos\",");
    let d = string_of(dec_string(pos).as_slice());
    out.append(d.as_str());
    out.append("]}");
    out
}

// ------------------------------------------------------------ paths

/// A path with `/` written as `\`.
pub open spec fn backslashed(s: Seq<char>) -> Seq<char> {
    s.map_values(|c: char| if c == '/' { '\\' } else { c })
}

/// Windows paths compare case-insensitively, and `/` and `\` are the same
/// separator.
pub open spec fn spec_same_path(a: Seq<char>, b: Seq<char>) -> bool {
    spec_lowercase(backslashed(a)) == spec_lowercase(backslashed(b))
}

fn backslashed_exec(s: &[char]) -> (r: Vec<char>)
    ensures
        r@ == backslashed(s@),
{
    let mut out: Vec<char> = Vec::new();
    let mut i: usize = 0;
    while i < s.len()
        invariant
            i <= s@.len(),
            out@ == backslashed(s@.take(i as int)),
        decreases s.len() - i,
    {
        out.push(if s[i] == '/' {
            '\\'
        } else {
            s[i]
        });
        assert(out@ =~= backslashed(s@.take(i + 1)));
        i = i + 1;
    }
    assert(s@.take(i as int) =~= s@);
    out
}

/// The normalised form `same_path` compares.
fn path_key(s: &str) -> (r: Vec<char>)
    ensures
        r@ == spec_lowercase(backslashed(s@)),
{
    let c = chars_of(s);
    let b = backslashed_exec(c.as_slice());
    lowercase(b.as_slice())
}

/// Whether two paths name the same file, the way Windows compares them.
pub fn same_path(a: &str, b: &str) -> (r: bool)
    ensures
        r == spec_same_path(a@, b@),
{
    let ka = path_key(a);
    let kb = path_key(b);
    eq_chars(ka.as_slice(), kb.as_slice())
}

// ------------------------------------------------------------ the sweep

/// What a startup sweep does with a file in the cache.
#[derive(Debug, PartialEq, Eq, Clone, Copy)]
pub enum Fate {
    Keep,
    Adopt,
    Delete,
}

/// The sweep's policy: a file the history knows is kept whatever its age
/// or size; on the first run after the history appeared, any file big
/// enough to be a video is adopted; an unknown file younger than the grace
/// period is kept; every other unknown file is deleted.
pub open spec fn spec_fate(known: bool, age_secs: u64, size: u64, adopting: bool) -> Fate {
    if known {
        Fate::Keep
    } else if adopting && size >= MIN_MEDIA_BYTES {
        Fate::Adopt
    } else if age_secs < IN_FLIGHT_GRACE_SECS {
        Fate::Keep
    } else {
        Fate::Delete
    }
}

/// Decides what the sweep does with one cached file. A remembered video is
/// never swept.
pub fn fate(known: bool, age_secs: u64, size: u64, adopting: bool) -> (r: Fate)
    ensures
        r == spec_fate(known, age_secs, size, adopting),
        known ==> r == Fate::Keep,
{
    if known {
        return Fate::Keep;
    }
    if adopting && size >= MIN_MEDIA_BYTES {
        return Fate::Adopt;
    }
    if age_secs < IN_FLIGHT_GRACE_SECS {
        return Fate::Keep;
    }
    Fate::Delete
}

// ------------------------------------------------------------ downloads

/// ASCII whitespace as `u8::is_ascii_whitespace` has it.
pub open spec fn is_ascii_white(b: u8) -> bool {
    b == 0x20 || b == 0x09 || b == 0x0A || b == 0x0C || b == 0x0D
}

/// The bytes after the leading ASCII whitespace.
pub open spec fn skip_ascii_white(s: Seq<u8>) -> Seq<u8>
    decreases s.len(),
{
    if s.len() > 0 && is_ascii_white(s[0]) {
        skip_ascii_white(s.drop_first())
    } else {
        s
    }
}

/// An HTML page, a JSON body or a raw HTTP status line, rather than a
/// video. Deliberately a reject-list: guessing at container magic numbers
/// would eventually refuse a real file.
pub open spec fn spec_error_page(head: Seq<u8>) -> bool {
    let body = skip_ascii_white(head);
    ||| (body.len() >= 1 && body[0] == 0x3C)
    ||| (body.len() >= 1 && body[0] == 0x7B)
    ||| (body.len() >= 5 && body.take(5) == seq![0x48u8, 0x54, 0x54, 0x50, 0x2F])
}

/// True when the first bytes of a download are an error page, not a video.
pub fn looks_like_error_page(head: &[u8]) -> (r: bool)
    ensures
        r == spec_error_page(head@),
{
    let mut i: usize = 0;
    assert(head@.skip(0) =~= head@);
    while i < head.len() && (head[i] == 0x20 || head[i] == 0x09 || head[i] == 0x0A || head[i]
        == 0x0C || head[i] == 0x0D)
        invariant
            i <= head@.len(),
            skip_ascii_white(head@) == skip_ascii_white(head@.skip(i as int)),
        decreases head.len() - i,
    {
        assert(head@.skip(i as int).drop_first() =~= head@.skip(i + 1));
        i = i + 1;
    }
    let ghost body = head@.skip(i as int);
    assert(skip_ascii_white(body) == body);
    let n = head.len() - i;
    if n >= 1 && (head[i] == 0x3C || head[i] == 0x7B) {
        return true;
    }
    if n >= 5 && head[i] == 0x48 && head[i + 1] == 0x54 && head[i + 2] == 0x54 && head[i + 3]
        == 0x50 && head[i + 4] == 0x2F {
        assert(body.take(5) =~= seq![0x48u8, 0x54, 0x54, 0x50, 0x2F]);
        return true;
    }
    proof {
        if body.len() >= 5 && body.take(5) == seq![0x48u8, 0x54, 0x54, 0x50, 0x2F] {
            assert(body.take(5)[0] == body[0]);
            assert(body.take(5)[1] == body[1]);
            assert(body.take(5)[2] == body[2]);
            assert(body.take(5)[3] == body[3]);
            assert(body.take(5)[4] == body[4]);
        }
    }
    false
}

/// Whether a download of `len` bytes starting with `head` is worth handing
/// to mpv: big enough, and not an error page.
pub fn is_playable(len: u64, head: &[u8]) -> (r: bool)
    ensures
        r == (len >= MIN_MEDIA_BYTES && !spec_error_page(head@)),
{
    len >= MIN_MEDIA_BYTES && !looks_like_error_page(head)
}

// ------------------------------------------------------------ the history

/// A copy of an entry.
pub fn copy_entry(e: &Entry) -> (r: Entry)
    ensures
        r == *e,
{
    Entry { added: e.added, path: e.path.clone(), url: e.url.clone() }
}

/// An entry as plain values: (added, path, url).
pub open spec fn entry_view(e: Entry) -> (u64, Seq<char>, Seq<char>) {
    (e.added, e.path@, e.url@)
}

/// What a history line holds: `added<TAB>path[<TAB>url]`, each field
/// trimmed; `None` for a line whose time is no `u64`, that has no path
/// field, or whose path is empty. A line from before urls were recorded
/// has an empty url.
pub open spec fn spec_parse_line(line: Seq<char>) -> Option<(u64, Seq<char>, Seq<char>)> {
    let f = split(line, '\t');
    match parse_unsigned(trim(f[0]), 10, u64::MAX as nat) {
        None => None,
        Some(a) => if f.len() < 2 || trim(f[1]).len() == 0 {
            None
        } else {
            Some(
                (
                    a as u64,
                    trim(f[1]),
                    if f.len() >= 3 {
                        trim(f[2])
                    } else {
                        Seq::empty()
                    },
                ),
            )
        },
    }
}

/// Tabs and line breaks become spaces, so a field stays one field.
pub open spec fn clean(s: Seq<char>) -> Seq<char> {
    s.map_values(|c: char| if c == '\t' || c == '\r' || c == '\n' { ' ' } else { c })
}

/// The history line for an entry.
pub open spec fn spec_format_line(added: u64, path: Seq<char>, url: Seq<char>) -> Seq<char> {
    dec_digits(added as nat) + seq!['\t'] + clean(path) + seq!['\t'] + clean(url)
}

/// How many times `c` occurs in `s`.
pub open spec fn count_char(s: Seq<char>, c: char) -> nat
    decreases s.len(),
{
    if s.len() == 0 {
        0
    } else {
        count_char(s.drop_last(), c) + (if s.last() == c {
            1nat
        } else {
            0
        })
    }
}

proof fn lemma_count_append(a: Seq<char>, b: Seq<char>, c: char)
    ensures
        count_char(a + b, c) == count_char(a, c) + count_char(b, c),
    decreases b.len(),
{
    if b.len() == 0 {
        assert(a + b =~= a);
    } else {
        lemma_count_append(a, b.drop_last(), c);
        assert((a + b).drop_last() =~= a + b.drop_last());
    }
}

proof fn lemma_count_absent(s: Seq<char>, c: char)
    requires
        forall|i: int| 0 <= i < s.len() ==> s[i] != c,
    ensures
        count_char(s, c) == 0,
    decreases s.len(),
{
    if s.len() > 0 {
        lemma_count_absent(s.drop_last(), c);
    }
}

/// Every history line is one line of three fields: whatever the entry
/// holds, the written line has exactly two tabs and no CR or LF.
pub proof fn lemma_format_line_shape(added: u64, path: Seq<char>, url: Seq<char>)
    ensures
        count_char(spec_format_line(added, path, url), '\t') == 2,
        count_char(spec_format_line(added, path, url), '\r') == 0,
        count_char(spec_format_line(added, path, url), '\n') == 0,
{
    let d = dec_digits(added as nat);
    crate::text::lemma_dec_digits_parse(added as nat, added as nat);
    let p = clean(path);
    let u = clean(url);
    let tab = seq!['\t'];
    let line = d + tab + p + tab + u;
    assert(line == spec_format_line(added, path, url));
    assert forall|c: char| c == '\t' || c == '\r' || c == '\n' implies count_char(d, c) == 0 && count_char(p, c)
        == 0 && count_char(u, c) == 0 by {
        assert forall|i: int| 0 <= i < d.len() implies d[i] != c by {
            assert('0' <= d[i] && d[i] <= '9');
        }
        lemma_count_absent(d, c);
        lemma_count_absent(p, c);
        lemma_count_absent(u, c);
    }
    assert(count_char(tab, '\t') == 1) by {
        assert(tab.drop_last() =~= Seq::<char>::empty());
        assert(count_char(tab.drop_last(), '\t') == 0 && count_char(tab.drop_last(), '\r') == 0
            && count_char(tab.drop_last(), '\n') == 0);
        assert(tab.last() == '\t');
    }
    assert(count_char(tab, '\r') == 0) by {
        assert(tab.drop_last() =~= Seq::<char>::empty());
        assert(count_char(tab.drop_last(), '\t') == 0 && count_char(tab.drop_last(), '\r') == 0
            && count_char(tab.drop_last(), '\n') == 0);
        assert(tab.last() == '\t');
    }
    assert(count_char(tab, '\n') == 0) by {
        assert(tab.drop_last() =~= Seq::<char>::empty());
        assert(count_char(tab.drop_last(), '\t') == 0 && count_char(tab.drop_last(), '\r') == 0
            && count_char(tab.drop_last(), '\n') == 0);
        assert(tab.last() == '\t');
    }
    lemma_count_append(d, tab, '\t');
    lemma_count_append(d + tab, p, '\t');
    lemma_count_append(d + tab + p, tab, '\t');
    lemma_count_append(d + tab + p + tab, u, '\t');
    lemma_count_append(d, tab, '\r');
    lemma_count_append(d + tab, p, '\r');
    lemma_count_append(d + tab + p, tab, '\r');
    lemma_count_append(d + tab + p + tab, u, '\r');
    lemma_count_append(d, tab, '\n');
    lemma_count_append(d + tab, p, '\n');
    lemma_count_append(d + tab + p, tab, '\n');
    lemma_count_append(d + tab + p + tab, u, '\n');
}

fn clean_chars(s: &[char]) -> (r: Vec<char>)
    ensures
        r@ == clean(s@),
{
    let mut out: Vec<char> = Vec::new();
    let mut i: usize = 0;
    while i < s.len()
        invariant
            i <= s@.len(),
            out@ == clean(s@.take(i as int)),
        decreases s.len() - i,
    {
        let c = s[i];
        out.push(if c == '\t' || c == '\r' || c == '\n' {
            ' '
        } else {
            c
        });
        assert(out@ =~= clean(s@.take(i + 1)));
        i = i + 1;
    }
    assert(s@.take(i as int) =~= s@);
    out
}

fn parse_line_chars(line: &[char]) -> (r: Option<Entry>)
    ensures
        match spec_parse_line(line@) {
            Some(v) => r matches Some(e) && entry_view(e) == v,
            None => r is None,
        },
{
    let f = split_chars(line, '\t');
    proof {
        crate::config::lemma_split_nonempty(line@, '\t');
    }
    let t0 = trim_chars(f[0].as_slice());
    let added = match parse_unsigned_chars(t0.as_slice(), 10, 0xFFFF_FFFF_FFFF_FFFF) {
        Some(a) => a,
        None => return None,
    };
    if f.len() < 2 {
        return None;
    }
    let path = trim_chars(f[1].as_slice());
    if path.len() == 0 {
        return None;
    }
    let url = if f.len() >= 3 {
        trim_chars(f[2].as_slice())
    } else {
        Vec::new()
    };
    Some(Entry { added, path: string_of(path.as_slice()), url: string_of(url.as_slice()) })
}

/// Reads one history line. Junk lines give `None` rather than poisoning
/// the queue.
pub fn parse_line(line: &str) -> (r: Option<Entry>)
    ensures
        match spec_parse_line(line@) {
            Some(v) => r matches Some(e) && entry_view(e) == v,
            None => r is None,
        },
{
    let c = chars_of(line);
    parse_line_chars(c.as_slice())
}

fn format_line_chars(e: &Entry) -> (r: Vec<char>)
    ensures
        r@ == spec_format_line(e.added, e.path@, e.url@),
{
    let mut out = dec_string(e.added);
    out.push('\t');
    let p = clean_chars(chars_of(e.path.as_str()).as_slice());
    push_all(&mut out, p.as_slice());
    out.push('\t');
    let u = clean_chars(chars_of(e.url.as_str()).as_slice());
    push_all(&mut out, u.as_slice());
    out
}

/// Writes one history line.
pub fn format_line(e: &Entry) -> (r: String)
    ensures
        r@ == spec_format_line(e.added, e.path@, e.url@),
        count_char(r@, '\t') == 2,
        count_char(r@, '\r') == 0,
        count_char(r@, '\n') == 0,
{
    proof {
        lemma_format_line_shape(e.added, e.path@, e.url@);
    }
    string_of(format_line_chars(e).as_slice())
}

/// The history file text: one line per entry, in order.
pub open spec fn spec_history_text(list: Seq<Entry>) -> Seq<char>
    decreases list.len(),
{
    if list.len() == 0 {
        Seq::empty()
    } else {
        spec_history_text(list.drop_last()) + spec_format_line(
            list.last().added,
            list.last().path@,
            list.last().url@,
        ) + seq!['\n']
    }
}

/// The text `write_history` stores for a list.
pub fn history_text(list: &Vec<Entry>) -> (r: String)
    ensures
        r@ == spec_history_text(list@),
{
    let mut out: Vec<char> = Vec::new();
    let mut i: usize = 0;
    while i < list.len()
        invariant
            i <= list@.len(),
            out@ == spec_history_text(list@.take(i as int)),
        decreases list.len() - i,
    {
        let l = format_line_chars(&list[i]);
        push_all(&mut out, l.as_slice());
        out.push('\n');
        assert(list@.take(i + 1).drop_last() =~= list@.take(i as int));
        i = i + 1;
    }
    assert(list@.take(i as int) =~= list@);
    string_of(out.as_slice())
}

/// An entry as plain values: (added, path, url).
pub type EntryView = (u64, Seq<char>, Seq<char>);

/// The plain values of a list of entries.
pub open spec fn entry_views(s: Seq<Entry>) -> Seq<EntryView> {
    s.map_values(|e: Entry| entry_view(e))
}

/// `s` with `x` placed after every entry added no later than it: one step
/// of a stable insertion sort by `added`.
pub open spec fn insert_by_added(s: Seq<EntryView>, x: EntryView) -> Seq<EntryView>
    decreases s.len(),
{
    if s.len() == 0 || s.last().0 <= x.0 {
        s.push(x)
    } else {
        insert_by_added(s.drop_last(), x).push(s.last())
    }
}

/// `s` stably sorted by `added`: queue order, not download-finish order.
pub open spec fn sort_by_added(s: Seq<EntryView>) -> Seq<EntryView>
    decreases s.len(),
{
    if s.len() == 0 {
        s
    } else {
        insert_by_added(sort_by_added(s.drop_last()), s.last())
    }
}

/// Entries never go back in time along `s`.
pub open spec fn added_sorted(s: Seq<EntryView>) -> bool {
    forall|i: int, j: int| 0 <= i < j < s.len() ==> (#[trigger] s[i]).0 <= (#[trigger] s[j]).0
}

proof fn lemma_insert_at(s: Seq<EntryView>, x: EntryView, p: int)
    requires
        0 <= p <= s.len(),
        p == 0 || s[p - 1].0 <= x.0,
        forall|k: int| p <= k < s.len() ==> (#[trigger] s[k]).0 > x.0,
    ensures
        insert_by_added(s, x) == s.take(p) + seq![x] + s.skip(p),
    decreases s.len(),
{
    if p == s.len() {
        assert(s.take(p) + seq![x] + s.skip(p) =~= s.push(x));
    } else {
        let d = s.drop_last();
        lemma_insert_at(d, x, p);
        assert(d.take(p) + seq![x] + d.skip(p) + seq![s.last()] =~= s.take(p) + seq![x] + s.skip(p));
    }
}

proof fn lemma_insert_sorted(s: Seq<EntryView>, x: EntryView)
    requires
        added_sorted(s),
    ensures
        added_sorted(insert_by_added(s, x)),
        insert_by_added(s, x).len() == s.len() + 1,
    decreases s.len(),
{
    if s.len() > 0 && s.last().0 > x.0 {
        let d = s.drop_last();
        lemma_insert_sorted(d, x);
        let r = insert_by_added(d, x);
        lemma_insert_members(d, x);
        assert forall|i: int, j: int| 0 <= i < j < r.len() + 1 implies (#[trigger] r.push(
            s.last(),
        )[i]).0 <= (#[trigger] r.push(s.last())[j]).0 by {
            if j == r.len() {
                assert(r.push(s.last())[i] == r[i]);
                if r[i] == x {
                } else {
                    let k = choose|k: int| 0 <= k < d.len() && d[k] == r[i];
                    assert(s[k] == d[k]);
                }
            } else {
                assert(r.push(s.last())[i] == r[i]);
                assert(r.push(s.last())[j] == r[j]);
            }
        }
    }
}

proof fn lemma_insert_members(s: Seq<EntryView>, x: EntryView)
    ensures
        forall|i: int|
            0 <= i < insert_by_added(s, x).len() ==> #[trigger] insert_by_added(s, x)[i] == x
                || exists|k: int| 0 <= k < s.len() && s[k] == insert_by_added(s, x)[i],
    decreases s.len(),
{
    if s.len() > 0 && s.last().0 > x.0 {
        let d = s.drop_last();
        lemma_insert_members(d, x);
        let r = insert_by_added(d, x);
        assert forall|i: int| 0 <= i < r.push(s.last()).len() implies #[trigger] r.push(
            s.last(),
        )[i] == x || exists|k: int| 0 <= k < s.len() && s[k] == r.push(s.last())[i] by {
            if i < r.len() {
                assert(r.push(s.last())[i] == r[i]);
                if r[i] != x {
                    let k = choose|k: int| 0 <= k < d.len() && d[k] == r[i];
                    assert(s[k] == d[k]);
                }
            } else {
                assert(s[s.len() - 1] == r.push(s.last())[i]);
            }
        }
    } else {
        assert forall|i: int| 0 <= i < s.push(x).len() implies #[trigger] s.push(x)[i] == x
            || exists|k: int| 0 <= k < s.len() && s[k] == s.push(x)[i] by {
            if i < s.len() {
                assert(s[i] == s.push(x)[i]);
            }
        }
    }
}

/// The stable sort by `added` gives a sorted list of the same length.
pub proof fn lemma_sort_by_added(s: Seq<EntryView>)
    ensures
        added_sorted(sort_by_added(s)),
        sort_by_added(s).len() == s.len(),
    decreases s.len(),
{
    if s.len() > 0 {
        lemma_sort_by_added(s.drop_last());
        lemma_insert_sorted(sort_by_added(s.drop_last()), s.last());
    }
}

/// A list already in queue order is left as it is.
pub proof fn lemma_sort_sorted_noop(s: Seq<EntryView>)
    requires
        added_sorted(s),
    ensures
        sort_by_added(s) == s,
    decreases s.len(),
{
    if s.len() > 0 {
        let d = s.drop_last();
        assert(added_sorted(d)) by {
            assert forall|i: int, j: int| 0 <= i < j < d.len() implies (#[trigger] d[i]).0
                <= (#[trigger] d[j]).0 by {
                assert(d[i] == s[i] && d[j] == s[j]);
            }
        }
        lemma_sort_sorted_noop(d);
        if d.len() > 0 {
            assert(d.last() == s[s.len() - 2]);
        }
        assert(d.push(s.last()) =~= s);
    }
}

/// Sorts a list stably by `added`.
pub fn sort_entries(list: Vec<Entry>) -> (r: Vec<Entry>)
    ensures
        entry_views(r@) == sort_by_added(entry_views(list@)),
{
    let mut out: Vec<Entry> = Vec::new();
    let mut i: usize = 0;
    while i < list.len()
        invariant
            i <= list@.len(),
            entry_views(out@) == sort_by_added(entry_views(list@.take(i as int))),
        decreases list.len() - i,
    {
        let x = copy_entry(&list[i]);
        let mut p = out.len();
        let ghost ov = entry_views(out@);
        let ghost xv = entry_view(x);
        while p > 0 && out[p - 1].added > x.added
            invariant
                p <= out@.len(),
                ov == entry_views(out@),
                xv == entry_view(x),
                forall|k: int| p <= k < out@.len() ==> (#[trigger] ov[k]).0 > xv.0,
            decreases p,
        {
            p = p - 1;
        }
        proof {
            lemma_insert_at(ov, xv, p as int);
            assert(entry_views(list@.take(i + 1)).drop_last() =~= entry_views(list@.take(i as int)));
            assert(entry_views(list@.take(i + 1)).last() == xv);
        }
        out.insert(p, x);
        assert(entry_views(out@) =~= ov.take(p as int) + seq![xv] + ov.skip(p as int));
        i = i + 1;
    }
    assert(list@.take(i as int) =~= list@);
    out
}

/// The queue a history file holds, oldest first: every line that parses,
/// stably sorted by the time it was queued.
pub open spec fn spec_history(text: Seq<char>) -> Seq<EntryView> {
    sort_by_added(lines(text).filter_map(|l: Seq<char>| spec_parse_line(l)))
}

/// The remembered queue in a history file's text, oldest first.
pub fn history(text: &str) -> (r: Vec<Entry>)
    ensures
        entry_views(r@) == spec_history(text@),
        added_sorted(entry_views(r@)),
{
    let chars = chars_of(text);
    let ls = crate::text::lines_of(chars.as_slice());
    let ghost lsv = crate::text::views(ls@);
    let ghost f = |l: Seq<char>| spec_parse_line(l);
    let mut list: Vec<Entry> = Vec::new();
    let mut i: usize = 0;
    while i < ls.len()
        invariant
            lsv == crate::text::views(ls@),
            f == (|l: Seq<char>| spec_parse_line(l)),
            i <= ls@.len(),
            entry_views(list@) == lsv.take(i as int).filter_map(f),
        decreases ls.len() - i,
    {
        assert(lsv.take(i + 1).drop_last() =~= lsv.take(i as int));
        assert(lsv.take(i + 1).last() == ls@[i as int]@);
        let ghost before = entry_views(list@);
        match parse_line_chars(ls[i].as_slice()) {
            Some(e) => {
                list.push(e);
                assert(entry_views(list@) =~= before + seq![entry_view(e)]);
            },
            None => {},
        }
        i = i + 1;
    }
    assert(lsv.take(i as int) =~= lsv);
    let r = sort_entries(list);
    proof {
        lemma_sort_by_added(entry_views(list@));
    }
    r
}

// ------------------------------------------------------------ round trip

/// A field with no tab or line break in it.
pub open spec fn one_field(s: Seq<char>) -> bool {
    !s.contains('\t') && !s.contains('\r') && !s.contains('\n')
}

/// An entry the history file holds exactly: fields without tabs or line
/// breaks and without surrounding whitespace, and a non-empty path.
pub open spec fn storable_entry(e: EntryView) -> bool {
    &&& one_field(e.1)
    &&& one_field(e.2)
    &&& e.1.len() > 0
    &&& trim(e.1) == e.1
    &&& trim(e.2) == e.2
}

proof fn lemma_clean_noop(s: Seq<char>)
    requires
        one_field(s),
    ensures
        clean(s) == s,
{
    assert forall|k: int| 0 <= k < s.len() implies clean(s)[k] == s[k] by {
        assert(s[k] != '\t' && s[k] != '\r' && s[k] != '\n') by {
            if s[k] == '\t' || s[k] == '\r' || s[k] == '\n' {
                assert(s.contains(s[k]));
            }
        }
    }
    assert(clean(s) =~= s);
}

proof fn lemma_split_field(a: Seq<char>, rest: Seq<char>)
    requires
        !a.contains('\t'),
    ensures
        split(a + seq!['\t'] + rest, '\t') == seq![a] + split(rest, '\t'),
{
    let s = a + seq!['\t'] + rest;
    assert forall|k: int| 0 <= k < a.len() implies s[k] != '\t' by {
        assert(s[k] == a[k]);
        if a[k] == '\t' {
            assert(a.contains(a[k]));
        }
    }
    crate::text::lemma_find_at(s, '\t', a.len() as int);
    assert(s.take(a.len() as int) =~= a);
    assert(s.skip(a.len() as int + 1) =~= rest);
}

proof fn lemma_split_last(a: Seq<char>)
    requires
        !a.contains('\t'),
    ensures
        split(a, '\t') == seq![a],
{
    assert forall|k: int| 0 <= k < a.len() implies a[k] != '\t' by {
        if a[k] == '\t' {
            assert(a.contains(a[k]));
        }
    }
    crate::text::lemma_find_at(a, '\t', a.len() as int);
}

/// Reading back a written history line gives the entry.
pub proof fn lemma_line_round_trip(e: EntryView)
    requires
        storable_entry(e),
    ensures
        spec_parse_line(spec_format_line(e.0, e.1, e.2)) == Some(e),
        !spec_format_line(e.0, e.1, e.2).contains('\n'),
        crate::text::strip_cr(spec_format_line(e.0, e.1, e.2)) == spec_format_line(e.0, e.1, e.2),
{
    let (a, p, u) = e;
    lemma_clean_noop(p);
    lemma_clean_noop(u);
    let d = dec_digits(a as nat);
    crate::text::lemma_dec_digits_parse(a as nat, u64::MAX as nat);
    assert(!d.contains('\t')) by {
        if d.contains('\t') {
            let k = choose|k: int| 0 <= k < d.len() && d[k] == '\t';
            assert('0' <= d[k]);
        }
    }
    let line = d + seq!['\t'] + p + seq!['\t'] + u;
    assert(line == spec_format_line(a, p, u));
    lemma_split_last(u);
    lemma_split_field(p, u);
    assert(d + seq!['\t'] + (p + seq!['\t'] + u) =~= line);
    lemma_split_field(d, p + seq!['\t'] + u);
    let f = split(line, '\t');
    assert(f =~= seq![d, p, u]);
    assert('0' <= d[0] && d[0] <= '9');
    assert('0' <= d.last() && d.last() <= '9');
    crate::text::lemma_trim_noop(d);
    assert(!line.contains('\n')) by {
        if line.contains('\n') {
            let k = choose|k: int| 0 <= k < line.len() && line[k] == '\n';
            if k < d.len() {
                assert(d[k] == '\n');
            } else if d.len() < k < d.len() + 1 + p.len() {
                assert(p[k - d.len() - 1] == '\n');
                assert(p.contains('\n'));
            } else if k > d.len() + 1 + p.len() {
                assert(u[k - d.len() - 2 - p.len()] == '\n');
                assert(u.contains('\n'));
            }
        }
    }
    if u.len() > 0 {
        assert(line.last() == u.last());
        assert(u.contains(u.last()));
    }
}

proof fn lemma_history_lines(list: Seq<Entry>)
    requires
        forall|i: int| 0 <= i < list.len() ==> storable_entry(#[trigger] entry_view(list[i])),
    ensures
        lines(spec_history_text(list)).filter_map(|l: Seq<char>| spec_parse_line(l)) == entry_views(
            list,
        ),
        spec_history_text(list).len() == 0 || spec_history_text(list).last() == '\n',
    decreases list.len(),
{
    let f = |l: Seq<char>| spec_parse_line(l);
    if list.len() == 0 {
        assert(lines(spec_history_text(list)) =~= Seq::<Seq<char>>::empty());
        assert(entry_views(list) =~= Seq::<EntryView>::empty());
    } else {
        let d = list.drop_last();
        assert forall|i: int| 0 <= i < d.len() implies storable_entry(#[trigger] entry_view(d[i])) by {
            assert(d[i] == list[i]);
        }
        lemma_history_lines(d);
        let e = entry_view(list.last());
        assert(storable_entry(entry_view(list[list.len() - 1])));
        lemma_line_round_trip(e);
        let l = spec_format_line(e.0, e.1, e.2);
        crate::text::lemma_lines_single(l);
        crate::text::lemma_lines_append(spec_history_text(d), l + seq!['\n']);
        assert(spec_history_text(list) == spec_history_text(d) + (l + seq!['\n'])) by {
            assert(spec_history_text(d) + l + seq!['\n'] =~= spec_history_text(d) + (l + seq!['\n']));
        }
        let ls = lines(spec_history_text(list));
        assert(ls =~= lines(spec_history_text(d)).push(l));
        assert(ls.drop_last() =~= lines(spec_history_text(d)));
        assert(entry_views(list) =~= entry_views(d) + seq![e]);
    }
}

/// Reading back the history written for a queue in queue order gives the
/// same queue, whenever its entries are ones the file holds exactly.
pub proof fn lemma_history_round_trip(list: Seq<Entry>)
    requires
        forall|i: int| 0 <= i < list.len() ==> storable_entry(#[trigger] entry_view(list[i])),
        added_sorted(entry_views(list)),
    ensures
        spec_history(spec_history_text(list)) == entry_views(list),
{
    lemma_history_lines(list);
    lemma_sort_sorted_noop(entry_views(list));
}

// ------------------------------------------------------------ queue edits

/// Some entry of `list` is stored at `path`.
pub open spec fn knows(list: Seq<EntryView>, path: Seq<char>) -> bool {
    exists|i: int| 0 <= i < list.len() && spec_same_path(#[trigger] list[i].1, path)
}

/// Whether some entry of `list` is stored at `path`.
pub fn knows_path(list: &Vec<Entry>, path: &str) -> (r: bool)
    ensures
        r == knows(entry_views(list@), path@),
{
    let ghost lv = entry_views(list@);
    let mut i: usize = 0;
    while i < list.len()
        invariant
            lv == entry_views(list@),
            i <= list@.len(),
            forall|k: int| 0 <= k < i ==> !spec_same_path(#[trigger] lv[k].1, path@),
        decreases list.len() - i,
    {
        if same_path(list[i].path.as_str(), path) {
            assert(lv[i as int].1 == list@[i as int].path@);
            return true;
        }
        i = i + 1;
    }
    false
}

/// Adds a downloaded video to the queue, unless the queue already holds
/// its file. True when it was added.
pub fn remember(list: &mut Vec<Entry>, entry: Entry) -> (r: bool)
    ensures
        r == !knows(entry_views(old(list)@), entry.path@),
        r ==> final(list)@ == old(list)@.push(entry),
        !r ==> final(list)@ == old(list)@,
{
    if knows_path(list, entry.path.as_str()) {
        return false;
    }
    list.push(entry);
    true
}

/// No two entries of `list` name the same file.
pub open spec fn one_entry_per_file(list: Seq<EntryView>) -> bool {
    forall|i: int, j: int|
        0 <= i < j < list.len() ==> !spec_same_path(#[trigger] list[i].1, #[trigger] list[j].1)
}

/// The queue holds each file once: remembering a video keeps it so.
pub proof fn lemma_remember_keeps_one_entry_per_file(list: Seq<EntryView>, e: EntryView)
    requires
        one_entry_per_file(list),
    ensures
        one_entry_per_file(if knows(list, e.1) {
            list
        } else {
            list.push(e)
        }),
{
    if !knows(list, e.1) {
        let l2 = list.push(e);
        assert forall|i: int, j: int| 0 <= i < j < l2.len() implies !spec_same_path(
            #[trigger] l2[i].1,
            #[trigger] l2[j].1,
        ) by {
            if j == list.len() {
                assert(l2[i] == list[i]);
                if spec_same_path(list[i].1, e.1) {
                    assert(knows(list, e.1));
                }
            } else {
                assert(l2[i] == list[i] && l2[j] == list[j]);
            }
        }
    }
}

/// The entry queued from `url`, if any: re-pasting a link reuses it.
pub fn find_by_url(list: &Vec<Entry>, url: &str) -> (r: Option<Entry>)
    ensures
        match r {
            Some(e) => exists|i: int|
                0 <= i < list@.len() && list@[i] == e && e.url@ == url@ && forall|j: int|
                    0 <= j < i ==> (#[trigger] list@[j]).url@ != url@,
            None => forall|i: int| 0 <= i < list@.len() ==> (#[trigger] list@[i]).url@ != url@,
        },
{
    let u = chars_of(url);
    let mut i: usize = 0;
    while i < list.len()
        invariant
            u@ == url@,
            i <= list@.len(),
            forall|j: int| 0 <= j < i ==> (#[trigger] list@[j]).url@ != url@,
        decreases list.len() - i,
    {
        let eu = chars_of(list[i].url.as_str());
        if eq_chars(eu.as_slice(), u.as_slice()) {
            let e = copy_entry(&list[i]);
            assert(list@[i as int] == e);
            return Some(e);
        }
        i = i + 1;
    }
    None
}

/// Whether dropping `target` drops this entry: its file, or the url it came
/// from.
pub open spec fn hits(e: EntryView, target: Seq<char>) -> bool {
    spec_same_path(e.1, target) || e.2 == target
}

/// Drops every entry whose file is `target` or whose url is `target`. Keeps
/// the rest in order and returns the dropped files, for deletion.
pub fn forget(list: &mut Vec<Entry>, target: &str) -> (dropped: Vec<String>)
    ensures
        entry_views(final(list)@) == entry_views(old(list)@).filter(|e: EntryView| !hits(e, target@)),
        crate::config::string_views(dropped@) == entry_views(old(list)@).filter(
            |e: EntryView| hits(e, target@),
        ).map_values(|e: EntryView| e.1),
        forall|i: int| 0 <= i < final(list)@.len() ==> !hits(#[trigger] entry_view(final(list)@[i]), target@),
{
    let t = chars_of(target);
    let ghost ov = entry_views(list@);
    let ghost keep = |e: EntryView| !hits(e, target@);
    let ghost drop = |e: EntryView| hits(e, target@);
    let mut kept: Vec<Entry> = Vec::new();
    let mut dropped: Vec<String> = Vec::new();
    let mut i: usize = 0;
    proof {
        reveal(Seq::filter);
        assert(ov.take(0).filter(keep) =~= Seq::<EntryView>::empty());
        assert(ov.take(0).filter(drop) =~= Seq::<EntryView>::empty());
        assert(crate::config::string_views(dropped@) =~= Seq::<Seq<char>>::empty());
    }
    while i < list.len()
        invariant
            ov == entry_views(list@),
            keep == (|e: EntryView| !hits(e, target@)),
            drop == (|e: EntryView| hits(e, target@)),
            t@ == target@,
            i <= list@.len(),
            entry_views(kept@) == ov.take(i as int).filter(keep),
            crate::config::string_views(dropped@) == ov.take(i as int).filter(drop).map_values(
                |e: EntryView| e.1,
            ),
        decreases list.len() - i,
    {
        let e = &list[i];
        let hit = same_path(e.path.as_str(), target) || eq_chars(
            chars_of(e.url.as_str()).as_slice(),
            t.as_slice(),
        );
        let ghost ev = entry_view(*e);
        assert(ev == ov[i as int]);
        assert(hit == hits(ev, target@));
        proof {
            assert(ov.take(i + 1) =~= ov.take(i as int).push(ev));
            ov.take(i as int).lemma_filter_push(ev, keep);
            ov.take(i as int).lemma_filter_push(ev, drop);
        }
        let ghost kv = entry_views(kept@);
        let ghost dv = crate::config::string_views(dropped@);
        if hit {
            dropped.push(e.path.clone());
            assert(crate::config::string_views(dropped@) =~= dv.push(ev.1));
            assert(ov.take(i as int).filter(drop).push(ev).map_values(|e: EntryView| e.1)
                =~= ov.take(i as int).filter(drop).map_values(|e: EntryView| e.1).push(ev.1));
        } else {
            kept.push(copy_entry(e));
            assert(entry_views(kept@) =~= kv.push(ev));
        }
        i = i + 1;
    }
    assert(ov.take(i as int) =~= ov);
    *list = kept;
    proof {
        assert forall|k: int| 0 <= k < list@.len() implies !hits(#[trigger] entry_view(list@[k]), target@) by {
            let fv = ov.filter(keep);
            assert(entry_view(list@[k]) == fv[k]);
            ov.lemma_filter_pred(keep, k);
        }
    }
    dropped
}

// ------------------------------------------------------------ the sweep plan

/// A file found in the cache directory: its path, age, size, and
/// modification time in ms since the epoch.
pub struct CachedFile {
    pub path: String,
    pub age_secs: u64,
    pub size: u64,
    pub mtime_ms: u64,
}

/// A cached file as plain values.
pub type FileView = (Seq<char>, u64, u64, u64);

/// The plain values of a file list.
pub open spec fn file_views(s: Seq<CachedFile>) -> Seq<FileView> {
    s.map_values(|f: CachedFile| (f.path@, f.age_secs, f.size, f.mtime_ms))
}

/// The sweep's running state: the queue, the files to delete, and whether
/// the queue changed.
pub type SweepState = (Seq<EntryView>, Seq<Seq<char>>, bool);

/// What the sweep does with one file: the queue as it stands so far
/// decides whether the file is known.
pub open spec fn sweep_step(st: SweepState, f: FileView, adopting: bool) -> SweepState {
    match spec_fate(knows(st.0, f.0), f.1, f.2, adopting) {
        Fate::Keep => st,
        Fate::Adopt => (st.0.push((f.3, f.0, Seq::empty())), st.1, true),
        Fate::Delete => (st.0, st.1.push(f.0), st.2),
    }
}

/// The sweep over files `fs`, in order.
pub open spec fn sweep_fold(st: SweepState, fs: Seq<FileView>, adopting: bool) -> SweepState
    decreases fs.len(),
{
    if fs.len() == 0 {
        st
    } else {
        sweep_step(sweep_fold(st, fs.drop_last(), adopting), fs.last(), adopting)
    }
}

/// The sweep's outcome: the queue (re-sorted when it changed), the files
/// to delete, and whether the history must be written.
pub open spec fn spec_sweep(list: Seq<EntryView>, fs: Seq<FileView>, adopting: bool) -> SweepState {
    let st = sweep_fold((list, Seq::empty(), adopting), fs, adopting);
    (if st.2 {
        sort_by_added(st.0)
    } else {
        st.0
    }, st.1, st.2)
}

/// What a startup sweep decided.
pub struct SweepPlan {
    pub list: Vec<Entry>,
    pub delete: Vec<String>,
    pub changed: bool,
}

/// Plans the startup sweep of the cache: which files to adopt into the
/// queue and which to delete. `adopting` is the first run after the history
/// file appeared.
pub fn plan_sweep(list: Vec<Entry>, files: &Vec<CachedFile>, adopting: bool) -> (r: SweepPlan)
    ensures
        (entry_views(r.list@), crate::config::string_views(r.delete@), r.changed) == spec_sweep(
            entry_views(list@),
            file_views(files@),
            adopting,
        ),
{
    let ghost fv = file_views(files@);
    let mut cur = list;
    let mut delete: Vec<String> = Vec::new();
    let mut changed = adopting;
    let ghost lv0 = entry_views(cur@);
    let mut i: usize = 0;
    assert(crate::config::string_views(delete@) =~= Seq::<Seq<char>>::empty());
    while i < files.len()
        invariant
            fv == file_views(files@),
            i <= files@.len(),
            (entry_views(cur@), crate::config::string_views(delete@), changed) == sweep_fold(
                (lv0, Seq::empty(), adopting),
                fv.take(i as int),
                adopting,
            ),
        decreases files.len() - i,
    {
        let f = &files[i];
        let ghost fi = (f.path@, f.age_secs, f.size, f.mtime_ms);
        assert(fv[i as int] == fi);
        assert(fv.take(i + 1).drop_last() =~= fv.take(i as int));
        assert(fv.take(i + 1).last() == fi);
        let known = knows_path(&cur, f.path.as_str());
        let ghost cv = entry_views(cur@);
        let ghost dv = crate::config::string_views(delete@);
        match fate(known, f.age_secs, f.size, adopting) {
            Fate::Keep => {},
            Fate::Adopt => {
                let e = Entry { added: f.mtime_ms, path: f.path.clone(), url: String::new() };
                cur.push(e);
                assert(entry_views(cur@) =~= cv.push((f.mtime_ms, f.path@, Seq::<char>::empty())));
                changed = true;
            },
            Fate::Delete => {
                delete.push(f.path.clone());
                assert(crate::config::string_views(delete@) =~= dv.push(f.path@));
            },
        }
        i = i + 1;
    }
    assert(fv.take(i as int) =~= fv);
    if changed {
        cur = sort_entries(cur);
    }
    SweepPlan { list: cur, delete, changed }
}

proof fn lemma_insert_keeps(s: Seq<EntryView>, x: EntryView, e: EntryView)
    requires
        s.contains(e) || e == x,
    ensures
        insert_by_added(s, x).contains(e),
    decreases s.len(),
{
    if s.len() == 0 || s.last().0 <= x.0 {
        if e == x {
            assert(s.push(x)[s.len() as int] == x);
        } else {
            let k = choose|k: int| 0 <= k < s.len() && s[k] == e;
            assert(s.push(x)[k] == e);
        }
    } else {
        let d = s.drop_last();
        if e == s.last() {
            assert(insert_by_added(d, x).push(s.last())[insert_by_added(d, x).len() as int] == e);
        } else {
            if e != x {
                let k = choose|k: int| 0 <= k < s.len() && s[k] == e;
                assert(d[k] == e);
            }
            lemma_insert_keeps(d, x, e);
            let r = insert_by_added(d, x);
            let k = choose|k: int| 0 <= k < r.len() && r[k] == e;
            assert(r.push(s.last())[k] == e);
        }
    }
}

/// Sorting keeps every entry.
pub proof fn lemma_sort_keeps(s: Seq<EntryView>, e: EntryView)
    requires
        s.contains(e),
    ensures
        sort_by_added(s).contains(e),
    decreases s.len(),
{
    if s.len() > 0 {
        let d = s.drop_last();
        if e != s.last() {
            let k = choose|k: int| 0 <= k < s.len() && s[k] == e;
            assert(d[k] == e);
            lemma_sort_keeps(d, e);
        }
        lemma_insert_keeps(sort_by_added(d), s.last(), e);
    }
}

proof fn lemma_fold_keeps(list: Seq<EntryView>, fs: Seq<FileView>, adopting: bool)
    ensures
        ({
            let st = sweep_fold((list, Seq::empty(), adopting), fs, adopting);
            &&& st.0.len() >= list.len()
            &&& forall|i: int| 0 <= i < list.len() ==> (#[trigger] st.0[i]) == list[i]
            &&& forall|j: int| 0 <= j < st.1.len() ==> !knows(list, #[trigger] st.1[j])
        }),
    decreases fs.len(),
{
    if fs.len() > 0 {
        lemma_fold_keeps(list, fs.drop_last(), adopting);
        let st = sweep_fold((list, Seq::empty(), adopting), fs.drop_last(), adopting);
        let f = fs.last();
        if !knows(st.0, f.0) {
            assert(!knows(list, f.0)) by {
                if knows(list, f.0) {
                    let i = choose|i: int| 0 <= i < list.len() && spec_same_path(#[trigger] list[i].1, f.0);
                    assert(st.0[i] == list[i]);
                }
            }
        }
        let st2 = sweep_step(st, f, adopting);
        assert forall|j: int| 0 <= j < st2.1.len() implies !knows(list, #[trigger] st2.1[j]) by {
            if j < st.1.len() {
                assert(st2.1[j] == st.1[j]);
            }
        }
        assert forall|i: int| 0 <= i < list.len() implies (#[trigger] st2.0[i]) == list[i] by {
            assert(st.0[i] == list[i]);
        }
    }
}

/// Remembered videos are never swept: every entry of the queue survives
/// the sweep, and no file the queue knows is deleted.
pub proof fn lemma_sweep_keeps_history(list: Seq<EntryView>, fs: Seq<FileView>, adopting: bool)
    ensures
        forall|i: int| 0 <= i < list.len() ==> spec_sweep(list, fs, adopting).0.contains(#[trigger] list[i]),
        forall|j: int|
            0 <= j < spec_sweep(list, fs, adopting).1.len() ==> !knows(list, #[trigger] spec_sweep(list, fs, adopting).1[j]),
{
    lemma_fold_keeps(list, fs, adopting);
    let st = sweep_fold((list, Seq::empty(), adopting), fs, adopting);
    assert forall|i: int| 0 <= i < list.len() implies spec_sweep(list, fs, adopting).0.contains(
        #[trigger] list[i],
    ) by {
        assert(st.0[i] == list[i]);
        assert(st.0.contains(list[i]));
        if st.2 {
            lemma_sort_keeps(st.0, list[i]);
        }
    }
}

// ------------------------------------------------------------ file names

/// Index of the first occurrence of `pat` in `s`.
pub open spec fn find_sub(s: Seq<char>, pat: Seq<char>) -> Option<int>
    decreases s.len(),
{
    if s.len() < pat.len() {
        None
    } else if s.take(pat.len() as int) == pat {
        Some(0)
    } else if s.len() == 0 {
        None
    } else {
        match find_sub(s.drop_first(), pat) {
            Some(i) => Some(i + 1),
            None => None,
        }
    }
}

proof fn lemma_find_sub_step(s: Seq<char>, pat: Seq<char>, i: int)
    requires
        0 <= i,
        i + pat.len() <= s.len(),
        s.skip(i).take(pat.len() as int) != pat,
        pat.len() > 0,
    ensures
        find_sub(s.skip(i), pat) == (match find_sub(s.skip(i + 1), pat) {
            Some(j) => Some(j + 1),
            None => None::<int>,
        }),
{
    assert(s.skip(i).drop_first() =~= s.skip(i + 1));
}

fn matches_at(s: &[char], i: usize, pat: &[char]) -> (r: bool)
    requires
        i + pat@.len() <= s@.len(),
    ensures
        r == (s@.skip(i as int).take(pat@.len() as int) == pat@),
{
    let mut k: usize = 0;
    let n = s.len();
    while k < pat.len()
        invariant
            n == s@.len(),
            i + pat@.len() <= s@.len(),
            k <= pat@.len(),
            forall|m: int| 0 <= m < k ==> s@[i + m] == pat@[m],
        decreases pat.len() - k,
    {
        if s[i + k] != pat[k] {
            assert(s@.skip(i as int).take(pat@.len() as int)[k as int] != pat@[k as int]);
            return false;
        }
        k = k + 1;
    }
    assert(s@.skip(i as int).take(pat@.len() as int) =~= pat@);
    true
}

/// Position of the first `pat` in `s[from..]`, relative to `s`.
fn find_sub_from(s: &[char], from: usize, pat: &[char]) -> (r: Option<usize>)
    requires
        from <= s@.len(),
        pat@.len() > 0,
    ensures
        find_sub(s@.skip(from as int), pat@) == (match r {
            Some(i) => Some(i - from),
            None => None::<int>,
        }),
        r matches Some(i) ==> from <= i && i + pat@.len() <= s@.len(),
{
    let mut i = from;
    while pat.len() <= s.len() - i
        invariant
            from <= i <= s@.len(),
            pat@.len() > 0,
            find_sub(s@.skip(from as int), pat@) == (match find_sub(s@.skip(i as int), pat@) {
                Some(j) => Some(j + i - from),
                None => None::<int>,
            }),
        decreases s.len() - i,
    {
        if matches_at(s, i, pat) {
            return Some(i);
        }
        proof {
            lemma_find_sub_step(s@, pat@, i as int);
        }
        i = i + 1;
    }
    None
}

/// Everything before the first `a` or `b`.
pub open spec fn before_either(s: Seq<char>, a: char, b: char) -> Seq<char>
    decreases s.len(),
{
    if s.len() == 0 || s[0] == a || s[0] == b {
        Seq::empty()
    } else {
        seq![s[0]] + before_either(s.drop_first(), a, b)
    }
}

fn before_either_chars(s: &[char], a: char, b: char) -> (r: Vec<char>)
    ensures
        r@ == before_either(s@, a, b),
{
    let mut i: usize = 0;
    assert(s@.skip(0) =~= s@);
    while i < s.len() && s[i] != a && s[i] != b
        invariant
            i <= s@.len(),
            before_either(s@, a, b) == s@.take(i as int) + before_either(s@.skip(i as int), a, b),
        decreases s.len() - i,
    {
        assert(s@.skip(i as int).drop_first() =~= s@.skip(i + 1));
        assert(s@.take(i as int) + seq![s@[i as int]] =~= s@.take(i + 1));
        assert(s@.take(i as int) + (seq![s@[i as int]] + before_either(s@.skip(i + 1), a, b))
            =~= s@.take(i + 1) + before_either(s@.skip(i + 1), a, b));
        i = i + 1;
    }
    assert(s@.take(i as int) + Seq::<char>::empty() =~= s@.take(i as int));
    slice_vec(s, 0, i)
}

/// `s` without its trailing `c` characters.
pub open spec fn strip_end(s: Seq<char>, c: char) -> Seq<char>
    decreases s.len(),
{
    if s.len() > 0 && s.last() == c {
        strip_end(s.drop_last(), c)
    } else {
        s
    }
}

/// The part after the last `c` (all of `s` without one).
pub open spec fn after_last(s: Seq<char>, c: char) -> Seq<char>
    decreases s.len(),
{
    if s.len() == 0 || s.last() == c {
        Seq::empty()
    } else {
        after_last(s.drop_last(), c).push(s.last())
    }
}

/// Unicode `Alphabetic` or `Numeric`, as `char::is_alphanumeric` decides
/// from std's Unicode tables.
pub uninterp spec fn spec_is_alphanumeric(c: char) -> bool;

/// An ASCII letter or digit.
pub open spec fn ascii_alphanumeric(c: char) -> bool {
    ('0' <= c && c <= '9') || ('a' <= c && c <= 'z') || ('A' <= c && c <= 'Z')
}

/// Calls `char::is_alphanumeric`. The result is named, not restated; of an
/// ASCII character it says it is a letter or digit, since no other ASCII
/// character has the Alphabetic or Numeric property.
#[verifier::external_body]
fn is_alphanumeric(c: char) -> (r: bool)
    ensures
        r == spec_is_alphanumeric(c),
        (c as u32) < 128 ==> (r <==> ascii_alphanumeric(c)),
{
    c.is_alphanumeric()
}

/// A character a cached file name may hold: any non-ASCII character, an
/// ASCII letter or digit, or one of `-`, `_`, `.` and space. None of them
/// is a path separator, a control character or reserved in Windows file
/// names.
pub open spec fn file_name_char(c: char) -> bool {
    (c as u32) >= 128 || ascii_alphanumeric(c) || c == '-' || c == '_' || c == '.' || c == ' '
}

/// The `download_filename=` parameter, up to the next `&` or `/`.
pub open spec fn name_from_param(url: Seq<char>) -> Option<Seq<char>> {
    let pat = "download_filename="@;
    match find_sub(url, pat) {
        Some(i) => {
            let rest = url.skip(i + pat.len());
            let piece = match find_sub(rest, pat) {
                Some(j) => rest.take(j),
                None => rest,
            };
            let cut = before_either(piece, '&', '/');
            if cut.len() > 0 {
                Some(cut)
            } else {
                None
            }
        },
        None => None,
    }
}

/// The last path segment, if it looks like a file name (a dot, and more
/// than four bytes).
pub open spec fn name_from_path(url: Seq<char>) -> Option<Seq<char>> {
    let seg = after_last(strip_end(before_either(url, '?', '#'), '/'), '/');
    if seg.contains('.') && encode_utf8(seg).len() > 4 {
        Some(seg)
    } else {
        None
    }
}

/// A character a cached file name keeps; the others become `_`.
pub open spec fn name_char(c: char) -> char {
    if kept_char(c) {
        c
    } else {
        '_'
    }
}

/// Whether a file name keeps `c`: ASCII letters and digits, `-`, `_`, `.`
/// and space; beyond ASCII, what `char::is_alphanumeric` accepts.
pub open spec fn kept_char(c: char) -> bool {
    if (c as u32) < 128 {
        ascii_alphanumeric(c) || c == '-' || c == '_' || c == '.' || c == ' '
    } else {
        spec_is_alphanumeric(c)
    }
}

/// The cache file name for a URL downloaded at `now_ms`:
/// `<now_ms>-<name>`, the name taken from `download_filename=`, else the
/// last path segment, else `video.mp4`; sanitized, at most 80 characters,
/// and given `.mp4` when it has no dot.
pub open spec fn spec_dest_for(url: Seq<char>, now_ms: u64) -> Seq<char> {
    let raw = match name_from_param(url) {
        Some(n) => n,
        None => match name_from_path(url) {
            Some(n) => n,
            None => "video.mp4"@,
        },
    };
    let cleaned = raw.map_values(|c: char| name_char(c));
    let name0 = if cleaned.len() > 80 {
        cleaned.take(80)
    } else {
        cleaned
    };
    let name = if name0.contains('.') {
        name0
    } else {
        name0 + ".mp4"@
    };
    dec_digits(now_ms as nat) + seq!['-'] + name
}

fn name_from_param_exec(url: &[char]) -> (r: Option<Vec<char>>)
    ensures
        match name_from_param(url@) {
            Some(n) => r matches Some(v) && v@ == n,
            None => r is None,
        },
{
    let pat = chars_of("download_filename=");
    proof {
        reveal_strlit("download_filename=");
    }
    assert(url@.skip(0) =~= url@);
    match find_sub_from(url, 0, pat.as_slice()) {
        Some(i) => {
            let n = url.len();
            assert(i + pat@.len() <= n);
            let start = i + pat.len();
            let rest = slice_vec(url, start, url.len());
            assert(rest@ =~= url@.skip(i + pat@.len()));
            assert(rest@.skip(0) =~= rest@);
            let piece = match find_sub_from(rest.as_slice(), 0, pat.as_slice()) {
                Some(j) => {
                    let p = slice_vec(rest.as_slice(), 0, j);
                    assert(p@ =~= rest@.take(j as int));
                    p
                },
                None => rest,
            };
            let cut = before_either_chars(piece.as_slice(), '&', '/');
            if cut.len() > 0 {
                Some(cut)
            } else {
                None
            }
        },
        None => None,
    }
}

fn strip_end_chars(s: &[char], c: char) -> (r: Vec<char>)
    ensures
        r@ == strip_end(s@, c),
{
    let mut j = s.len();
    assert(s@.take(j as int) =~= s@);
    while j > 0 && s[j - 1] == c
        invariant
            j <= s@.len(),
            strip_end(s@, c) == strip_end(s@.take(j as int), c),
        decreases j,
    {
        assert(s@.take(j as int).drop_last() =~= s@.take(j - 1));
        j = j - 1;
    }
    let r = slice_vec(s, 0, j);
    assert(r@ =~= s@.take(j as int));
    r
}

fn after_last_chars(s: &[char], c: char) -> (r: Vec<char>)
    ensures
        r@ == after_last(s@, c),
{
    let mut j = s.len();
    assert(s@.take(j as int) =~= s@);
    assert(s@.skip(j as int) =~= Seq::<char>::empty());
    while j > 0 && s[j - 1] != c
        invariant
            j <= s@.len(),
            after_last(s@, c) == after_last(s@.take(j as int), c) + s@.skip(j as int),
        decreases j,
    {
        assert(s@.take(j as int).drop_last() =~= s@.take(j - 1));
        assert(s@.take(j as int).last() == s@[j - 1]);
        assert(after_last(s@.take(j - 1), c).push(s@[j - 1]) + s@.skip(j as int) =~= after_last(
            s@.take(j - 1),
            c,
        ) + s@.skip(j - 1));
        j = j - 1;
    }
    assert(after_last(s@.take(j as int), c) =~= Seq::<char>::empty());
    let r = slice_vec(s, j, s.len());
    assert(r@ =~= s@.skip(j as int));
    assert(Seq::<char>::empty() + s@.skip(j as int) =~= s@.skip(j as int));
    r
}

fn name_from_path_exec(url: &[char]) -> (r: Option<Vec<char>>)
    ensures
        match name_from_path(url@) {
            Some(n) => r matches Some(v) && v@ == n,
            None => r is None,
        },
{
    let p = before_either_chars(url, '?', '#');
    let t = strip_end_chars(p.as_slice(), '/');
    let seg = after_last_chars(t.as_slice(), '/');
    if crate::text::contains_char(seg.as_slice(), '.') && crate::text::utf8_longer_than(
        seg.as_slice(),
        4,
    ) {
        Some(seg)
    } else {
        None
    }
}

fn sanitize(raw: &[char]) -> (r: Vec<char>)
    ensures
        r@ == raw@.map_values(|c: char| name_char(c)),
        forall|i: int| 0 <= i < r@.len() ==> file_name_char(#[trigger] r@[i]),
{
    let mut out: Vec<char> = Vec::new();
    let mut i: usize = 0;
    while i < raw.len()
        invariant
            i <= raw@.len(),
            out@ == raw@.take(i as int).map_values(|c: char| name_char(c)),
            forall|k: int| 0 <= k < out@.len() ==> file_name_char(#[trigger] out@[k]),
        decreases raw.len() - i,
    {
        let c = raw[i];
        let keep = is_alphanumeric(c) || c == '-' || c == '_' || c == '.' || c == ' ';
        out.push(if keep {
            c
        } else {
            '_'
        });
        assert(out@ =~= raw@.take(i + 1).map_values(|c: char| name_char(c)));
        i = i + 1;
    }
    assert(raw@.take(i as int) =~= raw@);
    out
}

/// The cache file name for `url`, downloaded at `now_ms`. Always
/// sanitized: every character of it may stand in a file name.
pub fn dest_for(url: &str, now_ms: u64) -> (r: String)
    ensures
        r@ == spec_dest_for(url@, now_ms),
        forall|i: int| 0 <= i < r@.len() ==> file_name_char(#[trigger] r@[i]),
{
    let u = chars_of(url);
    let raw = match name_from_param_exec(u.as_slice()) {
        Some(n) => n,
        None => match name_from_path_exec(u.as_slice()) {
            Some(n) => n,
            None => chars_of("video.mp4"),
        },
    };
    let cleaned = sanitize(raw.as_slice());
    let mut name = if cleaned.len() > 80 {
        slice_vec(cleaned.as_slice(), 0, 80)
    } else {
        cleaned
    };
    if !crate::text::contains_char(name.as_slice(), '.') {
        let ext = chars_of(".mp4");
        proof {
            reveal_strlit(".mp4");
        }
        let ghost before = name@;
        name = concat(name.as_slice(), ext.as_slice());
        assert forall|i: int| 0 <= i < name@.len() implies file_name_char(#[trigger] name@[i]) by {
            if i >= before.len() {
                assert(name@[i] == ext@[i - before.len()]);
            }
        }
    }
    let mut out = dec_string(now_ms);
    proof {
        crate::text::lemma_dec_digits_parse(now_ms as nat, now_ms as nat);
    }
    let ghost digits = out@;
    out.push('-');
    let ghost head = out@;
    push_all(&mut out, name.as_slice());
    assert forall|i: int| 0 <= i < out@.len() implies file_name_char(#[trigger] out@[i]) by {
        if i < digits.len() {
            assert(out@[i] == digits[i]);
        } else if i == digits.len() {
            assert(out@[i] == head[i]);
        } else {
            assert(out@[i] == name@[i - head.len()]);
        }
    }
    string_of(out.as_slice())
}

/// A label for a cached file's name: the part after the first `-` (the
/// timestamp prefix dropped), cut to 47 characters and an ellipsis when it
/// is longer than 48.
pub open spec fn spec_label_for(file_name: Seq<char>) -> Seq<char> {
    let n = match crate::text::split_once(file_name, '-') {
        Some((_, t)) => t,
        None => file_name,
    };
    if n.len() > 48 {
        n.take(47).push('\u{2026}')
    } else {
        n
    }
}

/// A label names the whole file after its timestamp: for a file named
/// `<digits>-<name>`, the label is `name` itself, whatever `-` characters
/// it holds, when it is at most 48 characters long; a longer name keeps
/// its first 47 characters and an ellipsis.
pub proof fn lemma_label_keeps_name_after_timestamp(d: Seq<char>, n: Seq<char>)
    requires
        forall|k: int| 0 <= k < d.len() ==> '0' <= #[trigger] d[k] && d[k] <= '9',
    ensures
        n.len() <= 48 ==> spec_label_for(d + seq!['-'] + n) == n,
        n.len() > 48 ==> spec_label_for(d + seq!['-'] + n) == n.take(47).push('\u{2026}'),
{
    let f = d + seq!['-'] + n;
    assert forall|k: int| 0 <= k < d.len() implies f[k] != '-' by {
        assert(f[k] == d[k]);
    }
    assert(f[d.len() as int] == '-');
    crate::text::lemma_find_at(f, '-', d.len() as int);
    assert(f.skip(d.len() as int + 1) =~= n);
}

/// Human label for a queued file, for the player's messages.
pub fn label_for(file_name: &str) -> (r: String)
    ensures
        r@ == spec_label_for(file_name@),
        r@.len() <= 48,
{
    let f = chars_of(file_name);
    let n = match crate::text::split_once_chars(f.as_slice(), '-') {
        Some((_, t)) => t,
        None => f,
    };
    if n.len() > 48 {
        let mut cut = slice_vec(n.as_slice(), 0, 47);
        cut.push('\u{2026}');
        string_of(cut.as_slice())
    } else {
        string_of(n.as_slice())
    }
}

// ------------------------------------------------------------ the player

/// A pasted video becomes a tab as soon as this much has landed: mpv plays
/// the still-growing file while the download finishes behind it.
pub const EARLY_PLAY_BYTES: u64 = 1048576;

/// Two pastes this close together (ms) share one freshly spawned player.
pub const SPAWN_DEBOUNCE_MS: u64 = 5000;

/// Whether to start the shared player now: only when its pipe is not
/// answering and no other paste started one in the last five seconds.
pub fn spawn_due(pipe_alive: bool, last_spawn_ms: u64, now_ms: u64) -> (r: bool)
    ensures
        r == (!pipe_alive && (if now_ms >= last_spawn_ms {
            now_ms - last_spawn_ms
        } else {
            0
        }) >= SPAWN_DEBOUNCE_MS),
{
    if pipe_alive {
        return false;
    }
    let elapsed = if now_ms >= last_spawn_ms {
        now_ms - last_spawn_ms
    } else {
        0
    };
    elapsed >= SPAWN_DEBOUNCE_MS
}

/// Whether a download in progress is ready to become a tab: not opened
/// yet, at least `EARLY_PLAY_BYTES` on disk, and playable.
pub fn ready_early(opened: bool, len: u64, head: &[u8]) -> (r: bool)
    ensures
        r == (!opened && len >= EARLY_PLAY_BYTES && len >= MIN_MEDIA_BYTES && !spec_error_page(head@)),
{
    !opened && len >= EARLY_PLAY_BYTES && is_playable(len, head)
}

/// Whether a finished download becomes a tab: not opened yet, the
/// download succeeded, and what landed is real media.
pub fn ready_finished(opened: bool, success: bool, len: u64, head: &[u8]) -> (r: bool)
    ensures
        r == (!opened && success && len >= MIN_MEDIA_BYTES && !spec_error_page(head@)),
{
    !opened && success && is_playable(len, head)
}

/// The player message when the queue is reopened with `n` videos in it.
pub open spec fn spec_queue_message(n: u64) -> Seq<char> {
    dec_digits(n as nat) + " in the queue (TAB for tabs)"@
}

/// `"<n> in the queue (TAB for tabs)"`.
pub fn queue_message(n: u64) -> (r: String)
    ensures
        r@ == spec_queue_message(n),
{
    let mut s = string_of(dec_string(n).as_slice());
    s.append(" in the queue (TAB for tabs)");
    s
}

/// The player message while a download waits for a slot.
pub fn queued_message(label: &str) -> (r: String)
    ensures
        r@ == "queued: "@ + label@,
{
    let mut s = String::from_str("queued: ");
    s.append(label);
    s
}

} // verus!
