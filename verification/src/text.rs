//! Character-level helpers shared by the parsers and formatters.
//!
//! Strings are handled as sequences of `char`; each helper has a spec
//! function that says what it computes and an executable version proved
//! against it.

use vstd::prelude::*;

verus! {

// ------------------------------------------------------------ conversions

/// The characters of `s`, in order.
pub fn chars_of(s: &str) -> (r: Vec<char>)
    ensures
        r@ == s@,
{
    let mut out: Vec<char> = Vec::new();
    for c in it: s.chars()
        invariant
            out@ == it.seq().take(it.index() as int),
    {
        out.push(c);
    }
    out
}

/// A `String` holding exactly the characters of `v`, in order: std's
/// `String: FromIterator<&char>`, which pushes each character.
#[verifier::external_body]
pub(crate) fn string_of(v: &[char]) -> (r: String)
    ensures
        r@ == v@,
{
    v.iter().collect::<String>()
}

/// Unicode lowercase of a character sequence, as std's `str::to_lowercase`
/// computes it from the Unicode tables.
pub uninterp spec fn spec_lowercase(s: Seq<char>) -> Seq<char>;

/// Whether every character of `s` is ASCII.
pub open spec fn all_ascii(s: Seq<char>) -> bool {
    forall|i: int| 0 <= i < s.len() ==> (#[trigger] s[i] as u32) < 128
}

/// `s` with each ASCII capital letter lowered, as `str::to_ascii_lowercase`.
pub open spec fn ascii_lowercase(s: Seq<char>) -> Seq<char> {
    s.map_values(|c: char| ascii_lower(c))
}

/// Calls `str::to_lowercase`. The contract names the result: it is a
/// function of the characters alone (the Unicode case tables, no locale);
/// the tables themselves are not restated here. Of ASCII text it says what
/// std documents: each character is lowered as `to_ascii_lowercase` does.
#[verifier::external_body]
pub(crate) fn to_lowercase(s: &str) -> (r: String)
    ensures
        r@ == spec_lowercase(s@),
        all_ascii(s@) ==> r@ == ascii_lowercase(s@),
{
    s.to_lowercase()
}

/// The Unicode lowercase of `s`; of ASCII text, its ASCII lowercase.
pub fn lowercase(s: &[char]) -> (r: Vec<char>)
    ensures
        r@ == spec_lowercase(s@),
        all_ascii(s@) ==> r@ == ascii_lowercase(s@),
{
    let text = string_of(s);
    let lower = to_lowercase(text.as_str());
    chars_of(lower.as_str())
}

/// Copy of `s[lo..hi]`.
pub fn slice_vec(s: &[char], lo: usize, hi: usize) -> (r: Vec<char>)
    requires
        lo <= hi <= s@.len(),
    ensures
        r@ == s@.subrange(lo as int, hi as int),
{
    let mut out: Vec<char> = Vec::new();
    let mut i = lo;
    while i < hi
        invariant
            lo <= i <= hi <= s@.len(),
            out@ == s@.subrange(lo as int, i as int),
        decreases hi - i,
    {
        out.push(s[i]);
        i = i + 1;
    }
    out
}

/// `a` followed by `b`.
pub fn concat(a: &[char], b: &[char]) -> (r: Vec<char>)
    ensures
        r@ == a@ + b@,
{
    let mut out = slice_vec(a, 0, a.len());
    let mut i: usize = 0;
    while i < b.len()
        invariant
            i <= b@.len(),
            out@ == a@ + b@.take(i as int),
        decreases b.len() - i,
    {
        out.push(b[i]);
        i = i + 1;
    }
    out
}

/// Whether two character sequences are equal.
pub fn eq_chars(a: &[char], b: &[char]) -> (r: bool)
    ensures
        r == (a@ == b@),
{
    if a.len() != b.len() {
        return false;
    }
    let mut i: usize = 0;
    while i < a.len()
        invariant
            a@.len() == b@.len(),
            i <= a@.len(),
            forall|k: int| 0 <= k < i ==> a@[k] == b@[k],
        decreases a.len() - i,
    {
        if a[i] != b[i] {
            return false;
        }
        i = i + 1;
    }
    assert(a@ =~= b@);
    true
}

/// Whether `s` equals the literal `lit`.
pub fn eq_str(s: &[char], lit: &str) -> (r: bool)
    ensures
        r == (s@ == lit@),
{
    let l = chars_of(lit);
    eq_chars(s, l.as_slice())
}

// ------------------------------------------------------------ whitespace

/// Unicode `White_Space`, the set `char::is_whitespace` tests.
pub open spec fn is_white(c: char) -> bool {
    ||| c == '\t' || c == '\n' || c == '\u{0B}' || c == '\u{0C}' || c == '\r' || c == ' '
    ||| c == '\u{85}' || c == '\u{A0}' || c == '\u{1680}'
    ||| ('\u{2000}' <= c && c <= '\u{200A}')
    ||| c == '\u{2028}' || c == '\u{2029}' || c == '\u{202F}' || c == '\u{205F}'
    ||| c == '\u{3000}'
}

/// `char::is_whitespace`.
pub fn white(c: char) -> (r: bool)
    ensures
        r == is_white(c),
{
    c == '\t' || c == '\n' || c == '\u{0B}' || c == '\u{0C}' || c == '\r' || c == ' '
        || c == '\u{85}' || c == '\u{A0}' || c == '\u{1680}' || ('\u{2000}' <= c && c
        <= '\u{200A}') || c == '\u{2028}' || c == '\u{2029}' || c == '\u{202F}' || c
        == '\u{205F}' || c == '\u{3000}'
}

/// `s` without its leading whitespace.
pub open spec fn trim_start(s: Seq<char>) -> Seq<char>
    decreases s.len(),
{
    if s.len() > 0 && is_white(s[0]) {
        trim_start(s.drop_first())
    } else {
        s
    }
}

/// `s` without its trailing whitespace.
pub open spec fn trim_end(s: Seq<char>) -> Seq<char>
    decreases s.len(),
{
    if s.len() > 0 && is_white(s.last()) {
        trim_end(s.drop_last())
    } else {
        s
    }
}

/// `str::trim`: whitespace removed from both ends.
pub open spec fn trim(s: Seq<char>) -> Seq<char> {
    trim_end(trim_start(s))
}

/// Whether every character of `s` is whitespace.
pub open spec fn all_white(s: Seq<char>) -> bool {
    forall|k: int| 0 <= k < s.len() ==> is_white(#[trigger] s[k])
}

proof fn lemma_trim_start_all_white(w: Seq<char>)
    requires
        all_white(w),
    ensures
        trim_start(w) == Seq::<char>::empty(),
    decreases w.len(),
{
    if w.len() > 0 {
        assert(all_white(w.drop_first())) by {
            assert forall|k: int| 0 <= k < w.drop_first().len() implies is_white(#[trigger] w.drop_first()[k]) by {
                assert(w.drop_first()[k] == w[k + 1]);
            }
        }
        lemma_trim_start_all_white(w.drop_first());
    } else {
        assert(w =~= Seq::<char>::empty());
    }
}

/// Whitespace after the text leaves the start-trimmed text's characters
/// as they were, followed by that whitespace.
pub proof fn lemma_trim_start_append_white(x: Seq<char>, w: Seq<char>)
    requires
        all_white(w),
    ensures
        trim_start(x + w) == (if trim_start(x).len() == 0 {
            Seq::<char>::empty()
        } else {
            trim_start(x) + w
        }),
    decreases x.len(),
{
    if x.len() == 0 {
        assert(x + w =~= w);
        lemma_trim_start_all_white(w);
    } else {
        assert((x + w)[0] == x[0]);
        if is_white(x[0]) {
            assert((x + w).drop_first() =~= x.drop_first() + w);
            lemma_trim_start_append_white(x.drop_first(), w);
        }
    }
}

/// Whitespace before the text is trimmed away.
pub proof fn lemma_trim_start_prepend_white(w: Seq<char>, x: Seq<char>)
    requires
        all_white(w),
    ensures
        trim_start(w + x) == trim_start(x),
    decreases w.len(),
{
    if w.len() == 0 {
        assert(w + x =~= x);
    } else {
        assert((w + x)[0] == w[0]);
        assert((w + x).drop_first() =~= w.drop_first() + x);
        assert(all_white(w.drop_first())) by {
            assert forall|k: int| 0 <= k < w.drop_first().len() implies is_white(#[trigger] w.drop_first()[k]) by {
                assert(w.drop_first()[k] == w[k + 1]);
            }
        }
        lemma_trim_start_prepend_white(w.drop_first(), x);
    }
}

/// Whitespace after the text is trimmed away at the end.
pub proof fn lemma_trim_end_append_white(y: Seq<char>, w: Seq<char>)
    requires
        all_white(w),
    ensures
        trim_end(y + w) == trim_end(y),
    decreases w.len(),
{
    if w.len() == 0 {
        assert(y + w =~= y);
    } else {
        assert((y + w).last() == w.last());
        assert((y + w).drop_last() =~= y + w.drop_last());
        assert(all_white(w.drop_last())) by {
            assert forall|k: int| 0 <= k < w.drop_last().len() implies is_white(#[trigger] w.drop_last()[k]) by {
                assert(w.drop_last()[k] == w[k]);
            }
        }
        lemma_trim_end_append_white(y, w.drop_last());
    }
}

/// `trim` ignores whitespace added at either end.
pub proof fn lemma_trim_surrounding_white(x: Seq<char>, w: Seq<char>)
    requires
        all_white(w),
    ensures
        trim(x + w) == trim(x),
        trim(w + x) == trim(x),
{
    lemma_trim_start_append_white(x, w);
    lemma_trim_start_prepend_white(w, x);
    if trim_start(x).len() > 0 {
        lemma_trim_end_append_white(trim_start(x), w);
    }
}

proof fn lemma_trim_start_at(s: Seq<char>, i: int)
    requires
        0 <= i <= s.len(),
        forall|k: int| 0 <= k < i ==> is_white(#[trigger] s[k]),
        i == s.len() || !is_white(s[i]),
    ensures
        trim_start(s) == s.subrange(i, s.len() as int),
    decreases i,
{
    if i == 0 {
        assert(s.subrange(0, s.len() as int) =~= s);
    } else {
        let t = s.drop_first();
        assert forall|k: int| 0 <= k < i - 1 implies is_white(#[trigger] t[k]) by {
            assert(t[k] == s[k + 1]);
        }
        lemma_trim_start_at(t, i - 1);
        assert(t.subrange(i - 1, t.len() as int) =~= s.subrange(i, s.len() as int));
    }
}

proof fn lemma_trim_end_at(s: Seq<char>, j: int)
    requires
        0 <= j <= s.len(),
        forall|k: int| j <= k < s.len() ==> is_white(#[trigger] s[k]),
        j == 0 || !is_white(s[j - 1]),
    ensures
        trim_end(s) == s.subrange(0, j),
    decreases s.len() - j,
{
    if j == s.len() {
        assert(s.subrange(0, j) =~= s);
    } else {
        let t = s.drop_last();
        assert forall|k: int| j <= k < t.len() implies is_white(#[trigger] t[k]) by {
            assert(t[k] == s[k]);
        }
        lemma_trim_end_at(t, j);
        assert(t.subrange(0, j) =~= s.subrange(0, j));
    }
}

/// Index of the first non-whitespace character at or after `lo`, else `hi`.
fn skip_white_from(s: &[char], lo: usize, hi: usize) -> (r: usize)
    requires
        lo <= hi <= s@.len(),
    ensures
        lo <= r <= hi,
        forall|k: int| lo <= k < r ==> is_white(#[trigger] s@[k]),
        r == hi || !is_white(s@[r as int]),
{
    let mut i = lo;
    while i < hi && white(s[i])
        invariant
            lo <= i <= hi <= s@.len(),
            forall|k: int| lo <= k < i ==> is_white(#[trigger] s@[k]),
        decreases hi - i,
    {
        i = i + 1;
    }
    i
}

/// One past the last non-whitespace character before `hi` (not below `lo`).
fn back_white_from(s: &[char], lo: usize, hi: usize) -> (r: usize)
    requires
        lo <= hi <= s@.len(),
    ensures
        lo <= r <= hi,
        forall|k: int| r <= k < hi ==> is_white(#[trigger] s@[k]),
        r == lo || !is_white(s@[r - 1]),
{
    let mut j = hi;
    while j > lo && white(s[j - 1])
        invariant
            lo <= j <= hi <= s@.len(),
            forall|k: int| j <= k < hi ==> is_white(#[trigger] s@[k]),
        decreases j - lo,
    {
        j = j - 1;
    }
    j
}

/// `str::trim_start`.
pub fn trim_start_chars(s: &[char]) -> (r: Vec<char>)
    ensures
        r@ == trim_start(s@),
{
    let i = skip_white_from(s, 0, s.len());
    proof {
        lemma_trim_start_at(s@, i as int);
    }
    slice_vec(s, i, s.len())
}

/// `str::trim_end`.
pub fn trim_end_chars(s: &[char]) -> (r: Vec<char>)
    ensures
        r@ == trim_end(s@),
{
    let j = back_white_from(s, 0, s.len());
    proof {
        lemma_trim_end_at(s@, j as int);
    }
    slice_vec(s, 0, j)
}

/// `str::trim`.
pub fn trim_chars(s: &[char]) -> (r: Vec<char>)
    ensures
        r@ == trim(s@),
{
    let a = trim_start_chars(s);
    trim_end_chars(a.as_slice())
}

// ------------------------------------------------------------ searching

/// Index of the first `c` in `s`.
pub open spec fn find(s: Seq<char>, c: char) -> Option<int>
    decreases s.len(),
{
    if s.len() == 0 {
        None
    } else if s[0] == c {
        Some(0)
    } else {
        match find(s.drop_first(), c) {
            Some(i) => Some(i + 1),
            None => None,
        }
    }
}

/// `find` characterised by its index.
pub proof fn lemma_find(s: Seq<char>, c: char)
    ensures
        find(s, c) is None ==> forall|k: int| 0 <= k < s.len() ==> s[k] != c,
        find(s, c) matches Some(i) ==> 0 <= i < s.len() && s[i] == c && forall|k: int|
            0 <= k < i ==> s[k] != c,
    decreases s.len(),
{
    if s.len() > 0 && s[0] != c {
        lemma_find(s.drop_first(), c);
        assert forall|k: int| 1 <= k < s.len() implies s[k] == s.drop_first()[k - 1] by {}
    }
}

/// The index characterises `find`.
pub proof fn lemma_find_at(s: Seq<char>, c: char, i: int)
    requires
        0 <= i <= s.len(),
        forall|k: int| 0 <= k < i ==> s[k] != c,
        i == s.len() || s[i] == c,
    ensures
        find(s, c) == (if i == s.len() { None::<int> } else { Some(i) }),
{
    lemma_find(s, c);
}

/// Position of the first `c` in `s[lo..]`, relative to the start of `s`.
pub fn find_from(s: &[char], lo: usize, c: char) -> (r: Option<usize>)
    requires
        lo <= s@.len(),
    ensures
        find(s@.skip(lo as int), c) == (match r {
            Some(i) => Some(i - lo),
            None => None::<int>,
        }),
        r matches Some(i) ==> lo <= i < s@.len() && s@[i as int] == c,
        r is None ==> forall|k: int| lo <= k < s@.len() ==> s@[k] != c,
{
    let mut i = lo;
    while i < s.len() && s[i] != c
        invariant
            lo <= i <= s@.len(),
            forall|k: int| lo <= k < i ==> s@[k] != c,
        decreases s.len() - i,
    {
        i = i + 1;
    }
    proof {
        let t = s@.skip(lo as int);
        assert forall|k: int| 0 <= k < i - lo implies t[k] != c by {
            assert(t[k] == s@[k + lo]);
        }
        lemma_find_at(t, c, i - lo);
    }
    if i < s.len() {
        Some(i)
    } else {
        None
    }
}

/// `str::split_once`: the parts before and after the first `c`.
pub open spec fn split_once(s: Seq<char>, c: char) -> Option<(Seq<char>, Seq<char>)> {
    match find(s, c) {
        Some(i) => Some((s.take(i), s.skip(i + 1))),
        None => None,
    }
}

/// `str::split(c).next()`: everything before the first `c`.
pub open spec fn before(s: Seq<char>, c: char) -> Seq<char> {
    match find(s, c) {
        Some(i) => s.take(i),
        None => s,
    }
}

/// `str::split_once`.
pub fn split_once_chars(s: &[char], c: char) -> (r: Option<(Vec<char>, Vec<char>)>)
    ensures
        match r {
            Some((a, b)) => split_once(s@, c) == Some((a@, b@)),
            None => split_once(s@, c) is None,
        },
{
    match find_from(s, 0, c) {
        Some(i) => {
            assert(s@.skip(0) =~= s@);
            let a = slice_vec(s, 0, i);
            let n = s.len();
            assert(i < n);
            let b = slice_vec(s, i + 1, n);
            assert(a@ =~= s@.take(i as int));
            assert(b@ =~= s@.skip(i + 1));
            Some((a, b))
        },
        None => {
            assert(s@.skip(0) =~= s@);
            None
        },
    }
}

/// `str::split(c).next()`.
pub fn before_chars(s: &[char], c: char) -> (r: Vec<char>)
    ensures
        r@ == before(s@, c),
{
    assert(s@.skip(0) =~= s@);
    match find_from(s, 0, c) {
        Some(i) => {
            let a = slice_vec(s, 0, i);
            assert(a@ =~= s@.take(i as int));
            a
        },
        None => slice_vec(s, 0, s.len()),
    }
}

/// Whether `c` occurs in `s`.
pub fn contains_char(s: &[char], c: char) -> (r: bool)
    ensures
        r == s@.contains(c),
{
    match find_from(s, 0, c) {
        Some(i) => {
            assert(s@[i as int] == c);
            true
        },
        None => false,
    }
}

// ------------------------------------------------------------ lines

/// The character sequences held by a vector of strings.
pub open spec fn views(v: Seq<Vec<char>>) -> Seq<Seq<char>> {
    v.map_values(|x: Vec<char>| x@)
}

/// A line's text without one trailing `'\r'`.
pub open spec fn strip_cr(l: Seq<char>) -> Seq<char> {
    if l.len() > 0 && l.last() == '\r' {
        l.drop_last()
    } else {
        l
    }
}

/// `str::lines`: split after each `'\n'`; a line that ended in `"\r\n"`
/// loses the `'\r'` too; no line follows a final `'\n'`.
pub open spec fn lines(s: Seq<char>) -> Seq<Seq<char>>
    decreases s.len(),
{
    if s.len() == 0 {
        seq![]
    } else {
        match find(s, '\n') {
            Some(i) => {
                proof {
                    lemma_find(s, '\n');
                }
                seq![strip_cr(s.take(i))] + lines(s.skip(i + 1))
            },
            None => seq![s],
        }
    }
}

/// `str::lines`.
pub fn lines_of(s: &[char]) -> (r: Vec<Vec<char>>)
    ensures
        views(r@) == lines(s@),
{
    let mut out: Vec<Vec<char>> = Vec::new();
    let mut pos: usize = 0;
    assert(s@.skip(0) =~= s@);
    while pos < s.len()
        invariant
            pos <= s@.len(),
            lines(s@) == views(out@) + lines(s@.skip(pos as int)),
        decreases s.len() - pos,
    {
        let ghost rest = s@.skip(pos as int);
        match find_from(s, pos, '\n') {
            Some(i) => {
                let mut l = slice_vec(s, pos, i);
                if l.len() > 0 && l[l.len() - 1] == '\r' {
                    l.pop();
                }
                proof {
                    lemma_find(rest, '\n');
                    assert(rest.take(i - pos) =~= s@.subrange(pos as int, i as int));
                    assert(rest.skip(i - pos + 1) =~= s@.skip(i + 1));
                    assert(l@ == strip_cr(rest.take(i - pos)));
                }
                let ghost before_push = views(out@);
                out.push(l);
                assert(views(out@) =~= before_push + seq![l@]);
                pos = i + 1;
            },
            None => {
                let l = slice_vec(s, pos, s.len());
                assert(l@ =~= rest);
                let ghost before_push = views(out@);
                out.push(l);
                assert(views(out@) =~= before_push + seq![l@]);
                pos = s.len();
                assert(s@.skip(pos as int) =~= Seq::<char>::empty());
            },
        }
    }
    assert(s@.skip(pos as int) =~= Seq::<char>::empty());
    assert(lines(s@.skip(pos as int)) =~= Seq::<Seq<char>>::empty());
    assert(views(out@) + Seq::<Seq<char>>::empty() =~= views(out@));
    out
}

// ------------------------------------------------------------ numbers

/// Value of `c` as a digit in base `radix` (10 or 16), either case.
pub open spec fn digit_val(c: char, radix: nat) -> Option<nat> {
    if '0' <= c && c <= '9' {
        Some((c as nat - '0' as nat) as nat)
    } else if radix == 16 && 'a' <= c && c <= 'f' {
        Some((c as nat - 'a' as nat + 10) as nat)
    } else if radix == 16 && 'A' <= c && c <= 'F' {
        Some((c as nat - 'A' as nat + 10) as nat)
    } else {
        None
    }
}

/// Every character of `d` is a digit in base `radix`.
pub open spec fn all_digits(d: Seq<char>, radix: nat) -> bool {
    forall|k: int| 0 <= k < d.len() ==> (#[trigger] digit_val(d[k], radix)) is Some
}

/// The number the digits `d` spell in base `radix`.
pub open spec fn digits_value(d: Seq<char>, radix: nat) -> nat
    decreases d.len(),
{
    if d.len() == 0 {
        0
    } else {
        radix * digits_value(d.drop_last(), radix) + match digit_val(d.last(), radix) {
            Some(v) => v,
            None => 0,
        }
    }
}

/// The digits of an unsigned literal: one leading `'+'` is allowed.
pub open spec fn unsigned_digits(s: Seq<char>) -> Seq<char> {
    if s.len() > 0 && s[0] == '+' {
        s.drop_first()
    } else {
        s
    }
}

/// What `from_str_radix` (and `str::parse`) gives for an unsigned integer
/// type whose largest value is `max`: an optional `'+'`, then one or more
/// digits, and a value that fits.
pub open spec fn parse_unsigned(s: Seq<char>, radix: nat, max: nat) -> Option<nat> {
    let d = unsigned_digits(s);
    if d.len() > 0 && all_digits(d, radix) && digits_value(d, radix) <= max {
        Some(digits_value(d, radix))
    } else {
        None
    }
}

proof fn lemma_digits_value_grows(d: Seq<char>, radix: nat, k: int)
    requires
        radix >= 1,
        0 <= k <= d.len(),
    ensures
        digits_value(d.take(k), radix) <= digits_value(d, radix),
    decreases d.len() - k,
{
    if k < d.len() {
        lemma_digits_value_grows(d, radix, k + 1);
        let t = d.take(k + 1);
        assert(t.drop_last() =~= d.take(k));
        let a = digits_value(d.take(k), radix);
        assert(a <= radix * a) by (nonlinear_arith)
            requires
                radix >= 1,
        ;
    } else {
        assert(d.take(k) =~= d);
    }
}

fn digit_of(c: char, radix: u64) -> (r: Option<u64>)
    requires
        radix == 10 || radix == 16,
    ensures
        match digit_val(c, radix as nat) {
            Some(v) => r == Some(v as u64),
            None => r is None,
        },
        r matches Some(v) ==> v < radix,
{
    if '0' <= c && c <= '9' {
        Some(c as u64 - '0' as u64)
    } else if radix == 16 && 'a' <= c && c <= 'f' {
        Some(c as u64 - 'a' as u64 + 10)
    } else if radix == 16 && 'A' <= c && c <= 'F' {
        Some(c as u64 - 'A' as u64 + 10)
    } else {
        None
    }
}

/// `from_str_radix` for an unsigned type whose largest value is `max`.
pub fn parse_unsigned_chars(s: &[char], radix: u64, max: u64) -> (r: Option<u64>)
    requires
        radix == 10 || radix == 16,
        max >= 16,
    ensures
        match parse_unsigned(s@, radix as nat, max as nat) {
            Some(v) => r == Some(v as u64),
            None => r is None,
        },
{
    let start: usize = if s.len() > 0 && s[0] == '+' {
        1
    } else {
        0
    };
    let ghost d = unsigned_digits(s@);
    assert(d =~= s@.skip(start as int));
    if start == s.len() {
        return None;
    }
    let mut acc: u64 = 0;
    let mut i = start;
    assert(d.take(0) =~= Seq::<char>::empty());
    while i < s.len()
        invariant
            start <= i <= s@.len(),
            d == s@.skip(start as int),
            d == unsigned_digits(s@),
            radix == 10 || radix == 16,
            max >= 16,
            all_digits(d.take(i - start), radix as nat),
            acc as nat == digits_value(d.take(i - start), radix as nat),
            acc <= max,
        decreases s.len() - i,
    {
        let c = s[i];
        let ghost k = i - start;
        assert(d[k] == c);
        let dv = match digit_of(c, radix) {
            Some(v) => v,
            None => {
                assert(!all_digits(d, radix as nat)) by {
                    assert(digit_val(d[k], radix as nat) is None);
                }
                return None;
            },
        };
        assert(d.take(k + 1).drop_last() =~= d.take(k));
        assert(d.take(k + 1).last() == c);
        let lim = (max - dv) / radix;
        if acc > lim {
            proof {
                assert(radix * acc + dv > max) by (nonlinear_arith)
                    requires
                        acc > lim,
                        lim == (max - dv) / (radix as int),
                        radix > 0,
                        dv < radix,
                        max >= 16,
                ;
                lemma_digits_value_grows(d, radix as nat, k + 1);
            }
            return None;
        }
        proof {
            assert(radix * acc + dv <= max) by (nonlinear_arith)
                requires
                    acc <= lim,
                    lim == (max - dv) / (radix as int),
                    radix > 0,
                    dv < radix,
                    max >= 16,
            ;
            assert forall|m: int| 0 <= m < k + 1 implies (#[trigger] digit_val(
                d.take(k + 1)[m],
                radix as nat,
            )) is Some by {
                if m < k {
                    assert(d.take(k + 1)[m] == d.take(k)[m]);
                }
            }
        }
        acc = acc * radix + dv;
        i = i + 1;
    }
    assert(d.take(i - start) =~= d);
    Some(acc)
}

/// `str::eq_ignore_ascii_case`.
pub open spec fn ascii_lower(c: char) -> char {
    if 'A' <= c && c <= 'Z' {
        ((c as u32) + 32) as char
    } else {
        c
    }
}

/// Equal up to ASCII case.
pub open spec fn eq_ignore_ascii_case(a: Seq<char>, b: Seq<char>) -> bool {
    a.len() == b.len() && forall|k: int| 0 <= k < a.len() ==> ascii_lower(#[trigger] a[k])
        == ascii_lower(b[k])
}

fn ascii_lower_exec(c: char) -> (r: u32)
    ensures
        r == ascii_lower(c) as u32,
{
    if 'A' <= c && c <= 'Z' {
        (c as u32) + 32
    } else {
        c as u32
    }
}

/// `str::eq_ignore_ascii_case` against a literal.
pub fn eq_ignore_case_str(s: &[char], lit: &str) -> (r: bool)
    ensures
        r == eq_ignore_ascii_case(s@, lit@),
{
    let l = chars_of(lit);
    if s.len() != l.len() {
        return false;
    }
    let mut i: usize = 0;
    while i < s.len()
        invariant
            s@.len() == l@.len(),
            l@ == lit@,
            i <= s@.len(),
            forall|k: int| 0 <= k < i ==> ascii_lower(#[trigger] s@[k]) == ascii_lower(l@[k]),
        decreases s.len() - i,
    {
        if ascii_lower_exec(s[i]) != ascii_lower_exec(l[i]) {
            proof {
                let a = ascii_lower(s@[i as int]);
                let b = ascii_lower(l@[i as int]);
                assert(a as u32 != b as u32);
            }
            return false;
        }
        proof {
            let a = ascii_lower(s@[i as int]);
            let b = ascii_lower(l@[i as int]);
            assert(a as u32 == b as u32);
            vstd::utf8::char_u32_cast(a, a as u32);
            vstd::utf8::char_u32_cast(b, b as u32);
        }
        i = i + 1;
    }
    true
}

/// The decimal digit for `d < 10`.
pub open spec fn digit_char(d: nat) -> char {
    (48 + d) as char
}

/// Decimal digits of `n`, as `format!("{n}")` writes them.
pub open spec fn dec_digits(n: nat) -> Seq<char>
    decreases n,
{
    if n < 10 {
        seq![digit_char(n)]
    } else {
        dec_digits(n / 10).push(digit_char(n % 10))
    }
}

fn digit_char_exec(d: u64) -> (c: char)
    requires
        d < 10,
    ensures
        c == digit_char(d as nat),
{
    let b: u8 = 48 + d as u8;
    b as char
}

/// `format!("{n}")`.
pub fn dec_string(n: u64) -> (r: Vec<char>)
    ensures
        r@ == dec_digits(n as nat),
    decreases n,
{
    if n < 10 {
        let mut v: Vec<char> = Vec::new();
        v.push(digit_char_exec(n));
        v
    } else {
        let mut v = dec_string(n / 10);
        v.push(digit_char_exec(n % 10));
        v
    }
}

/// Reading back the decimal digits of `n` gives `n`.
pub proof fn lemma_dec_digits_parse(n: nat, max: nat)
    requires
        n <= max,
    ensures
        parse_unsigned(dec_digits(n), 10, max) == Some(n),
        dec_digits(n).len() > 0,
        dec_digits(n)[0] != '+',
        forall|k: int| 0 <= k < dec_digits(n).len() ==> '0' <= #[trigger] dec_digits(n)[k] && dec_digits(n)[k] <= '9',
{
    lemma_dec_digits_value(n);
}

proof fn lemma_dec_digits_value(n: nat)
    ensures
        dec_digits(n).len() > 0,
        all_digits(dec_digits(n), 10),
        digits_value(dec_digits(n), 10) == n,
        forall|k: int| 0 <= k < dec_digits(n).len() ==> '0' <= #[trigger] dec_digits(n)[k] && dec_digits(n)[k] <= '9',
    decreases n,
{
    if n >= 10 {
        lemma_dec_digits_value(n / 10);
        let d = dec_digits(n);
        assert(d.drop_last() =~= dec_digits(n / 10));
        assert(d.last() == digit_char(n % 10));
        assert(digit_val(digit_char(n % 10), 10) == Some(n % 10));
        assert(n == 10 * (n / 10) + n % 10);
        assert(digits_value(d.drop_last(), 10) == n / 10);
        assert(digits_value(d, 10) == 10 * digits_value(d.drop_last(), 10) + (n % 10));
        assert forall|k: int| 0 <= k < d.len() implies '0' <= #[trigger] d[k] && d[k] <= '9' by {
            if k < d.len() - 1 {
                assert(d[k] == dec_digits(n / 10)[k]);
            }
        }
    } else {
        let d = dec_digits(n);
        assert(d.drop_last() =~= Seq::<char>::empty());
        assert(digit_val(digit_char(n), 10) == Some(n));
        assert(digits_value(d.drop_last(), 10) == 0);
        assert(digits_value(d, 10) == 10 * digits_value(d.drop_last(), 10) + n);
    }
}

/// A line with no `'\n'` of its own, ended by `'\n'`, is the first of the
/// lines of what it starts.
pub proof fn lemma_lines_cons(line: Seq<char>, rest: Seq<char>)
    requires
        !line.contains('\n'),
    ensures
        lines(line + seq!['\n'] + rest) == seq![strip_cr(line)] + lines(rest),
{
    let s = line + seq!['\n'] + rest;
    assert forall|k: int| 0 <= k < line.len() implies s[k] != '\n' by {
        assert(s[k] == line[k]);
    }
    lemma_find_at(s, '\n', line.len() as int);
    assert(s.take(line.len() as int) =~= line);
    assert(s.skip(line.len() as int + 1) =~= rest);
}

/// Copies of the strings of `v`.
pub fn clone_strings(v: &Vec<String>) -> (r: Vec<String>)
    ensures
        r@ == v@,
{
    let mut out: Vec<String> = Vec::new();
    let mut i: usize = 0;
    while i < v.len()
        invariant
            i <= v@.len(),
            out@ == v@.take(i as int),
        decreases v.len() - i,
    {
        out.push(v[i].clone());
        assert(out@ =~= v@.take(i + 1));
        i = i + 1;
    }
    assert(v@.take(i as int) =~= v@);
    out
}

// ------------------------------------------------------------ ordering

/// `a` sorts strictly before `b`, comparing character codes in turn (the
/// order `String`'s comparison gives, UTF-8 preserving code-point order).
pub open spec fn lex_lt(a: Seq<char>, b: Seq<char>) -> bool
    decreases a.len(),
{
    if b.len() == 0 {
        false
    } else if a.len() == 0 {
        true
    } else if a[0] != b[0] {
        a[0] < b[0]
    } else {
        lex_lt(a.drop_first(), b.drop_first())
    }
}

/// `a` sorts no later than `b`.
pub open spec fn lex_le(a: Seq<char>, b: Seq<char>) -> bool {
    lex_lt(a, b) || a == b
}

/// The lexicographic order is total and strict.
pub proof fn lemma_lex_total(a: Seq<char>, b: Seq<char>)
    ensures
        lex_lt(a, b) || a == b || lex_lt(b, a),
        !(lex_lt(a, b) && lex_lt(b, a)),
        !lex_lt(a, a),
    decreases a.len(),
{
    if a.len() > 0 && b.len() > 0 && a[0] == b[0] {
        lemma_lex_total(a.drop_first(), b.drop_first());
        if a.drop_first() == b.drop_first() {
            assert(a =~= seq![a[0]] + a.drop_first());
            assert(b =~= seq![b[0]] + b.drop_first());
        }
    } else if a.len() > 0 && b.len() == 0 {
    } else if a.len() == 0 && b.len() == 0 {
        assert(a =~= b);
    }
    if a.len() > 0 {
        lemma_lex_total(a.drop_first(), a.drop_first());
    }
}

/// The lexicographic order is transitive.
pub proof fn lemma_lex_trans(a: Seq<char>, b: Seq<char>, c: Seq<char>)
    ensures
        lex_lt(a, b) && lex_lt(b, c) ==> lex_lt(a, c),
    decreases a.len(),
{
    if a.len() > 0 && b.len() > 0 && c.len() > 0 && a[0] == b[0] && b[0] == c[0] {
        lemma_lex_trans(a.drop_first(), b.drop_first(), c.drop_first());
    }
}

/// Compares two character sequences.
pub fn lex_lt_exec(a: &[char], b: &[char]) -> (r: bool)
    ensures
        r == lex_lt(a@, b@),
{
    let mut i: usize = 0;
    assert(a@.skip(0) =~= a@);
    assert(b@.skip(0) =~= b@);
    while i < a.len() && i < b.len() && a[i] == b[i]
        invariant
            i <= a@.len(),
            i <= b@.len(),
            lex_lt(a@, b@) == lex_lt(a@.skip(i as int), b@.skip(i as int)),
        decreases a.len() - i,
    {
        proof {
            let x = a@.skip(i as int);
            let y = b@.skip(i as int);
            assert(x.drop_first() =~= a@.skip(i + 1));
            assert(y.drop_first() =~= b@.skip(i + 1));
        }
        i = i + 1;
    }
    if i == b.len() {
        false
    } else if i == a.len() {
        true
    } else {
        a[i] < b[i]
    }
}

/// `order` lists each of `0..n` exactly once.
pub open spec fn is_permutation(order: Seq<usize>, n: nat) -> bool {
    &&& order.len() == n
    &&& forall|i: int| 0 <= i < order.len() ==> (#[trigger] order[i]) < n
    &&& forall|i: int, j: int| 0 <= i < j < order.len() ==> order[i] != order[j]
}

/// Positions in `order` whose keys never decrease.
pub open spec fn sorted_by_lex(order: Seq<usize>, keys: Seq<Seq<char>>) -> bool {
    forall|i: int, j: int|
        0 <= i < j < order.len() ==> lex_le(#[trigger] keys[order[i] as int], #[trigger] keys[order[j] as int])
}

/// The positions of `keys`, stably sorted by key.
pub fn sort_indices_lex(keys: &Vec<Vec<char>>) -> (order: Vec<usize>)
    ensures
        is_permutation(order@, keys@.len()),
        sorted_by_lex(order@, views(keys@)),
{
    let ghost ks = views(keys@);
    let mut order: Vec<usize> = Vec::new();
    let mut j: usize = 0;
    while j < keys.len()
        invariant
            ks == views(keys@),
            j <= keys@.len(),
            order@.len() == j,
            forall|i: int| 0 <= i < order@.len() ==> (#[trigger] order@[i]) < j,
            forall|a: int, b: int| 0 <= a < b < order@.len() ==> order@[a] != order@[b],
            sorted_by_lex(order@, ks),
        decreases keys.len() - j,
    {
        let kj = keys[j].as_slice();
        let mut p: usize = 0;
        while p < order.len() && !lex_lt_exec(kj, keys[order[p]].as_slice())
            invariant
                ks == views(keys@),
                j < keys@.len(),
                kj@ == ks[j as int],
                p <= order@.len(),
                forall|i: int| 0 <= i < order@.len() ==> (#[trigger] order@[i]) < j,
                forall|q: int| 0 <= q < p ==> !lex_lt(ks[j as int], #[trigger] ks[order@[q] as int]),
            decreases order.len() - p,
        {
            p = p + 1;
        }
        let ghost old_order = order@;
        order.insert(p, j);
        proof {
            assert(order@ == old_order.insert(p as int, j));
            assert forall|a: int, b: int| 0 <= a < b < order@.len() implies lex_le(
                #[trigger] ks[order@[a] as int],
                #[trigger] ks[order@[b] as int],
            ) by {
                if b < p {
                    assert(order@[a] == old_order[a]);
                    assert(order@[b] == old_order[b]);
                } else if b == p {
                    assert(order@[a] == old_order[a]);
                    lemma_lex_total(ks[j as int], ks[old_order[a] as int]);
                } else if a == p {
                    assert(order@[b] == old_order[b - 1]);
                    assert(lex_lt(ks[j as int], ks[old_order[p as int] as int]));
                    if b - 1 > p {
                        assert(lex_le(ks[old_order[p as int] as int], ks[old_order[b - 1] as int]));
                        lemma_lex_trans(
                            ks[j as int],
                            ks[old_order[p as int] as int],
                            ks[old_order[b - 1] as int],
                        );
                    }
                } else if a < p {
                    assert(order@[a] == old_order[a]);
                    assert(order@[b] == old_order[b - 1]);
                } else {
                    assert(order@[a] == old_order[a - 1]);
                    assert(order@[b] == old_order[b - 1]);
                }
            }
            assert forall|a: int, b: int| 0 <= a < b < order@.len() implies order@[a] != order@[b] by {
                if a < p && b < p {
                    assert(order@[a] == old_order[a]);
                    assert(order@[b] == old_order[b]);
                } else if a < p && b > p {
                    assert(order@[a] == old_order[a]);
                    assert(order@[b] == old_order[b - 1]);
                } else if a > p {
                    assert(order@[a] == old_order[a - 1]);
                    assert(order@[b] == old_order[b - 1]);
                } else if a == p {
                    assert(order@[b] == old_order[b - 1]);
                } else {
                    assert(order@[a] == old_order[a]);
                }
            }
            assert forall|i: int| 0 <= i < order@.len() implies (#[trigger] order@[i]) < j + 1 by {
                if i < p {
                    assert(order@[i] == old_order[i]);
                } else if i > p {
                    assert(order@[i] == old_order[i - 1]);
                }
            }
        }
        j = j + 1;
    }
    order
}

/// Text that is empty or ends in `'\n'` splits into lines on its own.
pub proof fn lemma_lines_append(x: Seq<char>, y: Seq<char>)
    requires
        x.len() == 0 || x.last() == '\n',
    ensures
        lines(x + y) == lines(x) + lines(y),
    decreases x.len(),
{
    if x.len() == 0 {
        assert(x + y =~= y);
        assert(lines(x) =~= Seq::<Seq<char>>::empty());
        assert(lines(x) + lines(y) =~= lines(y));
    } else {
        let s = x + y;
        lemma_find(x, '\n');
        let i = find(x, '\n').unwrap();
        assert forall|k: int| 0 <= k < i implies s[k] != '\n' by {
            assert(s[k] == x[k]);
        }
        assert(s[i] == x[i]);
        lemma_find_at(s, '\n', i);
        assert(s.take(i) =~= x.take(i));
        let xr = x.skip(i + 1);
        assert(s.skip(i + 1) =~= xr + y);
        if xr.len() > 0 {
            assert(xr.last() == x.last());
        }
        lemma_lines_append(xr, y);
        assert(lines(x + y) =~= lines(x) + lines(y));
    }
}

/// `l` followed by `'\n'` is the one line `l` (less a final `'\r'`).
pub proof fn lemma_lines_single(l: Seq<char>)
    requires
        !l.contains('\n'),
    ensures
        lines(l + seq!['\n']) == seq![strip_cr(l)],
{
    lemma_lines_cons(l, Seq::empty());
    assert(l + seq!['\n'] + Seq::<char>::empty() =~= l + seq!['\n']);
    assert(lines(Seq::<char>::empty()) =~= Seq::<Seq<char>>::empty());
    assert(seq![strip_cr(l)] + Seq::<Seq<char>>::empty() =~= seq![strip_cr(l)]);
}

/// Text whose ends are not whitespace is its own trim.
pub proof fn lemma_trim_noop(s: Seq<char>)
    requires
        s.len() > 0,
        !is_white(s[0]),
        !is_white(s.last()),
    ensures
        trim(s) == s,
{
}

// ------------------------------------------------------------ UTF-8 length

/// Bytes in the UTF-8 encoding of `c`.
pub open spec fn utf8_width(c: char) -> nat {
    if (c as u32) < 0x80 {
        1
    } else if (c as u32) < 0x800 {
        2
    } else if (c as u32) < 0x10000 {
        3
    } else {
        4
    }
}

/// Bytes in the UTF-8 encoding of `s`.
pub open spec fn utf8_len(s: Seq<char>) -> nat
    decreases s.len(),
{
    if s.len() == 0 {
        0
    } else {
        utf8_width(s[0]) + utf8_len(s.drop_first())
    }
}

/// `utf8_len` is the length of `encode_utf8`.
pub proof fn lemma_utf8_len(s: Seq<char>)
    ensures
        vstd::utf8::encode_utf8(s).len() == utf8_len(s),
    decreases s.len(),
{
    if s.len() > 0 {
        vstd::utf8::char_is_scalar(s[0]);
        lemma_utf8_len(s.drop_first());
    }
}

/// Whether the UTF-8 encoding of `s` is longer than `n` bytes.
pub fn utf8_longer_than(s: &[char], n: usize) -> (r: bool)
    ensures
        r == (vstd::utf8::encode_utf8(s@).len() > n),
{
    proof {
        lemma_utf8_len(s@);
    }
    let mut j = s.len();
    let mut acc: usize = 0;
    assert(s@.skip(j as int) =~= Seq::<char>::empty());
    while j > 0
        invariant
            j <= s@.len(),
            acc == utf8_len(s@.skip(j as int)),
            acc <= n,
        decreases j,
    {
        let c = s[j - 1] as u32;
        assert(c == s@[j - 1] as u32);
        let w: usize = if c < 0x80 {
            1
        } else if c < 0x800 {
            2
        } else if c < 0x10000 {
            3
        } else {
            4
        };
        assert(s@.skip(j - 1).drop_first() =~= s@.skip(j as int));
        assert(s@.skip(j - 1)[0] == s@[j - 1]);
        assert(w == utf8_width(s@[j - 1]));
        assert(utf8_len(s@.skip(j - 1)) == w + acc);
        if w > n - acc {
            proof {
                lemma_utf8_len_skip_grows(s@, j - 1);
                lemma_utf8_len(s@);
            }
            return true;
        }
        acc = acc + w;
        j = j - 1;
    }
    assert(s@.skip(0) =~= s@);
    false
}

proof fn lemma_utf8_len_append(a: Seq<char>, b: Seq<char>)
    ensures
        utf8_len(a + b) == utf8_len(a) + utf8_len(b),
    decreases a.len(),
{
    if a.len() == 0 {
        assert(a + b =~= b);
    } else {
        lemma_utf8_len_append(a.drop_first(), b);
        assert((a + b).drop_first() =~= a.drop_first() + b);
        assert((a + b)[0] == a[0]);
    }
}

proof fn lemma_utf8_len_one(c: char)
    ensures
        utf8_len(seq![c]) == utf8_width(c),
{
    assert(seq![c].drop_first() =~= Seq::<char>::empty());
    assert(utf8_len(Seq::<char>::empty()) == 0);
    assert(seq![c][0] == c);
}

/// The UTF-8 length of the first `n` characters of `s`, or `cap` when that
/// is larger: a byte offset, capped.
pub fn utf8_prefix_len_capped(s: &[char], n: usize, cap: usize) -> (r: usize)
    requires
        n <= s@.len(),
        cap <= 0xFFFF,
    ensures
        r == (if vstd::utf8::encode_utf8(s@.take(n as int)).len() < cap {
            vstd::utf8::encode_utf8(s@.take(n as int)).len() as int
        } else {
            cap as int
        }),
{
    proof {
        lemma_utf8_len(s@.take(n as int));
    }
    let mut i: usize = 0;
    let mut acc: usize = 0;
    assert(s@.take(0) =~= Seq::<char>::empty());
    while i < n && acc < cap
        invariant
            i <= n <= s@.len(),
            acc == utf8_len(s@.take(i as int)),
            cap <= 0xFFFF,
            acc <= cap + 4,
        decreases n - i,
    {
        let c = s[i] as u32;
        assert(c == s@[i as int] as u32);
        let w: usize = if c < 0x80 {
            1
        } else if c < 0x800 {
            2
        } else if c < 0x10000 {
            3
        } else {
            4
        };
        assert(w == utf8_width(s@[i as int]));
        proof {
            assert(s@.take(i + 1) =~= s@.take(i as int) + seq![s@[i as int]]);
            lemma_utf8_len_append(s@.take(i as int), seq![s@[i as int]]);
            lemma_utf8_len_one(s@[i as int]);
        }
        acc = acc + w;
        i = i + 1;
    }
    proof {
        assert(s@.take(n as int) =~= s@.take(i as int) + s@.subrange(i as int, n as int));
        lemma_utf8_len_append(s@.take(i as int), s@.subrange(i as int, n as int));
    }
    if acc < cap {
        acc
    } else {
        cap
    }
}

proof fn lemma_utf8_len_skip_grows(s: Seq<char>, j: int)
    requires
        0 <= j <= s.len(),
    ensures
        utf8_len(s.skip(j)) <= utf8_len(s),
    decreases j,
{
    if j > 0 {
        lemma_utf8_len_skip_grows(s, j - 1);
        assert(s.skip(j - 1).drop_first() =~= s.skip(j));
    } else {
        assert(s.skip(0) =~= s);
    }
}

// ------------------------------------------------------------ UTF-16

/// The character for a Unicode scalar value.
pub open spec fn scalar_char(v: u32) -> char {
    v as char
}

/// `String::from_utf16_lossy`: UTF-16 decoded, each unpaired surrogate
/// replaced by U+FFFD.
pub open spec fn decode_utf16_lossy(u: Seq<u16>) -> Seq<char>
    decreases u.len(),
{
    if u.len() == 0 {
        Seq::empty()
    } else if u[0] < 0xD800 || u[0] > 0xDFFF {
        seq![scalar_char(u[0] as u32)] + decode_utf16_lossy(u.drop_first())
    } else if u[0] <= 0xDBFF && u.len() > 1 && 0xDC00 <= u[1] <= 0xDFFF {
        seq![scalar_char((0x10000 + (u[0] - 0xD800) * 0x400 + (u[1] - 0xDC00)) as u32)]
            + decode_utf16_lossy(u.skip(2))
    } else {
        seq!['\u{FFFD}'] + decode_utf16_lossy(u.drop_first())
    }
}

/// `char::from_u32`: the character with that code, if it is a Unicode
/// scalar value (not a surrogate, at most U+10FFFF).
#[verifier::external_body]
pub(crate) fn char_from_u32(v: u32) -> (r: Option<char>)
    ensures
        r matches Some(c) ==> c as u32 == v && c == scalar_char(v),
        r is Some <==> vstd::utf8::is_scalar(v),
{
    char::from_u32(v)
}

/// `String::from_utf16_lossy`.
pub fn decode_utf16_lossy_exec(u: &[u16]) -> (r: Vec<char>)
    ensures
        r@ == decode_utf16_lossy(u@),
{
    let mut out: Vec<char> = Vec::new();
    let mut i: usize = 0;
    assert(u@.skip(0) =~= u@);
    assert(out@ + decode_utf16_lossy(u@) =~= decode_utf16_lossy(u@));
    while i < u.len()
        invariant
            i <= u@.len(),
            out@ + decode_utf16_lossy(u@.skip(i as int)) == decode_utf16_lossy(u@),
        decreases u.len() - i,
    {
        let a = u[i];
        let ghost rest = u@.skip(i as int);
        assert(rest[0] == a);
        if a < 0xD800 || a > 0xDFFF {
            let c = match char_from_u32(a as u32) {
                Some(c) => c,
                None => '\u{FFFD}',
            };
            assert(rest.drop_first() =~= u@.skip(i + 1));
            let ghost o = out@;
            out.push(c);
            assert(o + decode_utf16_lossy(rest) =~= out@ + decode_utf16_lossy(u@.skip(i + 1)));
            i = i + 1;
        } else if a <= 0xDBFF && i + 1 < u.len() && 0xDC00 <= u[i + 1] && u[i + 1] <= 0xDFFF {
            let b = u[i + 1];
            assert(rest[1] == b);
            let v: u32 = 0x10000 + (a as u32 - 0xD800) * 0x400 + (b as u32 - 0xDC00);
            let c = match char_from_u32(v) {
                Some(c) => c,
                None => '\u{FFFD}',
            };
            assert(rest.skip(2) =~= u@.skip(i + 2));
            let ghost o = out@;
            out.push(c);
            assert(o + decode_utf16_lossy(rest) =~= out@ + decode_utf16_lossy(u@.skip(i + 2)));
            i = i + 2;
        } else {
            assert(rest.drop_first() =~= u@.skip(i + 1));
            let ghost o = out@;
            out.push('\u{FFFD}');
            assert(o + decode_utf16_lossy(rest) =~= out@ + decode_utf16_lossy(u@.skip(i + 1)));
            i = i + 1;
        }
    }
    assert(u@.skip(i as int) =~= Seq::<u16>::empty());
    assert(out@ + Seq::<char>::empty() =~= out@);
    out
}

/// A UTF-8 encoding takes at most four bytes per character.
pub proof fn lemma_utf8_len_bound(s: Seq<char>)
    ensures
        vstd::utf8::encode_utf8(s).len() <= 4 * s.len(),
    decreases s.len(),
{
    lemma_utf8_len(s);
    if s.len() > 0 {
        lemma_utf8_len_bound(s.drop_first());
        lemma_utf8_len(s.drop_first());
    }
}

} // verus!
