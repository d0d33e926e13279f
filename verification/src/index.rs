//! Installed apps as the index holds them, and the icon pixels that come
//! with them.

use vstd::prelude::*;

use crate::text::{chars_of, lowercase, spec_lowercase, string_of};

verus! {

/// Icon edge length in physical pixels as extracted; scaled at draw time.
pub const ICON_SIZE: i32 = 32;

/// An installed app.
pub struct AppEntry {
    pub name: String,
    pub name_lower: String,
    /// The shell's parsing name on its own. Unique and stable per app, so
    /// it is what the hidden list keys on: display names collide and change.
    pub key: String,
    /// Null-terminated UTF-16 of `shell:AppsFolder\<parsing name>`, ready
    /// for `ShellExecuteExW`.
    pub launch_id: Vec<u16>,
    /// 32x32 top-down premultiplied BGRA, if the shell could produce one.
    pub icon: Option<Vec<u8>>,
}

/// The bytes of one icon: `ICON_SIZE` x `ICON_SIZE` pixels of BGRA.
pub const ICON_BYTES: usize = 4096;

/// A zeroed pixel buffer of one icon, for the shell to draw into.
pub fn icon_buffer() -> (r: Vec<u8>)
    ensures
        r@.len() == ICON_BYTES,
        r@.len() == ICON_SIZE * ICON_SIZE * 4,
        forall|i: int| 0 <= i < r@.len() ==> r@[i] == 0,
{
    let mut v: Vec<u8> = Vec::new();
    let mut i: usize = 0;
    while i < ICON_BYTES
        invariant
            i <= ICON_BYTES,
            v@.len() == i,
            forall|j: int| 0 <= j < v@.len() ==> v@[j] == 0,
        decreases ICON_BYTES - i,
    {
        v.push(0);
        i = i + 1;
    }
    v
}

/// The UTF-16 code units of one character.
pub open spec fn utf16_of(c: char) -> Seq<u16> {
    let v = c as u32;
    if v < 0x10000 {
        seq![v as u16]
    } else {
        seq![(0xD800 + (v - 0x10000) / 0x400) as u16, (0xDC00 + (v - 0x10000) % 0x400) as u16]
    }
}

/// `str::encode_utf16`.
pub open spec fn encode_utf16(s: Seq<char>) -> Seq<u16>
    decreases s.len(),
{
    if s.len() == 0 {
        Seq::empty()
    } else {
        encode_utf16(s.drop_last()) + utf16_of(s.last())
    }
}

/// Appends the UTF-16 code units of `s`.
pub fn push_utf16(out: &mut Vec<u16>, s: &[char])
    ensures
        final(out)@ == old(out)@ + encode_utf16(s@),
{
    let mut i: usize = 0;
    assert(old(out)@ + encode_utf16(s@.take(0)) =~= old(out)@);
    while i < s.len()
        invariant
            i <= s@.len(),
            out@ == old(out)@ + encode_utf16(s@.take(i as int)),
        decreases s.len() - i,
    {
        let v = s[i] as u32;
        proof {
            vstd::utf8::char_is_scalar(s@[i as int]);
        }
        let ghost before = out@;
        if v < 0x10000 {
            out.push(v as u16);
        } else {
            out.push((0xD800 + (v - 0x10000) / 0x400) as u16);
            out.push((0xDC00 + (v - 0x10000) % 0x400) as u16);
        }
        assert(s@.take(i + 1).drop_last() =~= s@.take(i as int));
        assert(s@.take(i + 1).last() == s@[i as int]);
        assert(out@ =~= before + utf16_of(s@[i as int]));
        assert(old(out)@ + encode_utf16(s@.take(i as int)) + utf16_of(s@[i as int]) =~= old(out)@
            + encode_utf16(s@.take(i + 1)));
        i = i + 1;
    }
    assert(s@.take(i as int) =~= s@);
}

/// The launch target for a parsing name, as ShellExecute takes it.
pub open spec fn spec_launch_id(parsing: Seq<char>) -> Seq<u16> {
    encode_utf16("shell:AppsFolder\\"@ + parsing) + seq![0u16]
}

/// A well-formed index entry: a non-empty name, its lowercase, the launch
/// id of its parsing name, and, when it has an icon, one icon's worth of
/// pixels.
pub open spec fn well_formed_entry(e: AppEntry) -> bool {
    &&& e.name@.len() > 0
    &&& e.name_lower@ == spec_lowercase(e.name@)
    &&& e.launch_id@ == spec_launch_id(e.key@)
    &&& (e.icon matches Some(b) ==> b@.len() == ICON_BYTES)
}

/// An index entry for an app the shell lists with display name `name`
/// and parsing name `parsing`, with the icon's pixels (32x32 BGRA, as
/// [`icon_buffer`] holds them) if the shell gave one; `None` for an app
/// with no display name.
pub fn new_entry(name: &str, parsing: &str, icon: Option<Vec<u8>>) -> (r: Option<AppEntry>)
    requires
        icon matches Some(b) ==> b@.len() == ICON_BYTES,
    ensures
        match r {
            Some(e) => name@.len() > 0 && e.name@ == name@ && e.name_lower@ == spec_lowercase(name@)
                && e.key@ == parsing@ && e.launch_id@ == spec_launch_id(parsing@) && e.icon == icon
                && well_formed_entry(e),
            None => name@.len() == 0,
        },
{
    let n = chars_of(name);
    if n.len() == 0 {
        return None;
    }
    let lower = lowercase(n.as_slice());
    let mut target = chars_of("shell:AppsFolder\\");
    let p = chars_of(parsing);
    let mut i: usize = 0;
    let ghost t0 = target@;
    while i < p.len()
        invariant
            i <= p@.len(),
            target@ == t0 + p@.take(i as int),
        decreases p.len() - i,
    {
        target.push(p[i]);
        assert(target@ =~= t0 + p@.take(i + 1));
        i = i + 1;
    }
    assert(p@.take(i as int) =~= p@);
    let mut launch_id: Vec<u16> = Vec::new();
    push_utf16(&mut launch_id, target.as_slice());
    launch_id.push(0);
    assert(launch_id@ =~= spec_launch_id(parsing@));
    Some(
        AppEntry {
            name: String::from_str(name),
            name_lower: string_of(lower.as_slice()),
            key: String::from_str(parsing),
            launch_id,
            icon,
        },
    )
}

/// Every whole pixel of a BGRA buffer has alpha 0 (the trailing partial
/// pixel, if any, does not count).
/// Every entry of `apps` is well formed.
pub open spec fn well_formed_index(apps: Seq<AppEntry>) -> bool {
    forall|i: int| 0 <= i < apps.len() ==> well_formed_entry(#[trigger] apps[i])
}

/// Adds the app the shell listed to the index being built, unless it has
/// no display name. An index built this way from empty holds only
/// well-formed entries.
pub fn push_entry(apps: &mut Vec<AppEntry>, name: &str, parsing: &str, icon: Option<Vec<u8>>)
    requires
        icon matches Some(b) ==> b@.len() == ICON_BYTES,
    ensures
        name@.len() == 0 ==> final(apps)@ == old(apps)@,
        name@.len() > 0 ==> final(apps)@.len() == old(apps)@.len() + 1 && final(apps)@.drop_last()
            == old(apps)@ && ({
            let e = final(apps)@.last();
            e.name@ == name@ && e.key@ == parsing@ && well_formed_entry(e)
        }),
        well_formed_index(old(apps)@) ==> well_formed_index(final(apps)@),
{
    match new_entry(name, parsing, icon) {
        Some(e) => {
            apps.push(e);
            assert(apps@.drop_last() =~= old(apps)@);
        },
        None => {},
    }
}

pub open spec fn no_alpha(buf: Seq<u8>) -> bool {
    forall|k: int| 0 <= k < buf.len() / 4 ==> #[trigger] buf[4 * k + 3] == 0
}

/// Bitmaps without an alpha channel come back all-zero in A; they are
/// treated as opaque.
pub open spec fn spec_fix_alpha(buf: Seq<u8>) -> Seq<u8> {
    if no_alpha(buf) {
        Seq::new(
            buf.len(),
            |i: int| if i < 4 * (buf.len() / 4) && i % 4 == 3 { 255u8 } else { buf[i] },
        )
    } else {
        buf
    }
}

/// Makes an icon without alpha opaque.
pub fn fix_alpha(buf: &mut Vec<u8>)
    ensures
        final(buf)@ == spec_fix_alpha(old(buf)@),
        final(buf)@.len() == old(buf)@.len(),
{
    let len = buf.len();
    let n = len / 4;
    let mut k: usize = 0;
    let ghost b0 = buf@;
    while k < n
        invariant
            buf@ == b0,
            len == b0.len(),
            n == b0.len() / 4,
            k <= n,
            forall|j: int| 0 <= j < k ==> #[trigger] b0[4 * j + 3] == 0,
        decreases n - k,
    {
        assert(4 * k + 3 < len) by (nonlinear_arith)
            requires
                k < n,
                n == len / 4,
        ;
        if buf[4 * k + 3] != 0 {
            return;
        }
        k = k + 1;
    }
    let mut j: usize = 0;
    while j < n
        invariant
            n == b0.len() / 4,
            len == b0.len(),
            no_alpha(b0),
            j <= n,
            buf@.len() == b0.len(),
            forall|i: int|
                0 <= i < b0.len() ==> #[trigger] buf@[i] == (if i < 4 * j && i % 4 == 3 {
                    255u8
                } else {
                    b0[i]
                }),
        decreases n - j,
    {
        assert(4 * j + 3 < len) by (nonlinear_arith)
            requires
                j < n,
                n == len / 4,
        ;
        buf.set(4 * j + 3, 255);
        assert forall|i: int| 0 <= i < b0.len() implies #[trigger] buf@[i] == (if i < 4 * (j + 1)
            && i % 4 == 3 {
            255u8
        } else {
            b0[i]
        }) by {
            if i == 4 * j + 3 {
            } else if i < 4 * j {
            } else if 4 * j <= i < 4 * j + 3 {
                assert(i % 4 != 3);
            }
        }
        j = j + 1;
    }
    assert(buf@ =~= spec_fix_alpha(b0));
}

} // verus!
