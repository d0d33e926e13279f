//! Start, stop and reload the background tools that have no tray icon of
//! their own: the tiling window manager, its hotkey daemon, and the status
//! bar.
//!
//! Nothing here hardcodes a machine: komorebi's own config lookup decides
//! which file gets reloaded (the placeholder [`CONFIG`] stands for it), the
//! bar is located through the Run entry it registered for itself (the bare
//! name [`BAR`] stands for it), and every other executable is resolved from
//! PATH.

use vstd::prelude::*;

use crate::text::{chars_of, eq_str, string_of, trim, trim_chars};
use vstd::string::StrSliceExecFns;
use crate::config::{strip_quotes, strip_quotes_chars};

verus! {

/// One process to run. `wait` is false for anything that doesn't return:
/// waiting on the daemon itself would park the worker thread forever.
pub struct Step {
    pub exe: &'static str,
    pub args: &'static [&'static str],
    pub wait: bool,
}

/// A step as plain values: (executable, arguments, wait).
pub type StepView = (Seq<char>, Seq<Seq<char>>, bool);

/// The plain values of a step.
pub open spec fn step_view(s: Step) -> StepView {
    (s.exe@, s.args@.map_values(|a: &str| a@), s.wait)
}

/// The plain values of a list of steps.
pub open spec fn steps_view(s: Seq<Step>) -> Seq<StepView> {
    s.map_values(|x: Step| step_view(x))
}

/// Substituted at run time with komorebi's static config path: a literal
/// path in here would be one machine's.
pub const CONFIG: &'static str = "{komorebi-config}";

/// The window manager's command-line client.
pub const KOMOREBIC: &'static str = "komorebic.exe";

/// The status bar, resolved at run time from its Run entry: it lives
/// wherever it was built, not on PATH.
pub const BAR: &'static str = "optim-bar.exe";

/// A step that is waited on.
pub fn run(exe: &'static str, args: &'static [&'static str]) -> (s: Step)
    ensures
        s.exe == exe,
        s.args == args,
        s.wait,
{
    Step { exe, args, wait: true }
}

/// A step that is started and left running.
pub fn spawn(exe: &'static str, args: &'static [&'static str]) -> (s: Step)
    ensures
        s.exe == exe,
        s.args == args,
        !s.wait,
{
    Step { exe, args, wait: false }
}

/// The steps of each service, run in order, so a restart is simply
/// stop-then-start:
/// 0 start komorebi with its hotkey daemon, 1 stop it, 2 restart it,
/// 3 reload its static config in place, 4 pause/resume tiling, 5 retile,
/// 6 restart only the hotkey daemon (killed by name, re-spawned unwaited),
/// 7 start the bar, 8 restart the bar (its `--quit` waited out so the new
/// one wins the single-instance mutex), 9 stop the bar and give explorer
/// its tray back.
pub open spec fn spec_services() -> Seq<Seq<StepView>> {
    let start: StepView = ("komorebic.exe"@, seq!["start"@, "--whkd"@], true);
    let stop: StepView = ("komorebic.exe"@, seq!["stop"@, "--whkd"@], true);
    seq![
        seq![start],
        seq![stop],
        seq![stop, start],
        seq![("komorebic.exe"@, seq!["replace-configuration"@, "{komorebi-config}"@], true)],
        seq![("komorebic.exe"@, seq!["toggle-pause"@], true)],
        seq![("komorebic.exe"@, seq!["retile"@], true)],
        seq![
            ("taskkill.exe"@, seq!["/IM"@, "whkd.exe"@, "/F"@], true),
            ("whkd.exe"@, seq![], false),
        ],
        seq![("optim-bar.exe"@, seq![], false)],
        seq![("optim-bar.exe"@, seq!["--quit"@], true), ("optim-bar.exe"@, seq![], false)],
        seq![("optim-bar.exe"@, seq!["--quit"@], true), ("optim-bar.exe"@, seq!["--restore-tray"@], true)],
    ]
}

fn service(steps: Vec<Step>) -> (r: Vec<Step>)
    ensures
        r == steps,
{
    steps
}

/// The service table.
pub fn services() -> (r: Vec<Vec<Step>>)
    ensures
        r@.len() == 10,
        forall|i: int| 0 <= i < 10 ==> steps_view((#[trigger] r@[i])@) == spec_services()[i],
{
    let mut t: Vec<Vec<Step>> = Vec::new();
    t.push(service(vec![run(KOMOREBIC, &["start", "--whkd"])]));
    t.push(service(vec![run(KOMOREBIC, &["stop", "--whkd"])]));
    t.push(service(vec![run(KOMOREBIC, &["stop", "--whkd"]), run(KOMOREBIC, &["start", "--whkd"])]));
    t.push(service(vec![run(KOMOREBIC, &["replace-configuration", CONFIG])]));
    t.push(service(vec![run(KOMOREBIC, &["toggle-pause"])]));
    t.push(service(vec![run(KOMOREBIC, &["retile"])]));
    t.push(service(vec![run("taskkill.exe", &["/IM", "whkd.exe", "/F"]), spawn("whkd.exe", &[])]));
    t.push(service(vec![spawn(BAR, &[])]));
    t.push(service(vec![run(BAR, &["--quit"]), spawn(BAR, &[])]));
    t.push(service(vec![run(BAR, &["--quit"]), run(BAR, &["--restore-tray"])]));
    proof {
        let s = spec_services();
        assert(steps_view(t@[0]@) =~~= s[0]);
        assert(steps_view(t@[1]@) =~~= s[1]);
        assert(steps_view(t@[2]@) =~~= s[2]);
        assert(steps_view(t@[3]@) =~~= s[3]);
        assert(steps_view(t@[4]@) =~~= s[4]);
        assert(steps_view(t@[5]@) =~~= s[5]);
        assert(steps_view(t@[6]@) =~~= s[6]);
        assert(steps_view(t@[7]@) =~~= s[7]);
        assert(steps_view(t@[8]@) =~~= s[8]);
        assert(steps_view(t@[9]@) =~~= s[9]);
    }
    t
}

/// `s` ends with `suffix`.
pub open spec fn ends_with(s: Seq<char>, suffix: Seq<char>) -> bool {
    s.len() >= suffix.len() && s.skip(s.len() - suffix.len()) == suffix
}

/// `s` holds a drive-rooted path (`:` followed by `\`).
pub open spec fn has_drive_path(s: Seq<char>) -> bool {
    exists|k: int| 0 <= k < s.len() - 1 && s[k] == ':' && #[trigger] s[k + 1] == '\\'
}

/// Restarting the window manager is stopping it, then starting it, in that
/// order: the other way round would leave nothing running.
pub proof fn lemma_restart_is_stop_then_start()
    ensures
        spec_services()[2] == spec_services()[1] + spec_services()[0],
{
    assert(spec_services()[2] =~= spec_services()[1] + spec_services()[0]);
}

/// Each window-manager service runs its own `komorebic` subcommand:
/// start, stop, reload the config in place, pause/resume, and retile are
/// one step each, and no two of them run the same arguments.
pub proof fn lemma_komorebi_services_differ()
    ensures
        spec_services()[0] == seq![("komorebic.exe"@, seq!["start"@, "--whkd"@], true)],
        spec_services()[1] == seq![("komorebic.exe"@, seq!["stop"@, "--whkd"@], true)],
        spec_services()[3] == seq![("komorebic.exe"@, seq!["replace-configuration"@, CONFIG@], true)],
        spec_services()[4] == seq![("komorebic.exe"@, seq!["toggle-pause"@], true)],
        spec_services()[5] == seq![("komorebic.exe"@, seq!["retile"@], true)],
        forall|i: int, j: int|
            0 <= i < j < 6 && i != 2 && j != 2 ==> (#[trigger] spec_services()[i])[0].1
                != (#[trigger] spec_services()[j])[0].1,
{
    reveal_strlit("start");
    reveal_strlit("stop");
    reveal_strlit("replace-configuration");
    reveal_strlit("toggle-pause");
    reveal_strlit("retile");
    let t = spec_services();
    let a0 = t[0][0].1;
    let a1 = t[1][0].1;
    let a3 = t[3][0].1;
    let a4 = t[4][0].1;
    let a5 = t[5][0].1;
    assert(a0[0].len() != a1[0].len());
    assert(a0[0].len() != a3[0].len());
    assert(a1[0].len() != a3[0].len());
    assert(a4.len() != a0.len() && a4.len() != a1.len() && a4.len() != a3.len());
    assert(a5.len() != a0.len() && a5.len() != a1.len() && a5.len() != a3.len());
    assert(a4[0].len() != a5[0].len());
    assert forall|i: int, j: int|
        0 <= i < j < 6 && i != 2 && j != 2 implies (#[trigger] t[i])[0].1 != (#[trigger] t[j])[0].1 by {
        if i == 0 && j == 1 {
            assert(a0[0] != a1[0]);
        } else if i == 0 && j == 3 {
            assert(a0[0] != a3[0]);
        } else if i == 1 && j == 3 {
            assert(a1[0] != a3[0]);
        } else if i == 4 && j == 5 {
            assert(a4[0] != a5[0]);
        }
    }
}

proof fn lemma_no_colon(s: Seq<char>)
    requires
        forall|k: int| 0 <= k < s.len() ==> s[k] != ':',
    ensures
        !has_drive_path(s),
{
}

/// Nothing hardcodes a machine: every service has steps, every step names
/// an `.exe`, and no argument holds a drive-rooted path but the config
/// placeholder that is substituted at run time.
pub proof fn lemma_steps_name_no_machine()
    ensures
        forall|i: int| 0 <= i < 10 ==> (#[trigger] spec_services()[i]).len() > 0,
        forall|i: int, j: int|
            0 <= i < 10 && 0 <= j < spec_services()[i].len() ==> ends_with(
                (#[trigger] spec_services()[i][j]).0,
                ".exe"@,
            ),
        forall|i: int, j: int, k: int|
            0 <= i < 10 && 0 <= j < spec_services()[i].len() && 0 <= k
                < spec_services()[i][j].1.len() ==> !has_drive_path(
                #[trigger] spec_services()[i][j].1[k],
            ) || spec_services()[i][j].1[k] == CONFIG@,
{
    reveal_strlit(".exe");
    reveal_strlit("komorebic.exe");
    reveal_strlit("taskkill.exe");
    reveal_strlit("whkd.exe");
    reveal_strlit("optim-bar.exe");
    reveal_strlit("start");
    reveal_strlit("stop");
    reveal_strlit("--whkd");
    reveal_strlit("replace-configuration");
    reveal_strlit("toggle-pause");
    reveal_strlit("retile");
    reveal_strlit("/IM");
    reveal_strlit("/F");
    reveal_strlit("--quit");
    reveal_strlit("--restore-tray");
    let t = spec_services();
    assert forall|i: int, j: int|
        0 <= i < 10 && 0 <= j < t[i].len() implies ends_with((#[trigger] t[i][j]).0, ".exe"@) by {
        let e = t[i][j].0;
        assert(e.skip(e.len() - 4) =~= ".exe"@);
    }
    assert forall|i: int, j: int, k: int|
        0 <= i < 10 && 0 <= j < t[i].len() && 0 <= k < t[i][j].1.len() implies !has_drive_path(
        #[trigger] t[i][j].1[k],
    ) || t[i][j].1[k] == CONFIG@ by {
        let a = t[i][j].1[k];
        if a != CONFIG@ {
            lemma_no_colon(a);
        }
    }
}

// ------------------------------------------------------------ resolving

/// The path komorebi reads its static config from: `komorebi.json` in the
/// directory its own lookup gives (`KOMOREBI_CONFIG_HOME`, else the user
/// profile), or bare when there is none.
pub open spec fn spec_komorebi_config(dir: Seq<char>) -> Seq<char> {
    if dir.len() == 0 {
        "komorebi.json"@
    } else {
        dir + "\\komorebi.json"@
    }
}

/// The config path for the directory `dir` (empty when unset).
pub fn komorebi_config(dir: &str) -> (r: String)
    ensures
        r@ == spec_komorebi_config(dir@),
{
    if dir.unicode_len() == 0 {
        String::from_str("komorebi.json")
    } else {
        let mut s = String::from_str(dir);
        s.append("\\komorebi.json");
        s
    }
}

/// A step ready to run: the bar's placeholder name replaced by where it
/// lives, the config placeholder by the config path.
pub open spec fn spec_resolve(s: StepView, config: Seq<char>, bar: Seq<char>) -> StepView {
    (
        if s.0 == BAR@ {
            bar
        } else {
            s.0
        },
        s.1.map_values(|a: Seq<char>| if a == CONFIG@ { config } else { a }),
        s.2,
    )
}

/// Resolves one step: (executable, arguments, wait).
pub fn resolve_step(step: &Step, config: &str, bar: &str) -> (r: (String, Vec<String>, bool))
    ensures
        (r.0@, crate::config::string_views(r.1@), r.2) == spec_resolve(step_view(*step), config@, bar@),
{
    let exe = if eq_str(chars_of(step.exe).as_slice(), BAR) {
        String::from_str(bar)
    } else {
        String::from_str(step.exe)
    };
    let mut args: Vec<String> = Vec::new();
    let mut i: usize = 0;
    let ghost sv = step_view(*step);
    let ghost f = |a: Seq<char>| if a == CONFIG@ { config@ } else { a };
    while i < step.args.len()
        invariant
            sv == step_view(*step),
            f == (|a: Seq<char>| if a == CONFIG@ { config@ } else { a }),
            i <= step.args@.len(),
            crate::config::string_views(args@) == sv.1.take(i as int).map_values(f),
        decreases step.args.len() - i,
    {
        let a = step.args[i];
        let ghost before = crate::config::string_views(args@);
        if eq_str(chars_of(a).as_slice(), CONFIG) {
            args.push(String::from_str(config));
        } else {
            args.push(String::from_str(a));
        }
        assert(crate::config::string_views(args@) =~= before.push(f(a@)));
        assert(sv.1[i as int] == a@);
        assert(sv.1.take(i + 1).map_values(f) =~= sv.1.take(i as int).map_values(f).push(f(a@)));
        i = i + 1;
    }
    assert(sv.1.take(i as int) =~= sv.1);
    (exe, args, step.wait)
}

/// Where the bar lives, from the raw value of its Run entry: `size` counts
/// bytes including the terminator the registry writes; the value is a
/// command line, so surrounding whitespace and quotes are dropped. Falls
/// back to the bare name, and so to a PATH lookup.
pub open spec fn spec_bar_path(units: Seq<u16>, size: u32) -> Seq<char> {
    let half = (size / 2) as int;
    let n0 = if half >= 1 {
        half - 1
    } else {
        0
    };
    let n = if n0 < units.len() {
        n0
    } else {
        units.len() as int
    };
    let p = strip_quotes(trim(crate::text::decode_utf16_lossy(units.take(n))));
    if p.len() == 0 {
        BAR@
    } else {
        p
    }
}

/// The bar's path from its Run entry value (`buf` as read, `size` bytes
/// reported).
pub fn bar_path(buf: &[u16], size: u32) -> (r: String)
    ensures
        r@ == spec_bar_path(buf@, size),
{
    let half = (size / 2) as usize;
    let n0 = if half >= 1 {
        half - 1
    } else {
        0
    };
    let n = if n0 < buf.len() {
        n0
    } else {
        buf.len()
    };
    let mut units: Vec<u16> = Vec::new();
    let mut i: usize = 0;
    while i < n
        invariant
            n <= buf@.len(),
            i <= n,
            units@ == buf@.take(i as int),
        decreases n - i,
    {
        units.push(buf[i]);
        assert(units@ =~= buf@.take(i + 1));
        i = i + 1;
    }
    let text = crate::text::decode_utf16_lossy_exec(units.as_slice());
    let t = trim_chars(text.as_slice());
    let p = strip_quotes_chars(t.as_slice());
    if p.len() == 0 {
        String::from_str(BAR)
    } else {
        string_of(p.as_slice())
    }
}

} // verus!
