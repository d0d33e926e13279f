use optim::services::{bar_path, komorebi_config, services, CONFIG};

/// Every step must name an executable and, where a config path is needed,
/// use the placeholder rather than a baked-in path.
#[test]
fn steps_are_well_formed() {
    for steps in services() {
        assert!(!steps.is_empty());
        for step in &steps {
            assert!(step.exe.ends_with(".exe"), "{}", step.exe);
            for arg in step.args {
                assert!(
                    !arg.contains(":\\") || *arg == CONFIG,
                    "absolute path baked into a step: {arg}"
                );
            }
        }
    }
}

#[test]
fn restart_stops_before_it_starts() {
    let restart = &services()[2];
    assert_eq!(restart.len(), 2);
    assert_eq!(restart[0].args[0], "stop");
    assert_eq!(restart[1].args[0], "start");
}

#[test]
fn the_daemon_is_not_waited_for() {
    let whkd = &services()[6];
    assert!(whkd[0].wait, "the kill has to finish before the restart");
    assert!(!whkd.last().unwrap().wait);
}

#[test]
fn the_bar_restart_waits_for_the_quit() {
    let restart = &services()[8];
    assert_eq!(restart.len(), 2);
    assert_eq!(restart[0].args, &["--quit"]);
    assert!(restart[0].wait, "the start would race the mutex");
    assert!(!restart[1].wait, "the bar never returns");
}

#[test]
fn stopping_the_bar_restores_explorer() {
    let stop = &services()[9];
    assert_eq!(stop.last().unwrap().args, &["--restore-tray"]);
}

#[test]
fn the_bar_resolves_to_the_bar() {
    // No Run entry: the bare name, for a PATH lookup.
    assert!(bar_path(&[], 0).ends_with("optim-bar.exe"));
    // A Run entry: its (quoted) path, terminator and quotes dropped.
    let entry: Vec<u16> = "\"C:\\bar\\optim-bar.exe\"\0".encode_utf16().collect();
    let size = (entry.len() * 2) as u32;
    let mut buf = entry.clone();
    buf.resize(512, 0);
    assert_eq!(bar_path(&buf, size), "C:\\bar\\optim-bar.exe");
}

#[test]
fn config_path_follows_komorebis_own_lookup() {
    let path = komorebi_config("C:\\Users\\me");
    assert!(path.ends_with("komorebi.json"), "{path}");
    assert_eq!(path, "C:\\Users\\me\\komorebi.json");
    assert_eq!(komorebi_config(""), "komorebi.json");
}
