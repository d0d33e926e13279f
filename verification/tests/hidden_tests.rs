use optim::hidden::{clear, hide_app, parse_hidden, render_hidden, sorted, unhide, HiddenApps};

#[test]
fn hiding_and_unhiding() {
    let mut m = HiddenApps::new();
    hide_app(&mut m, "App.One", "Zeta");
    hide_app(&mut m, "App.Two", "alpha");
    assert_eq!(m.len(), 2);
    assert!(m.contains("App.One"));
    hide_app(&mut m, "App.One", "Renamed");
    assert_eq!(m.len(), 2);
    unhide(&mut m, "App.One");
    assert!(!m.contains("App.One"));
    assert_eq!(m.len(), 1);
    unhide(&mut m, "missing");
    assert_eq!(m.len(), 1);
    clear(&mut m);
    assert_eq!(m.len(), 0);
}

#[test]
fn sorted_by_lowercase_name() {
    let mut m = HiddenApps::new();
    hide_app(&mut m, "k1", "beta");
    hide_app(&mut m, "k2", "Alpha");
    hide_app(&mut m, "k3", "gamma");
    let v = sorted(&m);
    let names: Vec<&str> = v.iter().map(|(_, n)| n.as_str()).collect();
    assert_eq!(names, vec!["Alpha", "beta", "gamma"]);
    assert_eq!(v[0].0, "k2");
}

#[test]
fn hidden_file_round_trip() {
    let mut m = HiddenApps::new();
    hide_app(&mut m, "Microsoft.WindowsCalculator_8wekyb3d8bbwe!App", "Calculator");
    hide_app(&mut m, "{6D809377}\\notepad.exe", "Notepad\twith tab");
    let text = render_hidden(&m);
    assert_eq!(
        text,
        "Microsoft.WindowsCalculator_8wekyb3d8bbwe!App\tCalculator\n{6D809377}\\notepad.exe\tNotepad\twith tab\n"
    );
    let back = parse_hidden(&text);
    assert_eq!(back.entries(), m.entries());
}

#[test]
fn hidden_file_skips_junk() {
    let m = parse_hidden("no tab here\n\tempty key\nk\tname\r\nk2\t\n");
    assert_eq!(m.len(), 2);
    assert!(m.contains("k"));
    let e = m.entries();
    assert_eq!(e[0], ("k".to_string(), "name".to_string()));
    assert_eq!(e[1], ("k2".to_string(), "".to_string()));
}
