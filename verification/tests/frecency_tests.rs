use optim::frecency::{bump, parse_frecency, render_frecency, Frecency};

#[test]
fn launches_count_up() {
    let mut f = Frecency::new();
    assert_eq!(f.count("Firefox"), 0);
    bump(&mut f, "Firefox");
    bump(&mut f, "Firefox");
    bump(&mut f, "Terminal");
    assert_eq!(f.count("Firefox"), 2);
    assert_eq!(f.count("Terminal"), 1);
}

#[test]
fn counts_file_round_trip() {
    let mut f = Frecency::new();
    f.set("Firefox", 12);
    f.set("Name\twith tab", 4294967295);
    let text = render_frecency(&f);
    assert_eq!(text, "12\tFirefox\n4294967295\tName\twith tab\n");
    let back = parse_frecency(&text);
    assert_eq!(back.entries(), f.entries());
}

#[test]
fn counts_file_skips_junk() {
    let f = parse_frecency("x\tA\n+7\tB\n4294967296\tC\n3\tB\nno tab\n");
    assert_eq!(f.count("A"), 0);
    assert_eq!(f.count("B"), 3);
    assert_eq!(f.count("C"), 0);
    assert_eq!(f.entries().len(), 1);
}
