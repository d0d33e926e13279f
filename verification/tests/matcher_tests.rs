use optim::matcher::score;

#[test]
fn prefix_beats_scattered() {
    let clamav = score("cla", "clamav").unwrap();
    let scattered = score("cla", "calculator").unwrap();
    assert!(clamav > scattered, "clamav={clamav} calculator={scattered}");
}

#[test]
fn word_boundary_bonus() {
    let boundary = score("code", "visual studio code").unwrap();
    assert!(boundary > 0);
}

#[test]
fn non_match_is_none() {
    assert!(score("xyz", "clamav").is_none());
}

#[test]
fn exact_scores() {
    // prefix 12 + run 8 + run 8, first hit 0 (+20), 6 bytes (-0)
    assert_eq!(score("cla", "clamav"), Some(48));
    // c at 0 (+12), then l at 2 and a at 6, neither a run nor a word start; 10 bytes (-1)
    assert_eq!(score("cla", "calculator"), Some(31));
    // word start after ' ' (+10), then runs; first hit 14 (+6); 18 bytes (-2)
    assert_eq!(score("code", "visual studio code"), Some(10 + 8 + 8 + 8 + 6 - 2));
    assert_eq!(score("", "abc"), Some(20));
    assert_eq!(score("ba", "ab"), None);
}

#[test]
fn the_first_hit_counts_bytes() {
    // 'a' is the second character but starts at byte 2.
    assert_eq!(score("a", "\u{e9}a"), Some(18));
    assert_eq!(score("a", "ba"), Some(19));
}
