use optim::watch::{
    dest_for, fate, format_line, json_escape, label_for, looks_like_error_page, parse_line,
    same_path, Entry, Fate, IN_FLIGHT_GRACE_SECS, MIN_MEDIA_BYTES,
};

const GB: u64 = 1024 * 1024 * 1024;

#[test]
fn error_pages_are_not_videos() {
    assert!(looks_like_error_page(b"<html><body>410 gone"));
    assert!(looks_like_error_page(b"\n  {\"error\":\"expired\"}"));
    assert!(looks_like_error_page(b"HTTP/1.1 403 Forbidden"));
    assert!(!looks_like_error_page(b"\0\0\0 ftypisom\0\0\x02\0"));
    assert!(!looks_like_error_page(&[0x1A, 0x45, 0xDF, 0xA3, 0x01, 0x00]));
    assert!(!looks_like_error_page(&[0x47, 0x40, 0x00, 0x10]));
    assert!(!looks_like_error_page(b""));
}

#[test]
fn remembered_videos_are_never_swept() {
    let ancient = 400 * 24 * 3600;
    assert_eq!(fate(true, ancient, 40 * GB, false), Fate::Keep);
    assert_eq!(fate(true, ancient, 40 * GB, true), Fate::Keep);
}

#[test]
fn unknown_files_are_orphans_once_they_settle() {
    assert_eq!(fate(false, 3600, GB, false), Fate::Delete);
    assert_eq!(fate(false, IN_FLIGHT_GRACE_SECS - 60, 1024, false), Fate::Keep);
}

#[test]
fn first_run_adopts_the_existing_cache() {
    assert_eq!(fate(false, 3600, GB, true), Fate::Adopt);
    assert_eq!(fate(false, 3600, 23, true), Fate::Delete);
    assert_eq!(fate(false, 5, GB, true), Fate::Adopt);
    assert_eq!(fate(false, 5, 23, true), Fate::Keep);
}

#[test]
fn history_lines_round_trip() {
    let e = Entry {
        added: 1786750945164,
        path: r"C:\Temp\watchqueue\1-clip.mp4".into(),
        url: "https://host/clip.mp4?token=x".into(),
    };
    assert_eq!(parse_line(&format_line(&e)).unwrap(), e);
    assert!(parse_line("").is_none());
    assert!(parse_line("not-a-number\tC:\\x.mp4\t").is_none());
    assert_eq!(parse_line("5\tC:\\x.mp4").unwrap().url, "");
}

#[test]
fn paths_compare_the_way_windows_does() {
    assert!(same_path(r"C:\Temp\A.MP4", r"c:/temp/a.mp4"));
    assert!(!same_path(r"C:\Temp\a.mp4", r"C:\Temp\b.mp4"));
}

#[test]
fn labels_drop_the_timestamp_prefix() {
    let name = |p: &str| {
        std::path::Path::new(p)
            .file_name()
            .unwrap()
            .to_string_lossy()
            .to_string()
    };
    assert_eq!(label_for(&name(r"C:\t\1786-clip.mp4")), "clip.mp4");
    let long = label_for(&name(&format!(r"C:\t\1786-{}.mp4", "x".repeat(80))));
    assert!(long.chars().count() <= 48);
}

#[test]
fn escaping() {
    assert_eq!(json_escape("plain"), "\"plain\"");
    assert_eq!(json_escape("a\"b\\c"), "\"a\\\"b\\\\c\"");
}

#[test]
fn dest_names() {
    let d = dest_for(
        "https://host/get_file/1/abc/1.mp4/?download_filename=cool.mp4&download=true",
        1786,
    );
    assert!(d.ends_with("-cool.mp4"));
    let d = dest_for("https://host/path/clip.webm?token=x", 1786);
    assert!(d.ends_with("-clip.webm"));
    let d = dest_for("https://host/watch?v=abc123", 1786);
    assert!(d.ends_with(".mp4"));
    assert!(MIN_MEDIA_BYTES > 0);
}

use optim::watch::{
    find_by_url, forget, history, history_text, loadfile_cmd, osd_cmd, plan_sweep,
    playlist_pos_cmd, queue_message, remember, spawn_due, CachedFile,
};

fn entry(added: u64, path: &str, url: &str) -> Entry {
    Entry { added, path: path.into(), url: url.into() }
}

#[test]
fn control_characters_are_escaped() {
    assert_eq!(json_escape("a\nb\u{1f}"), "\"a\\u000ab\\u001f\"");
    assert_eq!(
        loadfile_cmd("C:\\v\\a.mp4", "append"),
        "{\"command\":[\"loadfile\",\"C:\\\\v\\\\a.mp4\",\"append\"]}"
    );
    assert_eq!(osd_cmd("hi"), "{\"command\":[\"show-text\",\"hi\",2500]}");
    assert_eq!(playlist_pos_cmd(4), "{\"command\":[\"set_property\",\"playlist-pos\",4]}");
    assert_eq!(queue_message(3), "3 in the queue (TAB for tabs)");
}

#[test]
fn dest_names_exactly() {
    assert_eq!(dest_for("https://h/x?download_filename=my%20clip.mp4", 7), "7-my_20clip.mp4");
    assert_eq!(dest_for("https://h/a/b/", 7), "7-video.mp4");
    assert_eq!(dest_for("https://h/a/movie.mkv#t=3", 7), "7-movie.mkv");
    assert_eq!(dest_for("https://h/a/x.y", 7), "7-video.mp4"); // too short to trust
    assert_eq!(dest_for("https://h/?download_filename=&x", 7), "7-video.mp4");
    let long = dest_for(&format!("https://h/{}.mp4", "a".repeat(100)), 1);
    assert_eq!(long, format!("1-{}.mp4", "a".repeat(80)));
}

#[test]
fn labels_exactly() {
    assert_eq!(label_for("noprefix.mp4"), "noprefix.mp4");
    let long = label_for(&format!("1-{}", "y".repeat(60)));
    assert_eq!(long, format!("{}\u{2026}", "y".repeat(47)));
}

#[test]
fn history_file_round_trip() {
    let list = vec![
        entry(1, "C:\\q\\1-a.mp4", "https://a"),
        entry(2, "C:\\q\\2-b.mp4", ""),
        entry(2, "C:\\q\\2-c.mp4", "https://c"),
    ];
    let text = history_text(&list);
    assert_eq!(history(&text), list);
}

#[test]
fn history_is_in_queue_order() {
    let text = "30\tC:\\c.mp4\thttps://c\njunk\n10\tC:\\a.mp4\n20\tC:\\b.mp4\t\n10\tC:\\a2.mp4\n";
    let h = history(text);
    let paths: Vec<&str> = h.iter().map(|e| e.path.as_str()).collect();
    assert_eq!(paths, vec!["C:\\a.mp4", "C:\\a2.mp4", "C:\\b.mp4", "C:\\c.mp4"]);
    assert_eq!(
        format_line(&entry(5, "C:\\x\ty.mp4", "u\r\n")),
        "5\tC:\\x y.mp4\tu  "
    );
}

#[test]
fn remembering_and_forgetting() {
    let mut list = vec![entry(1, "C:\\q\\A.mp4", "https://a")];
    assert!(!remember(&mut list, entry(2, "c:/q/a.MP4", "https://dup")));
    assert_eq!(list.len(), 1);
    assert!(remember(&mut list, entry(3, "C:\\q\\b.mp4", "https://b")));
    assert_eq!(list.len(), 2);
    assert_eq!(find_by_url(&list, "https://b").unwrap().added, 3);
    assert!(find_by_url(&list, "https://zzz").is_none());
    let dropped = forget(&mut list, "https://a");
    assert_eq!(dropped, vec!["C:\\q\\A.mp4".to_string()]);
    assert_eq!(list.len(), 1);
    let dropped = forget(&mut list, "C:/Q/B.MP4");
    assert_eq!(dropped.len(), 1);
    assert!(list.is_empty());
    assert!(forget(&mut list, "x").is_empty());
}

#[test]
fn sweep_plan_keeps_adopts_and_deletes() {
    let list = vec![entry(50, "C:\\q\\known.mp4", "u")];
    let files = vec![
        CachedFile { path: "C:\\Q\\KNOWN.mp4".into(), age_secs: 9_999_999, size: 1, mtime_ms: 1 },
        CachedFile { path: "C:\\q\\old-junk".into(), age_secs: 3600, size: 23, mtime_ms: 2 },
        CachedFile { path: "C:\\q\\young".into(), age_secs: 5, size: 23, mtime_ms: 3 },
        CachedFile { path: "C:\\q\\big".into(), age_secs: 3600, size: MIN_MEDIA_BYTES, mtime_ms: 10 },
    ];
    let plan = plan_sweep(list.clone(), &files, false);
    assert!(!plan.changed);
    assert_eq!(plan.list, list);
    assert_eq!(plan.delete, vec!["C:\\q\\old-junk".to_string(), "C:\\q\\big".to_string()]);
    let plan = plan_sweep(list.clone(), &files, true);
    assert!(plan.changed);
    assert_eq!(plan.delete, vec!["C:\\q\\old-junk".to_string()]);
    assert_eq!(plan.list, vec![entry(10, "C:\\q\\big", ""), entry(50, "C:\\q\\known.mp4", "u")]);
}

#[test]
fn player_spawns_are_debounced() {
    assert!(!spawn_due(true, 0, 1_000_000));
    assert!(spawn_due(false, 0, 5000));
    assert!(!spawn_due(false, 1000, 5999));
    assert!(!spawn_due(false, 9000, 10));
}

#[test]
fn dest_names_hold_only_file_name_characters() {
    assert_eq!(
        dest_for("https://h/x?download_filename=a<b>:c|d\\e.mp4", 3),
        "3-a_b__c_d_e.mp4"
    );
    // Letters beyond ASCII are kept.
    assert_eq!(dest_for("https://h/x?download_filename=caf\u{e9}.mp4", 3), "3-caf\u{e9}.mp4");
    let d = dest_for("https://h/x?download_filename=%2e%2e%5c..%5cwin.ini", 9);
    assert!(!d.contains('\\') && !d.contains('/') && !d.contains(':'));
}

#[test]
fn every_history_line_has_three_fields() {
    let e = entry(9, "C:\\a\tb\r\n.mp4", "https://h/\tx\ny");
    let line = format_line(&e);
    assert_eq!(line.matches('\t').count(), 2);
    assert!(!line.contains('\r') && !line.contains('\n'));
    assert_eq!(line, "9\tC:\\a b  .mp4\thttps://h/ x y");
}

#[test]
fn escaped_text_reads_back() {
    let s = "a\"b\\c\u{1}d\ne";
    let j = json_escape(s);
    assert_eq!(j, "\"a\\\"b\\\\c\\u0001d\\u000ae\"");
}
