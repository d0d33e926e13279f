use optim::index::{fix_alpha, icon_buffer, new_entry, push_entry, ICON_BYTES};

#[test]
fn entries_carry_their_launch_target() {
    let e = new_entry("Visual Studio Code", "Microsoft.VisualStudioCode", None).unwrap();
    assert_eq!(e.name_lower, "visual studio code");
    assert_eq!(e.key, "Microsoft.VisualStudioCode");
    let mut want: Vec<u16> = "shell:AppsFolder\\Microsoft.VisualStudioCode".encode_utf16().collect();
    want.push(0);
    assert_eq!(e.launch_id, want);
    assert!(new_entry("", "x", None).is_none());
    let astral = new_entry("Emoji \u{1F600}", "id\u{1F600}", None).unwrap();
    let mut want: Vec<u16> = "shell:AppsFolder\\id\u{1F600}".encode_utf16().collect();
    want.push(0);
    assert_eq!(astral.launch_id, want);
}

#[test]
fn icons_without_alpha_become_opaque() {
    let mut buf = vec![1, 2, 3, 0, 4, 5, 6, 0, 9];
    fix_alpha(&mut buf);
    assert_eq!(buf, vec![1, 2, 3, 255, 4, 5, 6, 255, 9]);
    let mut buf = vec![1, 2, 3, 0, 4, 5, 6, 7];
    fix_alpha(&mut buf);
    assert_eq!(buf, vec![1, 2, 3, 0, 4, 5, 6, 7]);
}

#[test]
fn the_index_keeps_named_apps_with_their_icons() {
    let mut apps = Vec::new();
    let mut icon = icon_buffer();
    assert_eq!(icon.len(), ICON_BYTES);
    fix_alpha(&mut icon);
    assert_eq!(icon.len(), 32 * 32 * 4);
    push_entry(&mut apps, "Notepad", "notepad.id", Some(icon));
    push_entry(&mut apps, "", "nameless.id", None);
    assert_eq!(apps.len(), 1);
    assert_eq!(apps[0].name_lower, "notepad");
    assert_eq!(apps[0].icon.as_ref().map(|b| b.len()), Some(ICON_BYTES));
}
