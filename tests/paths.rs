use cal::launch::{default_terminal, launch_argv};
use cal::paths::{data_dirs, icon_roots, is_descriptor_file};

fn strings(v: &[&str]) -> Vec<String> {
    v.iter().map(|s| s.to_string()).collect()
}

#[test]
fn search_path_is_split_on_colons() {
    assert_eq!(data_dirs(&Some("/usr/local/share:/usr/share".to_string())), strings(&["/usr/local/share", "/usr/share"]));
    assert_eq!(data_dirs(&Some("".to_string())), strings(&[""]));
    assert_eq!(data_dirs(&None), strings(&["/usr/share"]));
}

#[test]
fn icon_roots_in_search_order() {
    let roots = icon_roots(&strings(&["/a", "/b"]), &Some("Papirus".to_string()));
    let got: Vec<(String, String, bool, bool)> =
        roots.into_iter().map(|r| (r.base, r.subdir, r.theme_match, r.flat)).collect();
    let want = vec![
        ("/a", "icons/Papirus", true, false),
        ("/a", "icons/hicolor", false, false),
        ("/a", "pixmaps", false, true),
        ("/b", "icons/Papirus", true, false),
        ("/b", "icons/hicolor", false, false),
        ("/b", "pixmaps", false, true),
    ];
    let want: Vec<(String, String, bool, bool)> =
        want.into_iter().map(|(a, b, c, d)| (a.to_string(), b.to_string(), c, d)).collect();
    assert_eq!(got, want);
    let roots = icon_roots(&strings(&["/a"]), &None);
    assert_eq!(roots.len(), 2);
    assert_eq!(roots[0].subdir, "icons/hicolor");
}

#[test]
fn descriptor_files_by_extension() {
    assert!(is_descriptor_file("firefox.desktop"));
    assert!(is_descriptor_file("org.gnome.Nautilus.desktop"));
    assert!(!is_descriptor_file(".desktop"));
    assert!(!is_descriptor_file("notes.txt"));
    assert!(!is_descriptor_file("desktop"));
    assert!(!is_descriptor_file("a.desktop.bak"));
}

#[test]
fn argv_drops_field_codes() {
    assert_eq!(launch_argv("firefox %u", false, &strings(&["xterm"])), strings(&["firefox"]));
    assert_eq!(launch_argv("  code  --new-window %F @@u %f @@ ", false, &vec![]), strings(&["code", "--new-window"]));
    assert_eq!(launch_argv("", false, &vec![]), Vec::<String>::new());
}

#[test]
fn argv_in_terminal() {
    assert_eq!(launch_argv("htop", true, &strings(&["kgx", "-e"])), strings(&["kgx", "-e", "htop"]));
}

#[test]
fn terminal_choice() {
    assert_eq!(default_terminal(&Some("alacritty".to_string()), &Some("KDE".to_string())), strings(&["alacritty"]));
    assert_eq!(default_terminal(&None, &Some("GNOME".to_string())), strings(&["kgx", "-e"]));
    assert_eq!(default_terminal(&None, &Some("KDE".to_string())), strings(&["konsole"]));
    assert_eq!(default_terminal(&None, &Some("XFCE".to_string())), strings(&["xfce4-terminal"]));
    assert_eq!(default_terminal(&None, &Some("LXQt".to_string())), strings(&["lxterminal"]));
    assert_eq!(default_terminal(&None, &Some("sway".to_string())), strings(&["xterm"]));
    assert_eq!(default_terminal(&None, &None), strings(&["xterm"]));
}
