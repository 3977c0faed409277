use cal::entry::{from_freedesktop, Entry, EntryIndex};
use cal::icons::{basename, better_than, resolution_of_dir, Candidate, IconIndex, Resolution};

fn cand(name: &str, resolution: Resolution, theme_match: bool, path: &str) -> Candidate {
    Candidate {
        basename: name.to_string(),
        resolution,
        theme_match,
        path: path.to_string(),
    }
}

fn selected(cs: Vec<Candidate>, name: &str) -> Option<String> {
    IconIndex::from_candidates(cs).get(&name.to_string()).map(|c| c.path.clone())
}

#[test]
fn theme_match_beats_higher_resolution_fallback() {
    let theme = cand("app", Resolution::Fixed(48), true, "/theme/48/app.png");
    let fallback = cand("app", Resolution::Fixed(512), false, "/hicolor/512/app.png");
    assert_eq!(selected(vec![theme.clone(), fallback.clone()], "app").as_deref(), Some("/theme/48/app.png"));
    assert_eq!(selected(vec![fallback, theme], "app").as_deref(), Some("/theme/48/app.png"));
}

#[test]
fn scalable_beats_fixed_in_same_tier() {
    let svg = cand("app", Resolution::Scalable, false, "/hicolor/scalable/app.svg");
    let big = cand("app", Resolution::Fixed(usize::MAX), false, "/hicolor/huge/app.png");
    assert_eq!(selected(vec![svg.clone(), big.clone()], "app").as_deref(), Some("/hicolor/scalable/app.svg"));
    assert_eq!(selected(vec![big, svg], "app").as_deref(), Some("/hicolor/scalable/app.svg"));
}

#[test]
fn higher_resolution_wins_in_same_tier() {
    let small = cand("app", Resolution::Fixed(16), true, "/t/16/app.png");
    let large = cand("app", Resolution::Fixed(64), true, "/t/64/app.png");
    assert_eq!(selected(vec![small.clone(), large.clone()], "app").as_deref(), Some("/t/64/app.png"));
    assert_eq!(selected(vec![large, small], "app").as_deref(), Some("/t/64/app.png"));
}

#[test]
fn ties_keep_the_first_seen() {
    let a = cand("app", Resolution::Fixed(0), false, "/pixmaps/app.png");
    let b = cand("app", Resolution::Fixed(0), false, "/pixmaps/app.xpm");
    assert_eq!(selected(vec![a, b], "app").as_deref(), Some("/pixmaps/app.png"));
}

#[test]
fn unknown_basename_has_no_icon() {
    let a = cand("app", Resolution::Fixed(0), false, "/pixmaps/app.png");
    assert_eq!(selected(vec![a], "other"), None);
    assert_eq!(selected(vec![], "app"), None);
}

#[test]
fn many_basenames_are_all_kept() {
    let cs: Vec<Candidate> = (0..500)
        .map(|i| cand(&format!("icon{}", i), Resolution::Fixed(i), false, &format!("/p/{}", i)))
        .collect();
    let index = IconIndex::from_candidates(cs);
    for i in 0..500 {
        assert_eq!(index.get(&format!("icon{}", i)).unwrap().path, format!("/p/{}", i));
    }
}

#[test]
fn better_than_compares_tier_then_resolution() {
    let t = cand("a", Resolution::Fixed(1), true, "x");
    let f = cand("a", Resolution::Scalable, false, "y");
    assert!(better_than(&t, &f));
    assert!(!better_than(&f, &t));
    assert!(!better_than(&t, &t));
}

#[test]
fn basename_drops_last_extension() {
    assert_eq!(basename("firefox.png"), "firefox");
    assert_eq!(basename("org.gnome.Nautilus.svg"), "org.gnome.Nautilus");
    assert_eq!(basename("noext"), "noext");
    assert_eq!(basename(".hidden"), "");
}

#[test]
fn resolution_from_directory_name() {
    assert_eq!(resolution_of_dir("48x48"), Some(Resolution::Fixed(48)));
    assert_eq!(resolution_of_dir("256x256@2"), Some(Resolution::Fixed(256)));
    assert_eq!(resolution_of_dir("scalable"), Some(Resolution::Scalable));
    assert_eq!(resolution_of_dir("symbolic"), None);
    assert_eq!(resolution_of_dir("apps"), Some(Resolution::Fixed(0)));
    assert_eq!(resolution_of_dir("+32x32"), Some(Resolution::Fixed(32)));
    assert_eq!(resolution_of_dir("99999999999999999999999x1"), Some(Resolution::Fixed(0)));
}

#[test]
fn entries_get_resolved_icon_paths() {
    let mut index = EntryIndex::new();
    let mut with_icon = Entry::default();
    with_icon.name = "Files".to_string();
    with_icon.icon = Some("files".to_string());
    let mut missing = Entry::default();
    missing.name = "Other".to_string();
    missing.icon = Some("nothing".to_string());
    index.insert(with_icon);
    index.insert(missing);
    let icons = IconIndex::from_candidates(vec![cand("files", Resolution::Scalable, true, "/icons/files.svg")]);
    let entries = from_freedesktop(&index, &icons);
    assert_eq!(entries.len(), 2);
    assert_eq!(entries[0].icon.as_deref(), Some("/icons/files.svg"));
    assert_eq!(entries[1].icon, None);
}
