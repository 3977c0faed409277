use cal::entry::{Entry, EntryIndex};
use cal::freedesktop::{language_code, FreedesktopParser};

fn scan(locale: Option<&str>, files: &[&str]) -> Vec<Entry> {
    let parser = FreedesktopParser::new(locale.map(|c| c.to_string()));
    let texts: Vec<String> = files.iter().map(|t| t.to_string()).collect();
    parser.parse_all(&texts).entries()
}

fn named<'a>(entries: &'a [Entry], name: &str) -> Option<&'a Entry> {
    entries.iter().find(|e| e.name == name)
}

#[test]
fn localized_name_overrides_plain_name() {
    let text = "[Desktop Entry]\nName=Foo\nName[fr]=Truc\nExec=foo\n";
    let entries = scan(Some("fr"), &[text]);
    assert_eq!(entries.len(), 1);
    assert_eq!(entries[0].name, "Truc");
}

#[test]
fn localized_name_wins_in_either_order() {
    let text = "[Desktop Entry]\nName[fr]=Truc\nName=Foo\nExec=foo\n";
    let entries = scan(Some("fr"), &[text]);
    assert_eq!(entries.len(), 1);
    assert_eq!(entries[0].name, "Truc");
}

#[test]
fn plain_name_without_locale() {
    let text = "[Desktop Entry]\nName=Foo\nName[fr]=Truc\nExec=foo\n";
    let entries = scan(None, &[text]);
    assert_eq!(entries.len(), 1);
    assert_eq!(entries[0].name, "Foo");
}

#[test]
fn localized_comment_sets_description() {
    let text = "[Desktop Entry]\nName=Foo\nExec=foo\nComment=Plain\nComment[fr]=Localisé\n";
    let entries = scan(Some("fr"), &[text]);
    assert_eq!(entries[0].description.as_deref(), Some("Localisé"));
    assert_eq!(entries[0].command, "foo");
    let entries = scan(None, &[text]);
    assert_eq!(entries[0].description, None);
}

#[test]
fn comment_fills_an_empty_command_only() {
    let text = "[Desktop Entry]\nName=Foo\nComment=first\n";
    assert_eq!(scan(None, &[text])[0].command, "first");
    let text = "[Desktop Entry]\nName=Foo\nComment=first\nExec=run\n";
    assert_eq!(scan(None, &[text])[0].command, "run");
    let text = "[Desktop Entry]\nName=Foo\nExec=run\nComment=first\n";
    assert_eq!(scan(None, &[text])[0].command, "run");
}

#[test]
fn all_fields_are_read() {
    let text = "# a comment\n[Desktop Entry]\n  Name=Editor  \nExec=edit %U\nIcon=editor\nKeywords=text;;write;\n";
    let entries = scan(None, &[text]);
    let expected = Entry {
        name: "Editor".to_string(),
        command: "edit %U".to_string(),
        icon: Some("editor".to_string()),
        description: None,
        keywords: Some(vec!["text".to_string(), "write".to_string()]),
        terminal: false,
    };
    assert_eq!(entries, vec![expected]);
}

#[test]
fn value_keeps_later_equal_signs() {
    let text = "[Desktop Entry]\nName=Env\nExec=env A=1 app\n";
    assert_eq!(scan(None, &[text])[0].command, "env A=1 app");
}

#[test]
fn later_section_replaces_earlier_one() {
    let text = "[Desktop Entry]\nName=App\nExec=one\nIcon=first\n[Desktop Entry]\nName=App\nExec=two\n";
    let entries = scan(None, &[text]);
    assert_eq!(entries.len(), 1);
    assert_eq!(entries[0].command, "two");
    assert_eq!(entries[0].icon, None);
}

#[test]
fn later_file_replaces_earlier_one() {
    let a = "[Desktop Entry]\nName=App\nExec=one\nIcon=first\n";
    let b = "[Desktop Entry]\nName=App\nExec=two\n";
    let entries = scan(None, &[a, b]);
    assert_eq!(entries.len(), 1);
    assert_eq!(entries[0].command, "two");
    assert_eq!(entries[0].icon, None);
    let entries = scan(None, &[b, a]);
    assert_eq!(entries[0].command, "one");
    assert_eq!(entries[0].icon.as_deref(), Some("first"));
}

#[test]
fn hidden_entry_is_left_out() {
    let text = "[Desktop Entry]\nName=Shown\nExec=a\n[Desktop Entry]\nName=Hidden\nExec=b\nNoDisplay=true\n";
    let entries = scan(None, &[text]);
    assert_eq!(entries.len(), 1);
    assert_eq!(entries[0].name, "Shown");
}

#[test]
fn no_display_false_keeps_entry() {
    let text = "[Desktop Entry]\nName=Shown\nExec=a\nNoDisplay=false\n";
    assert_eq!(scan(None, &[text]).len(), 1);
}

#[test]
fn action_sections_are_ignored() {
    let text = "[Desktop Entry]\nName=Browser\nExec=browse\n[Desktop Action new]\nName=New Window\nExec=browse --new\nNoDisplay=true\n";
    let entries = scan(None, &[text]);
    assert_eq!(entries.len(), 1);
    assert_eq!(entries[0].name, "Browser");
    assert_eq!(entries[0].command, "browse");
}

#[test]
fn keys_before_any_header_are_dropped() {
    let text = "Name=Orphan\nExec=x\n";
    assert!(scan(None, &[text]).is_empty());
}

#[test]
fn entry_without_name_is_left_out() {
    let text = "[Desktop Entry]\nExec=x\n";
    assert!(scan(None, &[text]).is_empty());
    assert!(scan(None, &[""]).is_empty());
}

#[test]
fn scanning_twice_gives_the_same_index() {
    let files = [
        "[Desktop Entry]\nName=A\nExec=a\n",
        "[Desktop Entry]\nName=B\nExec=b\n[Desktop Entry]\nName=A\nExec=a2\n",
    ];
    let first = scan(Some("de"), &files);
    let second = scan(Some("de"), &files);
    assert_eq!(first, second);
    let parser = FreedesktopParser::new(None);
    let texts: Vec<String> = files.iter().map(|t| t.to_string()).collect();
    let mut index = parser.parse_all(&texts);
    for t in &texts {
        parser.parse(t, &mut index);
    }
    assert_eq!(index.entries(), parser.parse_all(&texts).entries());
}

#[test]
fn index_insert_replaces_in_place() {
    let mut index = EntryIndex::new();
    let mut a = Entry::default();
    a.name = "a".to_string();
    let mut b = Entry::default();
    b.name = "b".to_string();
    index.insert(a.clone());
    index.insert(b.clone());
    let mut a2 = a.clone();
    a2.command = "new".to_string();
    index.insert(a2.clone());
    assert_eq!(index.entries(), vec![a2, b]);
    assert_eq!(named(&index.entries(), "a").unwrap().command, "new");
}

#[test]
fn language_of_locale_tag() {
    assert_eq!(language_code("fr-FR"), "fr");
    assert_eq!(language_code("de"), "de");
    assert_eq!(language_code(""), "");
}

#[test]
fn comment_fallback_can_be_switched_off() {
    let parser = FreedesktopParser::new(None).with_comment_as_command(false);
    let texts = vec!["[Desktop Entry]\nName=Foo\nComment=describes\n".to_string()];
    let entries = parser.parse_all(&texts).entries();
    assert_eq!(entries.len(), 1);
    assert_eq!(entries[0].command, "");
}
