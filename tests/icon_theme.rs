use poki_launcher::icon_theme::{
    parse_optional_prop, CreateError, Directory, DirectoryType, IconCache, IconTheme,
};

fn dir(path: &str, icons: &[(&str, &str)]) -> Directory {
    let mut d = Directory::default();
    d.path = path.to_owned();
    d.icons = icons.iter().map(|(a, b)| (a.to_string(), b.to_string())).collect();
    d
}

fn theme(name: &str, inherits: &[&str], dirs: Vec<Directory>) -> IconTheme {
    IconTheme {
        name: name.to_owned(),
        display_name: name.to_owned(),
        comment: String::new(),
        inherits: inherits.iter().map(|s| s.to_string()).collect(),
        directories: dirs,
        scaled_directories: Vec::new(),
        hidden: false,
        example: None,
    }
}

fn cache() -> IconCache {
    IconCache {
        themes: vec![
            theme("Adwaita", &["Base"], vec![dir("/a/48", &[("folder", "png")])]),
            theme("Base", &[], vec![dir("/b/48", &[("term", "svg")])]),
            theme("hicolor", &[], vec![dir("/h/48", &[("firefox", "png"), ("term", "png")])]),
            theme("Loop", &["Loop"], vec![]),
        ],
    }
}

#[test]
fn icon_found_in_own_theme() {
    assert_eq!(cache().get_icon("Adwaita", "folder", 48), Some("/a/48/folder.png".to_owned()));
}

#[test]
fn icon_found_in_parent_before_default() {
    assert_eq!(cache().get_icon("Adwaita", "term", 48), Some("/b/48/term.svg".to_owned()));
}

#[test]
fn icon_falls_back_to_default_theme() {
    assert_eq!(cache().get_icon("Adwaita", "firefox", 48), Some("/h/48/firefox.png".to_owned()));
    assert_eq!(cache().get_icon("Loop", "firefox", 48), Some("/h/48/firefox.png".to_owned()));
}

#[test]
fn missing_icon_or_theme_is_none() {
    assert_eq!(cache().get_icon("Adwaita", "nothing", 48), None);
    assert_eq!(cache().get_icon("Unknown", "folder", 48), None);
    assert_eq!(cache().get_icon("hicolor", "folder", 48), None);
}

#[test]
fn directory_type_from_str() {
    assert_eq!(DirectoryType::from_str("Fixed"), Ok(DirectoryType::Fixed));
    assert_eq!(DirectoryType::from_str("Scalable"), Ok(DirectoryType::Scalable));
    assert_eq!(DirectoryType::from_str("Threshold"), Ok(DirectoryType::Threshold));
    assert_eq!(DirectoryType::from_str("fixed"), Err(()));
}

#[test]
fn directory_default_values() {
    let d = Directory::default();
    assert_eq!(d.scale, 1);
    assert_eq!(d.threshold, 2);
    assert_eq!(d.size, 0);
    assert_eq!(d.type_, DirectoryType::Threshold);
    assert!(d.context.is_none());
}

#[test]
fn optional_props_parse_or_default() {
    let map = vec![
        ("Size".to_owned(), "48".to_owned()),
        ("Scale".to_owned(), "+2".to_owned()),
        ("Hidden".to_owned(), "true".to_owned()),
        ("Type".to_owned(), "Scalable".to_owned()),
        ("MaxSize".to_owned(), "big".to_owned()),
    ];
    assert_eq!(parse_optional_prop("Size", "p".to_owned(), &map, 0u32).ok(), Some(48));
    assert_eq!(parse_optional_prop("Scale", "p".to_owned(), &map, 1u32).ok(), Some(2));
    assert_eq!(parse_optional_prop("Threshold", "p".to_owned(), &map, 2u32).ok(), Some(2));
    assert_eq!(parse_optional_prop("Hidden", "p".to_owned(), &map, false).ok(), Some(true));
    assert_eq!(
        parse_optional_prop("Type", "p".to_owned(), &map, DirectoryType::Threshold).ok(),
        Some(DirectoryType::Scalable)
    );
    match parse_optional_prop("MaxSize", "p".to_owned(), &map, 0u32) {
        Err(CreateError::InvalidPropVal { path, name, value }) => {
            assert_eq!(path, "p");
            assert_eq!(name, "MaxSize");
            assert_eq!(value, "big");
        }
        other => panic!("unexpected {:?}", other),
    }
}

fn section(pairs: &[(&str, &str)]) -> Vec<(String, String)> {
    pairs.iter().map(|(a, b)| (a.to_string(), b.to_string())).collect()
}

#[test]
fn directory_from_section_reads_properties() {
    let sec = section(&[("Size", "48"), ("MinSize", "16"), ("Type", "Fixed"), ("Context", "Apps")]);
    let d = Directory::from_section("48x48/apps", "/usr/share/icons/hicolor", Some(&sec)).unwrap();
    assert_eq!(d.path, "/usr/share/icons/hicolor/48x48/apps");
    assert_eq!(d.size, 48);
    assert_eq!(d.min_size, 16);
    assert_eq!(d.max_size, 48);
    assert_eq!(d.scale, 1);
    assert_eq!(d.threshold, 2);
    assert_eq!(d.type_, DirectoryType::Fixed);
    assert_eq!(d.context, Some("Apps".to_owned()));
    assert!(d.icons.is_empty());
}

#[test]
fn directory_from_section_errors() {
    match Directory::from_section("x", "/t", None) {
        Err(CreateError::MissingDirSection { path, name }) => {
            assert_eq!(path, "/t");
            assert_eq!(name, "x");
        }
        other => panic!("unexpected {:?}", other),
    }
    let no_size = section(&[("Scale", "2")]);
    match Directory::from_section("x", "/t", Some(&no_size)) {
        Err(CreateError::MissingDirProp { prop_name, .. }) => assert_eq!(prop_name, "Size"),
        other => panic!("unexpected {:?}", other),
    }
    let bad_size = section(&[("Size", "-4")]);
    match Directory::from_section("x", "/t", Some(&bad_size)) {
        Err(CreateError::InvalidPropVal { name, value, .. }) => {
            assert_eq!(name, "Size");
            assert_eq!(value, "-4");
        }
        other => panic!("unexpected {:?}", other),
    }
    let bad_type = section(&[("Size", "4"), ("Type", "Odd")]);
    assert!(matches!(
        Directory::from_section("x", "/t", Some(&bad_type)),
        Err(CreateError::InvalidPropVal { .. })
    ));
}

#[test]
fn theme_from_section_reads_header() {
    let sec = section(&[
        ("Name", "Adwaita"),
        ("Comment", "The default"),
        ("Inherits", "Base,hicolor"),
        ("Directories", "48x48/apps"),
    ]);
    let t = IconTheme::from_section("Adwaita".to_owned(), "/p", Some(&sec), vec![], vec![]).unwrap();
    assert_eq!(t.display_name, "Adwaita");
    assert_eq!(t.comment, "The default");
    assert_eq!(t.inherits, vec!["Base", "hicolor"]);
    assert!(!t.hidden);
    assert!(t.example.is_none());
}

#[test]
fn theme_from_section_errors() {
    assert!(matches!(
        IconTheme::from_section("n".to_owned(), "/p", None, vec![], vec![]),
        Err(CreateError::MissingIndexTheme { .. })
    ));
    let no_comment = section(&[("Name", "A"), ("Directories", "d")]);
    match IconTheme::from_section("n".to_owned(), "/p", Some(&no_comment), vec![], vec![]) {
        Err(CreateError::MissingProp { name, .. }) => assert_eq!(name, "Comment"),
        other => panic!("unexpected {:?}", other),
    }
    let no_dirs = section(&[("Name", "A"), ("Comment", "c")]);
    match IconTheme::from_section("n".to_owned(), "/p", Some(&no_dirs), vec![], vec![]) {
        Err(CreateError::MissingProp { name, .. }) => assert_eq!(name, "Directories"),
        other => panic!("unexpected {:?}", other),
    }
    let bad_hidden = section(&[("Name", "A"), ("Comment", "c"), ("Hidden", "yes"), ("Directories", "d")]);
    assert!(matches!(
        IconTheme::from_section("n".to_owned(), "/p", Some(&bad_hidden), vec![], vec![]),
        Err(CreateError::InvalidPropVal { .. })
    ));
}

#[test]
fn list_prop_splits_at_commas() {
    let sec = section(&[("Directories", "a,b,,c")]);
    assert_eq!(
        poki_launcher::icon_theme::list_prop(&sec, "Directories"),
        Some(vec!["a".to_owned(), "b".to_owned(), "".to_owned(), "c".to_owned()])
    );
    assert_eq!(poki_launcher::icon_theme::list_prop(&sec, "ScaledDirectories"), None);
}
