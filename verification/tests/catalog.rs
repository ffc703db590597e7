use freedesktop_icons::theme::catalog::get_all_themes;
use freedesktop_icons::theme::catalog::RootEntry;
use freedesktop_icons::theme::catalog::RootListing;
use freedesktop_icons::theme::paths::ThemePath;
use freedesktop_icons::theme::Theme;

fn entry(root: &str, name: &str, is_dir: bool, has_index: bool) -> RootEntry {
    RootEntry { name: name.to_string(), path: format!("{}/{}", root, name), is_dir, has_index }
}

fn place(dir: &str, index_dir: &str) -> Theme {
    Theme { path: ThemePath(dir.to_string()), index: format!("{}/index.theme", index_dir) }
}

fn installed() -> Vec<RootListing> {
    vec![
        RootListing::Entries(vec![
            entry("/home/u/.local/share/icons", "hicolor", true, false),
            entry("/home/u/.local/share/icons", "mine", true, true),
        ]),
        RootListing::Unreadable,
        RootListing::Entries(vec![
            entry("/usr/share/icons", "cosmic-base-dark", true, true),
            entry("/usr/share/icons", "hicolor", true, true),
            entry("/usr/share/icons", "default.png", false, false),
            entry("/usr/share/icons", "empty", true, false),
        ]),
        RootListing::Entries(vec![
            entry("/usr/local/share/icons", "hicolor", true, true),
            entry("/usr/local/share/icons", "mine", true, false),
        ]),
    ]
}

#[test]
fn should_get_all_themes() {
    let themes = get_all_themes(&installed());
    assert!(themes.get("hicolor").is_some());
}

#[test]
fn should_read_theme_index() {
    let themes = get_all_themes(&installed());
    let themes: Vec<&Theme> = themes.entries.iter().flat_map(|e| e.themes.iter()).collect();
    assert!(!themes.is_empty());
}

#[test]
fn bare_directory_uses_earlier_index() {
    let roots = vec![
        RootListing::Entries(vec![entry("/first", "hicolor", true, true)]),
        RootListing::Entries(vec![entry("/second", "hicolor", true, false)]),
    ];
    let catalog = get_all_themes(&roots);
    assert_eq!(
        catalog.get("hicolor"),
        Some(&vec![place("/first/hicolor", "/first/hicolor"), place("/second/hicolor", "/first/hicolor")])
    );
    assert_eq!(catalog.len(), 1);
}

#[test]
fn directory_found_before_its_index_is_placed_after_the_sweep() {
    let catalog = get_all_themes(&installed());
    assert_eq!(
        catalog.get("hicolor"),
        Some(&vec![
            place("/usr/share/icons/hicolor", "/usr/share/icons/hicolor"),
            place("/usr/local/share/icons/hicolor", "/usr/share/icons/hicolor"),
            place("/home/u/.local/share/icons/hicolor", "/usr/share/icons/hicolor"),
        ])
    );
    assert_eq!(
        catalog.get("mine"),
        Some(&vec![
            place("/home/u/.local/share/icons/mine", "/home/u/.local/share/icons/mine"),
            place("/usr/local/share/icons/mine", "/home/u/.local/share/icons/mine"),
        ])
    );
    assert_eq!(
        catalog.get("cosmic-base-dark"),
        Some(&vec![place("/usr/share/icons/cosmic-base-dark", "/usr/share/icons/cosmic-base-dark")])
    );
}

#[test]
fn what_has_no_index_anywhere_is_dropped() {
    let catalog = get_all_themes(&installed());
    assert_eq!(catalog.get("empty"), None);
    assert_eq!(catalog.get("default.png"), None);
    assert_eq!(catalog.get("absent"), None);
    assert_eq!(catalog.len(), 3);
    let names: Vec<&str> = catalog.entries.iter().map(|e| e.name.as_str()).collect();
    assert_eq!(names, vec!["mine", "cosmic-base-dark", "hicolor"]);
}

#[test]
fn unreadable_roots_contribute_nothing() {
    assert_eq!(get_all_themes(&Vec::new()).len(), 0);
    let roots = vec![RootListing::Unreadable, RootListing::Unreadable];
    assert_eq!(get_all_themes(&roots).len(), 0);
    let roots = vec![
        RootListing::Unreadable,
        RootListing::Entries(vec![entry("/r", "a", true, true)]),
        RootListing::Unreadable,
    ];
    assert_eq!(get_all_themes(&roots).get("a"), Some(&vec![place("/r/a", "/r/a")]));
}

#[test]
fn a_file_is_no_theme() {
    let roots = vec![RootListing::Entries(vec![
        entry("/r", "a", false, true),
        entry("/r", "b", true, true),
        entry("/s", "b", false, false),
    ])];
    let catalog = get_all_themes(&roots);
    assert_eq!(catalog.get("a"), None);
    assert_eq!(catalog.get("b"), Some(&vec![place("/r/b", "/r/b")]));
}

#[test]
fn from_path_prefers_the_index_found_earlier() {
    let earlier = "/first/t/index.theme".to_string();
    assert_eq!(Theme::from_path("/r/t", true, true, None), Some(place("/r/t", "/r/t")));
    assert_eq!(Theme::from_path("/r/t", true, true, Some(&earlier)), Some(place("/r/t", "/first/t")));
    assert_eq!(Theme::from_path("/r/t", true, false, Some(&earlier)), Some(place("/r/t", "/first/t")));
    assert_eq!(Theme::from_path("/r/t", true, false, None), None);
    assert_eq!(Theme::from_path("/r/t", false, true, None), None);
    assert_eq!(Theme::from_path("/r/t", false, false, Some(&earlier)), None);
}
