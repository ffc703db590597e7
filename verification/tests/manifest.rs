use freedesktop_icons::theme::directories::Directory;
use freedesktop_icons::theme::directories::DirectoryType;
use freedesktop_icons::theme::error::ThemeError;
use freedesktop_icons::theme::parse::read_directories;
use freedesktop_icons::theme::parse::read_directory;
use freedesktop_icons::theme::paths::icon_theme_base_path_candidates;
use freedesktop_icons::theme::paths::icon_theme_base_paths;
use freedesktop_icons::theme::paths::join_list;
use freedesktop_icons::theme::paths::relative_to;
use freedesktop_icons::theme::paths::size_of_bucket;
use freedesktop_icons::theme::paths::IndexFile;
use freedesktop_icons::theme::paths::Listing;
use freedesktop_icons::theme::paths::SizeBucket;
use freedesktop_icons::theme::paths::ThemePath;
use freedesktop_icons::theme::Theme;
use ini::Ini;

fn strings(items: &[&str]) -> Vec<String> {
    items.iter().map(|p| p.to_string()).collect()
}

fn dir(name: &str, size: u16, scale: u16, type_: DirectoryType) -> Directory {
    Directory { name: name.to_string(), size, scale, type_ }
}

fn walked() -> Vec<SizeBucket> {
    vec![
        SizeBucket {
            path: "/t/hicolor/48x48".to_string(),
            nested: strings(&["/t/hicolor/48x48/apps", "/t/hicolor/48x48/actions"]),
        },
        SizeBucket {
            path: "/t/hicolor/scalable".to_string(),
            nested: strings(&["/t/hicolor/scalable/apps", "/t/other/scalable/apps"]),
        },
        SizeBucket { path: "/t/other/16x16".to_string(), nested: strings(&["/t/hicolor/16x16/apps"]) },
        SizeBucket { path: "/t/hicolor/22x22@2".to_string(), nested: Vec::new() },
    ]
}

fn synthesized() -> Vec<Directory> {
    vec![
        dir("48x48/apps", 48, 1, DirectoryType::Fixed),
        dir("48x48/actions", 48, 1, DirectoryType::Fixed),
        dir("scalable/apps", 128, 1, DirectoryType::Fixed),
    ]
}

#[test]
fn should_get_theme_paths_ordered() {
    let data_dirs = strings(&["/home/u/.local/share", "/usr/local/share", "/usr/share"]);
    let present = strings(&["/usr/share/icons", "/home/u/.icons", "/home/u/.local/share/icons"]);
    let base_paths = icon_theme_base_paths("/home/u", &data_dirs, &present);
    assert!(!base_paths.is_empty());
    assert_eq!(
        base_paths,
        strings(&["/home/u/.icons", "/home/u/.local/share/icons", "/usr/share/icons"])
    );
}

#[test]
fn base_paths_that_do_not_exist_are_left_out() {
    let data_dirs = strings(&["/a", "/b"]);
    assert_eq!(
        icon_theme_base_path_candidates("/home/u", &data_dirs),
        strings(&["/home/u/.icons", "/a/icons", "/b/icons"])
    );
    assert_eq!(
        icon_theme_base_path_candidates("/home/u", &Vec::new()),
        strings(&["/home/u/.icons"])
    );
    assert_eq!(icon_theme_base_paths("/home/u", &data_dirs, &Vec::new()), Vec::<String>::new());
    assert_eq!(
        icon_theme_base_paths("/home/u", &data_dirs, &strings(&["/b/icons", "/a"])),
        strings(&["/b/icons"])
    );
}

#[test]
fn the_users_own_directory_is_searched_first() {
    let data_dirs = strings(&["/d"]);
    let present = strings(&["/d/icons", "/h/.icons"]);
    assert_eq!(icon_theme_base_paths("/h", &data_dirs, &present), strings(&["/h/.icons", "/d/icons"]));
    let data_dirs = strings(&["/x", "/y", "/z"]);
    let present = strings(&["/z/icons", "/x/icons", "/h/.icons", "/y/icons"]);
    assert_eq!(
        icon_theme_base_paths("/h", &data_dirs, &present),
        strings(&["/h/.icons", "/x/icons", "/y/icons", "/z/icons"])
    );
    let without_home = strings(&["/z/icons", "/x/icons"]);
    assert_eq!(
        icon_theme_base_paths("/h", &data_dirs, &without_home),
        strings(&["/x/icons", "/z/icons"])
    );
}

#[test]
fn missing_index_fails_unless_greedy() {
    let path = ThemePath("/t/hicolor".to_string());
    let listing = Listing::Buckets(walked());
    match path.index(&IndexFile::Missing, false, &listing) {
        Err(ThemeError::ThemeIndexNotFound(dir)) => assert_eq!(dir, "/t/hicolor"),
        other => panic!("{:?}", other),
    }
    match path.index(&IndexFile::Missing, true, &listing) {
        Ok(doc) => assert_eq!(read_directories(&doc), synthesized()),
        other => panic!("{:?}", other),
    }
    match path.index(&IndexFile::Missing, true, &Listing::Unreadable("denied".to_string())) {
        Err(ThemeError::IoError(why)) => assert_eq!(why, "denied"),
        other => panic!("{:?}", other),
    }
}

#[test]
fn unreadable_index_fails_with_its_message() {
    let path = ThemePath("/t/hicolor".to_string());
    let listing = Listing::Buckets(walked());
    for greedy in [false, true] {
        match path.index(&IndexFile::Unreadable("permission denied".to_string()), greedy, &listing) {
            Err(ThemeError::IoError(why)) => assert_eq!(why, "permission denied"),
            other => panic!("{:?}", other),
        }
    }
}

#[test]
fn malformed_index_fails_to_parse() {
    let path = ThemePath("/t/hicolor".to_string());
    let listing = Listing::Buckets(walked());
    for greedy in [false, true] {
        match path.index(&IndexFile::Text("[a]\n=oops\n".to_string()), greedy, &listing) {
            Err(ThemeError::IniError(why)) => assert_eq!(why.line, 2),
            other => panic!("{:?}", other),
        }
    }
}

#[test]
fn index_text_is_parsed() {
    let path = ThemePath("/t/hicolor".to_string());
    let text = "[Icon Theme]\nDirectories=a,b\n[a]\nSize=16\n[b]\nSize=32\nScale=2\n";
    match path.index(&IndexFile::Text(text.to_string()), false, &Listing::Buckets(Vec::new())) {
        Ok(doc) => assert_eq!(
            read_directories(&doc),
            vec![dir("a", 16, 1, DirectoryType::Fixed), dir("b", 32, 2, DirectoryType::Fixed)]
        ),
        other => panic!("{:?}", other),
    }
    assert_eq!(path.index_path(), "/t/hicolor/index.theme");
}

#[test]
fn generated_index_lists_what_was_walked() {
    let path = ThemePath("/t/hicolor".to_string());
    let doc = path.generate_index(&walked());
    assert_eq!(
        doc.get_from(Some("Icon Theme"), "Directories"),
        Some("48x48/apps,48x48/actions,scalable/apps")
    );
    assert_eq!(doc.get_from(Some("48x48/actions"), "Size"), Some("48"));
    assert_eq!(doc.get_from(Some("scalable/apps"), "Size"), Some("128"));
    assert_eq!(doc.get_from(Some("16x16/apps"), "Size"), None);
    assert_eq!(read_directories(&doc), synthesized());
    let empty = path.generate_index(&Vec::new());
    assert_eq!(empty.get_from(Some("Icon Theme"), "Directories"), Some(""));
    assert_eq!(read_directories(&empty), Vec::<Directory>::new());
}

#[test]
fn sections_are_decoded_with_their_defaults() {
    let text = "[Icon Theme]
Directories=plain,scaled,fixed,scalable,bounded,threshold,tolerant,odd,unsized,huge,absent

[plain]
Size=16

[scaled]
Size=16
Scale=3

[fixed]
Size=24
Type=Fixed
MinSize=1
MaxSize=99
Threshold=9

[scalable]
Size=64
Type=Scalable

[bounded]
Size=64
Type=Scalable
MinSize=8
MaxSize=512

[threshold]
Size=22
Type=Threshold

[tolerant]
Size=22
Type=Threshold
Threshold=5
Scale=x

[odd]
Size=22
Type=Stretchy

[unsized]
Type=Fixed

[huge]
Size=65536
";
    let doc = Ini::load_from_str(text).unwrap();
    assert_eq!(
        read_directories(&doc),
        vec![
            dir("plain", 16, 1, DirectoryType::Fixed),
            dir("scaled", 16, 3, DirectoryType::Fixed),
            dir("fixed", 24, 1, DirectoryType::Fixed),
            dir("scalable", 64, 1, DirectoryType::Scalable { min_size: 64, max_size: 64 }),
            dir("bounded", 64, 1, DirectoryType::Scalable { min_size: 8, max_size: 512 }),
            dir("threshold", 22, 1, DirectoryType::Threshold { threshold: 2 }),
            dir("tolerant", 22, 1, DirectoryType::Threshold { threshold: 5 }),
        ]
    );
    assert_eq!(read_directory(&doc, "scaled"), Some(dir("scaled", 16, 3, DirectoryType::Fixed)));
    assert_eq!(read_directory(&doc, "odd"), None);
    assert_eq!(read_directory(&doc, "unsized"), None);
    assert_eq!(read_directory(&doc, "huge"), None);
    assert_eq!(read_directory(&doc, "absent"), None);
}

#[test]
fn a_document_without_a_list_describes_nothing() {
    let doc = Ini::load_from_str("[a]\nSize=16\n").unwrap();
    assert_eq!(read_directories(&doc), Vec::<Directory>::new());
    assert_eq!(read_directory(&doc, "a"), Some(dir("a", 16, 1, DirectoryType::Fixed)));
    assert_eq!(read_directories(&Ini::new()), Vec::<Directory>::new());
    let t = Theme { path: ThemePath("/t".to_string()), index: "/t/index.theme".to_string() };
    assert_eq!(t.get_all_directories(""), Vec::<Directory>::new());
    assert_eq!(t.get_all_directories("=broken"), Vec::<Directory>::new());
    assert_eq!(
        t.get_all_directories("[Icon Theme]\nDirectories=a\n[a]\nSize=16\n"),
        vec![dir("a", 16, 1, DirectoryType::Fixed)]
    );
}

#[test]
fn paths_below_the_theme_directory() {
    assert_eq!(relative_to("/t/hicolor/48x48/apps", "/t/hicolor"), Some("48x48/apps".to_string()));
    assert_eq!(relative_to("/t/hicolor/", "/t/hicolor"), Some("".to_string()));
    assert_eq!(relative_to("/t/hicolor", "/t/hicolor"), None);
    assert_eq!(relative_to("/t/hicolor2/48x48", "/t/hicolor"), None);
    assert_eq!(relative_to("/t/other/48x48", "/t/hicolor"), None);
    assert_eq!(relative_to("/t", "/t/hicolor"), None);
    assert_eq!(relative_to("a/b", ""), None);
    assert_eq!(relative_to("/a/b", ""), Some("a/b".to_string()));
}

#[test]
fn bucket_names_give_the_nominal_size() {
    assert_eq!(size_of_bucket("48x48"), 48);
    assert_eq!(size_of_bucket("22x22@2"), 22);
    assert_eq!(size_of_bucket("64"), 64);
    assert_eq!(size_of_bucket("scalable"), 128);
    assert_eq!(size_of_bucket("x48"), 128);
    assert_eq!(size_of_bucket(""), 128);
    assert_eq!(size_of_bucket("65535x1"), 65535);
    assert_eq!(size_of_bucket("65536x1"), 128);
    assert_eq!(size_of_bucket("4 8x48"), 128);
}

#[test]
fn names_are_joined_with_commas() {
    assert_eq!(join_list(&Vec::new()), "");
    assert_eq!(join_list(&strings(&["a"])), "a");
    assert_eq!(join_list(&strings(&["a", "b/c", ""])), "a,b/c,");
}
