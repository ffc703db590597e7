use freedesktop_icons::theme::closest::closest_positions;
use freedesktop_icons::theme::directories::Directory;
use freedesktop_icons::theme::directories::DirectoryType;
use freedesktop_icons::theme::files_to_probe;
use freedesktop_icons::theme::first_icon_in;
use freedesktop_icons::theme::lookup::files_to_resolve;
use freedesktop_icons::theme::lookup::resolve;
use freedesktop_icons::theme::lookup::resolve_in;
use freedesktop_icons::theme::paths::ThemePath;
use freedesktop_icons::theme::try_build_icon_path;
use freedesktop_icons::theme::try_build_png;
use freedesktop_icons::theme::try_build_svg;
use freedesktop_icons::theme::try_build_xmp;
use freedesktop_icons::theme::Theme;
use freedesktop_icons::SizeScheme;

const HICOLOR_INDEX: &str = "[Icon Theme]
Name=Hicolor
Comment=Fallback icon theme
Directories=22x22/apps,48x48/apps,scalable/apps

[22x22/apps]
Size=22
Context=Applications
Type=Threshold

[48x48/apps]
Size=48
Context=Applications
Type=Fixed

[scalable/apps]
Size=128
MinSize=1
MaxSize=256
Context=Applications
Type=Scalable
";

const COSMIC_INDEX: &str = "[Icon Theme]
Name=Cosmic Base Dark
Directories=24x24/actions,scalable/actions

[24x24/actions]
Size=24
Type=Fixed

[scalable/actions]
Size=16
MinSize=8
MaxSize=512
Type=Scalable
";

fn theme(dir: &str) -> Theme {
    Theme { path: ThemePath(dir.to_string()), index: format!("{}/index.theme", dir) }
}

fn files(paths: &[&str]) -> Vec<String> {
    paths.iter().map(|p| p.to_string()).collect()
}

fn dir(name: &str, size: u16, scale: u16, type_: DirectoryType) -> Directory {
    Directory { name: name.to_string(), size, scale, type_ }
}

#[test]
fn get_one_icon() {
    let themes = vec![theme("icons/cosmic-base-dark")];
    let present = files(&["icons/cosmic-base-dark/24x24/actions/edit-delete-symbolic.svg"]);
    let icon = themes
        .iter()
        .find_map(|t| t.try_get_icon_exact_size(COSMIC_INDEX, "edit-delete-symbolic", 24, 1, false, &present));
    println!("{:?}", icon);
    assert_eq!(
        icon,
        Some("icons/cosmic-base-dark/24x24/actions/edit-delete-symbolic.svg".to_string())
    );
}

#[test]
fn should_get_svg_first() {
    let themes = vec![theme("icons/hicolor")];
    let present = files(&[
        "icons/hicolor/22x22/apps/cosmic-fake-applet.png",
        "icons/hicolor/scalable/apps/cosmic-fake-applet.svg",
    ]);
    let icon = themes
        .iter()
        .find_map(|t| t.try_get_icon_exact_size(HICOLOR_INDEX, "cosmic-fake-applet", 22, 1, true, &present));
    assert_eq!(icon, Some("icons/hicolor/scalable/apps/cosmic-fake-applet.svg".to_string()));
}

#[test]
fn should_get_png_first() {
    let themes = vec![theme("icons/hicolor")];
    let present = files(&[
        "icons/hicolor/22x22/apps/cosmic-cat-tracker.png",
        "icons/hicolor/scalable/apps/cosmic-cat-tracker.svg",
    ]);
    let icon = themes
        .iter()
        .find_map(|t| t.try_get_icon_exact_size(HICOLOR_INDEX, "cosmic-cat-tracker", 22, 1, false, &present));
    assert_eq!(icon, Some("icons/hicolor/22x22/apps/cosmic-cat-tracker.png".to_string()));
}

#[test]
fn hicolor_end_to_end() {
    let hicolor = theme("icons/hicolor");
    let present = files(&[
        "icons/hicolor/scalable/apps/foo.svg",
        "icons/hicolor/22x22/apps/foo.png",
    ]);
    assert_eq!(
        hicolor.try_get_icon(HICOLOR_INDEX, "foo", 22, SizeScheme::Closest, 1, false, &present),
        Some("icons/hicolor/22x22/apps/foo.png".to_string())
    );
    assert_eq!(
        hicolor.try_get_icon(HICOLOR_INDEX, "foo", 256, SizeScheme::Closest, 1, true, &present),
        Some("icons/hicolor/scalable/apps/foo.svg".to_string())
    );
    assert_eq!(
        hicolor.try_get_icon(HICOLOR_INDEX, "bar", 22, SizeScheme::Closest, 1, false, &present),
        None
    );
}

#[test]
fn exact_fixed_entry_is_tried_before_closest() {
    let t = theme("/t");
    let dirs = vec![
        dir("near", 47, 1, DirectoryType::Fixed),
        dir("exact", 48, 1, DirectoryType::Fixed),
    ];
    let present = files(&["/t/near/a.png", "/t/exact/a.png"]);
    assert_eq!(t.exact_paths(&dirs, 48, 1), files(&["/t/exact"]));
    assert_eq!(
        t.find_icon(&dirs, "a", 48, SizeScheme::Closest, 1, false, &present),
        Some("/t/exact/a.png".to_string())
    );
    let only_near = files(&["/t/near/a.png"]);
    assert_eq!(
        t.find_icon(&dirs, "a", 48, SizeScheme::Closest, 1, false, &only_near),
        Some("/t/near/a.png".to_string())
    );
    assert_eq!(t.exact_icon(&dirs, "a", 48, 1, false, &only_near), None);
}

#[test]
fn exact_fit_in_a_later_place_beats_a_near_one_in_the_first() {
    let themes = vec![theme("/home/icons/hicolor"), theme("/usr/icons/hicolor")];
    let manifests = vec![
        vec![dir("32", 32, 1, DirectoryType::Fixed)],
        vec![dir("48", 48, 1, DirectoryType::Fixed)],
    ];
    let present = files(&["/home/icons/hicolor/32/a.png", "/usr/icons/hicolor/48/a.png"]);
    assert_eq!(
        resolve_in(&themes, &manifests, "a", 48, SizeScheme::Closest, 1, false, &present),
        Some("/usr/icons/hicolor/48/a.png".to_string())
    );
    assert_eq!(
        resolve_in(&themes, &manifests, "a", 40, SizeScheme::Closest, 1, false, &present),
        Some("/home/icons/hicolor/32/a.png".to_string())
    );
    assert_eq!(
        resolve_in(&themes, &manifests, "b", 48, SizeScheme::Closest, 1, false, &present),
        None
    );
}

#[test]
fn resolve_reads_each_place_with_its_own_text() {
    let themes = vec![theme("/home/icons/hicolor"), theme("/usr/icons/hicolor")];
    let texts = vec![HICOLOR_INDEX.to_string(), HICOLOR_INDEX.to_string()];
    let present = files(&[
        "/home/icons/hicolor/48x48/apps/a.png",
        "/usr/icons/hicolor/22x22/apps/a.png",
    ]);
    assert_eq!(
        resolve(&themes, &texts, "a", 22, SizeScheme::Closest, 1, false, &present),
        Some("/usr/icons/hicolor/22x22/apps/a.png".to_string())
    );
    assert_eq!(
        resolve(&themes, &texts, "a", 48, SizeScheme::Closest, 1, false, &present),
        Some("/home/icons/hicolor/48x48/apps/a.png".to_string())
    );
    let first_only = vec![HICOLOR_INDEX.to_string()];
    assert_eq!(
        resolve(&themes, &first_only, "a", 22, SizeScheme::Closest, 1, false, &present),
        Some("/home/icons/hicolor/48x48/apps/a.png".to_string())
    );
    let unreadable = vec!["=broken".to_string(), HICOLOR_INDEX.to_string()];
    assert_eq!(
        resolve(&themes, &unreadable, "a", 48, SizeScheme::Closest, 1, false, &present),
        Some("/usr/icons/hicolor/22x22/apps/a.png".to_string())
    );
}

#[test]
fn png_goes_before_svg_and_xmp_last() {
    let all = files(&["/d/a.xmp", "/d/a.svg", "/d/a.png"]);
    assert_eq!(try_build_icon_path("a", "/d", false, &all), Some("/d/a.png".to_string()));
    let no_png = files(&["/d/a.xmp", "/d/a.svg"]);
    assert_eq!(try_build_icon_path("a", "/d", false, &no_png), Some("/d/a.svg".to_string()));
    let only_xmp = files(&["/d/a.xmp"]);
    assert_eq!(try_build_icon_path("a", "/d", false, &only_xmp), Some("/d/a.xmp".to_string()));
    assert_eq!(try_build_icon_path("a", "/d", false, &files(&[])), None);
    assert_eq!(try_build_icon_path("b", "/d", false, &all), None);
    assert_eq!(try_build_icon_path("a", "/e", false, &all), None);
}

#[test]
fn force_svg_takes_only_svg() {
    let all = files(&["/d/a.xmp", "/d/a.svg", "/d/a.png"]);
    assert_eq!(try_build_icon_path("a", "/d", true, &all), Some("/d/a.svg".to_string()));
    let no_svg = files(&["/d/a.xmp", "/d/a.png"]);
    assert_eq!(try_build_icon_path("a", "/d", true, &no_svg), None);
}

#[test]
fn each_format_is_built_with_its_extension() {
    let all = files(&["/d/a.xmp", "/d/a.svg", "/d/a.png"]);
    assert_eq!(try_build_svg("a", "/d", &all), Some("/d/a.svg".to_string()));
    assert_eq!(try_build_png("a", "/d", &all), Some("/d/a.png".to_string()));
    assert_eq!(try_build_xmp("a", "/d", &all), Some("/d/a.xmp".to_string()));
    let none = files(&["/d/a.jpg"]);
    assert_eq!(try_build_svg("a", "/d", &none), None);
    assert_eq!(try_build_png("a", "/d", &none), None);
    assert_eq!(try_build_xmp("a", "/d", &none), None);
}

#[test]
fn first_directory_with_the_icon_wins() {
    let dirs = files(&["/a", "/b", "/c"]);
    let present = files(&["/c/x.png", "/b/x.svg"]);
    assert_eq!(first_icon_in("x", &dirs, false, &present), Some("/b/x.svg".to_string()));
    assert_eq!(first_icon_in("y", &dirs, false, &present), None);
    assert_eq!(first_icon_in("x", &files(&[]), false, &present), None);
}

#[test]
fn schemes_break_ties() {
    let t = theme("/t");
    let smaller = dir("small", 32, 1, DirectoryType::Scalable { min_size: 10, max_size: 47 });
    let larger = dir("large", 64, 1, DirectoryType::Scalable { min_size: 53, max_size: 100 });
    assert_eq!(smaller.directory_size_distance(50, 1), -3);
    assert_eq!(larger.directory_size_distance(50, 1), 3);
    let dirs = vec![smaller.clone(), larger.clone()];
    assert_eq!(
        t.closest_paths(&dirs, 50, SizeScheme::LargerClosest, 1),
        files(&["/t/large", "/t/small"])
    );
    assert_eq!(
        t.closest_paths(&dirs, 50, SizeScheme::SmallerClosest, 1),
        files(&["/t/small", "/t/large"])
    );
    assert_eq!(t.closest_paths(&dirs, 50, SizeScheme::Closest, 1), files(&["/t/small", "/t/large"]));
    let turned = vec![larger, smaller];
    assert_eq!(
        t.closest_paths(&turned, 50, SizeScheme::Closest, 1),
        files(&["/t/large", "/t/small"])
    );
    assert_eq!(
        t.closest_paths(&turned, 50, SizeScheme::SmallerClosest, 1),
        files(&["/t/small", "/t/large"])
    );
}

#[test]
fn closest_orders_by_scheme() {
    let dirs = vec![
        dir("16", 16, 1, DirectoryType::Fixed),
        dir("64", 64, 1, DirectoryType::Fixed),
        dir("24", 24, 1, DirectoryType::Fixed),
        dir("40", 40, 1, DirectoryType::Fixed),
        dir("32", 32, 1, DirectoryType::Fixed),
    ];
    assert_eq!(closest_positions(&dirs, 32, SizeScheme::Closest, 1), vec![4, 2, 3, 0, 1]);
    assert_eq!(closest_positions(&dirs, 32, SizeScheme::LargerClosest, 1), vec![3, 1, 4, 2, 0]);
    assert_eq!(closest_positions(&dirs, 32, SizeScheme::SmallerClosest, 1), vec![2, 0, 4, 3, 1]);
    assert_eq!(closest_positions(&Vec::new(), 32, SizeScheme::Closest, 1), Vec::<usize>::new());
}

#[test]
fn fixed_of_other_scale_is_no_candidate() {
    let t = theme("/t");
    let dirs = vec![
        dir("fixed2", 48, 2, DirectoryType::Fixed),
        dir("far", 512, 1, DirectoryType::Fixed),
        dir("scalable2", 48, 2, DirectoryType::Scalable { min_size: 48, max_size: 48 }),
        dir("threshold2", 48, 2, DirectoryType::Threshold { threshold: 2 }),
    ];
    for scheme in [SizeScheme::Closest, SizeScheme::LargerClosest, SizeScheme::SmallerClosest] {
        let paths = t.closest_paths(&dirs, 48, scheme, 1);
        assert!(!paths.contains(&"/t/fixed2".to_string()));
        assert_eq!(paths.len(), 3);
    }
    assert_eq!(closest_positions(&dirs, 48, SizeScheme::Closest, 1), vec![3, 2, 1]);
    assert_eq!(closest_positions(&dirs, 48, SizeScheme::Closest, 2), vec![0, 2, 3]);
    let present = files(&["/t/fixed2/a.png"]);
    assert_eq!(t.find_icon(&dirs, "a", 48, SizeScheme::Closest, 1, false, &present), None);
    assert_eq!(
        t.find_icon(&dirs, "a", 48, SizeScheme::Closest, 2, false, &present),
        Some("/t/fixed2/a.png".to_string())
    );
}

#[test]
fn distances_are_signed() {
    assert_eq!(dir("d", 48, 1, DirectoryType::Fixed).directory_size_distance(32, 1), 16);
    assert_eq!(dir("d", 48, 1, DirectoryType::Fixed).directory_size_distance(64, 1), -16);
    assert_eq!(dir("d", 48, 1, DirectoryType::Fixed).directory_size_distance(48, 1), 0);
    assert_eq!(dir("d", 24, 2, DirectoryType::Fixed).directory_size_distance(48, 1), 0);
    assert_eq!(dir("d", 24, 2, DirectoryType::Fixed).directory_size_distance(24, 1), 24);
    let scalable = DirectoryType::Scalable { min_size: 16, max_size: 32 };
    assert_eq!(dir("d", 24, 1, scalable).directory_size_distance(10, 1), 6);
    assert_eq!(dir("d", 24, 1, scalable).directory_size_distance(16, 1), 0);
    assert_eq!(dir("d", 24, 1, scalable).directory_size_distance(32, 1), 0);
    assert_eq!(dir("d", 24, 1, scalable).directory_size_distance(40, 1), -8);
    assert_eq!(dir("d", 24, 2, scalable).directory_size_distance(100, 1), -36);
    assert_eq!(dir("d", 24, 2, scalable).directory_size_distance(10, 3), 2);
    let threshold = DirectoryType::Threshold { threshold: 2 };
    assert_eq!(dir("d", 22, 1, threshold).directory_size_distance(30, 1), -6);
    assert_eq!(dir("d", 22, 1, threshold).directory_size_distance(24, 1), 0);
    assert_eq!(dir("d", 22, 1, threshold).directory_size_distance(20, 1), 0);
    assert_eq!(dir("d", 22, 1, threshold).directory_size_distance(10, 1), 10);
    let wide = DirectoryType::Threshold { threshold: 65535 };
    assert_eq!(dir("d", 65535, 65535, wide).directory_size_distance(0, 0), 0);
    assert_eq!(
        dir("d", 65535, 65535, DirectoryType::Fixed).directory_size_distance(0, 0),
        65535 * 65535
    );
    assert_eq!(
        dir("d", 0, 0, DirectoryType::Fixed).directory_size_distance(65535, 65535),
        -(65535 * 65535)
    );
}

#[test]
fn exact_fit_follows_the_kind() {
    let fixed = dir("d", 48, 1, DirectoryType::Fixed);
    assert!(fixed.match_size(48, 1));
    assert!(!fixed.match_size(47, 1));
    assert!(!fixed.match_size(48, 2));
    let scalable = dir("d", 128, 1, DirectoryType::Scalable { min_size: 16, max_size: 256 });
    assert!(scalable.match_size(16, 1));
    assert!(scalable.match_size(256, 1));
    assert!(!scalable.match_size(15, 1));
    assert!(!scalable.match_size(257, 1));
    assert!(!scalable.match_size(128, 2));
    let threshold = dir("d", 22, 1, DirectoryType::Threshold { threshold: 2 });
    assert!(threshold.match_size(20, 1));
    assert!(threshold.match_size(24, 1));
    assert!(!threshold.match_size(19, 1));
    assert!(!threshold.match_size(25, 1));
    assert!(!threshold.match_size(22, 3));
    let low = dir("d", 1, 1, DirectoryType::Threshold { threshold: 5 });
    assert!(low.match_size(0, 1));
    assert!(low.match_size(6, 1));
    assert!(!low.match_size(7, 1));
}

#[test]
fn exact_pass_keeps_the_order_of_the_document() {
    let t = theme("icons/hicolor");
    assert_eq!(
        t.match_size(HICOLOR_INDEX, 22, 1),
        files(&["icons/hicolor/22x22/apps", "icons/hicolor/scalable/apps"])
    );
    assert_eq!(
        t.match_size(HICOLOR_INDEX, 48, 1),
        files(&["icons/hicolor/48x48/apps", "icons/hicolor/scalable/apps"])
    );
    assert_eq!(t.match_size(HICOLOR_INDEX, 300, 1), Vec::<String>::new());
    assert_eq!(t.match_size(HICOLOR_INDEX, 22, 2), Vec::<String>::new());
    assert_eq!(t.match_size("=broken", 22, 1), Vec::<String>::new());
}

#[test]
fn closest_pass_of_a_document() {
    let t = theme("icons/hicolor");
    assert_eq!(
        t.closest_match_size(HICOLOR_INDEX, 300, SizeScheme::Closest, 1),
        files(&["icons/hicolor/scalable/apps", "icons/hicolor/48x48/apps", "icons/hicolor/22x22/apps"])
    );
    assert_eq!(
        t.closest_match_size(HICOLOR_INDEX, 30, SizeScheme::LargerClosest, 1),
        files(&["icons/hicolor/48x48/apps", "icons/hicolor/scalable/apps", "icons/hicolor/22x22/apps"])
    );
    let present = files(&["icons/hicolor/48x48/apps/a.png", "icons/hicolor/22x22/apps/a.png"]);
    assert_eq!(
        t.try_get_icon_closest_size(HICOLOR_INDEX, "a", 30, SizeScheme::SmallerClosest, 1, false, &present),
        Some("icons/hicolor/22x22/apps/a.png".to_string())
    );
    assert_eq!(
        t.try_get_icon_closest_size(HICOLOR_INDEX, "a", 30, SizeScheme::LargerClosest, 1, false, &present),
        Some("icons/hicolor/48x48/apps/a.png".to_string())
    );
    assert_eq!(t.path(), "icons/hicolor");
}

#[test]
fn a_lookup_asks_only_for_the_files_to_probe() {
    assert_eq!(
        files_to_probe("a", &files(&["/d", "/e"]), false),
        files(&["/d/a.png", "/d/a.svg", "/d/a.xmp", "/e/a.png", "/e/a.svg", "/e/a.xmp"])
    );
    assert_eq!(files_to_probe("a", &files(&["/d", "/e"]), true), files(&["/d/a.svg", "/e/a.svg"]));
    assert_eq!(files_to_probe("a", &Vec::new(), false), Vec::<String>::new());
    let t = theme("icons/hicolor");
    assert_eq!(
        t.files_to_probe(HICOLOR_INDEX, "a", 48, SizeScheme::Closest, 1, true),
        files(&[
            "icons/hicolor/48x48/apps/a.svg",
            "icons/hicolor/scalable/apps/a.svg",
            "icons/hicolor/48x48/apps/a.svg",
            "icons/hicolor/scalable/apps/a.svg",
            "icons/hicolor/22x22/apps/a.svg",
        ])
    );
    let themes = vec![theme("/home/icons/hicolor"), theme("/usr/icons/hicolor")];
    let texts = vec![HICOLOR_INDEX.to_string(), "[Icon Theme]\nDirectories=x\n[x]\nSize=300\n".to_string()];
    let probed = files_to_resolve(&themes, &texts, "a", 300, SizeScheme::Closest, 1, true);
    assert_eq!(
        probed,
        files(&[
            "/usr/icons/hicolor/x/a.svg",
            "/home/icons/hicolor/scalable/apps/a.svg",
            "/home/icons/hicolor/48x48/apps/a.svg",
            "/home/icons/hicolor/22x22/apps/a.svg",
            "/usr/icons/hicolor/x/a.svg",
        ])
    );
    let everything = files(&[
        "/usr/icons/hicolor/x/a.svg",
        "/home/icons/hicolor/scalable/apps/a.svg",
        "/somewhere/else/a.svg",
    ]);
    let asked: Vec<String> = everything.iter().filter(|f| probed.contains(f)).cloned().collect();
    assert_eq!(
        resolve(&themes, &texts, "a", 300, SizeScheme::Closest, 1, true, &everything),
        resolve(&themes, &texts, "a", 300, SizeScheme::Closest, 1, true, &asked)
    );
    assert_eq!(
        resolve(&themes, &texts, "a", 300, SizeScheme::Closest, 1, true, &asked),
        Some("/usr/icons/hicolor/x/a.svg".to_string())
    );
}
