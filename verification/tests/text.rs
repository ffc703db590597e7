use freedesktop_icons::theme::text::chars_of;
use freedesktop_icons::theme::text::contains_text;
use freedesktop_icons::theme::text::decimal_text;
use freedesktop_icons::theme::text::join;
use freedesktop_icons::theme::text::leading;
use freedesktop_icons::theme::text::parse_u16;
use freedesktop_icons::theme::text::split;

fn strings(items: &[&str]) -> Vec<String> {
    items.iter().map(|p| p.to_string()).collect()
}

#[test]
fn split_keeps_empty_pieces() {
    assert_eq!(split("a,b", ','), strings(&["a", "b"]));
    assert_eq!(split("", ','), strings(&[""]));
    assert_eq!(split("a,", ','), strings(&["a", ""]));
    assert_eq!(split(",a,,b", ','), strings(&["", "a", "", "b"]));
    assert_eq!(split("16x16/apps", ','), strings(&["16x16/apps"]));
    assert_eq!(split("é,ü", ','), strings(&["é", "ü"]));
}

#[test]
fn leading_stops_before_the_first_stop() {
    assert_eq!(leading("48x48", 'x'), "48");
    assert_eq!(leading("x48", 'x'), "");
    assert_eq!(leading("scalable", 'x'), "scalable");
    assert_eq!(leading("", 'x'), "");
    assert_eq!(leading("1x2x3", 'x'), "1");
}

#[test]
fn numbers_are_plain_decimal() {
    assert_eq!(parse_u16("0"), Some(0));
    assert_eq!(parse_u16("007"), Some(7));
    assert_eq!(parse_u16("128"), Some(128));
    assert_eq!(parse_u16("65535"), Some(65535));
    assert_eq!(parse_u16("65536"), None);
    assert_eq!(parse_u16("99999999999999999999"), None);
    assert_eq!(parse_u16(""), None);
    assert_eq!(parse_u16("+5"), None);
    assert_eq!(parse_u16("-5"), None);
    assert_eq!(parse_u16("12a"), None);
    assert_eq!(parse_u16(" 12"), None);
    assert_eq!(parse_u16("１２"), None);
}

#[test]
fn numbers_are_written_without_leading_zeros() {
    assert_eq!(decimal_text(0), "0");
    assert_eq!(decimal_text(7), "7");
    assert_eq!(decimal_text(128), "128");
    assert_eq!(decimal_text(65535), "65535");
    for n in [0u16, 9, 10, 99, 100, 1000, 12345, 65535] {
        assert_eq!(decimal_text(n), n.to_string());
        assert_eq!(parse_u16(&decimal_text(n)), Some(n));
    }
}

#[test]
fn paths_are_joined_with_one_slash() {
    assert_eq!(join("/usr/share/icons", "hicolor"), "/usr/share/icons/hicolor");
    assert_eq!(join("", "a"), "/a");
    assert_eq!(join("a", ""), "a/");
}

#[test]
fn texts_are_found_by_their_characters() {
    let list = strings(&["/a/b.png", "/a/c.svg"]);
    assert!(contains_text(&list, "/a/c.svg"));
    assert!(!contains_text(&list, "/a/c.sv"));
    assert!(!contains_text(&Vec::new(), ""));
    assert_eq!(chars_of("a/é"), vec!['a', '/', 'é']);
}
