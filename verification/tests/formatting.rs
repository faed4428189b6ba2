use simagef::formatting::{format_group, join_names, quote, Fmt};

fn names(list: &[&str]) -> Vec<String> {
    list.iter().map(|name| name.to_string()).collect()
}

#[test]
fn names_are_joined_by_spaces() {
    assert_eq!(join_names(&names(&["a.png", "b.png", "c d.png"])), "a.png b.png c d.png");
    assert_eq!(join_names(&names(&["a.png"])), "a.png");
    assert_eq!(join_names(&names(&[])), "");
    assert_eq!(join_names(&names(&["", ""])), " ");
}

#[test]
fn quotes_are_escaped() {
    assert_eq!(quote("a.png"), "\"a.png\"");
    assert_eq!(quote("a\"b"), "\"a\\\"b\"");
    assert_eq!(quote(""), "\"\"");
    assert_eq!(quote("\"\""), "\"\\\"\\\"\"");
    assert_eq!(quote("\u{e9}\\"), "\"\u{e9}\\\"");
}

#[test]
fn a_group_is_written_in_each_format() {
    let group = names(&["a.png", "b \"x\".png"]);
    assert_eq!(format_group(&group, Fmt::Regular), "a.png b \"x\".png");
    assert_eq!(format_group(&group, Fmt::Quote), "\"a.png\" \"b \\\"x\\\".png\"");
    assert_eq!(format_group(&group, Fmt::Null), "a.png\0b \"x\".png\0\0");
}

#[test]
fn an_empty_group_is_written_in_each_format() {
    let group = names(&[]);
    assert_eq!(format_group(&group, Fmt::Regular), "");
    assert_eq!(format_group(&group, Fmt::Quote), "");
    assert_eq!(format_group(&group, Fmt::Null), "\0");
}
