use arborio::binel::BinElAttr;
use arborio::fuzzy::{
    compare_char_tiles, compare_char_tiles_required, compare_int_tiles, compare_int_tiles_required,
    make_like_default,
};

fn text(s: &str) -> BinElAttr {
    BinElAttr::Text(s.to_string())
}

#[test]
fn char_tiles_ignore_carriage_returns_and_short_rows() {
    assert!(compare_char_tiles_required(&text("10\r\n01"), &text("10\n01")));
    assert!(compare_char_tiles_required(&text("1000\n01"), &text("1\n01")));
    assert!(compare_char_tiles_required(&text("10\n01"), &text("10")));
    assert!(!compare_char_tiles_required(&text("10\n01"), &text("11\n01")));
    assert!(!compare_char_tiles_required(&text("10"), &BinElAttr::Int(10)));
}

#[test]
fn int_tiles_skip_only_line_breaks() {
    assert!(compare_int_tiles_required(&text("1,2\r\n3,4"), &text("1,2\n3,4")));
    assert!(!compare_int_tiles_required(&text("1,2,3\n4"), &text("1,2\n4")));
    assert!(compare_int_tiles_required(&text("1,2\n\n"), &text("1,2")));
    assert!(!compare_int_tiles_required(&BinElAttr::Bool(true), &text("")));
}

#[test]
fn missing_tiles_compare_as_empty() {
    assert!(compare_char_tiles(None, Some(&text("000"))));
    assert!(compare_char_tiles(Some(&text("000")), None));
    assert!(compare_int_tiles(Some(&text("\n\n")), None));
    assert!(!compare_int_tiles(Some(&text("1")), None));
    assert!(compare_int_tiles(Some(&text("1")), Some(&text("1"))));
}

#[test]
fn defaults_of_each_kind() {
    assert_eq!(make_like_default(&BinElAttr::Bool(true)), BinElAttr::Bool(false));
    assert_eq!(make_like_default(&BinElAttr::Int(5)), BinElAttr::Int(0));
    assert_eq!(make_like_default(&BinElAttr::Float(0x3f80_0000)), BinElAttr::Float(0));
    assert_eq!(make_like_default(&text("abc")), text(""));
}
