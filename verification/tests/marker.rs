use align_comments::chars::{push_range, to_chars};
use align_comments::marker::{find_marker, marker_column_of, with_spaces};

fn chars_of(text: &str) -> Vec<char> {
    text.chars().collect()
}

#[test]
fn to_chars_lists_the_characters() {
    assert_eq!(to_chars("a#b"), vec!['a', '#', 'b']);
    assert_eq!(to_chars(""), Vec::<char>::new());
    assert_eq!(to_chars("é→x"), vec!['é', '→', 'x']);
}

#[test]
fn push_range_appends_the_range() {
    let mut out = "ab".to_string();
    push_range(&mut out, &chars_of("0123456"), 2, 5);
    assert_eq!(out, "ab234");
    push_range(&mut out, &chars_of("0123456"), 3, 3);
    assert_eq!(out, "ab234");
    push_range(&mut out, &chars_of("xyz"), 0, 3);
    assert_eq!(out, "ab234xyz");
}

#[test]
fn marker_is_found_at_its_column() {
    assert_eq!(find_marker(&chars_of("int a; // a"), &chars_of("//")), Some(7));
    assert_eq!(find_marker(&chars_of("int bb; // b"), &chars_of("//")), Some(8));
    assert_eq!(find_marker(&chars_of("a = 1 # x"), &chars_of("#")), Some(6));
    assert_eq!(find_marker(&chars_of("// top"), &chars_of("//")), Some(0));
    assert_eq!(find_marker(&chars_of("x //"), &chars_of("//")), Some(2));
}

#[test]
fn marker_is_the_rightmost_occurrence() {
    assert_eq!(find_marker(&chars_of("s = \"//\"; // note"), &chars_of("//")), Some(10));
    assert_eq!(find_marker(&chars_of("# a # b # c"), &chars_of("#")), Some(8));
    assert_eq!(find_marker(&chars_of("a ---- b"), &chars_of("--")), Some(4));
    assert_eq!(find_marker(&chars_of("x ///"), &chars_of("//")), Some(3));
}

#[test]
fn line_without_marker_has_none() {
    assert_eq!(find_marker(&chars_of("int ccc;"), &chars_of("//")), None);
    assert_eq!(find_marker(&chars_of(""), &chars_of("//")), None);
    assert_eq!(find_marker(&chars_of("/"), &chars_of("//")), None);
    assert_eq!(find_marker(&chars_of("a / / b"), &chars_of("//")), None);
    assert_eq!(find_marker(&chars_of("-"), &chars_of("--")), None);
}

#[test]
fn whole_line_can_be_the_marker() {
    assert_eq!(find_marker(&chars_of("//"), &chars_of("//")), Some(0));
    assert_eq!(find_marker(&chars_of("#"), &chars_of("#")), Some(0));
}

#[test]
fn empty_token_stands_at_the_end_of_every_line() {
    assert_eq!(find_marker(&chars_of("abc"), &chars_of("")), Some(3));
    assert_eq!(find_marker(&chars_of(""), &chars_of("")), Some(0));
}

#[test]
fn columns_count_characters() {
    assert_eq!(marker_column_of("é = 1 # x", &chars_of("#")), Some(6));
    assert_eq!(marker_column_of("→→ // c", &chars_of("//")), Some(3));
    assert_eq!(marker_column_of("plain", &chars_of("//")), None);
}

#[test]
fn spaces_are_inserted_in_front_of_the_position() {
    assert_eq!(with_spaces("int a; // a", 7, 1), "int a;  // a");
    assert_eq!(with_spaces("ab", 0, 2), "  ab");
    assert_eq!(with_spaces("ab", 2, 3), "ab   ");
    assert_eq!(with_spaces("ab", 1, 0), "ab");
    assert_eq!(with_spaces("", 0, 2), "  ");
    assert_eq!(with_spaces("é#", 1, 2), "é  #");
}
