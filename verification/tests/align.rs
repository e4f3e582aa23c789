use align_comments::align::{align, comment_line_numbers, fix_section};

fn lines_of(lines: &[&str]) -> Vec<String> {
    lines.iter().map(|l| l.to_string()).collect()
}

fn column(line: &str, token: &str) -> Option<usize> {
    let chars: Vec<char> = line.chars().collect();
    let tok: Vec<char> = token.chars().collect();
    (0..=chars.len()).rev().find(|&at| chars[at..].starts_with(&tok))
}

#[test]
fn two_comment_lines_form_a_section() {
    let input = lines_of(&["int a; // a", "int bb; // b", "int ccc;"]);
    assert_eq!(comment_line_numbers(&input, "//"), vec![0, 1]);
    assert_eq!(column(&input[0], "//"), Some(7));
    assert_eq!(column(&input[1], "//"), Some(8));
    let out = align(input, "//");
    assert_eq!(out, lines_of(&["int a;  // a", "int bb; // b", "int ccc;"]));
}

#[test]
fn comments_two_lines_apart_form_no_section() {
    let input = lines_of(&["x // c1", "", "y // c2"]);
    assert_eq!(comment_line_numbers(&input, "//"), Vec::<usize>::new());
    assert_eq!(align(input.clone(), "//"), input);
}

#[test]
fn python_comments_align() {
    let out = align(lines_of(&["a = 1 # x", "b = 22 # yy"]), "#");
    assert_eq!(out, lines_of(&["a = 1  # x", "b = 22 # yy"]));
}

#[test]
fn lua_comments_align() {
    let out = align(lines_of(&["local a = 1 -- one", "local bcd = 2 -- two", "x = 3 -- three"]), "--");
    assert_eq!(
        out,
        lines_of(&["local a = 1   -- one", "local bcd = 2 -- two", "x = 3         -- three"])
    );
}

#[test]
fn empty_input_stays_empty() {
    assert_eq!(align(Vec::new(), "//"), Vec::<String>::new());
    assert_eq!(comment_line_numbers(&Vec::new(), "//"), Vec::<usize>::new());
}

#[test]
fn input_without_comments_is_unchanged() {
    let input = lines_of(&["fn main() {", "    body();", "}"]);
    assert_eq!(align(input.clone(), "//"), input);
}

#[test]
fn single_line_is_unchanged() {
    let input = lines_of(&["x = 1 // only"]);
    assert_eq!(comment_line_numbers(&input, "//"), Vec::<usize>::new());
    assert_eq!(align(input.clone(), "//"), input);
}

#[test]
fn lone_comment_is_untouched() {
    let input = lines_of(&["a", "b // lone", "c", "dd // one", "e // two", "f"]);
    let out = align(input.clone(), "//");
    assert_eq!(out[1], input[1]);
    assert_eq!(out, lines_of(&["a", "b // lone", "c", "dd // one", "e  // two", "f"]));
}

#[test]
fn last_line_can_close_a_section() {
    let out = align(lines_of(&["code", "a // 1", "bbbb // 2"]), "//");
    assert_eq!(out, lines_of(&["code", "a    // 1", "bbbb // 2"]));
}

#[test]
fn eligible_lines_are_each_listed_once() {
    let input = lines_of(&["a # 1", "b # 2", "c # 3", "", "d # 4", "e", "f # 5", "g # 6"]);
    assert_eq!(comment_line_numbers(&input, "#"), vec![0, 1, 2, 6, 7]);
}

#[test]
fn sections_are_aligned_independently() {
    let input = lines_of(&[
        "a // 1",
        "bbb // 2",
        "no comment here",
        "cccccccccc // 3",
        "d // 4",
    ]);
    let out = align(input, "//");
    assert_eq!(
        out,
        lines_of(&[
            "a   // 1",
            "bbb // 2",
            "no comment here",
            "cccccccccc // 3",
            "d          // 4",
        ])
    );
}

#[test]
fn a_section_aligns_as_it_does_alone() {
    let first = lines_of(&["a # 1", "bbbb # 2"]);
    let second = lines_of(&["cc # 3", "d # 4", "eeeeee # 5"]);
    let mut whole = first.clone();
    whole.push("separator".to_string());
    whole.extend(second.clone());
    let mut expected = align(first, "#");
    expected.push("separator".to_string());
    expected.extend(align(second, "#"));
    assert_eq!(align(whole, "#"), expected);
}

#[test]
fn changing_one_section_leaves_the_other_as_it_was() {
    let short = align(lines_of(&["a # 1", "bb # 2", "", "x # 3", "yy # 4"]), "#");
    let long = align(lines_of(&["a # 1", "bb # 2", "", "xxxxxxxx # 3", "yy # 4"]), "#");
    assert_eq!(short[..3], long[..3]);
    assert_eq!(long[3..], lines_of(&["xxxxxxxx # 3", "yy       # 4"])[..]);
}

#[test]
fn markers_of_a_section_meet_at_the_largest_column() {
    let input = lines_of(&["a // 1", "bbbbb // 2", "cc // 3", "", "dddddddd // 4", "e // 5"]);
    let out = align(input.clone(), "//");
    let largest = input[..3].iter().map(|l| column(l, "//").unwrap()).max().unwrap();
    assert_eq!(largest, 6);
    for line in &out[..3] {
        assert_eq!(column(line, "//"), Some(6));
    }
    for line in &out[4..] {
        assert_eq!(column(line, "//"), Some(9));
    }
}

#[test]
fn aligning_twice_is_aligning_once() {
    let inputs = [
        lines_of(&["int a; // a", "int bb; // b", "int ccc;"]),
        lines_of(&["a # 1", "bb # 2", "", "xxxxxxxx # 3", "yy # 4", "z"]),
        lines_of(&["s = \"//\"; // x", "t // y", "// z"]),
        lines_of(&["x // c1", "", "y // c2"]),
        lines_of(&[]),
    ];
    for input in inputs {
        let once = align(input, "//");
        assert_eq!(align(once.clone(), "//"), once);
        let once = align(once, "#");
        assert_eq!(align(once.clone(), "#"), once);
    }
}

#[test]
fn lines_keep_their_number_and_order() {
    let input = lines_of(&["a // 1", "bbb // 2", "", "c", "dd // 3", "e // 4", ""]);
    let out = align(input.clone(), "//");
    assert_eq!(out.len(), input.len());
    for (before, after) in input.iter().zip(out.iter()) {
        let squeezed: String = after.chars().filter(|c| *c != ' ').collect();
        let plain: String = before.chars().filter(|c| *c != ' ').collect();
        assert_eq!(squeezed, plain);
        assert!(after.len() >= before.len());
    }
}

#[test]
fn only_the_rightmost_marker_moves() {
    let out = align(lines_of(&["u = \"//\" // url", "value = 1 // one"]), "//");
    assert_eq!(out, lines_of(&["u = \"//\"  // url", "value = 1 // one"]));
}

#[test]
fn marker_at_line_start_is_padded_from_the_left() {
    let out = align(lines_of(&["// heading", "code(); // note"]), "//");
    assert_eq!(out, lines_of(&["        // heading", "code(); // note"]));
}

#[test]
fn aligned_section_is_unchanged() {
    let input = lines_of(&["a   // 1", "bbb // 2"]);
    assert_eq!(align(input.clone(), "//"), input);
}

#[test]
fn columns_count_characters_not_bytes() {
    let out = align(lines_of(&["é # x", "ab # y"]), "#");
    assert_eq!(out, lines_of(&["é  # x", "ab # y"]));
}

#[test]
fn empty_token_pads_every_line_to_the_longest() {
    let out = align(lines_of(&["a", "bcd", ""]), "");
    assert_eq!(out, lines_of(&["a  ", "bcd", "   "]));
    assert_eq!(comment_line_numbers(&lines_of(&["a", "bcd", ""]), ""), vec![0, 1, 2]);
    assert_eq!(align(lines_of(&["alone"]), ""), lines_of(&["alone"]));
}

#[test]
fn token_with_spaces_is_found_after_padding() {
    let out = align(lines_of(&["a # # b", "cccc # # d"]), "# #");
    assert_eq!(out, lines_of(&["a    # # b", "cccc # # d"]));
    assert_eq!(align(out.clone(), "# #"), out);
}

#[test]
fn fix_section_aligns_the_listed_lines() {
    let mut lines = lines_of(&["a // 1", "bbb // 2", "cc // 3", "dddddd // 4"]);
    fix_section(vec![0, 1, 2], &mut lines, &"//".to_string());
    assert_eq!(lines, lines_of(&["a   // 1", "bbb // 2", "cc  // 3", "dddddd // 4"]));
}

#[test]
fn fix_section_takes_lines_in_any_order_and_twice() {
    let mut lines = lines_of(&["a # 1", "skip # me", "bbbbbbbbbbb # 2", "cc # 3"]);
    fix_section(vec![3, 0, 3, 2, 0], &mut lines, &"#".to_string());
    assert_eq!(
        lines,
        lines_of(&["a           # 1", "skip # me", "bbbbbbbbbbb # 2", "cc          # 3"])
    );
}

#[test]
fn fix_section_with_no_lines_changes_nothing() {
    let mut lines = lines_of(&["a // 1", "bbb // 2"]);
    fix_section(vec![], &mut lines, &"//".to_string());
    assert_eq!(lines, lines_of(&["a // 1", "bbb // 2"]));
}

#[test]
fn fix_section_of_one_line_changes_nothing() {
    let mut lines = lines_of(&["a // 1", "bbb // 2"]);
    fix_section(vec![0], &mut lines, &"//".to_string());
    assert_eq!(lines, lines_of(&["a // 1", "bbb // 2"]));
}
