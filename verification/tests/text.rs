use align_comments::error::AlignError;
use align_comments::text::{fix_comments, join_text, realign, split_text};

fn texts(lines: &[&str]) -> Vec<String> {
    lines.iter().map(|l| l.to_string()).collect()
}

fn fixed(text: &str, token: &str) -> String {
    let mut file = text.to_string();
    fix_comments(&mut file, token.to_string());
    file
}

#[test]
fn text_splits_at_line_feeds() {
    assert_eq!(split_text("a\nb\nc"), texts(&["a", "b", "c"]));
    assert_eq!(split_text("one line"), texts(&["one line"]));
    assert_eq!(split_text("a\n\nb"), texts(&["a", "", "b"]));
}

#[test]
fn final_line_feed_leaves_an_empty_last_line() {
    assert_eq!(split_text("a\nb\n"), texts(&["a", "b", ""]));
    assert_eq!(split_text("\n"), texts(&["", ""]));
    assert_eq!(split_text("\n\n"), texts(&["", "", ""]));
}

#[test]
fn empty_text_is_one_empty_line() {
    assert_eq!(split_text(""), texts(&[""]));
}

#[test]
fn carriage_returns_stay_in_their_lines() {
    assert_eq!(split_text("a\r\nb\r\n"), texts(&["a\r", "b\r", ""]));
}

#[test]
fn lines_join_with_line_feeds_between() {
    assert_eq!(join_text(&texts(&["a", "b", "c"])), "a\nb\nc");
    assert_eq!(join_text(&texts(&["a", "b", ""])), "a\nb\n");
    assert_eq!(join_text(&texts(&["only"])), "only");
    assert_eq!(join_text(&texts(&[""])), "");
    assert_eq!(join_text(&texts(&[])), "");
    assert_eq!(join_text(&texts(&["", ""])), "\n");
}

#[test]
fn joining_the_lines_of_a_text_gives_the_text() {
    for text in ["", "\n", "a", "a\n", "a\nb", "\n\na\n\n", "x // 1\r\ny // 2\r\n", "é\n→"] {
        assert_eq!(join_text(&split_text(text)), text);
    }
}

#[test]
fn text_is_aligned_in_place() {
    assert_eq!(
        fixed("int a; // a\nint bb; // b\nint ccc;", "//"),
        "int a;  // a\nint bb; // b\nint ccc;"
    );
}

#[test]
fn final_line_feed_is_kept() {
    assert_eq!(
        fixed("int a; // a\nint bb; // b\nint ccc;\n", "//"),
        "int a;  // a\nint bb; // b\nint ccc;\n"
    );
    assert_eq!(fixed("a # 1\nbb # 2\n\n\n", "#"), "a  # 1\nbb # 2\n\n\n");
}

#[test]
fn carriage_returns_are_kept() {
    assert_eq!(fixed("a # 1\r\nbb # 2\r\n", "#"), "a  # 1\r\nbb # 2\r\n");
}

#[test]
fn text_without_sections_is_unchanged() {
    for text in ["", "\n", "x // c1\n\ny // c2", "plain\ntext\n", "one // comment\n"] {
        assert_eq!(fixed(text, "//"), text);
    }
}

#[test]
fn fixing_a_text_twice_is_fixing_it_once() {
    let once = fixed("a -- 1\nbbbb -- 2\n\nc -- 3\ndd -- 4\ne\n", "--");
    assert_eq!(once, "a    -- 1\nbbbb -- 2\n\nc  -- 3\ndd -- 4\ne\n");
    assert_eq!(fixed(&once, "--"), once);
}

#[test]
fn number_of_lines_is_kept() {
    let text = "a // 1\nbb // 2\n\nccc // 3\nd // 4\n";
    let out = fixed(text, "//");
    assert_eq!(out.matches('\n').count(), text.matches('\n').count());
    assert_eq!(split_text(&out).len(), split_text(text).len());
}

#[test]
fn realign_uses_the_token_of_the_extension() {
    let text = "a = 1 # x\nb = 22 # yy".to_string();
    assert_eq!(
        realign(&"script.py".to_string(), Some(text.clone())),
        Ok("a = 1  # x\nb = 22 # yy".to_string())
    );
    assert_eq!(realign(&"script.rs".to_string(), Some(text.clone())), Ok(text.clone()));
    assert_eq!(
        realign(&"dir/mod.lua".to_string(), Some("a -- 1\nbbb -- 2\n".to_string())),
        Ok("a   -- 1\nbbb -- 2\n".to_string())
    );
    assert_eq!(
        realign(
            &"Main.java".to_string(),
            Some("int a; // a\nint bb; // b\nint ccc;".to_string())
        ),
        Ok("int a;  // a\nint bb; // b\nint ccc;".to_string())
    );
}

#[test]
fn realign_refuses_unsupported_files() {
    let text = "a # 1\nbb # 2".to_string();
    for path in ["notes.txt", "Makefile", "a.py/b", "prog.fs", "x.PY", ""] {
        assert_eq!(
            realign(&path.to_string(), Some(text.clone())),
            Err(AlignError::UnsupportedStyle),
            "{:?}",
            path
        );
    }
}

#[test]
fn realign_refuses_a_file_that_was_not_read() {
    assert_eq!(
        realign(&"gone.rs".to_string(), None),
        Err(AlignError::FileNotFound("gone.rs".to_string()))
    );
}

#[test]
fn a_file_that_was_not_read_is_refused_before_its_extension() {
    assert_eq!(
        realign(&"gone.txt".to_string(), None),
        Err(AlignError::FileNotFound("gone.txt".to_string()))
    );
}

#[test]
fn realign_of_an_empty_file_is_empty() {
    assert_eq!(realign(&"empty.c".to_string(), Some(String::new())), Ok(String::new()));
}
