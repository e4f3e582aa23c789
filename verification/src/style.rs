//! Comment styles and the file extensions that select them.
use crate::chars::{push_range, to_chars};
use crate::error::AlignError;
use vstd::prelude::*;

verus! {

/// The family of comment syntax a file uses.
#[derive(Clone, Copy, Debug, PartialEq, Eq, Structural)]
pub enum Style {
    /// `//` comments.
    C,
    /// `#` comments.
    Python,
    /// `--` comments.
    Lua,
    /// No known comment syntax.
    Unknown,
}

/// The longest text that still counts as a marker token.
pub const MAX_TOKEN_LEN: usize = 2;

/// The lower-case name of a style.
pub open spec fn style_name(style: Style) -> Seq<char> {
    match style {
        Style::C => "c"@,
        Style::Python => "python"@,
        Style::Lua => "lua"@,
        Style::Unknown => "unknown"@,
    }
}

/// The marker token of a style; for `Unknown`, a message in its place.
pub open spec fn token_text(style: Style) -> Seq<char> {
    match style {
        Style::C => "//"@,
        Style::Python => "#"@,
        Style::Lua => "--"@,
        Style::Unknown => "Unsupported file type"@,
    }
}

/// The position of the last `.` of `path` at or before `upto`, or -1.
pub open spec fn last_dot(path: Seq<char>, upto: int) -> int
    decreases upto + 1,
{
    if upto < 0 || upto >= path.len() {
        -1
    } else if path[upto] == '.' {
        upto
    } else {
        last_dot(path, upto - 1)
    }
}

/// The extension of `path`: its tail from the last `.` on, the dot
/// included, or the word `unknown` where the path holds no dot.
pub open spec fn extension_of(path: Seq<char>) -> Seq<char> {
    let dot = last_dot(path, path.len() - 1);
    if dot >= 0 {
        path.subrange(dot, path.len() as int)
    } else {
        "unknown"@
    }
}

/// The style that an extension selects. The match is exact and
/// case-sensitive.
pub open spec fn style_of(ext: Seq<char>) -> Style {
    if ext == ".lua"@ {
        Style::Lua
    } else if ext == ".py"@ || ext == ".rb"@ || ext == ".sh"@ {
        Style::Python
    } else if ext == ".c"@ || ext == ".cc"@ || ext == ".cpp"@ || ext == ".js"@ || ext == ".ts"@
        || ext == ".rs"@ || ext == ".swift"@ || ext == ".scala"@ || ext == ".sc"@ || ext == ".kt"@
        || ext == ".java"@ {
        Style::C
    } else {
        Style::Unknown
    }
}

/// The extension of a path with a dot is the path's tail that starts
/// with the path's last dot; a path without dot has the extension
/// `unknown`.
pub proof fn lemma_extension_of(path: Seq<char>)
    ensures
        !path.contains('.') ==> extension_of(path) == "unknown"@,
        path.contains('.') ==> {
            let ext = extension_of(path);
            &&& 1 <= ext.len() <= path.len()
            &&& ext == path.subrange(path.len() - ext.len(), path.len() as int)
            &&& ext[0] == '.'
            &&& forall|k: int| 1 <= k < ext.len() ==> ext[k] != '.'
        },
{
    lemma_last_dot(path, path.len() - 1);
    let dot = last_dot(path, path.len() - 1);
    if path.contains('.') {
        let k = choose|k: int| 0 <= k < path.len() && path[k] == '.';
        assert(path[k] == '.');
        assert(dot >= 0);
    }
    if dot >= 0 {
        assert(path.contains('.'));
    }
}

/// What `last_dot` finds is a dot, and no dot lies between it and
/// `upto`.
proof fn lemma_last_dot(path: Seq<char>, upto: int)
    requires
        -1 <= upto < path.len(),
    ensures
        -1 <= last_dot(path, upto) <= upto,
        last_dot(path, upto) >= 0 ==> path[last_dot(path, upto)] == '.',
        forall|k: int| last_dot(path, upto) < k <= upto ==> path[k] != '.',
    decreases upto + 1,
{
    if upto >= 0 && path[upto] != '.' {
        lemma_last_dot(path, upto - 1);
    }
}

/// The name of a style as an owned string.
pub fn style_to_string(style: Style) -> (result: String)
    ensures
        result@ == style_name(style),
{
    match style {
        Style::C => String::from_str("c"),
        Style::Python => String::from_str("python"),
        Style::Lua => String::from_str("lua"),
        Style::Unknown => String::from_str("unknown"),
    }
}

/// The marker token of a style. `Unknown` has none and yields a message
/// instead, which is longer than any token.
pub fn get_token(file_type: Style) -> (token: String)
    ensures
        token@ == token_text(file_type),
        file_type != Style::Unknown ==> 1 <= token@.len() <= MAX_TOKEN_LEN,
        file_type == Style::Unknown ==> token@.len() > MAX_TOKEN_LEN,
{
    proof {
        reveal_strlit("//");
        reveal_strlit("#");
        reveal_strlit("--");
        reveal_strlit("Unsupported file type");
    }
    match file_type {
        Style::C => String::from_str("//"),
        Style::Python => String::from_str("#"),
        Style::Lua => String::from_str("--"),
        Style::Unknown => String::from_str("Unsupported file type"),
    }
}

/// The extension of a path: its tail from the last `.` on, or the word
/// `unknown` where there is no dot.
pub fn detect_file_type(path: &String) -> (result: String)
    ensures
        result@ == extension_of(path@),
{
    let chars = to_chars(path.as_str());
    let mut k: usize = chars.len();
    while k > 0 && chars[k - 1] != '.'
        invariant
            k <= chars.len(),
            chars@ == path@,
            last_dot(path@, path@.len() - 1) == last_dot(path@, k - 1),
        decreases k,
    {
        k -= 1;
    }
    if k > 0 {
        let mut result = String::new();
        push_range(&mut result, &chars, k - 1, chars.len());
        result
    } else {
        String::from_str("unknown")
    }
}

/// Whether `s` reads exactly as `text`.
fn reads_as(s: &String, text: &str) -> (same: bool)
    ensures
        same == (s@ == text@),
{
    *s == String::from_str(text)
}

/// The style that an extension selects.
pub fn determine_style(ext: String) -> (result: Style)
    ensures
        result == style_of(ext@),
{
    if reads_as(&ext, ".lua") {
        Style::Lua
    } else if reads_as(&ext, ".py") || reads_as(&ext, ".rb") || reads_as(&ext, ".sh") {
        Style::Python
    } else if reads_as(&ext, ".c") || reads_as(&ext, ".cc") || reads_as(&ext, ".cpp")
        || reads_as(&ext, ".js") || reads_as(&ext, ".ts") || reads_as(&ext, ".rs")
        || reads_as(&ext, ".swift") || reads_as(&ext, ".scala") || reads_as(&ext, ".sc")
        || reads_as(&ext, ".kt") || reads_as(&ext, ".java") {
        Style::C
    } else {
        Style::Unknown
    }
}

/// The marker token for an extension, or `UnsupportedStyle` where the
/// extension selects no style. A token is at most `MAX_TOKEN_LEN` long;
/// whatever `get_token` yields beyond that length is no token.
pub fn resolve(extension: &str) -> (result: Result<String, AlignError>)
    ensures
        style_of(extension@) != Style::Unknown ==> result is Ok && result->Ok_0@ == token_text(
            style_of(extension@),
        ) && 1 <= result->Ok_0@.len() <= MAX_TOKEN_LEN,
        style_of(extension@) == Style::Unknown ==> result == Err::<String, AlignError>(
            AlignError::UnsupportedStyle,
        ),
{
    let style = determine_style(String::from_str(extension));
    let token = get_token(style);
    if token.as_str().unicode_len() > MAX_TOKEN_LEN {
        Err(AlignError::UnsupportedStyle)
    } else {
        Ok(token)
    }
}

} // verus!
