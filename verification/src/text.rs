//! A text as lines, and the realignment of a whole text.
use crate::align::{align, line_texts};
use crate::laws::{lemma_align_idempotent, lemma_align_inserts_spaces};
use crate::marker::insert_spaces;
use crate::runs::{aligned, eligible};
use crate::error::AlignError;
use crate::style::{detect_file_type, extension_of, resolve, style_of, token_text, Style};
use vstd::prelude::*;

verus! {

/// The lines of a text. A line ends at a line feed; the text behind the
/// last line feed is the last line, so a text that ends in a line feed
/// has an empty last line, and the empty text is one empty line.
pub open spec fn split_lines(text: Seq<char>) -> Seq<Seq<char>>
    decreases text.len(),
{
    if text.len() == 0 {
        seq![Seq::empty()]
    } else {
        let before = split_lines(text.drop_last());
        if text.last() == '\n' {
            before.push(Seq::empty())
        } else {
            before.drop_last().push(before.last().push(text.last()))
        }
    }
}

/// The lines laid end to end with a line feed between each two.
pub open spec fn join_lines(lines: Seq<Seq<char>>) -> Seq<char>
    decreases lines.len(),
{
    if lines.len() == 0 {
        Seq::empty()
    } else if lines.len() == 1 {
        lines[0]
    } else {
        join_lines(lines.drop_last()) + seq!['\n'] + lines.last()
    }
}

/// No line holds a line feed.
pub open spec fn single_lines(lines: Seq<Seq<char>>) -> bool {
    forall|i: int, k: int|
        0 <= i < lines.len() && 0 <= k < lines[i].len() ==> #[trigger] lines[i][k] != '\n'
}

/// A text has at least one line, no line of it holds a line feed, and
/// joining its lines gives the text back.
pub proof fn lemma_split_lines(text: Seq<char>)
    ensures
        split_lines(text).len() >= 1,
        single_lines(split_lines(text)),
        join_lines(split_lines(text)) == text,
    decreases text.len(),
{
    if text.len() > 0 {
        let shorter = text.drop_last();
        let before = split_lines(shorter);
        lemma_split_lines(shorter);
        let lines = split_lines(text);
        if text.last() == '\n' {
            assert(lines.drop_last() =~= before);
            assert(join_lines(lines) =~= shorter + seq!['\n']);
            assert(shorter + seq!['\n'] =~= text);
        } else {
            let grown = before.last().push(text.last());
            assert forall|i: int, k: int|
                0 <= i < lines.len() && 0 <= k < lines[i].len() implies #[trigger] lines[i][k]
                != '\n' by {
                if i < lines.len() - 1 {
                    assert(lines[i] == before[i]);
                    assert(before[i][k] != '\n');
                } else if k < before.last().len() {
                    assert(before[i][k] != '\n');
                }
            }
            if before.len() == 1 {
                assert(lines =~= seq![grown]);
                assert(join_lines(before) == before[0]);
                assert(grown =~= text);
            } else {
                assert(lines.drop_last() =~= before.drop_last());
                assert(join_lines(lines) =~= join_lines(before).push(text.last()));
                assert(shorter.push(text.last()) =~= text);
            }
        }
    } else {
        assert(join_lines(split_lines(text)) =~= text);
    }
}

/// Lines without line feeds are the lines of their joined text.
pub proof fn lemma_join_lines(lines: Seq<Seq<char>>)
    requires
        lines.len() >= 1,
        single_lines(lines),
    ensures
        split_lines(join_lines(lines)) == lines,
    decreases lines.len(), lines.last().len(),
{
    let text = join_lines(lines);
    let last = lines.last();
    if last.len() > 0 {
        let letter = last.last();
        let shorter = lines.drop_last().push(last.drop_last());
        assert forall|i: int, k: int|
            0 <= i < shorter.len() && 0 <= k < shorter[i].len() implies #[trigger] shorter[i][k]
            != '\n' by {
            assert(lines[i][k] != '\n');
        }
        lemma_join_lines(shorter);
        assert(lines[lines.len() - 1][last.len() - 1] != '\n');
        assert(shorter.drop_last() =~= lines.drop_last());
        assert(shorter.last() == last.drop_last());
        assert(last.drop_last().push(letter) =~= last);
        assert(text =~= join_lines(shorter).push(letter));
        assert(text.drop_last() =~= join_lines(shorter));
        assert(text.last() == letter);
        assert(split_lines(text) == shorter.drop_last().push(shorter.last().push(letter)));
        assert(split_lines(text) =~= lines);
    } else if lines.len() == 1 {
        assert(text.len() == 0);
        assert(last =~= Seq::<char>::empty());
        assert(split_lines(text) =~= lines);
    } else {
        let shorter = lines.drop_last();
        assert forall|i: int, k: int|
            0 <= i < shorter.len() && 0 <= k < shorter[i].len() implies #[trigger] shorter[i][k]
            != '\n' by {
            assert(lines[i][k] != '\n');
        }
        lemma_join_lines(shorter);
        assert(text =~= join_lines(shorter).push('\n'));
        assert(text.drop_last() =~= join_lines(shorter));
        assert(text.last() == '\n');
        assert(last =~= Seq::<char>::empty());
        assert(split_lines(text) == shorter.push(Seq::empty()));
        assert(split_lines(text) =~= lines);
    }
}

/// Spaces inserted into lines add no line feed.
pub proof fn lemma_aligned_single_lines(lines: Seq<Seq<char>>, token: Seq<char>)
    requires
        single_lines(lines),
    ensures
        single_lines(aligned(lines, token)),
{
    let fixed = aligned(lines, token);
    assert forall|i: int, k: int|
        0 <= i < fixed.len() && 0 <= k < fixed[i].len() implies #[trigger] fixed[i][k]
        != '\n' by {
        lemma_align_inserts_spaces(lines, token, i);
        let (at, count) = choose|at: int, count: nat|
            0 <= at <= lines[i].len() && fixed[i] == #[trigger] insert_spaces(
                lines[i],
                at,
                count,
            );
        if k < at {
            assert(fixed[i][k] == lines[i][k]);
        } else if k < at + count {
            assert(fixed[i][k] == ' ');
        } else {
            assert(fixed[i][k] == lines[i][k - count]);
        }
    }
}

/// The lines of the realigned text are the aligned lines of the text:
/// putting the aligned lines together and reading the result as lines
/// again loses nothing.
pub proof fn lemma_aligned_text(text: Seq<char>, token: Seq<char>)
    ensures
        split_lines(join_lines(aligned(split_lines(text), token))) == aligned(
            split_lines(text),
            token,
        ),
{
    lemma_split_lines(text);
    lemma_aligned_single_lines(split_lines(text), token);
    lemma_join_lines(aligned(split_lines(text), token));
}

/// Realigning a realigned text changes nothing.
pub proof fn lemma_realign_idempotent(text: Seq<char>, token: Seq<char>)
    ensures
        join_lines(
            aligned(split_lines(join_lines(aligned(split_lines(text), token))), token),
        ) == join_lines(aligned(split_lines(text), token)),
{
    lemma_aligned_text(text, token);
    lemma_align_idempotent(split_lines(text), token);
}

/// A text in which no line is eligible is realigned to itself.
pub proof fn lemma_realign_nothing(text: Seq<char>, token: Seq<char>)
    requires
        forall|i: int| !eligible(split_lines(text), token, i),
    ensures
        join_lines(aligned(split_lines(text), token)) == text,
{
    lemma_split_lines(text);
    assert(aligned(split_lines(text), token) =~= split_lines(text));
}

/// The lines of `text`.
pub fn split_text(text: &str) -> (lines: Vec<String>)
    ensures
        line_texts(lines@) == split_lines(text@),
{
    let mut lines: Vec<String> = Vec::new();
    let mut current = String::new();
    proof {
        assert(line_texts(lines@).push(current@) =~= split_lines(text@.take(0)));
    }
    for c in it: text.chars()
        invariant
            it.seq() == text@,
            line_texts(lines@).push(current@) == split_lines(text@.take(it.index() as int)),
    {
        let ghost read = text@.take(it.index() as int);
        let ghost earlier = line_texts(lines@);
        let ghost open = current@;
        proof {
            assert(text@.take(it.index() + 1).drop_last() =~= read);
        }
        if c == '\n' {
            lines.push(current);
            current = String::new();
            proof {
                assert(line_texts(lines@) =~= earlier.push(open));
            }
        } else {
            current.push(c);
            proof {
                assert(earlier.push(open).drop_last() =~= earlier);
            }
        }
    }
    proof {
        assert(text@.take(text@.len() as int) =~= text@);
        assert(line_texts(lines@.push(current)) =~= line_texts(lines@).push(current@));
    }
    lines.push(current);
    lines
}

/// The text that `lines` make up.
pub fn join_text(lines: &Vec<String>) -> (text: String)
    ensures
        text@ == join_lines(line_texts(lines@)),
{
    let mut text = String::new();
    let mut k: usize = 0;
    while k < lines.len()
        invariant
            k <= lines.len(),
            text@ == join_lines(line_texts(lines@).take(k as int)),
        decreases lines.len() - k,
    {
        let ghost joined = text@;
        if k > 0 {
            text.push('\n');
        }
        text.append(lines[k].as_str());
        proof {
            let longer = line_texts(lines@).take(k + 1);
            assert(longer.drop_last() =~= line_texts(lines@).take(k as int));
            assert(longer.last() == lines@[k as int]@);
            if k == 0 {
                assert(text@ =~= longer[0]);
            } else {
                assert(text@ =~= joined + seq!['\n'] + longer.last());
            }
        }
        k += 1;
    }
    proof {
        assert(line_texts(lines@).take(lines.len() as int) =~= line_texts(lines@));
    }
    text
}

/// Aligns the trailing comments of a text in place. The text is read
/// as lines, the lines are aligned, and the text is put together again;
/// apart from the spaces inserted in front of markers it keeps every
/// character, line feeds at its end included.
pub fn fix_comments(file: &mut String, token: String)
    ensures
        final(file)@ == join_lines(aligned(split_lines(old(file)@), token@)),
        split_lines(final(file)@) == aligned(split_lines(old(file)@), token@),
        split_lines(final(file)@).len() == split_lines(old(file)@).len(),
{
    proof {
        lemma_aligned_text(old(file)@, token@);
    }
    let lines = split_text(file.as_str());
    let fixed = align(lines, token.as_str());
    *file = join_text(&fixed);
}

/// The text of the file at `path` with its trailing comments aligned.
/// `file` is the text read from the path, or `None` where the path
/// names no readable file, which is refused first. The extension of the
/// path selects the marker token; a path whose extension selects none
/// is refused as well. Where a path is refused no text is produced.
pub fn realign(path: &String, file: Option<String>) -> (result: Result<String, AlignError>)
    ensures
        file is None ==> result == Err::<String, AlignError>(AlignError::FileNotFound(*path)),
        file is Some && style_of(extension_of(path@)) == Style::Unknown ==> result == Err::<
            String,
            AlignError,
        >(AlignError::UnsupportedStyle),
        file is Some && style_of(extension_of(path@)) != Style::Unknown ==> result is Ok
            && result->Ok_0@ == join_lines(
            aligned(split_lines(file->0@), token_text(style_of(extension_of(path@)))),
        ),
{
    let mut file = match file {
        Some(file) => file,
        None => {
            return Err(AlignError::FileNotFound(path.clone()));
        },
    };
    let extension = detect_file_type(path);
    match resolve(extension.as_str()) {
        Ok(token) => {
            fix_comments(&mut file, token);
            Ok(file)
        },
        Err(error) => Err(error),
    }
}

} // verus!
