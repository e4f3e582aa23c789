//! What alignment guarantees.
use crate::marker::{
    has_token, insert_spaces, lemma_marker_column, lemma_pad_to_column, marker_column,
};
use crate::runs::{
    aligned, aligned_line, all_marked, eligible, lemma_max_column, lemma_max_column_level,
    lemma_run_end_bounds, lemma_run_start_bounds, lemma_same_run, lemma_target_covers, marked,
    max_column, run_end, run_start, target_column,
};
use vstd::prelude::*;

verus! {

/// Alignment keeps the number of lines, keeps which lines hold the
/// token, and puts the marker of every eligible line at the line's
/// target column.
pub proof fn lemma_aligned_markers(lines: Seq<Seq<char>>, token: Seq<char>, i: int)
    requires
        0 <= i < lines.len(),
    ensures
        aligned(lines, token).len() == lines.len(),
        marked(aligned(lines, token), token, i) == marked(lines, token, i),
        eligible(lines, token, i) ==> marker_column(aligned(lines, token)[i], token)
            == target_column(lines, token, i),
        !eligible(lines, token, i) ==> aligned(lines, token)[i] == lines[i],
{
    if eligible(lines, token, i) {
        lemma_target_covers(lines, token, i);
        lemma_pad_to_column(lines[i], token, target_column(lines, token, i));
    }
}

/// Two texts of the same length in which the same lines hold the token
/// have the same runs.
pub proof fn lemma_runs_agree(
    lines: Seq<Seq<char>>,
    other: Seq<Seq<char>>,
    token: Seq<char>,
    i: int,
)
    requires
        lines.len() == other.len(),
        forall|j: int| #[trigger] marked(lines, token, j) == marked(other, token, j),
    ensures
        run_start(lines, token, i) == run_start(other, token, i),
        run_end(lines, token, i) == run_end(other, token, i),
{
    lemma_run_start_agrees(lines, other, token, i);
    lemma_run_end_agrees(lines, other, token, i);
}

/// Runs start at the same line in two texts in which the same lines hold
/// the token.
proof fn lemma_run_start_agrees(
    lines: Seq<Seq<char>>,
    other: Seq<Seq<char>>,
    token: Seq<char>,
    i: int,
)
    requires
        forall|j: int| #[trigger] marked(lines, token, j) == marked(other, token, j),
    ensures
        run_start(lines, token, i) == run_start(other, token, i),
    decreases i,
{
    assert(marked(lines, token, i - 1) == marked(other, token, i - 1));
    if i > 0 && marked(lines, token, i - 1) {
        lemma_run_start_agrees(lines, other, token, i - 1);
    }
}

/// Runs end at the same line in two texts of one length in which the
/// same lines hold the token.
proof fn lemma_run_end_agrees(
    lines: Seq<Seq<char>>,
    other: Seq<Seq<char>>,
    token: Seq<char>,
    i: int,
)
    requires
        lines.len() == other.len(),
        forall|j: int| #[trigger] marked(lines, token, j) == marked(other, token, j),
    ensures
        run_end(lines, token, i) == run_end(other, token, i),
    decreases lines.len() - i,
{
    assert(marked(lines, token, i + 1) == marked(other, token, i + 1));
    if i + 1 < lines.len() && marked(lines, token, i + 1) {
        lemma_run_end_agrees(lines, other, token, i + 1);
    }
}

/// Alignment keeps the sections: the same lines hold the token and are
/// eligible after it as before, and their runs are the same.
pub proof fn lemma_align_keeps_sections(lines: Seq<Seq<char>>, token: Seq<char>, i: int)
    ensures
        marked(aligned(lines, token), token, i) == marked(lines, token, i),
        eligible(aligned(lines, token), token, i) == eligible(lines, token, i),
        run_start(aligned(lines, token), token, i) == run_start(lines, token, i),
        run_end(aligned(lines, token), token, i) == run_end(lines, token, i),
{
    let once = aligned(lines, token);
    assert forall|j: int| #[trigger] marked(lines, token, j) == marked(once, token, j) by {
        if 0 <= j < lines.len() {
            lemma_aligned_markers(lines, token, j);
        }
    }
    assert(marked(lines, token, i - 1) == marked(once, token, i - 1));
    assert(marked(lines, token, i + 1) == marked(once, token, i + 1));
    lemma_runs_agree(lines, once, token, i);
}

/// In the aligned text, the markers of all lines of a section stand at
/// one column: the largest marker column that the section's lines had
/// before. Line `i` is any line of the section, line `j` any line of
/// the same section.
pub proof fn lemma_columns_converge(lines: Seq<Seq<char>>, token: Seq<char>, i: int, j: int)
    requires
        eligible(lines, token, i),
        run_start(lines, token, i) <= j <= run_end(lines, token, i),
    ensures
        eligible(aligned(lines, token), token, j),
        marker_column(aligned(lines, token)[j], token) == marker_column(
            aligned(lines, token)[i],
            token,
        ),
        marker_column(aligned(lines, token)[j], token) == target_column(lines, token, i),
        marker_column(lines[j], token) <= target_column(lines, token, i),
        exists|m: int|
            run_start(lines, token, i) <= m <= run_end(lines, token, i) && #[trigger] marker_column(
                lines[m],
                token,
            ) == target_column(lines, token, i),
{
    lemma_same_run(lines, token, i, j);
    lemma_aligned_markers(lines, token, i);
    lemma_aligned_markers(lines, token, j);
    lemma_align_keeps_sections(lines, token, j);
    lemma_target_covers(lines, token, j);
    let from = run_start(lines, token, i);
    let to = run_end(lines, token, i);
    lemma_run_start_bounds(lines, token, i);
    lemma_run_end_bounds(lines, token, i);
    assert(all_marked(lines, token, from, to)) by {
        assert forall|m: int| from <= m <= to implies #[trigger] marked(lines, token, m) by {
            lemma_same_run(lines, token, i, m);
        }
    }
    lemma_max_column(lines, token, from, to);
}

/// Aligning a text that is aligned changes nothing.
pub proof fn lemma_align_idempotent(lines: Seq<Seq<char>>, token: Seq<char>)
    ensures
        aligned(aligned(lines, token), token) == aligned(lines, token),
{
    let once = aligned(lines, token);
    assert forall|i: int| 0 <= i < once.len() implies #[trigger] aligned_line(once, token, i)
        == once[i] by {
        lemma_align_keeps_sections(lines, token, i);
        if eligible(once, token, i) {
            let from = run_start(lines, token, i);
            let to = run_end(lines, token, i);
            let target = target_column(lines, token, i);
            lemma_target_covers(lines, token, i);
            lemma_run_start_bounds(lines, token, i);
            lemma_run_end_bounds(lines, token, i);
            assert forall|j: int| from <= j <= to implies #[trigger] marker_column(
                once[j],
                token,
            ) == target by {
                lemma_columns_converge(lines, token, i, j);
            }
            lemma_max_column_level(once, token, from, to, target);
            assert(marker_column(once[i], token) == target);
        }
    }
    assert(aligned(once, token) =~= once);
}

/// The lines `from..to` are closed off from the rest of the text: a
/// line without the token, or an end of the text, stands on either
/// side of them.
pub open spec fn closed_off(lines: Seq<Seq<char>>, token: Seq<char>, from: int, to: int) -> bool {
    &&& 0 <= from <= to <= lines.len()
    &&& !marked(lines, token, from - 1)
    &&& !marked(lines, token, to)
}

/// Inside a closed-off stretch, runs start where they start in the
/// stretch taken alone.
proof fn lemma_stretch_run_start(
    lines: Seq<Seq<char>>,
    token: Seq<char>,
    from: int,
    to: int,
    i: int,
)
    requires
        closed_off(lines, token, from, to),
        0 <= i < to - from,
    ensures
        run_start(lines.subrange(from, to), token, i) + from == run_start(lines, token, from + i),
    decreases i,
{
    let part = lines.subrange(from, to);
    if i > 0 {
        assert(part[i - 1] == lines[from + i - 1]);
        if marked(part, token, i - 1) {
            lemma_stretch_run_start(lines, token, from, to, i - 1);
        }
    }
}

/// Inside a closed-off stretch, runs end where they end in the stretch
/// taken alone.
proof fn lemma_stretch_run_end(
    lines: Seq<Seq<char>>,
    token: Seq<char>,
    from: int,
    to: int,
    i: int,
)
    requires
        closed_off(lines, token, from, to),
        0 <= i < to - from,
    ensures
        run_end(lines.subrange(from, to), token, i) + from == run_end(lines, token, from + i),
    decreases to - from - i,
{
    let part = lines.subrange(from, to);
    if i + 1 < part.len() {
        assert(part[i + 1] == lines[from + i + 1]);
        if marked(part, token, i + 1) {
            lemma_stretch_run_end(lines, token, from, to, i + 1);
        }
    }
}

/// The largest marker column among lines of a stretch is the same in
/// the stretch taken alone.
proof fn lemma_stretch_max_column(
    lines: Seq<Seq<char>>,
    token: Seq<char>,
    from: int,
    to: int,
    first: int,
    last: int,
)
    requires
        0 <= from <= to <= lines.len(),
        0 <= first,
        last < to - from,
    ensures
        max_column(lines.subrange(from, to), token, first, last) == max_column(
            lines,
            token,
            from + first,
            from + last,
        ),
    decreases last - first + 1,
{
    if first <= last {
        lemma_stretch_max_column(lines, token, from, to, first, last - 1);
        assert(lines.subrange(from, to)[last] == lines[from + last]);
    }
}

/// Sections are aligned independently of each other: a stretch of
/// lines that is closed off from the rest of the text is aligned as if
/// it were a text of its own.
pub proof fn lemma_stretch_aligns_alone(
    lines: Seq<Seq<char>>,
    token: Seq<char>,
    from: int,
    to: int,
)
    requires
        closed_off(lines, token, from, to),
    ensures
        aligned(lines.subrange(from, to), token) == aligned(lines, token).subrange(from, to),
{
    let part = lines.subrange(from, to);
    assert forall|i: int| 0 <= i < part.len() implies #[trigger] aligned_line(part, token, i)
        == aligned_line(lines, token, from + i) by {
        assert(part[i] == lines[from + i]);
        if i > 0 {
            assert(part[i - 1] == lines[from + i - 1]);
        }
        if i + 1 < part.len() {
            assert(part[i + 1] == lines[from + i + 1]);
        }
        assert(eligible(part, token, i) == eligible(lines, token, from + i));
        if eligible(part, token, i) {
            lemma_stretch_run_start(lines, token, from, to, i);
            lemma_stretch_run_end(lines, token, from, to, i);
            lemma_run_start_bounds(part, token, i);
            lemma_run_end_bounds(part, token, i);
            lemma_stretch_max_column(
                lines,
                token,
                from,
                to,
                run_start(part, token, i),
                run_end(part, token, i),
            );
        }
    }
    assert(aligned(part, token) =~= aligned(lines, token).subrange(from, to));
}

/// A line without the token cuts the text in two parts that are aligned
/// independently of each other: the aligned text is the aligned part
/// before the line, the line itself, and the aligned part after it.
pub proof fn lemma_align_isolated(lines: Seq<Seq<char>>, token: Seq<char>, k: int)
    requires
        0 <= k < lines.len(),
        !has_token(lines[k], token),
    ensures
        aligned(lines, token) == aligned(lines.subrange(0, k), token) + seq![lines[k]] + aligned(
            lines.subrange(k + 1, lines.len() as int),
            token,
        ),
{
    lemma_stretch_aligns_alone(lines, token, 0, k);
    lemma_stretch_aligns_alone(lines, token, k + 1, lines.len() as int);
    assert(aligned(lines, token) =~= aligned(lines, token).subrange(0, k) + seq![lines[k]]
        + aligned(lines, token).subrange(k + 1, lines.len() as int));
}

/// `result` is `line` with nothing but spaces inserted at one place.
pub open spec fn only_spaces_inserted(line: Seq<char>, result: Seq<char>) -> bool {
    exists|at: int, count: nat|
        0 <= at <= line.len() && result == #[trigger] insert_spaces(line, at, count)
}

/// Alignment changes a line only by inserting spaces in front of its
/// marker.
pub proof fn lemma_align_inserts_spaces(lines: Seq<Seq<char>>, token: Seq<char>, i: int)
    requires
        0 <= i < lines.len(),
    ensures
        only_spaces_inserted(lines[i], aligned(lines, token)[i]),
        aligned(lines, token)[i] == lines[i] || (aligned(lines, token)[i] == insert_spaces(
            lines[i],
            marker_column(lines[i], token),
            (target_column(lines, token, i) - marker_column(lines[i], token)) as nat,
        ) && eligible(lines, token, i) && 0 <= marker_column(lines[i], token) < target_column(
            lines,
            token,
            i,
        )),
{
    let result = aligned(lines, token)[i];
    if result == lines[i] {
        assert(lines[i] =~= insert_spaces(lines[i], 0, 0));
    } else {
        lemma_marker_column(lines[i], token);
        let column = marker_column(lines[i], token);
        assert(result == insert_spaces(
            lines[i],
            column,
            (target_column(lines, token, i) - column) as nat,
        ));
    }
}

/// A line that holds the token while neither the line before it nor the
/// line after it does is not changed by alignment.
pub proof fn lemma_lone_comment_untouched(lines: Seq<Seq<char>>, token: Seq<char>, i: int)
    requires
        0 <= i < lines.len(),
        has_token(lines[i], token),
        !marked(lines, token, i - 1),
        !marked(lines, token, i + 1),
    ensures
        aligned(lines, token)[i] == lines[i],
{
}

} // verus!
