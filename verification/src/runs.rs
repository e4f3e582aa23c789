//! Runs of lines that hold the token, and the aligned text.
use crate::marker::{has_token, lemma_marker_column, marker_column, pad_to};
use vstd::prelude::*;

verus! {

/// Line `i` exists and holds the token.
pub open spec fn marked(lines: Seq<Seq<char>>, token: Seq<char>, i: int) -> bool {
    0 <= i < lines.len() && has_token(lines[i], token)
}

/// Line `i` holds the token and so does the line before or after it.
pub open spec fn eligible(lines: Seq<Seq<char>>, token: Seq<char>, i: int) -> bool {
    marked(lines, token, i) && (marked(lines, token, i - 1) || marked(lines, token, i + 1))
}

/// The first line of the unbroken run of marked lines that reaches `i`.
pub open spec fn run_start(lines: Seq<Seq<char>>, token: Seq<char>, i: int) -> int
    decreases i,
{
    if i > 0 && marked(lines, token, i - 1) {
        run_start(lines, token, i - 1)
    } else {
        i
    }
}

/// The last line of the unbroken run of marked lines that starts at `i`.
pub open spec fn run_end(lines: Seq<Seq<char>>, token: Seq<char>, i: int) -> int
    decreases lines.len() - i,
{
    if i + 1 < lines.len() && marked(lines, token, i + 1) {
        run_end(lines, token, i + 1)
    } else {
        i
    }
}

/// All of the lines `from..=to` hold the token.
pub open spec fn all_marked(lines: Seq<Seq<char>>, token: Seq<char>, from: int, to: int) -> bool {
    forall|j: int| from <= j <= to ==> #[trigger] marked(lines, token, j)
}

/// The largest marker column among the lines `from..=to`, and at least 0.
pub open spec fn max_column(lines: Seq<Seq<char>>, token: Seq<char>, from: int, to: int) -> int
    decreases to - from + 1,
{
    if to < from {
        0
    } else {
        let rest = max_column(lines, token, from, to - 1);
        let column = marker_column(lines[to], token);
        if column > rest {
            column
        } else {
            rest
        }
    }
}

/// The column that line `i` is aligned to: the largest marker column of
/// the run of marked lines around it.
pub open spec fn target_column(lines: Seq<Seq<char>>, token: Seq<char>, i: int) -> int {
    max_column(lines, token, run_start(lines, token, i), run_end(lines, token, i))
}

/// Line `i` after alignment: an eligible line has its marker moved to
/// the target column of its run, any other line is unchanged.
pub open spec fn aligned_line(lines: Seq<Seq<char>>, token: Seq<char>, i: int) -> Seq<char> {
    if eligible(lines, token, i) {
        pad_to(lines[i], token, target_column(lines, token, i))
    } else {
        lines[i]
    }
}

/// The lines after alignment.
pub open spec fn aligned(lines: Seq<Seq<char>>, token: Seq<char>) -> Seq<Seq<char>> {
    Seq::new(lines.len(), |i: int| aligned_line(lines, token, i))
}

/// The run of a marked line starts at or before the line, holds marked
/// lines only, and no marked line precedes it.
pub proof fn lemma_run_start_bounds(lines: Seq<Seq<char>>, token: Seq<char>, i: int)
    requires
        marked(lines, token, i),
    ensures
        0 <= run_start(lines, token, i) <= i,
        all_marked(lines, token, run_start(lines, token, i), i),
        !marked(lines, token, run_start(lines, token, i) - 1),
        marked(lines, token, i - 1) ==> run_start(lines, token, i) < i,
    decreases i,
{
    if i > 0 && marked(lines, token, i - 1) {
        lemma_run_start_bounds(lines, token, i - 1);
    }
}

/// The run of a marked line ends at or behind the line, holds marked
/// lines only, and no marked line follows it.
pub proof fn lemma_run_end_bounds(lines: Seq<Seq<char>>, token: Seq<char>, i: int)
    requires
        marked(lines, token, i),
    ensures
        i <= run_end(lines, token, i) < lines.len(),
        all_marked(lines, token, i, run_end(lines, token, i)),
        !marked(lines, token, run_end(lines, token, i) + 1),
        marked(lines, token, i + 1) ==> i < run_end(lines, token, i),
    decreases lines.len() - i,
{
    if i + 1 < lines.len() && marked(lines, token, i + 1) {
        lemma_run_end_bounds(lines, token, i + 1);
    }
}

/// Inside a stretch of marked lines that no marked line precedes, the
/// run of every line starts where the stretch starts.
pub proof fn lemma_run_start(lines: Seq<Seq<char>>, token: Seq<char>, from: int, i: int)
    requires
        0 <= from <= i,
        all_marked(lines, token, from, i),
        !marked(lines, token, from - 1),
    ensures
        run_start(lines, token, i) == from,
    decreases i - from,
{
    if i > from {
        assert(marked(lines, token, i - 1));
        lemma_run_start(lines, token, from, i - 1);
    }
}

/// Inside a stretch of marked lines that no marked line follows, the
/// run of every line ends where the stretch ends.
pub proof fn lemma_run_end(lines: Seq<Seq<char>>, token: Seq<char>, i: int, to: int)
    requires
        i <= to < lines.len(),
        all_marked(lines, token, i, to),
        !marked(lines, token, to + 1),
    ensures
        run_end(lines, token, i) == to,
    decreases to - i,
{
    if i < to {
        assert(marked(lines, token, i + 1));
        lemma_run_end(lines, token, i + 1, to);
    }
}

/// All lines of a run have the same run, and where one of them is
/// eligible, all are.
pub proof fn lemma_same_run(lines: Seq<Seq<char>>, token: Seq<char>, i: int, j: int)
    requires
        marked(lines, token, i),
        run_start(lines, token, i) <= j <= run_end(lines, token, i),
    ensures
        marked(lines, token, j),
        run_start(lines, token, j) == run_start(lines, token, i),
        run_end(lines, token, j) == run_end(lines, token, i),
        target_column(lines, token, j) == target_column(lines, token, i),
        eligible(lines, token, j) == eligible(lines, token, i),
{
    let from = run_start(lines, token, i);
    let to = run_end(lines, token, i);
    lemma_run_start_bounds(lines, token, i);
    lemma_run_end_bounds(lines, token, i);
    assert forall|m: int| from <= m <= to implies #[trigger] marked(lines, token, m) by {
        if m <= i {
            assert(all_marked(lines, token, from, i));
        } else {
            assert(all_marked(lines, token, i, to));
        }
    }
    assert(all_marked(lines, token, from, j));
    assert(all_marked(lines, token, j, to));
    lemma_run_start(lines, token, from, j);
    lemma_run_end(lines, token, j, to);
    assert(eligible(lines, token, i) <==> from < to) by {
        if from < to {
            if i > from {
                assert(marked(lines, token, i - 1));
            } else {
                assert(marked(lines, token, i + 1));
            }
        }
    }
    assert(eligible(lines, token, j) <==> from < to) by {
        lemma_run_start_bounds(lines, token, j);
        lemma_run_end_bounds(lines, token, j);
        if from < to {
            if j > from {
                assert(marked(lines, token, j - 1));
            } else {
                assert(marked(lines, token, j + 1));
            }
        }
    }
}

/// The largest marker column of a stretch is at least 0, no marker of
/// the stretch lies right of it, and where all lines of the stretch hold
/// the token, the marker of one of them lies at it.
pub proof fn lemma_max_column(lines: Seq<Seq<char>>, token: Seq<char>, from: int, to: int)
    ensures
        0 <= max_column(lines, token, from, to),
        forall|j: int|
            from <= j <= to ==> #[trigger] marker_column(lines[j], token) <= max_column(
                lines,
                token,
                from,
                to,
            ),
        0 <= from <= to && all_marked(lines, token, from, to) ==> exists|j: int|
            from <= j <= to && #[trigger] marker_column(lines[j], token) == max_column(
                lines,
                token,
                from,
                to,
            ),
    decreases to - from + 1,
{
    if from <= to {
        lemma_max_column(lines, token, from, to - 1);
        if 0 <= from && all_marked(lines, token, from, to) {
            assert(marked(lines, token, to));
            lemma_marker_column(lines[to], token);
            if from < to && marker_column(lines[to], token) <= max_column(
                lines,
                token,
                from,
                to - 1,
            ) {
                assert(all_marked(lines, token, from, to - 1)) by {
                    assert forall|j: int| from <= j <= to - 1 implies #[trigger] marked(
                        lines,
                        token,
                        j,
                    ) by {}
                }
                let j = choose|j: int|
                    from <= j <= to - 1 && #[trigger] marker_column(lines[j], token)
                        == max_column(lines, token, from, to - 1);
                assert(marker_column(lines[j], token) == max_column(lines, token, from, to));
            } else {
                assert(marker_column(lines[to], token) == max_column(lines, token, from, to));
            }
        }
    }
}

/// Where every marker of a stretch lies at the same column, that column
/// is the stretch's largest.
pub proof fn lemma_max_column_level(
    lines: Seq<Seq<char>>,
    token: Seq<char>,
    from: int,
    to: int,
    column: int,
)
    requires
        from <= to,
        0 <= column,
        forall|j: int| from <= j <= to ==> #[trigger] marker_column(lines[j], token) == column,
    ensures
        max_column(lines, token, from, to) == column,
    decreases to - from,
{
    if from < to {
        lemma_max_column_level(lines, token, from, to - 1, column);
    } else {
        assert(max_column(lines, token, from, to - 1) == 0);
    }
    assert(marker_column(lines[to], token) == column);
}

/// The target column of a marked line is at or right of its marker.
pub proof fn lemma_target_covers(lines: Seq<Seq<char>>, token: Seq<char>, i: int)
    requires
        marked(lines, token, i),
    ensures
        0 <= marker_column(lines[i], token) <= target_column(lines, token, i),
{
    lemma_run_start_bounds(lines, token, i);
    lemma_run_end_bounds(lines, token, i);
    lemma_max_column(lines, token, run_start(lines, token, i), run_end(lines, token, i));
    lemma_marker_column(lines[i], token);
}

} // verus!
