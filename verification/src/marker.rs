//! Finding the comment marker in a line and padding in front of it.
use crate::chars::{push_range, to_chars};
use vstd::prelude::*;

verus! {

/// `token` stands in `line` at position `at`.
pub open spec fn occurs_at(line: Seq<char>, token: Seq<char>, at: int) -> bool {
    &&& 0 <= at
    &&& at + token.len() <= line.len()
    &&& line.subrange(at, at + token.len()) == token
}

/// `line` holds `token` somewhere.
pub open spec fn has_token(line: Seq<char>, token: Seq<char>) -> bool {
    exists|at: int| occurs_at(line, token, at)
}

/// The rightmost position at or before `from` where `token` stands in
/// `line`, or -1 where there is none.
pub open spec fn last_occurrence(line: Seq<char>, token: Seq<char>, from: int) -> int
    decreases from + 1,
{
    if from < 0 {
        -1
    } else if occurs_at(line, token, from) {
        from
    } else {
        last_occurrence(line, token, from - 1)
    }
}

/// The column of a line's marker: the position of the rightmost
/// occurrence of `token`, or -1 where the line does not hold it.
pub open spec fn marker_column(line: Seq<char>, token: Seq<char>) -> int {
    last_occurrence(line, token, line.len() - token.len())
}

/// `count` spaces.
pub open spec fn spaces(count: nat) -> Seq<char> {
    Seq::new(count, |i: int| ' ')
}

/// `line` with `count` spaces inserted in front of position `at`.
pub open spec fn insert_spaces(line: Seq<char>, at: int, count: nat) -> Seq<char> {
    line.subrange(0, at) + spaces(count) + line.subrange(at, line.len() as int)
}

/// `line` with its marker moved right to column `target`. A line without
/// marker, or with its marker at or beyond `target`, stays as it is.
pub open spec fn pad_to(line: Seq<char>, token: Seq<char>, target: int) -> Seq<char> {
    let column = marker_column(line, token);
    if 0 <= column < target {
        insert_spaces(line, column, (target - column) as nat)
    } else {
        line
    }
}

/// What `last_occurrence` finds is an occurrence, and none lies between
/// it and `from`.
pub proof fn lemma_last_occurrence(line: Seq<char>, token: Seq<char>, from: int)
    ensures
        -1 <= last_occurrence(line, token, from),
        from >= -1 ==> last_occurrence(line, token, from) <= from,
        last_occurrence(line, token, from) >= 0 ==> occurs_at(
            line,
            token,
            last_occurrence(line, token, from),
        ),
        forall|at: int|
            last_occurrence(line, token, from) < at <= from ==> !occurs_at(line, token, at),
    decreases from + 1,
{
    if from >= 0 && !occurs_at(line, token, from) {
        lemma_last_occurrence(line, token, from - 1);
    }
}

/// The marker column is the rightmost occurrence of the token: the token
/// stands there and nowhere further right; it is -1 exactly where the
/// line does not hold the token.
pub proof fn lemma_marker_column(line: Seq<char>, token: Seq<char>)
    ensures
        has_token(line, token) <==> marker_column(line, token) >= 0,
        !has_token(line, token) ==> marker_column(line, token) == -1,
        has_token(line, token) ==> occurs_at(line, token, marker_column(line, token)),
        forall|at: int| at > marker_column(line, token) ==> !occurs_at(line, token, at),
        has_token(line, token) ==> marker_column(line, token) + token.len() <= line.len(),
{
    lemma_last_occurrence(line, token, line.len() - token.len());
    if has_token(line, token) {
        let at = choose|at: int| occurs_at(line, token, at);
        assert(occurs_at(line, token, at));
    }
}

/// A column is the marker column if the token stands there and nowhere
/// further right.
pub proof fn lemma_marker_column_is(line: Seq<char>, token: Seq<char>, column: int)
    requires
        occurs_at(line, token, column),
        forall|at: int| at > column ==> !occurs_at(line, token, at),
    ensures
        marker_column(line, token) == column,
{
    lemma_marker_column(line, token);
}

/// Spaces inserted in front of the marker move the marker right by their
/// number and leave it the rightmost occurrence of the token.
pub proof fn lemma_padded_column(line: Seq<char>, token: Seq<char>, count: nat)
    requires
        has_token(line, token),
    ensures
        marker_column(insert_spaces(line, marker_column(line, token), count), token)
            == marker_column(line, token) + count,
        has_token(insert_spaces(line, marker_column(line, token), count), token),
{
    let column = marker_column(line, token);
    let padded = insert_spaces(line, column, count);
    let width = token.len() as int;
    lemma_marker_column(line, token);
    assert(padded.len() == line.len() + count);
    assert forall|k: int| column + count <= k < padded.len() implies padded[k] == line[k
        - count] by {}
    assert(padded.subrange(column + count, column + count + width) =~= line.subrange(
        column,
        column + width,
    ));
    assert(occurs_at(padded, token, column + count));
    assert forall|at: int| at > column + count implies !occurs_at(padded, token, at) by {
        if occurs_at(padded, token, at) {
            assert(padded.subrange(at, at + width) =~= line.subrange(
                at - count,
                at - count + width,
            ));
            assert(occurs_at(line, token, at - count));
        }
    }
    lemma_marker_column_is(padded, token, column + count);
}

/// A line padded to a target at or beyond its marker has its marker at
/// the target.
pub proof fn lemma_pad_to_column(line: Seq<char>, token: Seq<char>, target: int)
    requires
        has_token(line, token),
        marker_column(line, token) <= target,
    ensures
        has_token(pad_to(line, token, target), token),
        marker_column(pad_to(line, token, target), token) == target,
{
    lemma_marker_column(line, token);
    if marker_column(line, token) < target {
        lemma_padded_column(line, token, (target - marker_column(line, token)) as nat);
    }
}

/// Whether `token` stands in `line` at position `at`.
fn matches_at(line: &Vec<char>, token: &Vec<char>, at: usize) -> (found: bool)
    requires
        at + token.len() <= line.len(),
    ensures
        found == occurs_at(line@, token@, at as int),
{
    let mut k: usize = 0;
    while k < token.len()
        invariant
            k <= token.len(),
            at + token.len() <= line.len(),
            forall|j: int| 0 <= j < k ==> line@[at + j] == token@[j],
        decreases token.len() - k,
    {
        if line[at + k] != token[k] {
            proof {
                let part = line@.subrange(at as int, at + token.len());
                assert(part[k as int] == line@[at + k]);
            }
            return false;
        }
        k += 1;
    }
    proof {
        assert(line@.subrange(at as int, at + token.len()) =~= token@);
    }
    true
}

/// The position of the rightmost occurrence of `token` in `line`, where
/// there is one.
pub fn find_marker(line: &Vec<char>, token: &Vec<char>) -> (found: Option<usize>)
    ensures
        found is Some <==> has_token(line@, token@),
        found is Some ==> found->0 as int == marker_column(line@, token@),
        found is None ==> marker_column(line@, token@) == -1,
{
    proof {
        lemma_marker_column(line@, token@);
    }
    if token.len() > line.len() {
        return None;
    }
    let mut from: usize = line.len() - token.len();
    loop
        invariant
            from + token.len() <= line.len(),
            marker_column(line@, token@) == last_occurrence(line@, token@, from as int),
        decreases from,
    {
        if matches_at(line, token, from) {
            proof {
                lemma_marker_column(line@, token@);
            }
            return Some(from);
        }
        if from == 0 {
            proof {
                assert(last_occurrence(line@, token@, -1) == -1);
                lemma_marker_column(line@, token@);
            }
            return None;
        }
        from -= 1;
    }
}

/// The marker column of a line of text, where the line holds the token.
pub fn marker_column_of(line: &str, token: &Vec<char>) -> (found: Option<usize>)
    ensures
        found is Some <==> has_token(line@, token@),
        found is Some ==> found->0 as int == marker_column(line@, token@),
        found is None ==> marker_column(line@, token@) == -1,
{
    let chars = to_chars(line);
    find_marker(&chars, token)
}

/// `line` with `count` spaces inserted in front of position `at`, which
/// lies inside the line or at its end.
pub fn with_spaces(line: &str, at: usize, count: usize) -> (padded: String)
    requires
        at <= line@.len(),
    ensures
        padded@ == insert_spaces(line@, at as int, count as nat),
{
    let chars = to_chars(line);
    let mut padded = String::new();
    push_range(&mut padded, &chars, 0, at);
    let mut k: usize = 0;
    while k < count
        invariant
            k <= count,
            padded@ == chars@.subrange(0, at as int) + spaces(k as nat),
        decreases count - k,
    {
        padded.push(' ');
        k += 1;
        assert(spaces(k as nat) =~= spaces((k - 1) as nat).push(' '));
    }
    push_range(&mut padded, &chars, at, chars.len());
    padded
}

} // verus!
