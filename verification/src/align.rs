//! Aligning the comment markers of a sequence of lines.
use crate::chars::to_chars;
use crate::laws::{lemma_align_inserts_spaces, only_spaces_inserted};
use crate::marker::{
    lemma_marker_column, lemma_pad_to_column, marker_column, marker_column_of, pad_to,
    with_spaces,
};
use crate::runs::{
    aligned, aligned_line, all_marked, eligible, lemma_run_end, lemma_run_start, marked,
    max_column,
};
use crate::sections::{
    apart_at, group_into_sections, is_grouping, is_section, lemma_total_len_monotonic, lists,
    section_views, total_len, Utils,
};
use vstd::prelude::*;

verus! {

/// The lines of `lines` as character sequences.
pub open spec fn line_texts(lines: Seq<String>) -> Seq<Seq<char>> {
    Seq::new(lines.len(), |i: int| lines[i]@)
}

/// Every line that `section` lists exists and holds the token.
pub open spec fn section_marked(
    lines: Seq<Seq<char>>,
    token: Seq<char>,
    section: Seq<usize>,
) -> bool {
    forall|k: int| 0 <= k < section.len() ==> marked(lines, token, #[trigger] section[k] as int)
}

/// The largest marker column among the lines that `section` lists, and
/// at least 0.
pub open spec fn section_max(lines: Seq<Seq<char>>, token: Seq<char>, section: Seq<usize>) -> int
    decreases section.len(),
{
    if section.len() == 0 {
        0
    } else {
        let rest = section_max(lines, token, section.drop_last());
        let column = marker_column(lines[section.last() as int], token);
        if column > rest {
            column
        } else {
            rest
        }
    }
}

/// The lines with the marker of every line that `listed` names moved
/// right to column `target`.
pub open spec fn padded_lines(
    lines: Seq<Seq<char>>,
    token: Seq<char>,
    listed: Seq<usize>,
    target: int,
) -> Seq<Seq<char>> {
    Seq::new(
        lines.len(),
        |i: int|
            if lists(listed, i) {
                pad_to(lines[i], token, target)
            } else {
                lines[i]
            },
    )
}

/// The lines after one section is aligned: every line that the section
/// lists has its marker at the section's largest marker column.
pub open spec fn section_fixed(
    lines: Seq<Seq<char>>,
    token: Seq<char>,
    section: Seq<usize>,
) -> Seq<Seq<char>> {
    padded_lines(lines, token, section, section_max(lines, token, section))
}

/// The section's largest marker column bounds the marker column of
/// every line that the section lists.
pub proof fn lemma_section_max_bounds(
    lines: Seq<Seq<char>>,
    token: Seq<char>,
    section: Seq<usize>,
)
    ensures
        0 <= section_max(lines, token, section),
        forall|k: int|
            0 <= k < section.len() ==> marker_column(lines[#[trigger] section[k] as int], token)
                <= section_max(lines, token, section),
    decreases section.len(),
{
    if section.len() > 0 {
        let shorter = section.drop_last();
        lemma_section_max_bounds(lines, token, shorter);
        assert forall|k: int| 0 <= k < section.len() implies marker_column(
            lines[#[trigger] section[k] as int],
            token,
        ) <= section_max(lines, token, section) by {
            if k < shorter.len() {
                assert(shorter[k] == section[k]);
            }
        }
    }
}

/// The section's largest marker column depends only on the lines that
/// the section lists.
pub proof fn lemma_section_max_agrees(
    lines: Seq<Seq<char>>,
    other: Seq<Seq<char>>,
    token: Seq<char>,
    section: Seq<usize>,
)
    requires
        forall|k: int|
            0 <= k < section.len() ==> lines[#[trigger] section[k] as int]
                == other[section[k] as int],
    ensures
        section_max(lines, token, section) == section_max(other, token, section),
    decreases section.len(),
{
    if section.len() > 0 {
        let shorter = section.drop_last();
        assert forall|k: int| 0 <= k < shorter.len() implies lines[#[trigger] shorter[k] as int]
            == other[shorter[k] as int] by {
            assert(shorter[k] == section[k]);
        }
        lemma_section_max_agrees(lines, other, token, shorter);
        assert(section.last() == section[section.len() - 1]);
    }
}

/// After a section is aligned, the marker of every line that it lists
/// stands at the section's largest marker column.
pub proof fn lemma_section_fixed_columns(
    lines: Seq<Seq<char>>,
    token: Seq<char>,
    section: Seq<usize>,
    k: int,
)
    requires
        section_marked(lines, token, section),
        0 <= k < section.len(),
    ensures
        marker_column(section_fixed(lines, token, section)[section[k] as int], token)
            == section_max(lines, token, section),
{
    assert(marked(lines, token, section[k] as int));
    assert(lists(section, section[k] as int));
    lemma_section_max_bounds(lines, token, section);
    lemma_pad_to_column(lines[section[k] as int], token, section_max(lines, token, section));
}

/// Aligns one section: moves the marker of every line that `section`
/// lists to the largest marker column among those lines, by inserting
/// spaces in front of the marker. Every listed line must exist and hold
/// the token. Lines that the section does not list stay as they are.
pub fn fix_section(section: Vec<usize>, lines: &mut Vec<String>, token: &String)
    requires
        section_marked(line_texts(old(lines)@), token@, section@),
    ensures
        line_texts(final(lines)@) == section_fixed(line_texts(old(lines)@), token@, section@),
        final(lines).len() == old(lines).len(),
        forall|k: int|
            0 <= k < section.len() ==> marker_column(
                final(lines)[#[trigger] section[k] as int]@,
                token@,
            ) == section_max(line_texts(old(lines)@), token@, section@),
{
    let marker = to_chars(token.as_str());
    let ghost before = line_texts(lines@);
    let mut furthest: usize = 0;
    let mut k: usize = 0;
    while k < section.len()
        invariant
            k <= section.len(),
            marker@ == token@,
            before == line_texts(lines@),
            section_marked(before, token@, section@),
            furthest == section_max(before, token@, section@.take(k as int)),
        decreases section.len() - k,
    {
        let num = section[k];
        assert(marked(before, token@, section@[k as int] as int));
        let idx = marker_column_of(lines[num].as_str(), &marker).unwrap();
        proof {
            assert(section@.take(k + 1).drop_last() =~= section@.take(k as int));
        }
        if idx > furthest {
            furthest = idx;
        }
        k += 1;
    }
    proof {
        assert(section@.take(section.len() as int) =~= section@);
        lemma_section_max_bounds(before, token@, section@);
    }
    k = 0;
    while k < section.len()
        invariant
            k <= section.len(),
            marker@ == token@,
            lines.len() == before.len(),
            section_marked(before, token@, section@),
            furthest == section_max(before, token@, section@),
            forall|m: int|
                0 <= m < section.len() ==> marker_column(
                    before[#[trigger] section@[m] as int],
                    token@,
                ) <= furthest,
            line_texts(lines@) == padded_lines(
                before,
                token@,
                section@.take(k as int),
                furthest as int,
            ),
        decreases section.len() - k,
    {
        let i = section[k];
        let ghost current = line_texts(lines@);
        let ghost listed = section@.take(k as int);
        proof {
            assert(marked(before, token@, section@[k as int] as int));
            if lists(listed, i as int) {
                lemma_pad_to_column(before[i as int], token@, furthest as int);
            }
            assert(current[i as int] == lines@[i as int]@);
            lemma_marker_column(current[i as int], token@);
        }
        let idx = marker_column_of(lines[i].as_str(), &marker).unwrap();
        if furthest > idx {
            let padded = with_spaces(lines[i].as_str(), idx, furthest - idx);
            lines.set(i, padded);
        }
        proof {
            let longer = section@.take(k + 1);
            assert(longer.drop_last() =~= listed);
            assert(longer.last() == i);
            assert forall|j: int| 0 <= j < before.len() implies #[trigger] line_texts(lines@)[j]
                == padded_lines(before, token@, longer, furthest as int)[j] by {
                assert(current[j] == padded_lines(before, token@, listed, furthest as int)[j]);
                assert(lists(longer, j) <==> lists(listed, j) || j == i) by {
                    if lists(listed, j) {
                        let w = choose|w: int| 0 <= w < listed.len() && listed[w] == j;
                        assert(longer[w] == j);
                    }
                    if j == i {
                        assert(longer[k as int] == i);
                    }
                    if lists(longer, j) {
                        let w = choose|w: int| 0 <= w < longer.len() && longer[w] == j;
                        if w < k {
                            assert(listed[w] == j);
                        }
                    }
                }
            }
            assert(line_texts(lines@) =~= padded_lines(before, token@, longer, furthest as int));
        }
        k += 1;
    }
    proof {
        assert(section@.take(section.len() as int) =~= section@);
        assert(line_texts(lines@).len() == before.len());
        assert forall|k: int| 0 <= k < section.len() implies marker_column(
            lines[#[trigger] section[k] as int]@,
            token@,
        ) == section_max(before, token@, section@) by {
            lemma_section_fixed_columns(before, token@, section@, k);
            assert(marked(before, token@, section@[k] as int));
            assert(line_texts(lines@)[section[k] as int] == lines[section[k] as int]@);
        }
    }
}

/// `list` holds the eligible lines, each once, in ascending order.
pub open spec fn is_eligible_list(
    list: Seq<usize>,
    lines: Seq<Seq<char>>,
    token: Seq<char>,
) -> bool {
    &&& forall|p: int, q: int| 0 <= p < q < list.len() ==> list[p] < list[q]
    &&& forall|p: int| 0 <= p < list.len() ==> eligible(lines, token, #[trigger] list[p] as int)
    &&& forall|i: int| #[trigger] eligible(lines, token, i) ==> lists(list, i)
}

/// Line `j` holds the token and forms a pair of marked neighbours with
/// the line before or after it, the pair starting before line `limit`.
pub open spec fn paired_below(
    lines: Seq<Seq<char>>,
    token: Seq<char>,
    j: int,
    limit: int,
) -> bool {
    marked(lines, token, j) && ((marked(lines, token, j - 1) && j - 1 < limit) || (marked(
        lines,
        token,
        j + 1,
    ) && j < limit))
}

/// The numbers of the eligible lines, in ascending order. Each pair of
/// neighbouring lines that both hold the token contributes its two
/// numbers; a number that the pair before has contributed already is not
/// listed again.
pub fn comment_line_numbers(lines: &Vec<String>, token: &str) -> (list: Vec<usize>)
    ensures
        is_eligible_list(list@, line_texts(lines@), token@),
{
    let marker = to_chars(token);
    let ghost texts = line_texts(lines@);
    let n = lines.len();
    let mut marks: Vec<bool> = Vec::new();
    let mut i: usize = 0;
    while i < n
        invariant
            i <= n,
            n == lines.len(),
            marker@ == token@,
            texts == line_texts(lines@),
            marks.len() == i,
            forall|j: int| 0 <= j < i ==> marks@[j] == marked(texts, token@, j),
        decreases n - i,
    {
        let found = marker_column_of(lines[i].as_str(), &marker);
        marks.push(found.is_some());
        i += 1;
    }
    let mut list: Vec<usize> = Vec::new();
    i = 0;
    while n > 0 && i < n - 1
        invariant
            i <= n,
            n == lines.len(),
            n == texts.len(),
            marks.len() == n,
            forall|j: int| 0 <= j < n ==> marks@[j] == marked(texts, token@, j),
            forall|p: int, q: int| 0 <= p < q < list.len() ==> list@[p] < list@[q],
            forall|p: int| 0 <= p < list.len() ==> #[trigger] list@[p] <= i,
            forall|p: int|
                0 <= p < list.len() ==> eligible(texts, token@, #[trigger] list@[p] as int),
            forall|j: int| #[trigger]
                paired_below(texts, token@, j, i as int) ==> lists(list@, j),
        decreases n - i,
    {
        let ghost earlier = list@;
        if marks[i] && marks.at(i + 1).unwrap() {
            if list.len() == 0 || list[list.len() - 1] != i {
                list.push(i);
            }
            list.push(i + 1);
        }
        proof {
            assert forall|p: int| 0 <= p < earlier.len() implies list@[p] == earlier[p] by {}
            assert forall|j: int| #[trigger]
                paired_below(texts, token@, j, i + 1) implies lists(list@, j) by {
                if paired_below(texts, token@, j, i as int) {
                    let w = choose|w: int| 0 <= w < earlier.len() && earlier[w] == j;
                    assert(list@[w] == j);
                } else if j == i {
                    assert(list@[list.len() - 2] == i);
                } else {
                    assert(j == i + 1);
                    assert(list@[list.len() - 1] == i + 1);
                }
            }
        }
        i += 1;
    }
    proof {
        assert forall|j: int| #[trigger] eligible(texts, token@, j) implies lists(list@, j) by {
            assert(paired_below(texts, token@, j, i as int));
        }
    }
    list
}

/// Entry `j` of section `k` is the entry of `list` that lies `j` places
/// behind the entries of the sections before.
pub proof fn lemma_section_entry(sections: Seq<Seq<usize>>, list: Seq<usize>, k: int, j: int)
    requires
        is_grouping(sections, list),
        0 <= k < sections.len(),
        0 <= j < sections[k].len(),
    ensures
        0 <= total_len(sections, k),
        total_len(sections, k) + sections[k].len() == total_len(sections, k + 1),
        total_len(sections, k + 1) <= list.len(),
        sections[k][j] == list[total_len(sections, k) + j],
{
    assert(is_section(sections, list, k));
    lemma_total_len_monotonic(sections, 0, k);
    lemma_total_len_monotonic(sections, k + 1, sections.len() as int);
}

/// The first line of section `k`; behind the last section, the number
/// of lines.
pub open spec fn section_start(sections: Seq<Seq<usize>>, k: int, line_count: int) -> int {
    if 0 <= k < sections.len() {
        sections[k].first() as int
    } else {
        line_count
    }
}

/// The last line of section `k`; before the first section, -1.
pub open spec fn section_end(sections: Seq<Seq<usize>>, k: int) -> int {
    if 0 <= k < sections.len() {
        sections[k].last() as int
    } else {
        -1
    }
}

/// No eligible line lies between one section and the next, before the
/// first section or behind the last.
pub proof fn lemma_no_eligible_between(
    lines: Seq<Seq<char>>,
    token: Seq<char>,
    list: Seq<usize>,
    sections: Seq<Seq<usize>>,
    k: int,
    i: int,
)
    requires
        is_eligible_list(list, lines, token),
        is_grouping(sections, list),
        0 <= k <= sections.len(),
        section_end(sections, k - 1) < i < section_start(sections, k, lines.len() as int),
    ensures
        !eligible(lines, token, i),
{
    if eligible(lines, token, i) {
        assert(lists(list, i));
        let q = choose|q: int| 0 <= q < list.len() && list[q] == i;
        lemma_total_len_monotonic(sections, 0, k);
        lemma_total_len_monotonic(sections, k, sections.len() as int);
        let cut = total_len(sections, k);
        if k > 0 {
            assert(is_section(sections, list, k - 1));
            lemma_section_entry(sections, list, k - 1, sections[k - 1].len() - 1);
            assert(list[cut - 1] == sections[k - 1].last());
            if q < cut - 1 {
                assert(list[q] < list[cut - 1]);
            }
            assert(q >= cut);
        }
        if k < sections.len() {
            assert(is_section(sections, list, k));
            lemma_section_entry(sections, list, k, 0);
            assert(list[cut] == sections[k].first());
            if q > cut {
                assert(list[cut] < list[q]);
            }
        }
    }
}

/// A section lists neighbouring lines in ascending order.
pub proof fn lemma_section_consecutive(
    lines: Seq<Seq<char>>,
    token: Seq<char>,
    list: Seq<usize>,
    sections: Seq<Seq<usize>>,
    k: int,
    j: int,
)
    requires
        is_eligible_list(list, lines, token),
        is_grouping(sections, list),
        0 <= k < sections.len(),
        0 <= j < sections[k].len(),
    ensures
        sections[k][j] == sections[k].first() + j,
        eligible(lines, token, sections[k][j] as int),
    decreases j,
{
    lemma_section_entry(sections, list, k, j);
    if j > 0 {
        lemma_section_consecutive(lines, token, list, sections, k, j - 1);
        lemma_section_entry(sections, list, k, j - 1);
        assert(is_section(sections, list, k));
        assert(!apart_at(sections[k], j - 1));
        let at = total_len(sections, k) + j;
        assert(list[at - 1] < list[at]);
    }
}

/// A section is a whole run of marked lines: its lines follow each
/// other, all of them hold the token, and neither the line before the
/// section nor the line after it does.
pub proof fn lemma_section_is_run(
    lines: Seq<Seq<char>>,
    token: Seq<char>,
    list: Seq<usize>,
    sections: Seq<Seq<usize>>,
    k: int,
)
    requires
        is_eligible_list(list, lines, token),
        is_grouping(sections, list),
        0 <= k < sections.len(),
    ensures
        sections[k].len() > 0,
        section_end(sections, k) == section_start(sections, k, lines.len() as int)
            + sections[k].len() - 1,
        k > 0 ==> section_end(sections, k - 1) + 1 < section_start(
            sections,
            k,
            lines.len() as int,
        ),
        section_end(sections, k) < section_start(sections, k + 1, lines.len() as int),
        forall|j: int|
            0 <= j < sections[k].len() ==> #[trigger] sections[k][j] == sections[k].first() + j,
        forall|i: int|
            section_start(sections, k, lines.len() as int) <= i <= section_end(sections, k)
                ==> #[trigger] eligible(lines, token, i),
        !marked(lines, token, section_start(sections, k, lines.len() as int) - 1),
        !marked(lines, token, section_end(sections, k) + 1),
{
    let section = sections[k];
    assert(is_section(sections, list, k));
    let first = section.first() as int;
    let last = section.last() as int;
    assert forall|j: int| 0 <= j < section.len() implies #[trigger] section[j] == first + j
        && eligible(lines, token, section[j] as int) by {
        lemma_section_consecutive(lines, token, list, sections, k, j);
    }
    assert(section[section.len() - 1] == first + section.len() - 1);
    assert forall|i: int| first <= i <= last implies #[trigger] eligible(lines, token, i) by {
        assert(section[i - first] == i);
    }
    assert(eligible(lines, token, first));
    assert(eligible(lines, token, last));
    if k > 0 {
        assert(is_section(sections, list, k - 1));
    }
    if marked(lines, token, first - 1) {
        assert(eligible(lines, token, first - 1));
        lemma_no_eligible_between(lines, token, list, sections, k, first - 1);
    }
    if marked(lines, token, last + 1) {
        assert(eligible(lines, token, last + 1));
        lemma_no_eligible_between(lines, token, list, sections, k + 1, last + 1);
    }
}

/// For a section that lists the lines from `first` on, one after the
/// other, the section's largest marker column is that of the stretch.
pub proof fn lemma_section_max_of_stretch(
    lines: Seq<Seq<char>>,
    token: Seq<char>,
    section: Seq<usize>,
    first: int,
)
    requires
        forall|j: int| 0 <= j < section.len() ==> #[trigger] section[j] == first + j,
    ensures
        section_max(lines, token, section) == max_column(
            lines,
            token,
            first,
            first + section.len() - 1,
        ),
    decreases section.len(),
{
    if section.len() > 0 {
        let shorter = section.drop_last();
        assert forall|j: int| 0 <= j < shorter.len() implies #[trigger] shorter[j] == first
            + j by {
            assert(shorter[j] == section[j]);
        }
        lemma_section_max_of_stretch(lines, token, shorter, first);
        assert(section.last() == section[section.len() - 1]);
    }
}

/// The lines in which the sections before section `k` are aligned and
/// the lines from section `k` on are as they were.
pub open spec fn aligned_before(
    lines: Seq<Seq<char>>,
    token: Seq<char>,
    sections: Seq<Seq<usize>>,
    k: int,
) -> Seq<Seq<char>> {
    Seq::new(
        lines.len(),
        |i: int|
            if i < section_start(sections, k, lines.len() as int) {
                aligned_line(lines, token, i)
            } else {
                lines[i]
            },
    )
}

/// Aligning section `k` in lines whose earlier sections are aligned
/// yields the lines in which the sections up to `k` are aligned.
pub proof fn lemma_align_step(
    lines: Seq<Seq<char>>,
    token: Seq<char>,
    list: Seq<usize>,
    sections: Seq<Seq<usize>>,
    k: int,
)
    requires
        is_eligible_list(list, lines, token),
        is_grouping(sections, list),
        0 <= k < sections.len(),
    ensures
        section_marked(aligned_before(lines, token, sections, k), token, sections[k]),
        section_fixed(aligned_before(lines, token, sections, k), token, sections[k])
            == aligned_before(lines, token, sections, k + 1),
{
    let count = lines.len() as int;
    let current = aligned_before(lines, token, sections, k);
    let section = sections[k];
    let first = section_start(sections, k, count);
    let last = section_end(sections, k);
    let next = section_start(sections, k + 1, count);
    lemma_section_is_run(lines, token, list, sections, k);
    assert forall|j: int| 0 <= j < section.len() implies marked(
        current,
        token,
        #[trigger] section[j] as int,
    ) && current[section[j] as int] == lines[section[j] as int] by {
        assert(eligible(lines, token, first + j));
    }
    lemma_section_max_agrees(current, lines, token, section);
    lemma_section_max_of_stretch(lines, token, section, first);
    let target = section_max(current, token, section);
    assert(all_marked(lines, token, first, last)) by {
        assert forall|j: int| first <= j <= last implies #[trigger] marked(lines, token, j) by {
            assert(eligible(lines, token, j));
        }
    }
    assert forall|i: int| 0 <= i < count implies #[trigger] section_fixed(
        current,
        token,
        section,
    )[i] == aligned_before(lines, token, sections, k + 1)[i] by {
        if first <= i <= last {
            assert(section[i - first] == i);
            assert(lists(section, i));
            assert(eligible(lines, token, i));
            assert(all_marked(lines, token, first, i));
            assert(all_marked(lines, token, i, last));
            lemma_run_start(lines, token, first, i);
            lemma_run_end(lines, token, i, last);
        } else {
            if lists(section, i) {
                let w = choose|w: int| 0 <= w < section.len() && section[w] == i;
                assert(section[w] == first + w);
            }
            if last < i < next {
                lemma_no_eligible_between(lines, token, list, sections, k + 1, i);
            }
        }
    }
    assert(section_fixed(current, token, section) =~= aligned_before(
        lines,
        token,
        sections,
        k + 1,
    ));
}

/// Before the first section no line is eligible, so nothing is aligned
/// yet; behind the last section every line is aligned.
pub proof fn lemma_align_ends(
    lines: Seq<Seq<char>>,
    token: Seq<char>,
    list: Seq<usize>,
    sections: Seq<Seq<usize>>,
)
    requires
        is_eligible_list(list, lines, token),
        is_grouping(sections, list),
    ensures
        aligned_before(lines, token, sections, 0) == lines,
        aligned_before(lines, token, sections, sections.len() as int) == aligned(lines, token),
{
    assert forall|i: int| 0 <= i < lines.len() implies #[trigger] aligned_before(
        lines,
        token,
        sections,
        0,
    )[i] == lines[i] by {
        if i < section_start(sections, 0, lines.len() as int) {
            lemma_no_eligible_between(lines, token, list, sections, 0, i);
        }
    }
    assert(aligned_before(lines, token, sections, 0) =~= lines);
    assert(aligned_before(lines, token, sections, sections.len() as int) =~= aligned(
        lines,
        token,
    ));
}

/// Aligns the trailing comments of `lines`. Lines that hold `token` and
/// stand next to another such line form sections; in every section the
/// markers are moved, by spaces inserted in front of them, to the
/// column of the section's rightmost marker. All other lines, and the
/// number and order of the lines, stay as they are.
pub fn align(lines: Vec<String>, token: &str) -> (result: Vec<String>)
    ensures
        line_texts(result@) == aligned(line_texts(lines@), token@),
        result.len() == lines.len(),
        forall|i: int|
            0 <= i < lines.len() ==> only_spaces_inserted(lines[i]@, #[trigger] result[i]@),
        forall|i: int|
            0 <= i < lines.len() && !eligible(line_texts(lines@), token@, i)
                ==> #[trigger] result[i]@ == lines[i]@,
{
    let ghost before = line_texts(lines@);
    let mut lines = lines;
    let list = comment_line_numbers(&lines, token);
    let ghost numbers = list@;
    let grouped = group_into_sections(list);
    let ghost sections = section_views(grouped@);
    let marker = String::from_str(token);
    proof {
        lemma_align_ends(before, token@, numbers, sections);
    }
    for section in it: grouped
        invariant
            marker@ == token@,
            is_eligible_list(numbers, before, token@),
            is_grouping(sections, numbers),
            sections == section_views(it.seq()),
            line_texts(lines@) == aligned_before(before, token@, sections, it.index() as int),
    {
        proof {
            lemma_align_step(before, token@, numbers, sections, it.index() as int);
        }
        fix_section(section, &mut lines, &marker);
    }
    proof {
        assert(line_texts(lines@).len() == before.len());
        assert forall|i: int| 0 <= i < before.len() implies only_spaces_inserted(
            before[i],
            #[trigger] lines[i]@,
        ) && (!eligible(before, token@, i) ==> lines[i]@ == before[i]) by {
            lemma_align_inserts_spaces(before, token@, i);
            assert(line_texts(lines@)[i] == lines[i]@);
        }
    }
    lines
}

} // verus!
