//! Grouping line numbers into sections.
use vstd::prelude::*;

verus! {

/// Checked access by position.
pub trait Utils<T: Clone> {
    /// The items that positions refer to.
    spec fn items(&self) -> Seq<T>;

    /// A copy of the item at position `current`, or `None` beyond the end.
    fn at(&self, current: usize) -> (item: Option<T>)
        ensures
            current < self.items().len() ==> item is Some && cloned(
                self.items()[current as int],
                item->0,
            ),
            current >= self.items().len() ==> item is None,
    ;
}

impl<T: Clone> Utils<T> for Vec<T> {
    open spec fn items(&self) -> Seq<T> {
        self@
    }

    fn at(&self, idx: usize) -> (item: Option<T>) {
        if idx < self.len() {
            return Some(self[idx].clone());
        }
        None
    }
}

/// Two line numbers that follow each other in a list are apart: the
/// second lies more than one line after the first.
pub open spec fn gap(current: usize, next: usize) -> bool {
    next - current > 1
}

/// The sections of `groups` as sequences.
pub open spec fn section_views(groups: Seq<Vec<usize>>) -> Seq<Seq<usize>> {
    Seq::new(groups.len(), |k: int| groups[k]@)
}

/// The number of entries in the first `upto` sections.
pub open spec fn total_len(sections: Seq<Seq<usize>>, upto: int) -> int
    decreases upto,
{
    if upto <= 0 {
        0
    } else {
        total_len(sections, upto - 1) + sections[upto - 1].len()
    }
}

/// `list` names line `line`.
pub open spec fn lists(list: Seq<usize>, line: int) -> bool {
    exists|p: int| 0 <= p < list.len() && #[trigger] list[p] == line
}

/// Entry `p + 1` of `list` is apart from entry `p`.
pub open spec fn apart_at(list: Seq<usize>, p: int) -> bool {
    gap(list[p], list[p + 1])
}

/// No entry of `list` is apart from the one before it.
pub open spec fn is_run(list: Seq<usize>) -> bool {
    forall|p: int| 0 <= p && p + 1 < list.len() ==> !#[trigger] apart_at(list, p)
}

/// Section `k` is a run cut from `list` where the sections before it
/// end: it is not empty, no entry in it is apart from the one before,
/// and the section after it, if there is one, starts apart from its
/// last entry.
pub open spec fn is_section(sections: Seq<Seq<usize>>, list: Seq<usize>, k: int) -> bool {
    &&& sections[k].len() > 0
    &&& sections[k] == list.subrange(total_len(sections, k), total_len(sections, k + 1))
    &&& is_run(sections[k])
    &&& k + 1 < sections.len() ==> gap(sections[k].last(), sections[k + 1].first())
}

/// `sections` cuts `list` into its runs: laid end to end the sections
/// give the list back, and a new section starts exactly where an entry
/// is apart from the one before it.
pub open spec fn is_grouping(sections: Seq<Seq<usize>>, list: Seq<usize>) -> bool {
    &&& total_len(sections, sections.len() as int) == list.len()
    &&& forall|k: int| 0 <= k < sections.len() ==> #[trigger] is_section(sections, list, k)
}

/// The running total does not depend on the sections behind `upto`.
pub proof fn lemma_total_len_prefix(a: Seq<Seq<usize>>, b: Seq<Seq<usize>>, upto: int)
    requires
        upto <= a.len(),
        upto <= b.len(),
        forall|k: int| 0 <= k < upto ==> a[k] == b[k],
    ensures
        total_len(a, upto) == total_len(b, upto),
    decreases upto,
{
    if upto > 0 {
        lemma_total_len_prefix(a, b, upto - 1);
    }
}

/// The running total grows with the number of sections counted.
pub proof fn lemma_total_len_monotonic(sections: Seq<Seq<usize>>, from: int, upto: int)
    requires
        0 <= from <= upto,
    ensures
        0 <= total_len(sections, from) <= total_len(sections, upto),
    decreases upto,
{
    if from < upto {
        lemma_total_len_monotonic(sections, from, upto - 1);
    } else if upto > 0 {
        lemma_total_len_monotonic(sections, from - 1, upto - 1);
    }
}

/// A grouping of the first `done` entries of `list`, extended by the run
/// that follows them, is a grouping of the entries up to the run's end.
pub proof fn lemma_grouping_push(
    sections: Seq<Seq<usize>>,
    list: Seq<usize>,
    done: int,
    upto: int,
)
    requires
        0 <= done < upto <= list.len(),
        is_grouping(sections, list.subrange(0, done)),
        is_run(list.subrange(done, upto)),
        done > 0 ==> gap(list[done - 1], list[done]),
    ensures
        is_grouping(sections.push(list.subrange(done, upto)), list.subrange(0, upto)),
{
    let run = list.subrange(done, upto);
    let longer = sections.push(run);
    let n = sections.len() as int;
    let before = list.subrange(0, done);
    let after = list.subrange(0, upto);
    assert forall|k: int| 0 <= k <= n implies #[trigger] total_len(longer, k) == total_len(
        sections,
        k,
    ) && 0 <= total_len(sections, k) <= done by {
        lemma_total_len_prefix(longer, sections, k);
        lemma_total_len_monotonic(sections, k, n);
    }
    assert(total_len(longer, n + 1) == total_len(longer, n) + longer[n].len());
    assert forall|k: int| 0 <= k < longer.len() implies #[trigger] is_section(
        longer,
        after,
        k,
    ) by {
        if k < n {
            assert(is_section(sections, before, k));
            assert(total_len(longer, k) == total_len(sections, k));
            assert(total_len(longer, k + 1) == total_len(sections, k + 1));
            assert(before.subrange(total_len(sections, k), total_len(sections, k + 1))
                =~= after.subrange(total_len(sections, k), total_len(sections, k + 1)));
            if k + 1 == n {
                assert(sections[k].last() == list[done - 1]);
            }
        } else {
            assert(total_len(longer, n) == done);
            assert(run =~= after.subrange(done, upto));
        }
    }
}

/// Two groupings of a list agree on their first `upto` sections.
proof fn lemma_groupings_agree(
    a: Seq<Seq<usize>>,
    b: Seq<Seq<usize>>,
    list: Seq<usize>,
    upto: int,
)
    requires
        is_grouping(a, list),
        is_grouping(b, list),
        0 <= upto <= a.len(),
    ensures
        upto <= b.len(),
        total_len(a, upto) == total_len(b, upto),
        forall|k: int| 0 <= k < upto ==> a[k] == b[k],
    decreases upto,
{
    if upto > 0 {
        let k = upto - 1;
        lemma_groupings_agree(a, b, list, k);
        let start = total_len(a, k);
        lemma_total_len_monotonic(a, upto, a.len() as int);
        lemma_total_len_monotonic(b, k, b.len() as int);
        assert(is_section(a, list, k));
        if k == b.len() {
            assert(total_len(a, upto) > list.len());
        }
        assert(is_section(b, list, k));
        lemma_total_len_monotonic(b, upto, b.len() as int);
        let short = if a[k].len() < b[k].len() {
            a
        } else {
            b
        };
        let long = if a[k].len() < b[k].len() {
            b
        } else {
            a
        };
        if short[k].len() < long[k].len() {
            let p = short[k].len() - 1;
            assert(!apart_at(long[k], p));
            assert(long[k][p] == list[start + p]);
            assert(long[k][p + 1] == list[start + p + 1]);
            assert(short[k].last() == list[start + p]);
            lemma_total_len_monotonic(short, upto + 1, short.len() as int);
            if upto < short.len() {
                assert(is_section(short, list, upto));
                assert(short[upto].first() == list[start + p + 1]);
            }
        }
        assert(a[k] =~= b[k]);
    }
}

/// A list has one grouping only.
pub proof fn lemma_grouping_unique(a: Seq<Seq<usize>>, b: Seq<Seq<usize>>, list: Seq<usize>)
    requires
        is_grouping(a, list),
        is_grouping(b, list),
    ensures
        a == b,
{
    lemma_groupings_agree(a, b, list, a.len() as int);
    lemma_groupings_agree(b, a, list, b.len() as int);
    assert(a =~= b);
}

/// Cuts a list of line numbers into sections. A section ends wherever
/// the next number lies more than one line further on.
pub fn group_into_sections(comment_lines: Vec<usize>) -> (result: Vec<Vec<usize>>)
    ensures
        is_grouping(section_views(result@), comment_lines@),
        section_views(result@).flatten() == comment_lines@,
{
    let mut result: Vec<Vec<usize>> = Vec::new();
    let mut temp: Vec<usize> = Vec::new();
    let n = comment_lines.len();
    let mut i: usize = 0;
    proof {
        assert(section_views(result@) =~= Seq::<Seq<usize>>::empty());
    }
    while i < n
        invariant
            n == comment_lines.len(),
            i <= n,
            is_grouping(section_views(result@), comment_lines@.subrange(0, i - temp.len())),
            section_views(result@).flatten() == comment_lines@.subrange(0, i - temp.len()),
            temp.len() <= i,
            temp@ == comment_lines@.subrange(i - temp.len(), i as int),
            is_run(temp@),
            temp.len() > 0 && i < n ==> !gap(comment_lines@[i - 1], comment_lines@[i as int]),
            0 < i - temp.len() < n ==> gap(
                comment_lines@[i - temp.len() - 1],
                comment_lines@[i - temp.len()],
            ),
        decreases n - i,
    {
        let current = comment_lines[i];
        let ghost sections = section_views(result@);
        let ghost done = i - temp.len();
        let ghost shorter = temp@;
        temp.push(current);
        proof {
            assert(temp@ =~= comment_lines@.subrange(done, i + 1));
            assert forall|p: int| 0 <= p && p + 1 < temp@.len() implies !#[trigger] apart_at(
                temp@,
                p,
            ) by {
                if p + 1 < shorter.len() {
                    assert(!apart_at(shorter, p));
                }
            }
        }
        if i + 1 < n {
            let next = comment_lines.at(i + 1).unwrap();
            if next > current && next - current > 1 {
                proof {
                    lemma_grouping_push(sections, comment_lines@, done, i + 1);
                    assert(section_views(result@.push(temp)) =~= sections.push(temp@));
                    sections.lemma_flatten_push(temp@);
                    assert(comment_lines@.subrange(0, done) + temp@ =~= comment_lines@.subrange(
                        0,
                        i + 1,
                    ));
                }
                result.push(temp);
                temp = Vec::new();
            }
        }
        i += 1;
    }
    if temp.len() > 0 {
        let ghost sections = section_views(result@);
        proof {
            lemma_grouping_push(sections, comment_lines@, n - temp.len(), n as int);
            assert(section_views(result@.push(temp)) =~= sections.push(temp@));
            sections.lemma_flatten_push(temp@);
            assert(comment_lines@.subrange(0, n - temp.len()) + temp@ =~= comment_lines@);
            assert(comment_lines@.subrange(0, n as int) =~= comment_lines@);
        }
        result.push(temp);
    } else {
        proof {
            assert(comment_lines@.subrange(0, n as int) =~= comment_lines@);
        }
    }
    result
}

} // verus!
