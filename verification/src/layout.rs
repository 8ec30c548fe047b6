//! The candidate layout of one query: candidates in display order, cut into pages.
//!
//! A cell is either empty (a gap the layout leaves, e.g. for a custom entry) or holds a
//! local or cloud candidate. Page `p` covers the cells `p * size .. min(p * size + size, len)`,
//! where `size` is the page size, read as 1 when it is 0.
use vstd::prelude::*;
use vstd::arithmetic::div_mod::{lemma_fundamental_div_mod, lemma_fundamental_div_mod_converse};

use crate::text::{c_text, spec_c_text, string_push};

verus! {

/// One sense of a translation: an optional part of speech and the translated text.
pub struct Sense {
    pub part_of_speech: Option<String>,
    pub text: String,
}

/// A candidate as the session shows it: its text and the senses of its translation.
pub struct Candidate {
    pub text: String,
    pub translation: Option<Vec<Sense>>,
}

/// One place of the layout.
pub enum Cell {
    Empty,
    Local(Candidate),
    Cloud(Candidate),
}

/// The cells of one query and the page size they are shown with.
pub struct CandidateLayout {
    pub cells: Vec<Cell>,
    pub page_size: usize,
}

/// The page size used for paging: the stored one, or 1 when it is 0.
pub open spec fn size_of(page_size: usize) -> nat {
    if page_size == 0 {
        1
    } else {
        page_size as nat
    }
}

/// Number of pages that `len` cells fill with pages of `size` cells.
pub open spec fn pages_of(len: nat, size: nat) -> nat
    recommends
        size > 0,
{
    ((len + size - 1) / (size as int)) as nat
}

/// Whether cell `i` exists and holds a candidate.
pub open spec fn has_candidate(cells: Seq<Cell>, i: int) -> bool {
    0 <= i < cells.len() && !(cells[i] is Empty)
}

/// The candidate in a cell, if any.
pub open spec fn cell_candidate(cell: Cell) -> Option<Candidate> {
    match cell {
        Cell::Empty => None,
        Cell::Local(candidate) => Some(candidate),
        Cell::Cloud(candidate) => Some(candidate),
    }
}

/// First cell of page `page`.
pub open spec fn page_start(page: int, size: nat) -> int {
    page * size
}

/// One past the last cell of page `page`.
pub open spec fn page_end(page: int, size: nat, len: nat) -> int {
    if page * size + size < len {
        page * size + size
    } else {
        len as int
    }
}

/// The indices of the cells in `start..end` that hold a candidate, in order.
pub open spec fn listed_between(cells: Seq<Cell>, start: int, end: int) -> Seq<int>
    decreases end - start,
{
    if end <= start {
        Seq::empty()
    } else {
        let before = listed_between(cells, start, end - 1);
        if has_candidate(cells, end - 1) {
            before.push(end - 1)
        } else {
            before
        }
    }
}

/// The first cell in `start..end` that holds a candidate.
pub open spec fn first_between(cells: Seq<Cell>, start: int, end: int) -> Option<int>
    decreases end - start,
{
    if end <= start {
        None
    } else if has_candidate(cells, start) {
        Some(start)
    } else {
        first_between(cells, start + 1, end)
    }
}

/// Text of one sense as a comment shows it: `part text`, or just `text`.
pub open spec fn sense_label(sense: Sense) -> Seq<char> {
    match sense.part_of_speech {
        Some(part) => part@ + seq![' '] + sense.text@,
        None => sense.text@,
    }
}

/// `parts` joined with `separator` between neighbours.
pub open spec fn join_with(parts: Seq<Seq<char>>, separator: Seq<char>) -> Seq<char>
    decreases parts.len(),
{
    if parts.len() == 0 {
        Seq::empty()
    } else if parts.len() == 1 {
        parts[0]
    } else {
        join_with(parts.drop_last(), separator) + separator + parts.last()
    }
}

/// The separator between senses: space, middle dot, space.
pub open spec fn sense_separator() -> Seq<char> {
    seq![' ', '\u{b7}', ' ']
}

/// The comment shown beside a candidate: its senses joined by ` · `, empty without translation.
pub open spec fn spec_comment(candidate: Candidate) -> Seq<char> {
    match candidate.translation {
        None => Seq::empty(),
        Some(senses) => join_with(senses@.map_values(|sense: Sense| sense_label(sense)), sense_separator()),
    }
}

/// Quotient and remainder bounds of `index / size`.
pub proof fn lemma_page_of(index: int, size: int)
    requires
        0 <= index,
        0 < size,
    ensures
        0 <= index / size,
        (index / size) * size <= index < (index / size) * size + size,
{
    lemma_fundamental_div_mod(index, size);
    assert(0 <= index / size) by (nonlinear_arith)
        requires index == size * (index / size) + (index % size), 0 <= index % size < size, 0 <= index, 0 < size;
    assert((index / size) * size == size * (index / size)) by (nonlinear_arith);
}

/// An index inside page `page` belongs to that page.
pub proof fn lemma_in_page(index: int, page: int, size: int)
    requires
        0 < size,
        page * size <= index < page * size + size,
    ensures
        index / size == page,
{
    lemma_fundamental_div_mod_converse(index, size, page, index - page * size);
}

/// Page `page` is a real page exactly when it starts before the end of the cells.
pub proof fn lemma_pages(len: nat, size: nat, page: int)
    requires
        size > 0,
        0 <= page,
    ensures
        (page < pages_of(len, size)) <==> (page * size < len),
        pages_of(len, size) * size < len + size,
        len > 0 ==> pages_of(len, size) > 0,
{
    let total = len + size - 1;
    lemma_page_of(total, size as int);
    let pages = total / (size as int);
    assert(pages_of(len, size) == pages);
    if page < pages {
        assert(page * size <= (pages - 1) * size) by (nonlinear_arith)
            requires page <= pages - 1, size > 0;
        assert((pages - 1) * size == pages * size - size) by (nonlinear_arith);
    } else {
        assert(page * size >= pages * size) by (nonlinear_arith)
            requires page >= pages, size > 0;
    }
    if len > 0 {
        assert(pages > 0) by (nonlinear_arith)
            requires pages * size + size > total, total >= size, size > 0;
    }
}

/// Pages before the end of the cells: their first cell lies inside.
pub proof fn lemma_page_start_inside(len: nat, size: nat, page: int)
    requires
        size > 0,
        0 <= page < pages_of(len, size),
    ensures
        0 <= page * size < len,
{
    lemma_pages(len, size, page);
    assert(0 <= page * size) by (nonlinear_arith)
        requires 0 <= page, size > 0;
}

/// `first_between` finds the smallest candidate index, and nothing before it.
pub proof fn lemma_first_between(cells: Seq<Cell>, start: int, end: int)
    ensures
        match first_between(cells, start, end) {
            Some(i) => start <= i < end && has_candidate(cells, i) && forall|j: int|
                start <= j < i ==> !has_candidate(cells, j),
            None => forall|j: int| start <= j < end ==> !has_candidate(cells, j),
        },
    decreases end - start,
{
    if end > start && !has_candidate(cells, start) {
        lemma_first_between(cells, start + 1, end);
    }
}

/// `listed_between` holds exactly the candidate indices of the range, strictly increasing.
pub proof fn lemma_listed_between(cells: Seq<Cell>, start: int, end: int)
    ensures
        forall|k: int|
            0 <= k < listed_between(cells, start, end).len() ==> start <= #[trigger] listed_between(
                cells,
                start,
                end,
            )[k] < end && has_candidate(cells, listed_between(cells, start, end)[k]),
        forall|a: int, b: int|
            0 <= a < b < listed_between(cells, start, end).len() ==> #[trigger] listed_between(
                cells,
                start,
                end,
            )[a] < #[trigger] listed_between(cells, start, end)[b],
        forall|i: int|
            start <= i < end && has_candidate(cells, i) ==> #[trigger] listed_between(
                cells,
                start,
                end,
            ).contains(i),
    decreases end - start,
{
    if end > start {
        lemma_listed_between(cells, start, end - 1);
        let before = listed_between(cells, start, end - 1);
        if has_candidate(cells, end - 1) {
            assert forall|i: int| start <= i < end && has_candidate(cells, i) implies
                #[trigger] listed_between(cells, start, end).contains(i) by {
                if i == end - 1 {
                    assert(before.push(end - 1)[before.len() as int] == i);
                } else {
                    assert(before.contains(i));
                    let k = choose|k: int| 0 <= k < before.len() && before[k] == i;
                    assert(before.push(end - 1)[k] == i);
                }
            }
        }
    }
}

impl Cell {
    /// The candidate in this cell, if any.
    pub fn candidate(&self) -> (result: Option<&Candidate>)
        ensures
            match result {
                Some(c) => cell_candidate(*self) == Some(*c),
                None => cell_candidate(*self) is None,
            },
    {
        match self {
            Cell::Empty => None,
            Cell::Local(candidate) => Some(candidate),
            Cell::Cloud(candidate) => Some(candidate),
        }
    }
}

impl CandidateLayout {
    /// A layout of `cells` shown `page_size` to a page.
    pub fn new(cells: Vec<Cell>, page_size: usize) -> (result: Self)
        ensures
            result.cells@ == cells@,
            result.page_size == page_size,
    {
        CandidateLayout { cells, page_size }
    }

    /// The layout with no cells, as a failed query leaves it.
    pub fn empty() -> (result: Self)
        ensures
            result.cells@.len() == 0,
            result.page_size == 0,
    {
        CandidateLayout { cells: Vec::new(), page_size: 0 }
    }

    pub fn len(&self) -> (result: usize)
        ensures
            result == self.cells@.len(),
    {
        self.cells.len()
    }

    pub fn page_size(&self) -> (result: usize)
        ensures
            result == self.page_size,
    {
        self.page_size
    }

    /// Number of pages the cells fill.
    pub fn pages(&self) -> (result: usize)
        ensures
            result == pages_of(self.cells@.len(), size_of(self.page_size)),
    {
        let size: usize = if self.page_size == 0 {
            1
        } else {
            self.page_size
        };
        let len: usize = self.cells.len();
        let full: usize = len / size;
        let rest: usize = len % size;
        proof {
            lemma_fundamental_div_mod(len as int, size as int);
            assert(0 <= rest < size);
            assert(full as int * size + rest == len) by (nonlinear_arith)
                requires len == size * (full as int) + rest;
            if rest != 0 {
                assert(full < len) by (nonlinear_arith)
                    requires full as int * size + rest == len, rest > 0, size >= 1, rest < size;
            }
        }
        let result: usize = if rest == 0 {
            full
        } else {
            full + 1
        };
        proof {
            let s = size as int;
            if rest == 0 {
                lemma_fundamental_div_mod_converse(len + size - 1, s, full as int, s - 1);
            } else {
                assert((full + 1) * s == full * s + s) by (nonlinear_arith);
                lemma_fundamental_div_mod_converse(len + size - 1, s, full + 1, rest - 1);
            }
        }
        result
    }

    /// The candidate in cell `index`, if that cell exists and holds one.
    pub fn candidate(&self, index: usize) -> (result: Option<&Candidate>)
        ensures
            match result {
                Some(c) => index < self.cells@.len() && cell_candidate(self.cells@[index as int])
                    == Some(*c),
                None => !has_candidate(self.cells@, index as int),
            },
    {
        if index < self.cells.len() {
            self.cells[index].candidate()
        } else {
            None
        }
    }
}

/// The label of one sense: `part text`, or `text`.
fn sense_label_text(sense: &Sense) -> (result: String)
    ensures
        result@ == sense_label(*sense),
{
    let mut label = String::new();
    match &sense.part_of_speech {
        Some(part) => {
            label.append(part.as_str());
            string_push(&mut label, ' ');
        },
        None => {},
    }
    label.append(sense.text.as_str());
    label
}

/// The comment shown beside a candidate: `part text` for each sense, joined by ` · `;
/// empty when the candidate has no translation.
pub fn comment_of(candidate: &Candidate) -> (result: String)
    ensures
        result@ == spec_comment(*candidate),
{
    let mut comment = String::new();
    match &candidate.translation {
        None => {},
        Some(senses) => {
            let ghost labels = senses@.map_values(|sense: Sense| sense_label(sense));
            let mut i: usize = 0;
            while i < senses.len()
                invariant
                    i <= senses@.len(),
                    labels == senses@.map_values(|sense: Sense| sense_label(sense)),
                    comment@ == join_with(labels.take(i as int), sense_separator()),
                decreases senses@.len() - i,
            {
                let label = sense_label_text(&senses[i]);
                if i > 0 {
                    string_push(&mut comment, ' ');
                    string_push(&mut comment, '\u{b7}');
                    string_push(&mut comment, ' ');
                }
                comment.append(label.as_str());
                proof {
                    let next = labels.take(i + 1);
                    assert(next.drop_last() =~= labels.take(i as int));
                    assert(next.last() == label@);
                    assert(comment@ =~= join_with(next, sense_separator()));
                }
                i = i + 1;
            }
            proof {
                assert(labels.take(senses@.len() as int) =~= labels);
            }
        },
    }
    comment
}

} // verus!
