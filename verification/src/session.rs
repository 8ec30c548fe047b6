//! The state of one input context: the layout of the last query, the highlighted cell, the
//! current page, the preedit and the text waiting to be committed.
//!
//! Every getter reads one frame; the frame is rebuilt by [`QjSession::recompose`] and by the
//! highlight and page movements. The candidates listed on the current page skip empty cells:
//! "listed index `k`" is the `k`-th candidate actually shown on the page.
use vstd::prelude::*;

use crate::layout::{
    cell_candidate, comment_of, first_between, has_candidate, lemma_listed_between, lemma_page_of, listed_between,
    page_end, page_start, pages_of, size_of, spec_comment, Candidate, CandidateLayout, Cell,
};
use crate::text::{c_text, spec_c_text};

verus! {

/// One listed candidate, ready for the C side: text, comment and whether it came from the cloud.
pub struct CandidateSlot {
    pub text: String,
    pub comment: String,
    pub cloud: bool,
}

/// The result of one query, as plain values: marked preedit text and cursor, the preedit
/// segments, and the candidate layout.
pub struct QueryFrame {
    pub marked_text: String,
    pub marked_cursor: usize,
    pub segments: Vec<String>,
    pub layout: CandidateLayout,
}

/// The abstract state of a session.
pub struct SessionView {
    pub cells: Seq<Cell>,
    pub page_size: usize,
    pub highlighted: nat,
    pub page: nat,
    pub navigated: bool,
    pub preedit: Seq<char>,
    pub preedit_cursor: nat,
    pub segments: Seq<Seq<char>>,
    pub commit: Option<Seq<char>>,
    pub aux: Option<Seq<char>>,
}

/// What a listed slot shows for a cell: text, comment, cloud flag.
pub open spec fn slot_of(cell: Cell) -> (Seq<char>, Seq<char>, bool) {
    match cell {
        Cell::Empty => (Seq::empty(), Seq::empty(), false),
        Cell::Local(candidate) => (
            spec_c_text(candidate.text@),
            spec_c_text(spec_comment(candidate)),
            false,
        ),
        Cell::Cloud(candidate) => (
            spec_c_text(candidate.text@),
            spec_c_text(spec_comment(candidate)),
            true,
        ),
    }
}

/// Sign of an integer: -1, 0 or 1.
pub open spec fn sign(value: int) -> int {
    if value > 0 {
        1
    } else if value < 0 {
        -1
    } else {
        0
    }
}

/// `value` clamped into `low..=high`.
pub open spec fn clamp(value: int, low: int, high: int) -> int {
    if value < low {
        low
    } else if value > high {
        high
    } else {
        value
    }
}

/// From cell `index`, the first cell holding a candidate when stepping by `direction`;
/// a zero direction looks at `index` only.
pub open spec fn scan_from(cells: Seq<Cell>, index: int, direction: int) -> Option<int>
    decreases (if direction > 0 {
        cells.len() - index
    } else {
        index + 1
    }),
{
    if !(0 <= index < cells.len()) {
        None
    } else if !(cells[index] is Empty) {
        Some(index)
    } else if direction == 0 || !(0 <= index + direction < cells.len()) {
        None
    } else {
        scan_from(cells, index + direction, direction)
    }
}

/// From page `page`, the first page other than `current` that holds a candidate when
/// stepping by `direction`, with that candidate's index.
pub open spec fn page_scan(
    cells: Seq<Cell>,
    size: nat,
    pages: int,
    page: int,
    current: int,
    direction: int,
) -> Option<(int, int)>
    decreases (if direction > 0 {
        pages - page
    } else {
        page + 1
    }),
{
    if page == current || !(0 <= page < pages) {
        None
    } else if first_between(
        cells,
        page_start(page, size),
        page_end(page, size, cells.len()),
    ) is Some {
        Some(
            (
                page,
                first_between(cells, page_start(page, size), page_end(page, size, cells.len()))->0,
            ),
        )
    } else if direction == 0 || !(0 <= page + direction < pages) {
        None
    } else {
        page_scan(cells, size, pages, page + direction, current, direction)
    }
}

impl SessionView {
    pub open spec fn size(self) -> nat {
        size_of(self.page_size)
    }

    pub open spec fn len(self) -> nat {
        self.cells.len()
    }

    pub open spec fn pages(self) -> nat {
        pages_of(self.len(), self.size())
    }

    /// The number of pages shown to the user: at least one.
    pub open spec fn page_count(self) -> nat {
        if self.pages() == 0 {
            1
        } else {
            self.pages()
        }
    }

    /// Absolute indices of the candidates listed on the current page, in order.
    pub open spec fn listed(self) -> Seq<int> {
        listed_between(
            self.cells,
            page_start(self.page as int, self.size()),
            page_end(self.page as int, self.size(), self.len()),
        )
    }

    /// Position of the highlighted cell among the listed candidates, 0 when it is not listed.
    pub open spec fn cursor(self) -> nat {
        if self.listed().contains(self.highlighted as int) {
            (choose|k: int| 0 <= k < self.listed().len() && self.listed()[k] == self.highlighted) as nat
        } else {
            0
        }
    }

    /// The highlight lies inside the cells (or at 0 when there are none) and the current
    /// page is the one that holds it.
    pub open spec fn settled(self) -> bool {
        &&& (self.len() == 0 ==> self.highlighted == 0)
        &&& (self.len() > 0 ==> self.highlighted < self.len())
        &&& self.page == self.highlighted / self.size()
    }

    /// The state of a new or cleared session.
    pub open spec fn initial() -> SessionView {
        SessionView {
            cells: Seq::empty(),
            page_size: 0,
            highlighted: 0,
            page: 0,
            navigated: false,
            preedit: Seq::empty(),
            preedit_cursor: 0,
            segments: Seq::empty(),
            commit: None,
            aux: None,
        }
    }

    /// `self` with `text` waiting to be committed.
    pub open spec fn with_commit(self, text: Seq<char>) -> SessionView {
        SessionView { commit: Some(spec_c_text(text)), ..self }
    }

    /// `self` with nothing waiting to be committed.
    pub open spec fn without_commit(self) -> SessionView {
        SessionView { commit: None, ..self }
    }

    /// `self` after a new query: the preedit and layout come from `frame`, or, when the query
    /// failed, from the raw composition; the first candidate is highlighted.
    pub open spec fn after_recompose(
        self,
        composition: Seq<char>,
        composition_cursor: nat,
        frame: Option<QueryFrame>,
    ) -> SessionView {
        let (preedit, preedit_cursor, segments, cells, page_size) = match frame {
            Some(frame) => (
                spec_c_text(frame.marked_text@),
                frame.marked_cursor as nat,
                frame.segments@.map_values(|segment: String| spec_c_text(segment@)),
                frame.layout.cells@,
                frame.layout.page_size,
            ),
            None => (
                spec_c_text(composition),
                composition_cursor,
                seq![spec_c_text(composition)],
                Seq::<Cell>::empty(),
                0usize,
            ),
        };
        let highlighted = match first_between(cells, 0, cells.len() as int) {
            Some(index) => index as nat,
            None => 0,
        };
        SessionView {
            cells,
            page_size,
            highlighted,
            page: highlighted / size_of(page_size),
            navigated: false,
            preedit,
            preedit_cursor,
            segments,
            ..self
        }
    }

    /// Where moving the highlight by `delta` lands: the clamped target, or the nearest
    /// candidate past it in the direction of the move.
    pub open spec fn move_target(self, delta: int) -> Option<int> {
        if self.len() == 0 {
            None
        } else {
            scan_from(
                self.cells,
                clamp(self.highlighted + delta, 0, self.len() - 1),
                sign(delta),
            )
        }
    }

    /// Whether moving the highlight by `delta` changes it, and the state afterwards.
    pub open spec fn after_move(self, delta: int) -> (bool, SessionView) {
        match self.move_target(delta) {
            Some(next) => if next != self.highlighted {
                (
                    true,
                    SessionView {
                        highlighted: next as nat,
                        page: (next / (self.size() as int)) as nat,
                        navigated: true,
                        ..self
                    },
                )
            } else {
                (false, self)
            },
            None => (false, self),
        }
    }

    /// Where turning the page by `delta` lands: the page and its first candidate.
    pub open spec fn turn_target(self, delta: int) -> Option<(int, int)> {
        page_scan(
            self.cells,
            self.size(),
            self.page_count() as int,
            clamp(self.page + delta, 0, self.page_count() - 1),
            self.page as int,
            sign(delta),
        )
    }

    /// The first candidate of page `page`, if it holds one.
    pub open spec fn first_on_page(self, page: int) -> Option<int> {
        first_between(self.cells, page_start(page, self.size()), page_end(page, self.size(), self.len()))
    }

    /// Whether turning the page by `delta` changes it, and the state afterwards.
    pub open spec fn after_turn(self, delta: int) -> (bool, SessionView) {
        match self.turn_target(delta) {
            Some((page, index)) => (
                true,
                SessionView {
                    page: page as nat,
                    highlighted: index as nat,
                    navigated: true,
                    ..self
                },
            ),
            None => (false, self),
        }
    }
}

/// A page found by `page_scan` is a real page other than `current`, and its index is the first
/// candidate of that page.
pub proof fn lemma_page_scan(cells: Seq<Cell>, size: nat, pages: int, page: int, current: int, direction: int)
    ensures
        match page_scan(cells, size, pages, page, current, direction) {
            Some((p, i)) => 0 <= p < pages && p != current && first_between(
                cells,
                page_start(p, size),
                page_end(p, size, cells.len()),
            ) == Some(i),
            None => true,
        },
    decreases (if direction > 0 {
        pages - page
    } else {
        page + 1
    }),
{
    if page == current || !(0 <= page < pages) {
    } else if first_between(cells, page_start(page, size), page_end(page, size, cells.len())) is Some {
    } else if direction == 0 || !(0 <= page + direction < pages) {
    } else {
        lemma_page_scan(cells, size, pages, page + direction, current, direction);
    }
}

/// The UI state of one input context.
pub struct QjSession {
    layout: CandidateLayout,
    highlighted: usize,
    page: usize,
    navigated: bool,
    preedit_text: String,
    preedit_cursor: usize,
    preedit_segments: Vec<String>,
    commit: Option<String>,
    aux: Option<String>,
    slots: Vec<CandidateSlot>,
    page_indices: Vec<usize>,
    cursor: usize,
}

/// The view of an optional borrowed text.
pub open spec fn opt_str_view(text: Option<&str>) -> Option<Seq<char>> {
    match text {
        Some(text) => Some(text@),
        None => None,
    }
}

/// The view of an optional text.
pub open spec fn opt_view(text: Option<String>) -> Option<Seq<char>> {
    match text {
        Some(text) => Some(text@),
        None => None,
    }
}

impl View for QjSession {
    type V = SessionView;

    closed spec fn view(&self) -> SessionView {
        SessionView {
            cells: self.layout.cells@,
            page_size: self.layout.page_size,
            highlighted: self.highlighted as nat,
            page: self.page as nat,
            navigated: self.navigated,
            preedit: self.preedit_text@,
            preedit_cursor: self.preedit_cursor as nat,
            segments: self.preedit_segments@.map_values(|segment: String| segment@),
            commit: opt_view(self.commit),
            aux: opt_view(self.aux),
        }
    }
}

impl QjSession {
    /// The listed slots and their absolute indices match the current page, and the cursor
    /// points at the highlighted one.
    pub closed spec fn wf(&self) -> bool {
        &&& self@.settled()
        &&& self.page_indices@.len() == self@.listed().len()
        &&& forall|k: int|
            0 <= k < self.page_indices@.len() ==> self.page_indices@[k] as int == #[trigger] self@.listed()[k]
        &&& self.slots@.len() == self@.listed().len()
        &&& forall|k: int|
            #![trigger self.slots@[k]]
            0 <= k < self.slots@.len() ==> (self.slots@[k].text@, self.slots@[k].comment@, self.slots@[k].cloud)
                == slot_of(self@.cells[self@.listed()[k]])
        &&& self.cursor as nat == self@.cursor()
    }

    /// Rebuild the listed slots of the current page and the cursor.
    fn rebuild_page(&mut self)
        requires
            old(self)@.settled(),
        ensures
            final(self).wf(),
            final(self)@ == old(self)@,
    {
        let ghost v = self@;
        let size: usize = if self.layout.page_size == 0 {
            1
        } else {
            self.layout.page_size
        };
        let len: usize = self.layout.cells.len();
        proof {
            lemma_page_of(self.highlighted as int, size as int);
            if len == 0 {
                assert(self.page == 0);
            }
            assert(self.page as int * size <= len) by (nonlinear_arith)
                requires
                    self.page as int * size <= self.highlighted,
                    self.highlighted < len || (len == 0 && self.page == 0);
        }
        let start: usize = self.page * size;
        let end: usize = if size < len - start {
            start + size
        } else {
            len
        };
        assert(start == page_start(v.page as int, v.size()));
        assert(end == page_end(v.page as int, v.size(), v.len()));
        let mut slots: Vec<CandidateSlot> = Vec::new();
        let mut indices: Vec<usize> = Vec::new();
        let mut i: usize = start;
        while i < end
            invariant
                start <= i <= end <= len,
                len == self.layout.cells@.len(),
                self@ == v,
                indices@.len() == listed_between(v.cells, start as int, i as int).len(),
                forall|k: int|
                    0 <= k < indices@.len() ==> indices@[k] as int == #[trigger] listed_between(
                        v.cells,
                        start as int,
                        i as int,
                    )[k],
                slots@.len() == indices@.len(),
                forall|k: int|
                    #![trigger slots@[k]]
                    0 <= k < slots@.len() ==> (slots@[k].text@, slots@[k].comment@, slots@[k].cloud)
                        == slot_of(v.cells[indices@[k] as int]),
            decreases end - i,
        {
            let ghost before = listed_between(v.cells, start as int, i as int);
            assert(listed_between(v.cells, start as int, i + 1) == (if has_candidate(v.cells, i as int) {
                before.push(i as int)
            } else {
                before
            }));
            match &self.layout.cells[i] {
                Cell::Empty => {},
                Cell::Local(candidate) => {
                    let comment = comment_of(candidate);
                    indices.push(i);
                    slots.push(
                        CandidateSlot {
                            text: c_text(candidate.text.as_str()),
                            comment: c_text(comment.as_str()),
                            cloud: false,
                        },
                    );
                },
                Cell::Cloud(candidate) => {
                    let comment = comment_of(candidate);
                    indices.push(i);
                    slots.push(
                        CandidateSlot {
                            text: c_text(candidate.text.as_str()),
                            comment: c_text(comment.as_str()),
                            cloud: true,
                        },
                    );
                },
            }
            i = i + 1;
        }
        let mut k: usize = 0;
        let ghost listed = v.listed();
        proof {
            lemma_listed_between(v.cells, start as int, end as int);
        }
        while k < indices.len() && indices[k] != self.highlighted
            invariant
                k <= indices@.len(),
                self@ == v,
                listed == v.listed(),
                indices@.len() == listed.len(),
                forall|j: int| 0 <= j < indices@.len() ==> indices@[j] as int == #[trigger] listed[j],
                forall|j: int| 0 <= j < k ==> listed[j] != v.highlighted,
            decreases indices@.len() - k,
        {
            k = k + 1;
        }
        let cursor: usize = if k < indices.len() {
            k
        } else {
            0
        };
        proof {
            if listed.contains(v.highlighted as int) {
                let c = choose|c: int| 0 <= c < listed.len() && listed[c] == v.highlighted;
                assert(k < indices@.len()) by {
                    if k == indices@.len() {
                        assert(listed[c] != v.highlighted);
                    }
                }
                assert(listed[k as int] == v.highlighted);
                if c < k {
                    assert(listed[c] < listed[k as int]);
                } else if c > k {
                    assert(listed[k as int] < listed[c]);
                }
                assert(cursor == c);
            } else {
                if k < indices@.len() {
                    assert(listed[k as int] == v.highlighted);
                    assert(listed.contains(v.highlighted as int));
                }
            }
        }
        self.slots = slots;
        self.page_indices = indices;
        self.cursor = cursor;
        assert(self@ == v);
    }

    /// The first cell in `start..end` holding a candidate.
    fn first_candidate_between(&self, start: usize, end: usize) -> (result: Option<usize>)
        requires
            end <= self.layout.cells@.len(),
        ensures
            match first_between(self@.cells, start as int, end as int) {
                Some(i) => result == Some(i as usize),
                None => result is None,
            },
    {
        let mut i: usize = start;
        while i < end && self.layout.candidate(i).is_none()
            invariant
                start <= i || end <= start,
                end <= self.layout.cells@.len(),
                i >= start,
                first_between(self@.cells, start as int, end as int) == first_between(
                    self@.cells,
                    i as int,
                    end as int,
                ),
            decreases end - i,
        {
            i = i + 1;
        }
        proof {
            crate::layout::lemma_first_between(self@.cells, i as int, end as int);
        }
        if i < end {
            Some(i)
        } else {
            None
        }
    }

    /// The page that turning by `delta` lands on, with its first candidate.
    fn find_page(&self, delta: isize) -> (result: Option<(usize, usize)>)
        requires
            self.wf(),
        ensures
            match self@.turn_target(delta as int) {
                Some((page, index)) => result == Some((page as usize, index as usize)),
                None => result is None,
            },
    {
        let ghost v = self@;
        let size: usize = if self.layout.page_size == 0 {
            1
        } else {
            self.layout.page_size
        };
        let len: usize = self.layout.cells.len();
        let pages: usize = self.layout.pages();
        let count: usize = if pages == 0 {
            1
        } else {
            pages
        };
        let target: i128 = self.page as i128 + delta as i128;
        let last: i128 = count as i128 - 1;
        let mut next: usize = if target < 0 {
            0
        } else if target > last {
            count - 1
        } else {
            target as usize
        };
        let step: i128 = if delta > 0 {
            1
        } else if delta < 0 {
            -1
        } else {
            0
        };
        assert(step == sign(delta as int));
        assert(v.turn_target(delta as int) == page_scan(v.cells, v.size(), count as int, next as int, v.page as int, step as int));
        loop
            invariant
                self@ == v,
                self.wf(),
                size as nat == v.size(),
                len == v.len(),
                count as nat == v.page_count(),
                pages as nat == v.pages(),
                step == sign(delta as int),
                0 <= next < count,
                v.turn_target(delta as int) == page_scan(v.cells, v.size(), count as int, next as int, v.page as int, step as int),
            decreases (if step > 0 {
                count - next
            } else {
                next + 1
            }),
        {
            if next == self.page {
                return None;
            }
            proof {
                if pages == 0 {
                    crate::layout::lemma_pages(len as nat, size as nat, 0);
                    assert(len == 0);
                    assert(self.page == 0) by {
                        assert(v.highlighted == 0);
                    }
                }
                assert(next < pages);
                crate::layout::lemma_page_start_inside(len as nat, size as nat, next as int);
            }
            let start: usize = next * size;
            let end: usize = if size < len - start {
                start + size
            } else {
                len
            };
            assert(start == page_start(next as int, v.size()));
            assert(end == page_end(next as int, v.size(), v.len()));
            match self.first_candidate_between(start, end) {
                Some(index) => {
                    return Some((next, index));
                },
                None => {},
            }
            let following: i128 = next as i128 + step;
            if following < 0 || following >= count as i128 || delta == 0 {
                return None;
            }
            next = following as usize;
        }
    }

    /// Move the highlight by `delta` cells, skipping empty cells in the direction of the
    /// move and turning the page when it crosses one. Returns whether the highlight changed.
    pub fn move_highlight(&mut self, delta: isize) -> (changed: bool)
        requires
            old(self).wf(),
        ensures
            final(self).wf(),
            (changed, final(self)@) == old(self)@.after_move(delta as int),
    {
        let ghost v = self@;
        let len: usize = self.layout.cells.len();
        if len == 0 {
            return false;
        }
        let target: i128 = self.highlighted as i128 + delta as i128;
        let last: i128 = len as i128 - 1;
        let mut next: usize = if target < 0 {
            0
        } else if target > last {
            len - 1
        } else {
            target as usize
        };
        let step: i128 = if delta > 0 {
            1
        } else if delta < 0 {
            -1
        } else {
            0
        };
        assert(step == sign(delta as int));
        while self.layout.candidate(next).is_none()
            invariant
                self@ == v,
                self.wf(),
                len == v.len(),
                0 <= next < len,
                step == sign(delta as int),
                v.move_target(delta as int) == scan_from(v.cells, next as int, step as int),
            decreases (if step > 0 {
                len - next
            } else {
                next + 1
            }),
        {
            let candidate: i128 = next as i128 + step;
            if candidate < 0 || candidate >= len as i128 || delta == 0 {
                return false;
            }
            next = candidate as usize;
        }
        if next == self.highlighted {
            return false;
        }
        let size: usize = if self.layout.page_size == 0 {
            1
        } else {
            self.layout.page_size
        };
        self.highlighted = next;
        self.page = next / size;
        self.navigated = true;
        self.rebuild_page();
        true
    }

    /// Turn the page by `delta` and highlight the first candidate of the new page, skipping
    /// pages without candidates. Returns whether the page changed.
    pub fn turn_page(&mut self, delta: isize) -> (changed: bool)
        requires
            old(self).wf(),
        ensures
            final(self).wf(),
            (changed, final(self)@) == old(self)@.after_turn(delta as int),
    {
        let ghost v = self@;
        let len: usize = self.layout.cells.len();
        let found = self.find_page(delta);
        match found {
            None => false,
            Some((page, index)) => {
                proof {
                    lemma_page_scan(v.cells, v.size(), v.page_count() as int, clamp(v.page + delta, 0, v.page_count() - 1), v.page as int, sign(delta as int));
                    let (p, i) = v.turn_target(delta as int)->0;
                    crate::layout::lemma_first_between(v.cells, page_start(p, v.size()), page_end(p, v.size(), v.len()));
                    assert(0 <= p <= p * v.size()) by (nonlinear_arith)
                        requires 0 <= p, v.size() >= 1;
                    assert(i < len);
                    assert(p == page && i == index);
                    assert(page_start(p, v.size()) <= i < page_end(p, v.size(), v.len()));
                    assert(page_end(p, v.size(), v.len()) <= p * v.size() + v.size());
                    crate::layout::lemma_in_page(i, p, v.size() as int);
                }
                self.page = page;
                self.highlighted = index;
                self.navigated = true;
                self.rebuild_page();
                true
            },
        }
    }

    /// Query anew: take the preedit and layout from `frame`, or, when the query failed,
    /// show the raw composition with no candidates; highlight the first candidate.
    pub fn recompose(&mut self, composition: &str, composition_cursor: usize, frame: Option<QueryFrame>)
        requires
            old(self).wf(),
        ensures
            final(self).wf(),
            final(self)@ == old(self)@.after_recompose(composition@, composition_cursor as nat, frame),
    {
        let ghost v = self@;
        let ghost frame_view = frame;
        match frame {
            Some(frame) => {
                let QueryFrame { marked_text, marked_cursor, segments, layout } = frame;
                self.preedit_text = c_text(marked_text.as_str());
                self.preedit_cursor = marked_cursor;
                let mut marked: Vec<String> = Vec::new();
                let mut i: usize = 0;
                while i < segments.len()
                    invariant
                        i <= segments@.len(),
                        marked@.len() == i,
                        forall|j: int| 0 <= j < i ==> #[trigger] marked@[j]@ == spec_c_text(segments@[j]@),
                    decreases segments@.len() - i,
                {
                    marked.push(c_text(segments[i].as_str()));
                    i = i + 1;
                }
                self.preedit_segments = marked;
                self.layout = layout;
                assert(self.preedit_segments@.map_values(|segment: String| segment@) =~= segments@.map_values(|segment: String| spec_c_text(segment@)));
            },
            None => {
                self.preedit_text = c_text(composition);
                self.preedit_cursor = composition_cursor;
                let mut segments: Vec<String> = Vec::new();
                segments.push(c_text(composition));
                self.preedit_segments = segments;
                self.layout = CandidateLayout::empty();
                assert(self.preedit_segments@.map_values(|segment: String| segment@) =~= seq![spec_c_text(composition@)]);
                assert(self.layout.cells@ =~= Seq::<Cell>::empty());
            },
        }
        let len: usize = self.layout.cells.len();
        let highlighted: usize = match self.first_candidate_between(0, len) {
            Some(index) => index,
            None => 0,
        };
        let size: usize = if self.layout.page_size == 0 {
            1
        } else {
            self.layout.page_size
        };
        self.highlighted = highlighted;
        self.page = highlighted / size;
        self.navigated = false;
        proof {
            crate::layout::lemma_first_between(self.layout.cells@, 0, len as int);
        }
        assert(self@ == v.after_recompose(composition@, composition_cursor as nat, frame_view));
        self.rebuild_page();
    }

    /// Record `text` as the text to commit; the C side takes it after this call.
    pub fn set_commit(&mut self, text: &str)
        requires
            old(self).wf(),
        ensures
            final(self).wf(),
            final(self)@ == old(self)@.with_commit(text@),
    {
        self.commit = Some(c_text(text));
    }

    /// The text waiting to be committed, if any.
    pub fn commit_text(&self) -> (result: Option<&str>)
        ensures
            opt_str_view(result) == self@.commit,
    {
        match &self.commit {
            Some(text) => Some(text.as_str()),
            None => None,
        }
    }

    pub fn has_commit(&self) -> (result: bool)
        ensures
            result == self@.commit is Some,
    {
        self.commit.is_some()
    }

    /// Forget the committed text: a commit is handed over once.
    pub fn clear_commit(&mut self)
        requires
            old(self).wf(),
        ensures
            final(self).wf(),
            final(self)@ == old(self)@.without_commit(),
    {
        self.commit = None;
    }

    pub fn preedit_is_empty(&self) -> (result: bool)
        ensures
            result == (self@.preedit.len() == 0),
    {
        self.preedit_text.as_str().is_empty()
    }

    pub fn preedit_text(&self) -> (result: &str)
        ensures
            result@ == self@.preedit,
    {
        self.preedit_text.as_str()
    }

    /// Cursor in the preedit, counted in characters.
    pub fn preedit_cursor(&self) -> (result: usize)
        ensures
            result == self@.preedit_cursor,
    {
        self.preedit_cursor
    }

    pub fn preedit_segment_count(&self) -> (result: usize)
        ensures
            result == self@.segments.len(),
    {
        self.preedit_segments.len()
    }

    /// Segment `index` of the preedit, if there is one.
    pub fn preedit_segment(&self, index: usize) -> (result: Option<&str>)
        ensures
            match result {
                Some(text) => index < self@.segments.len() && text@ == self@.segments[index as int],
                None => index >= self@.segments.len(),
            },
    {
        if index < self.preedit_segments.len() {
            Some(self.preedit_segments[index].as_str())
        } else {
            None
        }
    }

    /// The short notice shown above the candidates, if any.
    pub fn aux_text(&self) -> (result: Option<&str>)
        ensures
            opt_str_view(result) == self@.aux,
    {
        match &self.aux {
            Some(text) => Some(text.as_str()),
            None => None,
        }
    }

    /// Number of candidates listed on the current page.
    pub fn candidate_count(&self) -> (result: usize)
        requires
            self.wf(),
        ensures
            result == self@.listed().len(),
    {
        self.slots.len()
    }

    /// Text of the `index`-th listed candidate.
    pub fn candidate_text(&self, index: usize) -> (result: Option<&str>)
        requires
            self.wf(),
        ensures
            match result {
                Some(text) => index < self@.listed().len() && text@ == slot_of(
                    self@.cells[self@.listed()[index as int]],
                ).0,
                None => index >= self@.listed().len(),
            },
    {
        if index < self.slots.len() {
            Some(self.slots[index].text.as_str())
        } else {
            None
        }
    }

    /// Comment (part of speech and translation) of the `index`-th listed candidate.
    pub fn candidate_comment(&self, index: usize) -> (result: Option<&str>)
        requires
            self.wf(),
        ensures
            match result {
                Some(text) => index < self@.listed().len() && text@ == slot_of(
                    self@.cells[self@.listed()[index as int]],
                ).1,
                None => index >= self@.listed().len(),
            },
    {
        if index < self.slots.len() {
            Some(self.slots[index].comment.as_str())
        } else {
            None
        }
    }

    /// Whether the `index`-th listed candidate came from the cloud.
    pub fn candidate_is_cloud(&self, index: usize) -> (result: bool)
        requires
            self.wf(),
        ensures
            result == (index < self@.listed().len() && self@.cells[self@.listed()[index as int]] is Cloud),
    {
        if index < self.slots.len() {
            proof {
                let cell = self@.cells[self@.listed()[index as int]];
                assert(slot_of(cell).2 == (cell is Cloud));
            }
            self.slots[index].cloud
        } else {
            false
        }
    }

    /// Position of the highlight among the listed candidates.
    pub fn cursor(&self) -> (result: usize)
        requires
            self.wf(),
        ensures
            result == self@.cursor(),
    {
        self.cursor
    }

    pub fn page_index(&self) -> (result: usize)
        ensures
            result == self@.page,
    {
        self.page
    }

    /// Number of pages, at least one.
    pub fn page_count(&self) -> (result: usize)
        ensures
            result == self@.page_count(),
    {
        let pages = self.layout.pages();
        if pages == 0 {
            1
        } else {
            pages
        }
    }

    /// Whether the current page lists any candidate.
    pub fn show_candidates(&self) -> (result: bool)
        requires
            self.wf(),
        ensures
            result == (self@.listed().len() > 0),
    {
        self.slots.len() > 0
    }

    /// Whether the highlight was moved or the page turned since the last query.
    pub fn navigated(&self) -> (result: bool)
        ensures
            result == self@.navigated,
    {
        self.navigated
    }

    /// The candidate in cell `absolute` of the whole layout.
    pub fn candidate(&self, absolute: usize) -> (result: Option<&Candidate>)
        ensures
            match result {
                Some(c) => absolute < self@.cells.len() && cell_candidate(self@.cells[absolute as int]) == Some(*c),
                None => !has_candidate(self@.cells, absolute as int),
            },
    {
        self.layout.candidate(absolute)
    }

    /// Absolute index of the `listed`-th candidate of the current page.
    pub fn listed_absolute(&self, listed: usize) -> (result: Option<usize>)
        requires
            self.wf(),
        ensures
            match result {
                Some(absolute) => listed < self@.listed().len() && absolute as int == self@.listed()[listed as int],
                None => listed >= self@.listed().len(),
            },
    {
        if listed < self.page_indices.len() {
            Some(self.page_indices[listed])
        } else {
            None
        }
    }

    /// The `listed`-th candidate of the current page (the index `qj_select` receives).
    pub fn candidate_listed(&self, listed: usize) -> (result: Option<&Candidate>)
        requires
            self.wf(),
        ensures
            match result {
                Some(c) => listed < self@.listed().len() && cell_candidate(
                    self@.cells[self@.listed()[listed as int]],
                ) == Some(*c),
                None => listed >= self@.listed().len(),
            },
    {
        match self.listed_absolute(listed) {
            Some(absolute) => {
                proof {
                    crate::layout::lemma_listed_between(
                        self@.cells,
                        page_start(self@.page as int, self@.size()),
                        page_end(self@.page as int, self@.size(), self@.len()),
                    );
                }
                self.candidate(absolute)
            },
            None => None,
        }
    }

    /// Listed index of the highlighted candidate: the one Space commits.
    pub fn highlighted_listed(&self) -> (result: usize)
        requires
            self.wf(),
        ensures
            result == self@.cursor(),
    {
        self.cursor
    }

    /// A new, empty session.
    pub fn new() -> (result: Self)
        ensures
            result.wf(),
            result@ == SessionView::initial(),
    {
        let session = QjSession {
            layout: CandidateLayout::empty(),
            highlighted: 0,
            page: 0,
            navigated: false,
            preedit_text: String::new(),
            preedit_cursor: 0,
            preedit_segments: Vec::new(),
            commit: None,
            aux: None,
            slots: Vec::new(),
            page_indices: Vec::new(),
            cursor: 0,
        };
        assert(session@.segments =~= Seq::<Seq<char>>::empty());
        assert(session@.cells =~= Seq::<Cell>::empty());
        assert(session@.preedit =~= Seq::<char>::empty());
        assert(session@.listed() =~= Seq::<int>::empty());
        session
    }

    /// Drop everything: the composition was abandoned or the session ended.
    pub fn clear(&mut self)
        ensures
            final(self).wf(),
            final(self)@ == SessionView::initial(),
    {
        *self = QjSession::new();
    }
}

/// `scan_from` lands on a cell holding a candidate.
pub proof fn lemma_scan_from(cells: Seq<Cell>, index: int, direction: int)
    ensures
        match scan_from(cells, index, direction) {
            Some(found) => has_candidate(cells, found),
            None => true,
        },
    decreases (if direction > 0 {
        cells.len() - index
    } else {
        index + 1
    }),
{
    if 0 <= index < cells.len() && cells[index] is Empty && direction != 0 && 0 <= index + direction
        < cells.len() {
        lemma_scan_from(cells, index + direction, direction);
    }
}

/// A candidate cell of page `page` is listed on that page.
proof fn lemma_listed_on_page(cells: Seq<Cell>, size: nat, index: int)
    requires
        size > 0,
        has_candidate(cells, index),
    ensures
        listed_between(
            cells,
            page_start(index / (size as int), size),
            page_end(index / (size as int), size, cells.len()),
        ).contains(index),
{
    lemma_page_of(index, size as int);
    crate::layout::lemma_listed_between(
        cells,
        page_start(index / (size as int), size),
        page_end(index / (size as int), size, cells.len()),
    );
}

/// The first candidate of a range is the first one listed for it.
proof fn lemma_first_is_listed_first(cells: Seq<Cell>, start: int, end: int, index: int)
    requires
        first_between(cells, start, end) == Some(index),
    ensures
        listed_between(cells, start, end).len() > 0,
        listed_between(cells, start, end)[0] == index,
{
    crate::layout::lemma_first_between(cells, start, end);
    crate::layout::lemma_listed_between(cells, start, end);
    let listed = listed_between(cells, start, end);
    assert(listed.contains(index));
    let k = choose|k: int| 0 <= k < listed.len() && listed[k] == index;
    if k > 0 {
        assert(listed[0] < listed[k]);
        assert(start <= listed[0]);
        assert(has_candidate(cells, listed[0]));
    }
}

/// The cursor of a listed highlight points at it.
proof fn lemma_cursor_points_at(v: SessionView)
    requires
        v.listed().contains(v.highlighted as int),
    ensures
        v.cursor() < v.listed().len(),
        v.listed()[v.cursor() as int] == v.highlighted,
{
}

/// Law: after the highlight moves, the session is still settled and the highlight sits on a
/// candidate listed on the current page, where the cursor points.
pub proof fn law_moved_highlight_is_listed(v: SessionView, delta: int)
    requires
        v.settled(),
    ensures
        v.after_move(delta).0 ==> ({
            let w = v.after_move(delta).1;
            &&& w.settled()
            &&& w.navigated
            &&& has_candidate(w.cells, w.highlighted as int)
            &&& w.listed().contains(w.highlighted as int)
            &&& w.listed()[w.cursor() as int] == w.highlighted
        }),
{
    if v.after_move(delta).0 {
        let w = v.after_move(delta).1;
        let next = v.move_target(delta)->0;
        lemma_scan_from(v.cells, clamp(v.highlighted + delta, 0, v.len() - 1), sign(delta));
        lemma_listed_on_page(v.cells, v.size(), next);
        lemma_page_of(next, v.size() as int);
        assert(w.highlighted == next);
        lemma_cursor_points_at(w);
    }
}

/// Law: turning the page lands on another page that lists a candidate, and highlights the
/// first candidate it lists.
pub proof fn law_turned_page_highlights_first(v: SessionView, delta: int)
    requires
        v.settled(),
    ensures
        v.after_turn(delta).0 ==> ({
            let w = v.after_turn(delta).1;
            &&& w.settled()
            &&& w.navigated
            &&& w.page != v.page
            &&& w.listed().len() > 0
            &&& w.listed()[0] == w.highlighted
            &&& w.cursor() == 0
        }),
{
    if v.after_turn(delta).0 {
        let w = v.after_turn(delta).1;
        let (page, index) = v.turn_target(delta)->0;
        lemma_page_scan(
            v.cells,
            v.size(),
            v.page_count() as int,
            clamp(v.page + delta, 0, v.page_count() - 1),
            v.page as int,
            sign(delta),
        );
        crate::layout::lemma_first_between(v.cells, page_start(page, v.size()), page_end(page, v.size(), v.len()));
        assert(0 <= page <= page * v.size()) by (nonlinear_arith)
            requires 0 <= page, v.size() >= 1;
        crate::layout::lemma_in_page(index, page, v.size() as int);
        lemma_first_is_listed_first(v.cells, page_start(page, v.size()), page_end(page, v.size(), v.len()), index);
        assert(w.listed() == listed_between(v.cells, page_start(page, v.size()), page_end(page, v.size(), v.len())));
        assert(w.listed().contains(index));
        lemma_cursor_points_at(w);
        crate::layout::lemma_listed_between(v.cells, page_start(page, v.size()), page_end(page, v.size(), v.len()));
        if w.cursor() > 0 {
            assert(w.listed()[0] < w.listed()[w.cursor() as int]);
        }
    }
}

/// Law: a new query highlights the first candidate of the layout and shows its page.
pub proof fn law_recompose_highlights_first(
    v: SessionView,
    composition: Seq<char>,
    composition_cursor: nat,
    frame: Option<QueryFrame>,
)
    ensures
        ({
            let w = v.after_recompose(composition, composition_cursor, frame);
            &&& w.settled()
            &&& !w.navigated
            &&& w.commit == v.commit
            &&& (exists|i: int| has_candidate(w.cells, i)) ==> w.listed().len() > 0 && w.listed()[w.cursor() as int] == w.highlighted
        }),
{
    let w = v.after_recompose(composition, composition_cursor, frame);
    crate::layout::lemma_first_between(w.cells, 0, w.cells.len() as int);
    lemma_page_of(w.highlighted as int, w.size() as int);
    if exists|i: int| has_candidate(w.cells, i) {
        let i = choose|i: int| has_candidate(w.cells, i);
        assert(first_between(w.cells, 0, w.cells.len() as int) is Some);
        lemma_listed_on_page(w.cells, w.size(), w.highlighted as int);
        lemma_cursor_points_at(w);
    }
}

/// Scanning down from `index` finds the nearest candidate at or below it.
proof fn lemma_scan_down(cells: Seq<Cell>, index: int)
    requires
        0 <= index < cells.len(),
    ensures
        match scan_from(cells, index, -1) {
            Some(found) => 0 <= found <= index && has_candidate(cells, found) && forall|i: int|
                found < i <= index ==> !has_candidate(cells, i),
            None => forall|i: int| 0 <= i <= index ==> !has_candidate(cells, i),
        },
    decreases index,
{
    if cells[index] is Empty && index >= 1 {
        lemma_scan_down(cells, index - 1);
    }
}

/// Scanning up from `index` finds the nearest candidate at or above it.
proof fn lemma_scan_up(cells: Seq<Cell>, index: int)
    requires
        0 <= index < cells.len(),
    ensures
        match scan_from(cells, index, 1) {
            Some(found) => index <= found < cells.len() && has_candidate(cells, found) && forall|i: int|
                index <= i < found ==> !has_candidate(cells, i),
            None => forall|i: int| index <= i < cells.len() ==> !has_candidate(cells, i),
        },
    decreases cells.len() - index,
{
    if cells[index] is Empty && index + 1 < cells.len() {
        lemma_scan_up(cells, index + 1);
    }
}

/// Law: moving the highlight by `delta` goes to the nearest candidate at or past the target
/// `clamp(highlighted + delta, 0, len - 1)` in the direction of the move (the target itself
/// when `delta` is 0); the move changes the session exactly when that candidate exists and is
/// not the highlighted one, and otherwise leaves it as it was.
pub proof fn law_move_highlight_nearest(v: SessionView, delta: int)
    ensures
        ({
            let target = clamp(v.highlighted + delta, 0, v.len() - 1);
            let (changed, w) = v.after_move(delta);
            &&& !changed ==> w == v
            &&& changed ==> w.highlighted != v.highlighted && has_candidate(v.cells, w.highlighted as int)
            &&& v.len() == 0 ==> !changed
            &&& (v.len() > 0 && delta < 0) ==> (forall|j: int|
                0 <= j <= target && #[trigger] has_candidate(v.cells, j) && (forall|i: int|
                    j < i <= target ==> !has_candidate(v.cells, i)) ==> changed == (j != v.highlighted) && (
                changed ==> w.highlighted == j))
            &&& (v.len() > 0 && delta < 0 && forall|j: int| 0 <= j <= target ==> !has_candidate(v.cells, j))
                ==> !changed
            &&& (v.len() > 0 && delta > 0) ==> (forall|j: int|
                target <= j < v.len() && #[trigger] has_candidate(v.cells, j) && (forall|i: int|
                    target <= i < j ==> !has_candidate(v.cells, i)) ==> changed == (j != v.highlighted) && (
                changed ==> w.highlighted == j))
            &&& (v.len() > 0 && delta > 0 && forall|j: int| target <= j < v.len() ==> !has_candidate(v.cells, j))
                ==> !changed
            &&& (v.len() > 0 && delta == 0) ==> changed == (has_candidate(v.cells, target) && target
                != v.highlighted)
        }),
{
    if v.len() > 0 {
        let target = clamp(v.highlighted + delta, 0, v.len() - 1);
        if delta < 0 {
            lemma_scan_down(v.cells, target);
            match scan_from(v.cells, target, -1) {
                Some(found) => {
                    assert forall|j: int|
                        0 <= j <= target && #[trigger] has_candidate(v.cells, j) && (forall|i: int|
                            j < i <= target ==> !has_candidate(v.cells, i)) implies j == found by {
                        if j < found {
                            assert(!has_candidate(v.cells, found));
                        } else if j > found {
                            assert(!has_candidate(v.cells, j));
                        }
                    }
                },
                None => {},
            }
        } else if delta > 0 {
            lemma_scan_up(v.cells, target);
            match scan_from(v.cells, target, 1) {
                Some(found) => {
                    assert forall|j: int|
                        target <= j < v.len() && #[trigger] has_candidate(v.cells, j) && (forall|i: int|
                            target <= i < j ==> !has_candidate(v.cells, i)) implies j == found by {
                        if j < found {
                            assert(!has_candidate(v.cells, j));
                        } else if j > found {
                            assert(!has_candidate(v.cells, found));
                        }
                    }
                },
                None => {},
            }
        }
    }
    lemma_scan_from(v.cells, clamp(v.highlighted + delta, 0, v.len() - 1), sign(delta));
}

/// Law: a new query drops the previous highlight: the highlight becomes the first candidate
/// of the new layout (no candidate lies before it), or 0 when the layout has none, whatever the
/// session held before, and the cursor is on the first listed slot; the cells are those of the
/// query, and the commit is kept.
pub proof fn law_recompose_resets_highlight(
    v: SessionView,
    composition: Seq<char>,
    composition_cursor: nat,
    frame: Option<QueryFrame>,
)
    ensures
        ({
            let w = v.after_recompose(composition, composition_cursor, frame);
            &&& frame matches Some(f) ==> w.cells == f.layout.cells@
            &&& frame is None ==> w.cells.len() == 0
            &&& forall|i: int| 0 <= i < w.highlighted ==> !has_candidate(w.cells, i)
            &&& (exists|i: int| has_candidate(w.cells, i)) ==> has_candidate(w.cells, w.highlighted as int)
            &&& (forall|i: int| !has_candidate(w.cells, i)) ==> w.highlighted == 0
            &&& w.cursor() == 0
            &&& !w.navigated
            &&& w.commit == v.commit
        }),
{
    let w = v.after_recompose(composition, composition_cursor, frame);
    let cells = w.cells;
    crate::layout::lemma_first_between(cells, 0, cells.len() as int);
    if exists|i: int| has_candidate(cells, i) {
        let i = choose|i: int| has_candidate(cells, i);
        assert(first_between(cells, 0, cells.len() as int) is Some);
    }
    if first_between(cells, 0, cells.len() as int) is Some {
        assert(has_candidate(cells, first_between(cells, 0, cells.len() as int)->0));
    }
    law_recompose_highlights_first(v, composition, composition_cursor, frame);
    if has_candidate(cells, w.highlighted as int) {
        lemma_highlight_listed(w);
        crate::layout::lemma_listed_between(
            cells,
            page_start(w.page as int, w.size()),
            page_end(w.page as int, w.size(), w.len()),
        );
        if w.cursor() > 0 {
            assert(w.listed()[0] < w.listed()[w.cursor() as int]);
            assert(has_candidate(cells, w.listed()[0]));
        }
    } else {
        if w.listed().contains(w.highlighted as int) {
            crate::layout::lemma_listed_between(
                cells,
                page_start(w.page as int, w.size()),
                page_end(w.page as int, w.size(), w.len()),
            );
            let k = choose|k: int| 0 <= k < w.listed().len() && w.listed()[k] == w.highlighted;
            assert(has_candidate(cells, w.listed()[k]));
        }
    }
}

/// Scanning pages forward from `page`, past the current one, finds the nearest page at or
/// after it that holds a candidate.
proof fn lemma_page_scan_up(cells: Seq<Cell>, size: nat, pages: int, page: int, current: int)
    requires
        0 <= page,
        current < page,
    ensures
        match page_scan(cells, size, pages, page, current, 1) {
            Some((p, i)) => page <= p < pages && first_between(
                cells,
                page_start(p, size),
                page_end(p, size, cells.len()),
            ) == Some(i) && forall|q: int|
                page <= q < p ==> #[trigger] first_between(
                    cells,
                    page_start(q, size),
                    page_end(q, size, cells.len()),
                ) is None,
            None => forall|q: int|
                page <= q < pages && 0 <= q ==> #[trigger] first_between(
                    cells,
                    page_start(q, size),
                    page_end(q, size, cells.len()),
                ) is None,
        },
    decreases pages - page,
{
    if 0 <= page < pages && first_between(cells, page_start(page, size), page_end(page, size, cells.len()))
        is None && page + 1 < pages {
        lemma_page_scan_up(cells, size, pages, page + 1, current);
    }
}

/// Scanning pages backward from `page`, before the current one, finds the nearest page at or
/// before it that holds a candidate.
proof fn lemma_page_scan_down(cells: Seq<Cell>, size: nat, pages: int, page: int, current: int)
    requires
        page < current,
        page < pages,
    ensures
        match page_scan(cells, size, pages, page, current, -1) {
            Some((p, i)) => 0 <= p <= page && first_between(
                cells,
                page_start(p, size),
                page_end(p, size, cells.len()),
            ) == Some(i) && forall|q: int|
                p < q <= page ==> #[trigger] first_between(
                    cells,
                    page_start(q, size),
                    page_end(q, size, cells.len()),
                ) is None,
            None => forall|q: int|
                0 <= q <= page ==> #[trigger] first_between(
                    cells,
                    page_start(q, size),
                    page_end(q, size, cells.len()),
                ) is None,
        },
    decreases page + 1,
{
    if 0 <= page && first_between(cells, page_start(page, size), page_end(page, size, cells.len())) is None
        && page >= 1 {
        lemma_page_scan_down(cells, size, pages, page - 1, current);
    }
}

/// A settled session's page is one of its pages.
proof fn lemma_settled_page(v: SessionView)
    requires
        v.settled(),
    ensures
        v.page < v.page_count(),
{
    lemma_page_of(v.highlighted as int, v.size() as int);
    crate::layout::lemma_pages(v.len(), v.size(), v.page as int);
    if v.len() > 0 {
        assert(v.page * v.size() <= v.highlighted);
    }
}

/// Turning forward lands on the nearest later page holding a candidate.
proof fn lemma_turn_forward(v: SessionView, delta: int)
    requires
        v.settled(),
        delta > 0,
        clamp(v.page + delta, 0, v.page_count() - 1) != v.page,
    ensures
        ({
            let target = clamp(v.page + delta, 0, v.page_count() - 1);
            let (changed, w) = v.after_turn(delta);
            &&& forall|p: int|
                target <= p < v.page_count() && #[trigger] v.first_on_page(p) is Some && (forall|q: int|
                    target <= q < p ==> v.first_on_page(q) is None) ==> changed && w.page == p && w.highlighted
                    == v.first_on_page(p)->0
            &&& (forall|p: int| target <= p < v.page_count() ==> v.first_on_page(p) is None) ==> !changed
        }),
{
    let target = clamp(v.page + delta, 0, v.page_count() - 1);
    let pc = v.page_count() as int;
    lemma_settled_page(v);
    lemma_page_scan_up(v.cells, v.size(), pc, target, v.page as int);
    assert(sign(delta) == 1);
    assert(v.turn_target(delta) == page_scan(v.cells, v.size(), pc, target, v.page as int, 1));
    let (changed, w) = v.after_turn(delta);
    match page_scan(v.cells, v.size(), pc, target, v.page as int, 1) {
        Some((found, index)) => {
            assert(v.first_on_page(found) == Some(index));
            crate::layout::lemma_first_between(
                v.cells,
                page_start(found, v.size()),
                page_end(found, v.size(), v.len()),
            );
            assert(0 <= index && 0 <= found);
            assert(changed && w.page == found && w.highlighted == index);
            assert forall|p: int|
                target <= p < pc && #[trigger] v.first_on_page(p) is Some && (forall|q: int|
                    target <= q < p ==> v.first_on_page(q) is None) implies p == found by {
                if p < found {
                    assert(v.first_on_page(p) is None);
                } else if p > found {
                    assert(v.first_on_page(found) is None);
                }
            }
        },
        None => {},
    }
}

/// Turning backward lands on the nearest earlier page holding a candidate.
proof fn lemma_turn_backward(v: SessionView, delta: int)
    requires
        v.settled(),
        delta < 0,
        clamp(v.page + delta, 0, v.page_count() - 1) != v.page,
    ensures
        ({
            let target = clamp(v.page + delta, 0, v.page_count() - 1);
            let (changed, w) = v.after_turn(delta);
            &&& forall|p: int|
                0 <= p <= target && #[trigger] v.first_on_page(p) is Some && (forall|q: int|
                    p < q <= target ==> v.first_on_page(q) is None) ==> changed && w.page == p && w.highlighted
                    == v.first_on_page(p)->0
            &&& (forall|p: int| 0 <= p <= target ==> v.first_on_page(p) is None) ==> !changed
        }),
{
    let target = clamp(v.page + delta, 0, v.page_count() - 1);
    let pc = v.page_count() as int;
    lemma_settled_page(v);
    lemma_page_scan_down(v.cells, v.size(), pc, target, v.page as int);
    assert(sign(delta) == -1);
    assert(v.turn_target(delta) == page_scan(v.cells, v.size(), pc, target, v.page as int, -1));
    let (changed, w) = v.after_turn(delta);
    match page_scan(v.cells, v.size(), pc, target, v.page as int, -1) {
        Some((found, index)) => {
            assert(v.first_on_page(found) == Some(index));
            crate::layout::lemma_first_between(
                v.cells,
                page_start(found, v.size()),
                page_end(found, v.size(), v.len()),
            );
            assert(0 <= index && 0 <= found);
            assert(changed && w.page == found && w.highlighted == index);
            assert forall|p: int|
                0 <= p <= target && #[trigger] v.first_on_page(p) is Some && (forall|q: int|
                    p < q <= target ==> v.first_on_page(q) is None) implies p == found by {
                if p < found {
                    assert(v.first_on_page(found) is None);
                } else if p > found {
                    assert(v.first_on_page(p) is None);
                }
            }
        },
        None => {},
    }
}

/// Law: turning the page by `delta` goes to the nearest page at or past the target page
/// `clamp(page + delta, 0, page_count - 1)`, in the direction of the turn, that holds a
/// candidate, and highlights that page's first candidate; when the target is the current page
/// (no page to turn to) or no such page exists, nothing changes.
pub proof fn law_turn_page_nearest(v: SessionView, delta: int)
    requires
        v.settled(),
    ensures
        ({
            let target = clamp(v.page + delta, 0, v.page_count() - 1);
            let (changed, w) = v.after_turn(delta);
            &&& !changed ==> w == v
            &&& target == v.page ==> !changed
            &&& (delta > 0 && target != v.page) ==> (forall|p: int|
                target <= p < v.page_count() && #[trigger] v.first_on_page(p) is Some && (forall|q: int|
                    target <= q < p ==> v.first_on_page(q) is None) ==> changed && w.page == p && w.highlighted
                    == v.first_on_page(p)->0)
            &&& (delta > 0 && forall|p: int| target <= p < v.page_count() ==> v.first_on_page(p) is None)
                ==> !changed
            &&& (delta < 0 && target != v.page) ==> (forall|p: int|
                0 <= p <= target && #[trigger] v.first_on_page(p) is Some && (forall|q: int|
                    p < q <= target ==> v.first_on_page(q) is None) ==> changed && w.page == p && w.highlighted
                    == v.first_on_page(p)->0)
            &&& (delta < 0 && forall|p: int| 0 <= p <= target ==> v.first_on_page(p) is None) ==> !changed
        }),
{
    let target = clamp(v.page + delta, 0, v.page_count() - 1);
    lemma_settled_page(v);
    if delta > 0 && target != v.page {
        lemma_turn_forward(v, delta);
    } else if delta < 0 && target != v.page {
        lemma_turn_backward(v, delta);
    }
}

/// Law: a new query shows what the query returned: the marked preedit text (as the C side
/// receives it), its cursor, its segments and its candidate layout; a failed query shows the
/// raw composition as the one segment, with no candidates. The commit and the auxiliary text
/// are kept.
pub proof fn law_recompose_shows_query(
    v: SessionView,
    composition: Seq<char>,
    composition_cursor: nat,
    frame: Option<QueryFrame>,
)
    ensures
        ({
            let w = v.after_recompose(composition, composition_cursor, frame);
            &&& frame matches Some(f) ==> {
                &&& w.preedit == spec_c_text(f.marked_text@)
                &&& w.preedit_cursor == f.marked_cursor
                &&& w.segments.len() == f.segments@.len()
                &&& forall|k: int| 0 <= k < w.segments.len() ==> #[trigger] w.segments[k] == spec_c_text(
                    f.segments@[k]@,
                )
                &&& w.cells == f.layout.cells@
                &&& w.page_size == f.layout.page_size
            }
            &&& frame is None ==> {
                &&& w.preedit == spec_c_text(composition)
                &&& w.preedit_cursor == composition_cursor
                &&& w.segments == seq![spec_c_text(composition)]
                &&& w.cells.len() == 0
            }
            &&& w.commit == v.commit
            &&& w.aux == v.aux
        }),
{
}

/// A settled session whose highlighted cell holds a candidate lists it, and its cursor
/// points at it.
pub proof fn lemma_highlight_listed(v: SessionView)
    requires
        v.settled(),
        has_candidate(v.cells, v.highlighted as int),
    ensures
        v.listed().contains(v.highlighted as int),
        v.cursor() < v.listed().len(),
        v.listed()[v.cursor() as int] == v.highlighted,
{
    lemma_listed_on_page(v.cells, v.size(), v.highlighted as int);
    lemma_cursor_points_at(v);
}

impl QjSession {
    /// Law: a well-formed session is settled, its current page lies within the page count, and
    /// its cursor points below the number of listed candidates (or is 0 when none is listed).
    pub proof fn lemma_wf_settled(&self)
        requires
            self.wf(),
        ensures
            self@.settled(),
            self@.page < self@.page_count(),
            self@.cursor() < self@.listed().len() || (self@.listed().len() == 0 && self@.cursor() == 0),
    {
        let v = self@;
        lemma_page_of(v.highlighted as int, v.size() as int);
        crate::layout::lemma_pages(v.len(), v.size(), v.page as int);
        if v.len() > 0 {
            assert(v.page * v.size() <= v.highlighted);
        }
    }
}

} // verus!
