//! Paging, highlighting and the listed slots of a session.

use qingjian_fcitx5::layout::{comment_of, Candidate, CandidateLayout, Cell, Sense};
use qingjian_fcitx5::session::{QjSession, QueryFrame};

fn local(text: &str) -> Cell {
    Cell::Local(Candidate { text: text.to_string(), translation: None })
}

fn cloud(text: &str) -> Cell {
    Cell::Cloud(Candidate { text: text.to_string(), translation: None })
}

/// Pages of two: [a, _], [b, c☁], [_, _], [d].
fn paged_session() -> QjSession {
    let cells = vec![local("a"), Cell::Empty, local("b"), cloud("c"), Cell::Empty, Cell::Empty, local("d")];
    let mut session = QjSession::new();
    session.recompose(
        "abcd",
        4,
        Some(QueryFrame {
            marked_text: "a b c d".to_string(),
            marked_cursor: 7,
            segments: vec!["a".to_string(), "b c d".to_string()],
            layout: CandidateLayout::new(cells, 2),
        }),
    );
    session
}

#[test]
fn recompose_highlights_first_candidate() {
    let session = paged_session();
    assert_eq!(session.page_index(), 0);
    assert_eq!(session.page_count(), 4);
    assert_eq!(session.candidate_count(), 1);
    assert_eq!(session.candidate_text(0), Some("a"));
    assert_eq!(session.candidate_text(1), None);
    assert_eq!(session.cursor(), 0);
    assert!(session.show_candidates());
    assert!(!session.navigated());
    assert_eq!(session.preedit_text(), "a b c d");
    assert_eq!(session.preedit_cursor(), 7);
    assert_eq!(session.preedit_segment_count(), 2);
    assert_eq!(session.preedit_segment(1), Some("b c d"));
    assert_eq!(session.preedit_segment(2), None);
    assert_eq!(session.aux_text(), None);
}

#[test]
fn turning_pages_skips_empty_pages() {
    let mut session = paged_session();
    assert!(session.turn_page(1));
    assert_eq!(session.page_index(), 1);
    assert_eq!(session.candidate_count(), 2);
    assert_eq!(session.cursor(), 0);
    assert_eq!(session.candidate_text(0), Some("b"));
    assert!(session.candidate_is_cloud(1));
    assert!(!session.candidate_is_cloud(0));
    assert!(session.navigated());

    assert!(session.turn_page(1));
    assert_eq!(session.page_index(), 3);
    assert_eq!(session.candidate_text(0), Some("d"));

    assert!(!session.turn_page(1));
    assert_eq!(session.page_index(), 3);

    assert!(session.turn_page(-1));
    assert_eq!(session.page_index(), 1);
    assert_eq!(session.highlighted_listed(), 0);
}

#[test]
fn moving_the_highlight_skips_gaps_and_turns_pages() {
    let mut session = paged_session();
    assert!(session.move_highlight(1));
    assert_eq!(session.page_index(), 1);
    assert_eq!(session.candidate_text(session.cursor()), Some("b"));
    assert!(session.move_highlight(1));
    assert_eq!(session.cursor(), 1);
    assert!(session.move_highlight(1));
    assert_eq!(session.page_index(), 3);
    assert_eq!(session.candidate_text(session.cursor()), Some("d"));
    assert!(!session.move_highlight(1));
    assert!(session.move_highlight(-100));
    assert_eq!(session.page_index(), 0);
    assert_eq!(session.cursor(), 0);
    assert!(!session.move_highlight(0));
}

#[test]
fn listed_candidates_map_to_the_layout() {
    let mut session = paged_session();
    session.turn_page(1);
    assert_eq!(session.listed_absolute(1), Some(3));
    assert_eq!(session.candidate_listed(1).map(|c| c.text.as_str()), Some("c"));
    assert!(session.candidate_listed(2).is_none());
    assert!(session.candidate(1).is_none());
    assert_eq!(session.candidate(6).map(|c| c.text.as_str()), Some("d"));
    assert!(session.candidate(60).is_none());
}

#[test]
fn failed_query_shows_the_raw_composition() {
    let mut session = paged_session();
    session.recompose("xyz", 2, None);
    assert_eq!(session.preedit_text(), "xyz");
    assert_eq!(session.preedit_cursor(), 2);
    assert_eq!(session.preedit_segment_count(), 1);
    assert_eq!(session.candidate_count(), 0);
    assert!(!session.show_candidates());
    assert_eq!(session.page_count(), 1);
    assert_eq!(session.page_index(), 0);
}

#[test]
fn texts_with_nul_cross_as_empty() {
    let mut session = QjSession::new();
    session.set_commit("a\0b");
    assert!(session.has_commit());
    assert_eq!(session.commit_text(), Some(""));
    session.recompose("n\0i", 1, None);
    assert!(session.preedit_is_empty());
    session.clear();
    assert!(!session.has_commit());
    assert_eq!(session.page_count(), 1);
}

#[test]
fn comments_join_senses() {
    let candidate = Candidate {
        text: "你好".to_string(),
        translation: Some(vec![
            Sense { part_of_speech: Some("int.".to_string()), text: "hello".to_string() },
            Sense { part_of_speech: None, text: "hi".to_string() },
        ]),
    };
    assert_eq!(comment_of(&candidate), "int. hello · hi");
    let bare = Candidate { text: "好".to_string(), translation: None };
    assert_eq!(comment_of(&bare), "");
    let no_senses = Candidate { text: "好".to_string(), translation: Some(vec![]) };
    assert_eq!(comment_of(&no_senses), "");

    let mut session = QjSession::new();
    session.recompose(
        "nihao",
        5,
        Some(QueryFrame {
            marked_text: "ni hao".to_string(),
            marked_cursor: 6,
            segments: vec![],
            layout: CandidateLayout::new(vec![Cell::Local(candidate)], 9),
        }),
    );
    assert_eq!(session.candidate_comment(0), Some("int. hello · hi"));
    assert_eq!(session.candidate_comment(1), None);
}

#[test]
fn page_and_cursor_stay_in_bounds() {
    let mut session = paged_session();
    for step in [1isize, 1, 1, -1, 5, -5] {
        session.move_highlight(step);
        assert!(session.page_index() < session.page_count());
        assert!(session.cursor() < session.candidate_count());
        session.turn_page(step);
        assert!(session.page_index() < session.page_count());
        assert!(session.cursor() < session.candidate_count());
    }
    session.clear();
    assert!(session.page_index() < session.page_count());
    assert_eq!(session.cursor(), 0);
    assert_eq!(session.candidate_count(), 0);
}
