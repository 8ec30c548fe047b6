//! Key routing against a small in-memory engine: typing pinyin, picking, committing,
//! backspace, Escape, focus changes.

use qingjian_fcitx5::keys::{
    is_pinyin_key, keysym_to_char, process, KeyContext, Reply, Request, Stage, Trigger, KEYSYM_BACKSPACE,
    KEYSYM_DOWN, KEYSYM_ESCAPE, KEYSYM_RETURN, KEYSYM_UP, MOD_CONTROL, MOD_SHIFT,
};
use qingjian_fcitx5::layout::{Candidate, CandidateLayout, Cell};
use qingjian_fcitx5::session::{QjSession, QueryFrame};

/// A toy engine: a composition buffer and a fixed table of candidates.
struct ToyEngine {
    buffer: String,
    committed_candidates: Vec<String>,
}

impl ToyEngine {
    fn new() -> Self {
        ToyEngine { buffer: String::new(), committed_candidates: Vec::new() }
    }

    fn candidates(&self) -> Vec<&'static str> {
        match self.buffer.as_str() {
            "ni" => vec!["你", "泥", "尼"],
            "nihao" => vec!["你好", "拟好"],
            "hao" => vec!["好", "号"],
            _ => vec![],
        }
    }

    fn frame(&self) -> Reply {
        let words = self.candidates();
        let frame = if words.is_empty() && !self.buffer.is_empty() {
            None
        } else {
            let cells = words
                .iter()
                .map(|w| Cell::Local(Candidate { text: w.to_string(), translation: None }))
                .collect();
            Some(QueryFrame {
                marked_text: self.buffer.clone(),
                marked_cursor: self.buffer.chars().count(),
                segments: if self.buffer.is_empty() { vec![] } else { vec![self.buffer.clone()] },
                layout: CandidateLayout::new(cells, 5),
            })
        };
        Reply::Frame {
            composition: self.buffer.clone(),
            composition_cursor: self.buffer.chars().count(),
            frame,
        }
    }

    fn composing(&self) -> bool {
        !self.buffer.is_empty()
    }
}

/// Drive one routing to its end, the way the host does.
fn run(engine: &mut ToyEngine, session: &mut QjSession, trigger: Trigger) -> bool {
    let mut stage = Stage::Idle;
    let mut reply = Reply::Start(trigger);
    loop {
        let (next, request) = process(stage, session, reply);
        stage = next;
        reply = match request {
            Request::Finish(consumed) => return consumed,
            Request::Backspace => {
                engine.buffer.pop();
                Reply::Done
            }
            Request::DeleteForward => Reply::Done,
            Request::ClearComposition => {
                engine.buffer.clear();
                Reply::Done
            }
            Request::Push(c) => {
                engine.buffer.push(c);
                Reply::Done
            }
            Request::NotePageTurn | Request::BreakChain | Request::FlushLearning => Reply::Done,
            Request::TakeRaw => Reply::Raw(std::mem::take(&mut engine.buffer)),
            Request::Commit(absolute) => {
                let text = engine.candidates()[absolute].to_string();
                engine.committed_candidates.push(text.clone());
                engine.buffer.clear();
                Reply::Committed(text)
            }
            Request::Punctuate(c) => Reply::Punctuation(match c {
                ',' => Some("，".to_string()),
                '.' => Some("。".to_string()),
                _ => None,
            }),
            Request::Query => engine.frame(),
        };
    }
}

fn key(engine: &mut ToyEngine, session: &mut QjSession, keysym: u32, modifiers: u32) -> bool {
    let context = KeyContext { composing: engine.composing(), page_keys: ('[', ']') };
    run(
        engine,
        session,
        Trigger::Key { keysym, modifiers, is_release: false, context: Some(context) },
    )
}

fn press(engine: &mut ToyEngine, session: &mut QjSession, keys: &str) {
    for ch in keys.chars() {
        assert!(key(engine, session, ch as u32, 0), "{ch:?} should be consumed");
    }
}

#[test]
fn types_nihao_and_commits_first_candidate() {
    let mut engine = ToyEngine::new();
    let mut session = QjSession::new();
    press(&mut engine, &mut session, "nihao");
    assert!(engine.composing());
    assert!(!session.preedit_is_empty());
    assert!(session.candidate_count() >= 1);
    assert_eq!(session.candidate_text(0), Some("你好"));

    assert!(run(&mut engine, &mut session, Trigger::Select { listed: 0 }));
    assert!(session.has_commit());
    assert_eq!(session.commit_text(), Some("你好"));
    assert!(!engine.composing());
}

#[test]
fn commit_is_single_shot() {
    let mut engine = ToyEngine::new();
    let mut session = QjSession::new();
    press(&mut engine, &mut session, "nihao");
    assert!(run(&mut engine, &mut session, Trigger::Select { listed: 0 }));
    assert!(session.has_commit());
    session.clear_commit();
    assert!(!session.has_commit());

    // Losing focus must not hand the previous commit over again.
    run(&mut engine, &mut session, Trigger::FocusOut);
    assert!(!session.has_commit());
}

#[test]
fn backspace_and_escape_clear_composition() {
    let mut engine = ToyEngine::new();
    let mut session = QjSession::new();
    press(&mut engine, &mut session, "ni");
    assert!(engine.composing());
    assert!(key(&mut engine, &mut session, KEYSYM_BACKSPACE, 0));
    assert!(key(&mut engine, &mut session, KEYSYM_BACKSPACE, 0));
    assert!(!engine.composing());

    press(&mut engine, &mut session, "nihao");
    assert!(key(&mut engine, &mut session, KEYSYM_ESCAPE, 0));
    assert!(!engine.composing());
    assert!(!session.has_commit());
    assert_eq!(session.candidate_count(), 0);
}

#[test]
fn space_commits_highlighted_and_digits_pick() {
    let mut engine = ToyEngine::new();
    let mut session = QjSession::new();
    press(&mut engine, &mut session, "ni");
    assert!(key(&mut engine, &mut session, KEYSYM_DOWN, 0));
    assert_eq!(session.cursor(), 1);
    assert!(session.navigated());
    assert!(key(&mut engine, &mut session, ' ' as u32, 0));
    assert_eq!(session.commit_text(), Some("泥"));

    press(&mut engine, &mut session, "ni");
    assert!(key(&mut engine, &mut session, '3' as u32, 0));
    assert_eq!(session.commit_text(), Some("尼"));

    // A digit past the listed candidates commits the pinyin as typed.
    press(&mut engine, &mut session, "ni");
    assert!(key(&mut engine, &mut session, '9' as u32, 0));
    assert_eq!(session.commit_text(), Some("ni"));
}

#[test]
fn punctuation_commits_highlight_then_full_width() {
    let mut engine = ToyEngine::new();
    let mut session = QjSession::new();
    press(&mut engine, &mut session, "nihao");
    assert!(key(&mut engine, &mut session, ',' as u32, 0));
    assert_eq!(session.commit_text(), Some("你好，"));

    // Without a composition, punctuation goes out full-width on its own.
    assert!(key(&mut engine, &mut session, '.' as u32, 0));
    assert_eq!(session.commit_text(), Some("。"));

    // A character with no full-width form and no composition goes to the application.
    assert!(!key(&mut engine, &mut session, '#' as u32, 0));
    assert!(!session.has_commit());
}

#[test]
fn return_commits_raw_and_shortcuts_pass() {
    let mut engine = ToyEngine::new();
    let mut session = QjSession::new();
    press(&mut engine, &mut session, "hao");
    assert!(!key(&mut engine, &mut session, 'c' as u32, MOD_CONTROL));
    assert!(engine.composing());
    assert!(key(&mut engine, &mut session, KEYSYM_RETURN, 0));
    assert_eq!(session.commit_text(), Some("hao"));
    assert!(!engine.composing());
    // Return with nothing composed is left to the application.
    assert!(!key(&mut engine, &mut session, KEYSYM_RETURN, 0));
}

#[test]
fn releases_pass_through_and_clear_commit() {
    let mut engine = ToyEngine::new();
    let mut session = QjSession::new();
    press(&mut engine, &mut session, "hao");
    assert!(run(&mut engine, &mut session, Trigger::Select { listed: 1 }));
    assert_eq!(session.commit_text(), Some("号"));
    let context = KeyContext { composing: false, page_keys: ('[', ']') };
    assert!(!run(
        &mut engine,
        &mut session,
        Trigger::Key { keysym: 'a' as u32, modifiers: 0, is_release: true, context: Some(context) },
    ));
    assert!(!session.has_commit());
}

#[test]
fn selecting_past_the_page_does_nothing() {
    let mut engine = ToyEngine::new();
    let mut session = QjSession::new();
    press(&mut engine, &mut session, "hao");
    assert!(!run(&mut engine, &mut session, Trigger::Select { listed: 7 }));
    assert!(!session.has_commit());
    assert!(engine.composing());
}

#[test]
fn up_at_the_top_stays() {
    let mut engine = ToyEngine::new();
    let mut session = QjSession::new();
    press(&mut engine, &mut session, "ni");
    assert!(key(&mut engine, &mut session, KEYSYM_UP, 0));
    assert_eq!(session.cursor(), 0);
    assert!(!session.navigated());
}

#[test]
fn poll_recomposes_only_on_news() {
    let mut engine = ToyEngine::new();
    let mut session = QjSession::new();
    press(&mut engine, &mut session, "ni");
    assert!(!run(&mut engine, &mut session, Trigger::Poll { learned: 0, rescored: false }));
    assert!(run(&mut engine, &mut session, Trigger::Poll { learned: 2, rescored: false }));
    assert!(run(&mut engine, &mut session, Trigger::Poll { learned: 0, rescored: true }));
}

#[test]
fn keysyms_become_printable_ascii() {
    assert_eq!(keysym_to_char('a' as u32, false), Some('a'));
    assert_eq!(keysym_to_char('a' as u32, true), Some('A'));
    assert_eq!(keysym_to_char('1' as u32, true), Some('1'));
    assert_eq!(keysym_to_char(0x7e, false), Some('~'));
    assert_eq!(keysym_to_char(0x7f, false), None);
    assert_eq!(keysym_to_char(0x1f, false), None);
    assert_eq!(keysym_to_char(0xff08, false), None);
    assert_eq!(MOD_SHIFT, 1);
}

#[test]
fn pinyin_keys_are_lowercase_letters_and_apostrophe() {
    assert!(is_pinyin_key('a'));
    assert!(is_pinyin_key('z'));
    assert!(is_pinyin_key('\''));
    assert!(!is_pinyin_key('A'));
    assert!(!is_pinyin_key(';'));
    assert!(!is_pinyin_key('1'));
}

#[test]
fn unexpected_replies_end_the_routing() {
    let mut session = QjSession::new();
    let (stage, request) = process(Stage::AwaitRaw, &mut session, Reply::Done);
    assert!(matches!(stage, Stage::Idle));
    assert!(matches!(request, Request::Finish(false)));
    let (stage, request) = process(Stage::Idle, &mut session, Reply::Committed("x".to_string()));
    assert!(matches!(stage, Stage::Idle));
    assert!(matches!(request, Request::Finish(false)));
    assert!(!session.has_commit());
}

#[test]
fn focus_out_commits_what_is_composed() {
    let mut engine = ToyEngine::new();
    let mut session = QjSession::new();
    press(&mut engine, &mut session, "hao");
    assert!(!run(&mut engine, &mut session, Trigger::FocusOut));
    assert_eq!(session.commit_text(), Some("hao"));
    assert!(!engine.composing());
    assert_eq!(session.candidate_count(), 0);
}
