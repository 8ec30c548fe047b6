//! Key routing: from a key press (or a selection, a focus change, a poll) to the engine
//! calls it needs and the session state it leaves.
//!
//! The engine lives with the host. Routing is a state machine: [`process`] takes the current
//! [`Stage`] and the host's [`Reply`], updates the session, and returns the next stage with the
//! [`Request`] the host must carry out; the host answers each request with a reply, until the
//! request is [`Request::Finish`], which carries whether the key was consumed.
use vstd::prelude::*;

use crate::layout::has_candidate;
use crate::session::{lemma_highlight_listed, QjSession, QueryFrame, SessionView};
use crate::text::spec_c_text;

verus! {

pub const MOD_SHIFT: u32 = 1;

pub const MOD_CONTROL: u32 = 4;

pub const MOD_SUPER: u32 = 64;

pub const KEYSYM_BACKSPACE: u32 = 0xff08;

pub const KEYSYM_TAB: u32 = 0xff09;

pub const KEYSYM_RETURN: u32 = 0xff0d;

pub const KEYSYM_ESCAPE: u32 = 0xff1b;

pub const KEYSYM_UP: u32 = 0xff52;

pub const KEYSYM_DOWN: u32 = 0xff54;

pub const KEYSYM_PAGE_UP: u32 = 0xff55;

pub const KEYSYM_PAGE_DOWN: u32 = 0xff56;

pub const KEYSYM_DELETE: u32 = 0xffff;

pub const KEYSYM_KP_ENTER: u32 = 0xff8d;

/// Whether `character` extends a pinyin composition: a lowercase ASCII letter or the
/// syllable separator `'`.
pub open spec fn spec_is_pinyin_key(character: char) -> bool {
    ('a' <= character && character <= 'z') || character == '\''
}

pub fn is_pinyin_key(character: char) -> (result: bool)
    ensures
        result == spec_is_pinyin_key(character),
{
    ('a' <= character && character <= 'z') || character == '\''
}

/// The printable-ASCII character for `keysym`, upper-cased when `shift` is held on a letter.
pub open spec fn spec_keysym_to_char(keysym: u32, shift: bool) -> Option<char> {
    if 0x20 <= keysym && keysym <= 0x7e {
        if shift && 0x61 <= keysym && keysym <= 0x7a {
            Some((keysym - 32) as char)
        } else {
            Some(keysym as char)
        }
    } else {
        None
    }
}

pub fn keysym_to_char(keysym: u32, shift: bool) -> (result: Option<char>)
    ensures
        result == spec_keysym_to_char(keysym, shift),
{
    if 0x20 <= keysym && keysym <= 0x7e {
        let byte: u8 = keysym as u8;
        let character = byte as char;
        if shift && 0x61 <= keysym && keysym <= 0x7a {
            let upper: u8 = byte - 32;
            Some(upper as char)
        } else {
            Some(character)
        }
    } else {
        None
    }
}

/// What the host knows of the engine when a key arrives.
pub struct KeyContext {
    /// Whether the composition buffer holds anything.
    pub composing: bool,
    /// The characters that turn to the previous and the next page.
    pub page_keys: (char, char),
}

/// What starts a routing.
pub enum Trigger {
    /// A key event; `context` is `None` when no engine is loaded.
    Key { keysym: u32, modifiers: u32, is_release: bool, context: Option<KeyContext> },
    /// The user picked the `listed`-th candidate of the current page.
    Select { listed: usize },
    /// The input context lost focus.
    FocusOut,
    /// A timer tick: how many glosses arrived and whether a rescoring arrived.
    Poll { learned: usize, rescored: bool },
}

/// What the host answers.
pub enum Reply {
    /// Begin routing a trigger.
    Start(Trigger),
    /// The requested engine call is done and returned nothing.
    Done,
    /// The raw composition the engine handed over (and dropped).
    Raw(String),
    /// The text the engine commits for the requested candidate.
    Committed(String),
    /// The full-width punctuation for the requested character, if any.
    Punctuation(Option<String>),
    /// The engine's new query: the composition, its cursor, and the query frame, or `None`
    /// when the composition could not be segmented.
    Frame { composition: String, composition_cursor: usize, frame: Option<QueryFrame> },
}

/// What the host must do next.
pub enum Request {
    /// Routing is over; the flag tells whether the key was consumed (or the selection, poll
    /// changed anything).
    Finish(bool),
    Backspace,
    DeleteForward,
    /// Clear the composition buffer.
    ClearComposition,
    /// Append the character to the composition.
    Push(char),
    NotePageTurn,
    /// Hand over the raw composition and drop it; answer with [`Reply::Raw`].
    TakeRaw,
    /// Commit the candidate in this cell of the layout; answer with [`Reply::Committed`].
    Commit(usize),
    /// Convert the character to full-width punctuation; answer with [`Reply::Punctuation`].
    Punctuate(char),
    /// Query the composition; answer with [`Reply::Frame`].
    Query,
    BreakChain,
    FlushLearning,
}

/// Where a routing stands between two replies.
pub enum Stage {
    Idle,
    /// After an edit of the composition: query next.
    AfterEdit,
    /// Waiting for the query; then finish with `result`.
    AwaitFrame { result: bool },
    /// After clearing the composition: clear the session.
    AfterClear,
    /// Waiting for the raw composition to commit as it is.
    AwaitRaw,
    /// Waiting for the text of a committed candidate.
    AwaitCommitted,
    /// After noting a page turn.
    AfterPageTurn,
    /// A character that is neither pinyin nor a command: waiting for the highlighted
    /// candidate's text, to be followed by the character's punctuation.
    AwaitPrefixCommitted { character: char },
    /// As above, when no candidate is highlighted: waiting for the raw composition.
    AwaitPrefixRaw { character: char },
    /// Waiting for the punctuation to append to `committed`.
    AwaitPunctuation { committed: Option<String> },
    /// A character typed with no composition: waiting for its punctuation.
    AwaitIdlePunctuation { character: char },
    /// Focus lost: waiting for the raw composition.
    AwaitFocusRaw,
    AfterBreak,
    AfterFlush,
}

/// A routing that stops: nothing consumed, nothing changed.
pub open spec fn give_up(v: SessionView) -> (Stage, SessionView, Request) {
    (Stage::Idle, v, Request::Finish(false))
}

/// Turn the page by `delta`; a turn is noted with the engine.
pub open spec fn route_turn(v: SessionView, delta: int) -> (Stage, SessionView, Request) {
    let (changed, next) = v.after_turn(delta);
    if changed {
        (Stage::AfterPageTurn, next, Request::NotePageTurn)
    } else {
        (Stage::Idle, next, Request::Finish(true))
    }
}

/// Commit the highlighted candidate, or the raw composition when none is highlighted.
pub open spec fn route_commit_highlighted(v: SessionView) -> (Stage, SessionView, Request) {
    if v.cursor() < v.listed().len() {
        (Stage::AwaitCommitted, v, Request::Commit(v.listed()[v.cursor() as int] as usize))
    } else {
        (Stage::AwaitRaw, v, Request::TakeRaw)
    }
}

/// A printable character while composing.
pub open spec fn route_composing_char(
    v: SessionView,
    character: char,
    page_keys: (char, char),
) -> (Stage, SessionView, Request) {
    if character == ' ' {
        route_commit_highlighted(v)
    } else if '1' <= character && character <= '9' {
        let listed = (character as u32 - '1' as u32) as int;
        if listed < v.listed().len() {
            (Stage::AwaitCommitted, v, Request::Commit(v.listed()[listed] as usize))
        } else {
            (Stage::AwaitRaw, v, Request::TakeRaw)
        }
    } else if character == page_keys.0 {
        route_turn(v, -1)
    } else if character == page_keys.1 {
        route_turn(v, 1)
    } else if spec_is_pinyin_key(character) {
        (Stage::AfterEdit, v, Request::Push(character))
    } else if v.cursor() < v.listed().len() {
        (
            Stage::AwaitPrefixCommitted { character },
            v,
            Request::Commit(v.listed()[v.cursor() as int] as usize),
        )
    } else {
        (Stage::AwaitPrefixRaw { character }, v, Request::TakeRaw)
    }
}

/// A key press with the engine loaded.
pub open spec fn route_key(
    v: SessionView,
    keysym: u32,
    modifiers: u32,
    composing: bool,
    page_keys: (char, char),
) -> (Stage, SessionView, Request) {
    if modifiers & (MOD_CONTROL | MOD_SUPER) != 0 {
        give_up(v)
    } else if composing && keysym == KEYSYM_BACKSPACE {
        (Stage::AfterEdit, v, Request::Backspace)
    } else if composing && keysym == KEYSYM_DELETE {
        (Stage::AfterEdit, v, Request::DeleteForward)
    } else if composing && keysym == KEYSYM_ESCAPE {
        (Stage::AfterClear, v, Request::ClearComposition)
    } else if composing && (keysym == KEYSYM_RETURN || keysym == KEYSYM_KP_ENTER) {
        (Stage::AwaitRaw, v, Request::TakeRaw)
    } else if composing && (keysym == KEYSYM_TAB || keysym == KEYSYM_PAGE_DOWN) {
        route_turn(v, 1)
    } else if composing && keysym == KEYSYM_PAGE_UP {
        route_turn(v, -1)
    } else if composing && keysym == KEYSYM_UP {
        (Stage::Idle, v.after_move(-1).1, Request::Finish(true))
    } else if composing && keysym == KEYSYM_DOWN {
        (Stage::Idle, v.after_move(1).1, Request::Finish(true))
    } else {
        match spec_keysym_to_char(keysym, modifiers & MOD_SHIFT != 0) {
            None => give_up(v),
            Some(character) => if composing {
                route_composing_char(v, character, page_keys)
            } else {
                (Stage::AwaitIdlePunctuation { character }, v, Request::Punctuate(character))
            },
        }
    }
}

/// The first request of a routing.
pub open spec fn route_start(v: SessionView, trigger: Trigger) -> (Stage, SessionView, Request) {
    match trigger {
        Trigger::Key { keysym, modifiers, is_release, context } => {
            let cleared = v.without_commit();
            if is_release {
                give_up(cleared)
            } else {
                match context {
                    None => give_up(cleared),
                    Some(context) => route_key(
                        cleared,
                        keysym,
                        modifiers,
                        context.composing,
                        context.page_keys,
                    ),
                }
            }
        },
        Trigger::Select { listed } => if listed < v.listed().len() {
            (Stage::AwaitCommitted, v, Request::Commit(v.listed()[listed as int] as usize))
        } else {
            give_up(v)
        },
        Trigger::FocusOut => (Stage::AwaitFocusRaw, v, Request::TakeRaw),
        Trigger::Poll { learned, rescored } => if learned > 0 || rescored {
            (Stage::AwaitFrame { result: true }, v, Request::Query)
        } else {
            give_up(v)
        },
    }
}

/// Punctuation appended to the committed prefix.
pub open spec fn joined(committed: Option<String>, punctuation: Option<String>) -> Option<Seq<char>> {
    match (committed, punctuation) {
        (Some(text), Some(full)) => Some(text@ + full@),
        (Some(text), None) => Some(text@),
        (None, Some(full)) => Some(full@),
        (None, None) => None,
    }
}

/// One routing step: from `stage` and the host's `reply`, the next stage, the session state,
/// and the request for the host. A reply the stage does not expect ends the routing.
pub open spec fn route(stage: Stage, v: SessionView, reply: Reply) -> (Stage, SessionView, Request) {
    match reply {
        Reply::Start(trigger) => route_start(v, trigger),
        Reply::Done => match stage {
            Stage::AfterEdit => (Stage::AwaitFrame { result: true }, v, Request::Query),
            Stage::AfterClear => (Stage::Idle, SessionView::initial(), Request::Finish(true)),
            Stage::AfterPageTurn => (Stage::Idle, v, Request::Finish(true)),
            Stage::AfterBreak => (Stage::AfterFlush, v, Request::FlushLearning),
            Stage::AfterFlush => (Stage::AwaitFrame { result: false }, v, Request::Query),
            _ => give_up(v),
        },
        Reply::Raw(raw) => match stage {
            Stage::AwaitRaw => if raw@.len() == 0 {
                give_up(v)
            } else {
                (Stage::AwaitFrame { result: true }, v.with_commit(raw@), Request::Query)
            },
            Stage::AwaitPrefixRaw { character } => (
                Stage::AwaitPunctuation {
                    committed: if raw@.len() == 0 {
                        None
                    } else {
                        Some(raw)
                    },
                },
                v,
                Request::Punctuate(character),
            ),
            Stage::AwaitFocusRaw => (
                Stage::AfterBreak,
                if raw@.len() == 0 {
                    v
                } else {
                    v.with_commit(raw@)
                },
                Request::BreakChain,
            ),
            _ => give_up(v),
        },
        Reply::Committed(text) => match stage {
            Stage::AwaitCommitted => (
                Stage::AwaitFrame { result: true },
                v.with_commit(text@),
                Request::Query,
            ),
            Stage::AwaitPrefixCommitted { character } => (
                Stage::AwaitPunctuation { committed: Some(text) },
                v,
                Request::Punctuate(character),
            ),
            _ => give_up(v),
        },
        Reply::Punctuation(punctuation) => match stage {
            Stage::AwaitPunctuation { committed } => match joined(committed, punctuation) {
                Some(text) => (Stage::AwaitFrame { result: true }, v.with_commit(text), Request::Query),
                None => give_up(v),
            },
            Stage::AwaitIdlePunctuation { character } => match punctuation {
                Some(full) => (Stage::Idle, v.with_commit(full@), Request::Finish(true)),
                None => if 'a' <= character && character <= 'z' {
                    (Stage::AfterEdit, v, Request::Push(character))
                } else {
                    give_up(v)
                },
            },
            _ => give_up(v),
        },
        Reply::Frame { composition, composition_cursor, frame } => match stage {
            Stage::AwaitFrame { result } => (
                Stage::Idle,
                v.after_recompose(composition@, composition_cursor as nat, frame),
                Request::Finish(result),
            ),
            _ => give_up(v),
        },
    }
}

/// Turn the page by `delta`, noting a real turn with the engine.
fn turn(session: &mut QjSession, delta: isize) -> (result: (Stage, Request))
    requires
        old(session).wf(),
        delta == 1 || delta == -1,
    ensures
        final(session).wf(),
        (result.0, final(session)@, result.1) == route_turn(old(session)@, delta as int),
{
    if session.turn_page(delta) {
        (Stage::AfterPageTurn, Request::NotePageTurn)
    } else {
        (Stage::Idle, Request::Finish(true))
    }
}

/// Commit the highlighted candidate, or the raw composition when none is highlighted.
fn commit_highlighted(session: &QjSession) -> (result: (Stage, Request))
    requires
        session.wf(),
    ensures
        (result.0, session@, result.1) == route_commit_highlighted(session@),
{
    match session.listed_absolute(session.highlighted_listed()) {
        Some(absolute) => (Stage::AwaitCommitted, Request::Commit(absolute)),
        None => (Stage::AwaitRaw, Request::TakeRaw),
    }
}

/// A printable character while composing.
fn composing_char(session: &mut QjSession, character: char, page_keys: (char, char)) -> (result: (
    Stage,
    Request,
))
    requires
        old(session).wf(),
    ensures
        final(session).wf(),
        (result.0, final(session)@, result.1) == route_composing_char(
            old(session)@,
            character,
            page_keys,
        ),
{
    if character == ' ' {
        return commit_highlighted(session);
    }
    if '1' <= character && character <= '9' {
        let digit: u32 = character as u32;
        let listed: usize = (digit - 0x31) as usize;
        return match session.listed_absolute(listed) {
            Some(absolute) => (Stage::AwaitCommitted, Request::Commit(absolute)),
            None => (Stage::AwaitRaw, Request::TakeRaw),
        };
    }
    let (previous, next) = page_keys;
    if character == previous {
        return turn(session, -1);
    }
    if character == next {
        return turn(session, 1);
    }
    if is_pinyin_key(character) {
        return (Stage::AfterEdit, Request::Push(character));
    }
    match session.listed_absolute(session.highlighted_listed()) {
        Some(absolute) => (Stage::AwaitPrefixCommitted { character }, Request::Commit(absolute)),
        None => (Stage::AwaitPrefixRaw { character }, Request::TakeRaw),
    }
}

/// A key press with the engine loaded.
fn key(session: &mut QjSession, keysym: u32, modifiers: u32, context: KeyContext) -> (result: (
    Stage,
    Request,
))
    requires
        old(session).wf(),
    ensures
        final(session).wf(),
        (result.0, final(session)@, result.1) == route_key(
            old(session)@,
            keysym,
            modifiers,
            context.composing,
            context.page_keys,
        ),
{
    let composing = context.composing;
    if modifiers & (MOD_CONTROL | MOD_SUPER) != 0 {
        return (Stage::Idle, Request::Finish(false));
    }
    if composing && keysym == KEYSYM_BACKSPACE {
        return (Stage::AfterEdit, Request::Backspace);
    }
    if composing && keysym == KEYSYM_DELETE {
        return (Stage::AfterEdit, Request::DeleteForward);
    }
    if composing && keysym == KEYSYM_ESCAPE {
        return (Stage::AfterClear, Request::ClearComposition);
    }
    if composing && (keysym == KEYSYM_RETURN || keysym == KEYSYM_KP_ENTER) {
        return (Stage::AwaitRaw, Request::TakeRaw);
    }
    if composing && (keysym == KEYSYM_TAB || keysym == KEYSYM_PAGE_DOWN) {
        return turn(session, 1);
    }
    if composing && keysym == KEYSYM_PAGE_UP {
        return turn(session, -1);
    }
    if composing && keysym == KEYSYM_UP {
        session.move_highlight(-1);
        return (Stage::Idle, Request::Finish(true));
    }
    if composing && keysym == KEYSYM_DOWN {
        session.move_highlight(1);
        return (Stage::Idle, Request::Finish(true));
    }
    match keysym_to_char(keysym, modifiers & MOD_SHIFT != 0) {
        None => (Stage::Idle, Request::Finish(false)),
        Some(character) => if composing {
            composing_char(session, character, context.page_keys)
        } else {
            (Stage::AwaitIdlePunctuation { character }, Request::Punctuate(character))
        },
    }
}

/// One routing step: update the session for `reply` and tell the host what to do next.
pub fn process(stage: Stage, session: &mut QjSession, reply: Reply) -> (result: (Stage, Request))
    requires
        old(session).wf(),
    ensures
        final(session).wf(),
        (result.0, final(session)@, result.1) == route(stage, old(session)@, reply),
{
    match reply {
        Reply::Start(trigger) => match trigger {
            Trigger::Key { keysym, modifiers, is_release, context } => {
                session.clear_commit();
                if is_release {
                    return (Stage::Idle, Request::Finish(false));
                }
                match context {
                    None => (Stage::Idle, Request::Finish(false)),
                    Some(context) => key(session, keysym, modifiers, context),
                }
            },
            Trigger::Select { listed } => match session.listed_absolute(listed) {
                Some(absolute) => (Stage::AwaitCommitted, Request::Commit(absolute)),
                None => (Stage::Idle, Request::Finish(false)),
            },
            Trigger::FocusOut => (Stage::AwaitFocusRaw, Request::TakeRaw),
            Trigger::Poll { learned, rescored } => if learned > 0 || rescored {
                (Stage::AwaitFrame { result: true }, Request::Query)
            } else {
                (Stage::Idle, Request::Finish(false))
            },
        },
        Reply::Done => match stage {
            Stage::AfterEdit => (Stage::AwaitFrame { result: true }, Request::Query),
            Stage::AfterClear => {
                session.clear();
                (Stage::Idle, Request::Finish(true))
            },
            Stage::AfterPageTurn => (Stage::Idle, Request::Finish(true)),
            Stage::AfterBreak => (Stage::AfterFlush, Request::FlushLearning),
            Stage::AfterFlush => (Stage::AwaitFrame { result: false }, Request::Query),
            _ => (Stage::Idle, Request::Finish(false)),
        },
        Reply::Raw(raw) => match stage {
            Stage::AwaitRaw => if raw.as_str().is_empty() {
                (Stage::Idle, Request::Finish(false))
            } else {
                session.set_commit(raw.as_str());
                (Stage::AwaitFrame { result: true }, Request::Query)
            },
            Stage::AwaitPrefixRaw { character } => {
                let committed = if raw.as_str().is_empty() {
                    None
                } else {
                    Some(raw)
                };
                (Stage::AwaitPunctuation { committed }, Request::Punctuate(character))
            },
            Stage::AwaitFocusRaw => {
                if !raw.as_str().is_empty() {
                    session.set_commit(raw.as_str());
                }
                (Stage::AfterBreak, Request::BreakChain)
            },
            _ => (Stage::Idle, Request::Finish(false)),
        },
        Reply::Committed(text) => match stage {
            Stage::AwaitCommitted => {
                session.set_commit(text.as_str());
                (Stage::AwaitFrame { result: true }, Request::Query)
            },
            Stage::AwaitPrefixCommitted { character } => (
                Stage::AwaitPunctuation { committed: Some(text) },
                Request::Punctuate(character),
            ),
            _ => (Stage::Idle, Request::Finish(false)),
        },
        Reply::Punctuation(punctuation) => match stage {
            Stage::AwaitPunctuation { committed } => {
                let ghost expected = joined(committed, punctuation);
                let text: Option<String> = match (committed, punctuation) {
                    (Some(mut text), Some(full)) => {
                        text.append(full.as_str());
                        Some(text)
                    },
                    (Some(text), None) => Some(text),
                    (None, Some(full)) => Some(full),
                    (None, None) => None,
                };
                match text {
                    Some(text) => {
                        assert(expected == Some(text@));
                        session.set_commit(text.as_str());
                        (Stage::AwaitFrame { result: true }, Request::Query)
                    },
                    None => (Stage::Idle, Request::Finish(false)),
                }
            },
            Stage::AwaitIdlePunctuation { character } => match punctuation {
                Some(full) => {
                    session.set_commit(full.as_str());
                    (Stage::Idle, Request::Finish(true))
                },
                None => if 'a' <= character && character <= 'z' {
                    (Stage::AfterEdit, Request::Push(character))
                } else {
                    (Stage::Idle, Request::Finish(false))
                },
            },
            _ => (Stage::Idle, Request::Finish(false)),
        },
        Reply::Frame { composition, composition_cursor, frame } => match stage {
            Stage::AwaitFrame { result } => {
                session.recompose(composition.as_str(), composition_cursor, frame);
                (Stage::Idle, Request::Finish(result))
            },
            _ => (Stage::Idle, Request::Finish(false)),
        },
    }
}

/// Law: every key event starts by dropping the text committed before it, so a commit is
/// handed over once.
pub proof fn law_key_drops_previous_commit(
    stage: Stage,
    v: SessionView,
    keysym: u32,
    modifiers: u32,
    is_release: bool,
    context: Option<KeyContext>,
)
    ensures
        route(stage, v, Reply::Start(Trigger::Key { keysym, modifiers, is_release, context })).1.commit
            is None,
{
    let cleared = v.without_commit();
    match context {
        Some(context) => {
            if !(modifiers & (MOD_CONTROL | MOD_SUPER) != 0) {
                let (_, turned_forward) = cleared.after_turn(1);
                let (_, turned_back) = cleared.after_turn(-1);
                assert(turned_forward.commit is None);
                assert(turned_back.commit is None);
            }
        },
        None => {},
    }
}

/// Law: key releases, and keys held with Control or Super, go to the application untouched.
pub proof fn law_shortcuts_and_releases_pass_through(
    stage: Stage,
    v: SessionView,
    keysym: u32,
    modifiers: u32,
    is_release: bool,
    context: Option<KeyContext>,
)
    requires
        is_release || (modifiers & (MOD_CONTROL | MOD_SUPER) != 0),
    ensures
        route(stage, v, Reply::Start(Trigger::Key { keysym, modifiers, is_release, context })) == (
            Stage::Idle,
            v.without_commit(),
            Request::Finish(false),
        ),
{
}

/// Law: Escape while composing clears the composition and the session, and commits nothing.
pub proof fn law_escape_discards(stage: Stage, v: SessionView, modifiers: u32, page_keys: (char, char), w: SessionView)
    requires
        modifiers & (MOD_CONTROL | MOD_SUPER) == 0,
    ensures
        route(
            stage,
            v,
            Reply::Start(
                Trigger::Key {
                    keysym: KEYSYM_ESCAPE,
                    modifiers,
                    is_release: false,
                    context: Some(KeyContext { composing: true, page_keys }),
                },
            ),
        ) == (Stage::AfterClear, v.without_commit(), Request::ClearComposition),
        route(Stage::AfterClear, w, Reply::Done) == (Stage::Idle, SessionView::initial(), Request::Finish(true)),
        SessionView::initial().commit is None,
{
}

/// Law: picking the `listed`-th candidate commits exactly that candidate and consumes the
/// pick; a pick past the listed candidates does nothing.
pub proof fn law_select_commits_listed(
    stage: Stage,
    v: SessionView,
    listed: usize,
    text: String,
    composition: String,
    composition_cursor: usize,
    frame: Option<QueryFrame>,
)
    ensures
        listed < v.listed().len() ==> route(stage, v, Reply::Start(Trigger::Select { listed })) == (
            Stage::AwaitCommitted,
            v,
            Request::Commit(v.listed()[listed as int] as usize),
        ),
        listed >= v.listed().len() ==> route(stage, v, Reply::Start(Trigger::Select { listed })) == (
            Stage::Idle,
            v,
            Request::Finish(false),
        ),
        route(Stage::AwaitCommitted, v, Reply::Committed(text)) == (
            Stage::AwaitFrame { result: true },
            v.with_commit(text@),
            Request::Query,
        ),
        ({
            let after = route(
                Stage::AwaitFrame { result: true },
                v.with_commit(text@),
                Reply::Frame { composition, composition_cursor, frame },
            );
            after.1.commit == Some(crate::text::spec_c_text(text@)) && after.2 == Request::Finish(true)
        }),
{
}

/// Law: a digit key 1 to 9 while composing commits the candidate listed at that place on the
/// page, or the raw pinyin when the page lists fewer candidates.
pub proof fn law_digit_commits_listed(stage: Stage, v: SessionView, keysym: u32, page_keys: (char, char))
    requires
        0x31 <= keysym <= 0x39,
    ensures
        ({
            let started = route(
                stage,
                v,
                Reply::Start(
                    Trigger::Key {
                        keysym,
                        modifiers: 0,
                        is_release: false,
                        context: Some(KeyContext { composing: true, page_keys }),
                    },
                ),
            );
            let cleared = v.without_commit();
            if keysym - 0x31 < cleared.listed().len() {
                started == (Stage::AwaitCommitted, cleared, Request::Commit(cleared.listed()[keysym - 0x31] as usize))
            } else {
                started == (Stage::AwaitRaw, cleared, Request::TakeRaw)
            }
        }),
{
    assert(0u32 & (MOD_CONTROL | MOD_SUPER) == 0) by (bit_vector);
    assert(0u32 & MOD_SHIFT == 0) by (bit_vector);
    let c = keysym as char;
    assert(spec_keysym_to_char(keysym, false) == Some(c));
    assert(c as u32 - '1' as u32 == keysym - 0x31);
}

/// Law: Space while composing commits the highlighted candidate, or the raw pinyin when no
/// candidate is highlighted.
pub proof fn law_space_commits_highlighted(stage: Stage, v: SessionView, page_keys: (char, char))
    requires
        page_keys.0 != ' ' && page_keys.1 != ' ',
    ensures
        route(
            stage,
            v,
            Reply::Start(
                Trigger::Key {
                    keysym: 0x20,
                    modifiers: 0,
                    is_release: false,
                    context: Some(KeyContext { composing: true, page_keys }),
                },
            ),
        ) == route_commit_highlighted(v.without_commit()),
        (v.settled() && has_candidate(v.cells, v.highlighted as int)) ==> route(
            stage,
            v,
            Reply::Start(
                Trigger::Key {
                    keysym: 0x20,
                    modifiers: 0,
                    is_release: false,
                    context: Some(KeyContext { composing: true, page_keys }),
                },
            ),
        ) == (Stage::AwaitCommitted, v.without_commit(), Request::Commit(v.highlighted as usize)),
        v.listed().len() == 0 ==> route(
            stage,
            v,
            Reply::Start(
                Trigger::Key {
                    keysym: 0x20,
                    modifiers: 0,
                    is_release: false,
                    context: Some(KeyContext { composing: true, page_keys }),
                },
            ),
        ) == (Stage::AwaitRaw, v.without_commit(), Request::TakeRaw),
{
    assert(0u32 & (MOD_CONTROL | MOD_SUPER) == 0) by (bit_vector);
    assert(0u32 & MOD_SHIFT == 0) by (bit_vector);
    assert(spec_keysym_to_char(0x20, false) == Some(' '));
    if v.settled() && has_candidate(v.cells, v.highlighted as int) {
        lemma_highlight_listed(v.without_commit());
    }
}

/// Law: while composing, a printable character that is neither Space, a digit 1 to 9, a
/// page key nor a pinyin key first commits the highlighted candidate (the same one Space
/// would commit), or the raw pinyin when the page lists no candidate; the character's
/// full-width punctuation is then appended to the committed text.
pub proof fn law_other_char_commits_highlighted_first(
    stage: Stage,
    v: SessionView,
    keysym: u32,
    page_keys: (char, char),
    text: String,
    full: String,
)
    requires
        0x21 <= keysym <= 0x7e,
        !(0x31 <= keysym <= 0x39),
        keysym as char != page_keys.0,
        keysym as char != page_keys.1,
        !spec_is_pinyin_key(keysym as char),
    ensures
        ({
            let character = keysym as char;
            let started = route(
                stage,
                v,
                Reply::Start(
                    Trigger::Key {
                        keysym,
                        modifiers: 0,
                        is_release: false,
                        context: Some(KeyContext { composing: true, page_keys }),
                    },
                ),
            );
            let cleared = v.without_commit();
            let committed = route(started.0, started.1, Reply::Committed(text));
            let punctuated = route(committed.0, committed.1, Reply::Punctuation(Some(full)));
            &&& (v.settled() && has_candidate(v.cells, v.highlighted as int)) ==> {
                &&& started == (
                    Stage::AwaitPrefixCommitted { character },
                    cleared,
                    Request::Commit(v.highlighted as usize),
                )
                &&& committed.2 == Request::Punctuate(character)
                &&& punctuated.1.commit == Some(spec_c_text(text@ + full@))
                &&& punctuated.2 == Request::Query
            }
            &&& v.listed().len() == 0 ==> started == (
                Stage::AwaitPrefixRaw { character },
                cleared,
                Request::TakeRaw,
            )
        }),
{
    assert(0u32 & (MOD_CONTROL | MOD_SUPER) == 0) by (bit_vector);
    assert(0u32 & MOD_SHIFT == 0) by (bit_vector);
    let character = keysym as char;
    assert(spec_keysym_to_char(keysym, false) == Some(character));
    assert(character != ' ');
    assert(!('1' <= character && character <= '9'));
    if v.settled() && has_candidate(v.cells, v.highlighted as int) {
        lemma_highlight_listed(v.without_commit());
    }
}

/// Law: losing focus commits what is left in the composition buffer, and nothing when it is
/// empty; learning is cut and flushed before the session is queried again.
pub proof fn law_focus_out_commits_leftover(
    v: SessionView,
    raw: String,
    composition: String,
    composition_cursor: usize,
    frame: Option<QueryFrame>,
)
    ensures
        route(Stage::Idle, v, Reply::Start(Trigger::FocusOut)) == (Stage::AwaitFocusRaw, v, Request::TakeRaw),
        ({
            let after_raw = route(Stage::AwaitFocusRaw, v, Reply::Raw(raw));
            let flushed = route(after_raw.0, after_raw.1, Reply::Done);
            let queried = route(flushed.0, flushed.1, Reply::Done);
            let done = route(
                queried.0,
                queried.1,
                Reply::Frame { composition, composition_cursor, frame },
            );
            &&& after_raw.2 == Request::BreakChain
            &&& flushed.2 == Request::FlushLearning
            &&& queried.2 == Request::Query
            &&& done.2 == Request::Finish(false)
            &&& done.1.commit == (if raw@.len() == 0 {
                v.commit
            } else {
                Some(crate::text::spec_c_text(raw@))
            })
        }),
{
}

/// Law: Return (or keypad Enter) while composing commits the pinyin as typed; with an empty
/// composition buffer the key goes to the application.
pub proof fn law_return_commits_raw(stage: Stage, v: SessionView, keysym: u32, page_keys: (char, char), raw: String)
    requires
        keysym == KEYSYM_RETURN || keysym == KEYSYM_KP_ENTER,
    ensures
        route(
            stage,
            v,
            Reply::Start(
                Trigger::Key {
                    keysym,
                    modifiers: 0,
                    is_release: false,
                    context: Some(KeyContext { composing: true, page_keys }),
                },
            ),
        ) == (Stage::AwaitRaw, v.without_commit(), Request::TakeRaw),
        raw@.len() == 0 ==> route(Stage::AwaitRaw, v, Reply::Raw(raw)) == (Stage::Idle, v, Request::Finish(false)),
        raw@.len() > 0 ==> route(Stage::AwaitRaw, v, Reply::Raw(raw)) == (
            Stage::AwaitFrame { result: true },
            v.with_commit(raw@),
            Request::Query,
        ),
{
    assert(0u32 & (MOD_CONTROL | MOD_SUPER) == 0) by (bit_vector);
}

/// Law: while composing, Tab, Page Down and the next-page key turn one page forward; Page Up
/// and the previous-page key turn one page back; a real turn is noted with the engine.
pub proof fn law_page_keys_turn_pages(stage: Stage, v: SessionView, keysym: u32, page_keys: (char, char))
    requires
        keysym == KEYSYM_TAB || keysym == KEYSYM_PAGE_DOWN || keysym == KEYSYM_PAGE_UP || (0x20 <= keysym
            <= 0x7e && (keysym as char == page_keys.0 || keysym as char == page_keys.1)),
        !(page_keys.0 == ' ' || ('1' <= page_keys.0 && page_keys.0 <= '9')),
        !(page_keys.1 == ' ' || ('1' <= page_keys.1 && page_keys.1 <= '9')),
        page_keys.0 != page_keys.1,
    ensures
        ({
            let started = route(
                stage,
                v,
                Reply::Start(
                    Trigger::Key {
                        keysym,
                        modifiers: 0,
                        is_release: false,
                        context: Some(KeyContext { composing: true, page_keys }),
                    },
                ),
            );
            let cleared = v.without_commit();
            let forward = keysym == KEYSYM_TAB || keysym == KEYSYM_PAGE_DOWN || (0x20 <= keysym <= 0x7e
                && keysym as char == page_keys.1);
            started == route_turn(cleared, if forward { 1 } else { -1 })
        }),
        route(Stage::AfterPageTurn, v, Reply::Done) == (Stage::Idle, v, Request::Finish(true)),
{
    assert(0u32 & (MOD_CONTROL | MOD_SUPER) == 0) by (bit_vector);
    assert(0u32 & MOD_SHIFT == 0) by (bit_vector);
}

/// The first step of a key press with no modifier, with the engine loaded.
pub open spec fn press(stage: Stage, v: SessionView, keysym: u32, composing: bool, page_keys: (char, char)) -> (
    Stage,
    SessionView,
    Request,
) {
    route(
        stage,
        v,
        Reply::Start(
            Trigger::Key {
                keysym,
                modifiers: 0,
                is_release: false,
                context: Some(KeyContext { composing, page_keys }),
            },
        ),
    )
}

/// Law: Backspace and Delete while composing edit the composition (backward and forward), then
/// query it again, and the new query is shown and the key consumed.
pub proof fn law_edit_keys_requery(
    stage: Stage,
    v: SessionView,
    keysym: u32,
    page_keys: (char, char),
    w: SessionView,
    composition: String,
    composition_cursor: usize,
    frame: Option<QueryFrame>,
)
    requires
        keysym == KEYSYM_BACKSPACE || keysym == KEYSYM_DELETE,
    ensures
        press(stage, v, keysym, true, page_keys) == (
            Stage::AfterEdit,
            v.without_commit(),
            if keysym == KEYSYM_BACKSPACE {
                Request::Backspace
            } else {
                Request::DeleteForward
            },
        ),
        route(Stage::AfterEdit, w, Reply::Done) == (Stage::AwaitFrame { result: true }, w, Request::Query),
        route(Stage::AwaitFrame { result: true }, w, Reply::Frame { composition, composition_cursor, frame }) == (
            Stage::Idle,
            w.after_recompose(composition@, composition_cursor as nat, frame),
            Request::Finish(true),
        ),
{
    assert(0u32 & (MOD_CONTROL | MOD_SUPER) == 0) by (bit_vector);
}

/// Law: Up and Down while composing move the highlight one cell back and forward and consume
/// the key, asking nothing of the engine.
pub proof fn law_arrow_keys_move_highlight(stage: Stage, v: SessionView, keysym: u32, page_keys: (char, char))
    requires
        keysym == KEYSYM_UP || keysym == KEYSYM_DOWN,
    ensures
        press(stage, v, keysym, true, page_keys) == (
            Stage::Idle,
            v.without_commit().after_move(if keysym == KEYSYM_UP {
                -1
            } else {
                1
            }).1,
            Request::Finish(true),
        ),
{
    assert(0u32 & (MOD_CONTROL | MOD_SUPER) == 0) by (bit_vector);
}

/// Law: while composing, a pinyin key (a lowercase letter or `'`) that is not a page key is
/// appended to the composition, which is then queried again.
pub proof fn law_pinyin_key_pushes(stage: Stage, v: SessionView, keysym: u32, page_keys: (char, char))
    requires
        0x20 <= keysym <= 0x7e,
        spec_is_pinyin_key(keysym as char),
        keysym as char != page_keys.0,
        keysym as char != page_keys.1,
    ensures
        press(stage, v, keysym, true, page_keys) == (
            Stage::AfterEdit,
            v.without_commit(),
            Request::Push(keysym as char),
        ),
{
    assert(0u32 & (MOD_CONTROL | MOD_SUPER) == 0) by (bit_vector);
    assert(0u32 & MOD_SHIFT == 0) by (bit_vector);
    let character = keysym as char;
    assert(spec_keysym_to_char(keysym, false) == Some(character));
    assert(character != ' ');
    assert(!('1' <= character && character <= '9'));
}

/// Law: with nothing composed, a printable character asks for its full-width punctuation and
/// commits it; a lowercase letter with no punctuation starts a composition; any other
/// character goes to the application.
pub proof fn law_idle_char_punctuates(
    stage: Stage,
    v: SessionView,
    keysym: u32,
    page_keys: (char, char),
    w: SessionView,
    full: String,
)
    requires
        0x20 <= keysym <= 0x7e,
    ensures
        ({
            let character = keysym as char;
            &&& press(stage, v, keysym, false, page_keys) == (
                Stage::AwaitIdlePunctuation { character },
                v.without_commit(),
                Request::Punctuate(character),
            )
            &&& route(Stage::AwaitIdlePunctuation { character }, w, Reply::Punctuation(Some(full))) == (
                Stage::Idle,
                w.with_commit(full@),
                Request::Finish(true),
            )
            &&& route(Stage::AwaitIdlePunctuation { character }, w, Reply::Punctuation(None)) == if 'a'
                <= character && character <= 'z' {
                (Stage::AfterEdit, w, Request::Push(character))
            } else {
                (Stage::Idle, w, Request::Finish(false))
            }
        }),
{
    assert(0u32 & (MOD_CONTROL | MOD_SUPER) == 0) by (bit_vector);
    assert(0u32 & MOD_SHIFT == 0) by (bit_vector);
    assert(spec_keysym_to_char(keysym, false) == Some(keysym as char));
}

/// Law: a poll queries the session again when glosses or a rescoring arrived, and the new
/// query is shown; otherwise it changes nothing.
pub proof fn law_poll_requeries(
    stage: Stage,
    v: SessionView,
    learned: usize,
    rescored: bool,
    w: SessionView,
    composition: String,
    composition_cursor: usize,
    frame: Option<QueryFrame>,
)
    ensures
        route(stage, v, Reply::Start(Trigger::Poll { learned, rescored })) == if learned > 0 || rescored {
            (Stage::AwaitFrame { result: true }, v, Request::Query)
        } else {
            (Stage::Idle, v, Request::Finish(false))
        },
        route(Stage::AwaitFrame { result: true }, w, Reply::Frame { composition, composition_cursor, frame }).1
            == w.after_recompose(composition@, composition_cursor as nat, frame),
{
}

} // verus!
