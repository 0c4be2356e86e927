//! Questions on the status bar: the text answer being typed, and yes/no
//! questions.
use vstd::prelude::*;

use crate::chars::{is_left_index, is_right_index, left_index, lemma_left_index, lemma_right_index, right_index};
use crate::definitions::{AskResult, KeyCode, KeyView, Menu};
use crate::editor::{Editor, EditorView};
use crate::textseq::{
    bpos, byte_len, bytes_len, char_len, cidx, copy_text, is_boundary, lemma_bpos_full, lemma_bpos_mono,
    lemma_bpos_step, lemma_cidx, splice_text,
};

verus! {

/// An answer being typed at a prompt, and the byte offset of the cursor in it.
pub struct PromptState {
    pub answer: String,
    pub typing_x: usize,
    /// The menu to go back to when the prompt ends.
    pub saved_menu: Menu,
}

/// The answer as characters and the cursor as a character index.
pub ghost struct PromptView {
    pub answer: Seq<char>,
    pub pos: int,
    pub saved_menu: u16,
}

impl View for PromptState {
    type V = PromptView;

    open spec fn view(&self) -> PromptView {
        PromptView {
            answer: self.answer@,
            pos: cidx(self.answer@, self.typing_x as int),
            saved_menu: self.saved_menu.bits,
        }
    }
}

impl PromptState {
    /// The cursor stands between two characters of the answer.
    pub open spec fn wf(self) -> bool {
        is_boundary(self.answer@, self.typing_x as int)
    }
}

/// How a key at a prompt ends: not yet, or with the given answer (empty when
/// the prompt was cancelled).
pub enum PromptOutcome {
    Continue,
    Done(String),
}

/// A prompt outcome as plain values.
pub ghost enum PromptOutcomeView {
    Continue,
    Done(Seq<char>),
}

impl View for PromptOutcome {
    type V = PromptOutcomeView;

    open spec fn view(&self) -> PromptOutcomeView {
        match self {
            PromptOutcome::Continue => PromptOutcomeView::Continue,
            PromptOutcome::Done(s) => PromptOutcomeView::Done(s@),
        }
    }
}

/// The answer and cursor after `key` at a prompt (when it does not end it).
pub open spec fn prompt_edit(p: PromptView, key: KeyView) -> PromptView {
    let a = p.answer;
    let k = p.pos;
    match key {
        KeyView::Backspace => if k > 0 {
            PromptView { answer: a.remove(k - 1), pos: k - 1, ..p }
        } else {
            p
        },
        KeyView::Delete => if k < a.len() {
            PromptView { answer: a.remove(k), ..p }
        } else {
            p
        },
        KeyView::Left => if k > 0 {
            PromptView { pos: k - 1, ..p }
        } else {
            p
        },
        KeyView::Right => if k < a.len() {
            PromptView { pos: k + 1, ..p }
        } else {
            p
        },
        KeyView::Home => PromptView { pos: 0, ..p },
        KeyView::End => PromptView { pos: a.len() as int, ..p },
        KeyView::Ctrl(c) => if c == 'k' {
            let k2 = if k >= a.len() { 0 } else { k };
            PromptView { answer: a.take(k2), pos: k2, ..p }
        } else {
            p
        },
        KeyView::Char(c) => PromptView { answer: a.insert(k, c), pos: k + 1, ..p },
        KeyView::Tab => PromptView { answer: a.insert(k, '\t'), pos: k + 1, ..p },
        _ => p,
    }
}

/// How `key` ends a prompt with the answer `a`: Enter gives the answer,
/// Escape and ^C give an empty one, any other key goes on.
pub open spec fn prompt_outcome(a: Seq<char>, key: KeyView) -> PromptOutcomeView {
    match key {
        KeyView::Enter => PromptOutcomeView::Done(a),
        KeyView::Escape => PromptOutcomeView::Done(Seq::empty()),
        KeyView::Ctrl(c) => if c == 'c' {
            PromptOutcomeView::Done(Seq::empty())
        } else {
            PromptOutcomeView::Continue
        },
        _ => PromptOutcomeView::Continue,
    }
}

/// The character before the boundary at index `k` starts at the boundary of `k - 1`.
proof fn lemma_left_of(cs: Seq<char>, k: int)
    requires
        0 < k <= cs.len(),
    ensures
        is_left_index(cs, bpos(cs, k) as int, k - 1),
        left_index(cs, bpos(cs, k) as int) == k - 1,
{
    lemma_bpos_step(cs, k - 1);
    lemma_left_index(cs, bpos(cs, k) as int, k - 1);
}

proof fn lemma_right_of(cs: Seq<char>, k: int)
    requires
        0 <= k < cs.len(),
    ensures
        is_right_index(cs, bpos(cs, k) as int, k + 1),
        right_index(cs, bpos(cs, k) as int) == k + 1,
{
    lemma_bpos_step(cs, k);
    lemma_right_index(cs, bpos(cs, k) as int, k + 1);
}

impl Editor {
    /// Start a prompt whose answer is `default`, with the cursor after it.
    pub fn start_prompt(&self, default: &str) -> (r: PromptState)
        ensures
            r.wf(),
            r@ == (PromptView {
                answer: default@,
                pos: default@.len() as int,
                saved_menu: self@.currmenu,
            }),
    {
        let answer = copy_text(default);
        let x = byte_len(answer.as_str());
        proof {
            lemma_bpos_full(answer@);
            lemma_cidx(answer@, answer@.len() as int);
        }
        PromptState { answer, typing_x: x, saved_menu: self.currmenu }
    }

    /// Start a prompt with an empty answer.
    pub fn do_prompt(&self) -> (r: PromptState)
        ensures
            r.wf(),
            r@ == (PromptView { answer: Seq::empty(), pos: 0, saved_menu: self@.currmenu }),
    {
        proof {
            reveal_strlit("");
        }
        let r = self.start_prompt("");
        assert(""@ =~= Seq::<char>::empty());
        r
    }

    /// Answer a key at a prompt: Enter ends it with the answer, Escape or ^C
    /// with an empty one (and the menu from before the prompt comes back);
    /// other keys edit the answer or move the cursor in it.
    #[verifier::rlimit(60)]
    pub fn do_prompt_with_default(&mut self, state: &mut PromptState, key: &KeyCode) -> (r: PromptOutcome)
        requires
            old(state).wf(),
        ensures
            r@ == prompt_outcome(old(state)@.answer, key@),
            r@ is Done ==> final(self)@ == (EditorView { currmenu: old(state)@.saved_menu, ..old(self)@ }),
            r@ is Continue ==> final(self)@ == old(self)@,
            r@ is Continue ==> final(state).wf() && final(state)@ == prompt_edit(old(state)@, key@),
            r@ is Done ==> final(state)@ == old(state)@,
    {
        let x = state.typing_x;
        let ghost a = state.answer@;
        let ghost k = cidx(a, x as int);
        let ghost p0 = state@;
        let len = byte_len(state.answer.as_str());
        proof {
            crate::textseq::lemma_boundary(a, x as int);
            lemma_bpos_full(a);
            lemma_cidx(a, k);
            if k > 0 {
                lemma_bpos_mono(a, 0, k);
            }
            if k < a.len() {
                lemma_bpos_step(a, k);
                lemma_bpos_mono(a, k + 1, a.len() as int);
            }
            assert((x == 0) == (k == 0));
            assert((x < len) == (k < a.len()));
        }
        match key {
            KeyCode::Enter => {
                self.currmenu = state.saved_menu;
                PromptOutcome::Done(copy_text(state.answer.as_str()))
            },
            KeyCode::Escape => {
                self.currmenu = state.saved_menu;
                PromptOutcome::Done(String::new())
            },
            KeyCode::Ctrl(c) => {
                if *c == 'c' {
                    self.currmenu = state.saved_menu;
                    PromptOutcome::Done(String::new())
                } else if *c == 'k' {
                    let nx = if x >= len { 0 } else { x };
                    proof {
                        if x >= len {
                            if k < a.len() {
                                lemma_bpos_mono(a, k + 1, a.len() as int);
                                lemma_bpos_step(a, k);
                            }
                            lemma_cidx(a, 0);
                        }
                    }
                    let na = crate::textseq::slice_text(state.answer.as_str(), 0, nx);
                    proof {
                        lemma_cidx(a, 0);
                        let k2 = cidx(a, nx as int);
                        assert(na@ =~= a.take(k2));
                        crate::textseq::lemma_boundary(a, nx as int);
                        lemma_bpos_full(a.take(k2));
                        assert(a.take(k2).take(k2) =~= a.take(k2));
                        assert(bpos(a.take(k2), k2) == bpos(a, k2)) by {
                            assert(a.take(k2).take(k2) =~= a.take(k2));
                        }
                        lemma_cidx(a.take(k2), k2);
                        if x >= len {
                            assert(k >= a.len()) by {
                                if k < a.len() {
                                    lemma_bpos_step(a, k);
                                    lemma_bpos_mono(a, k + 1, a.len() as int);
                                }
                            }
                        } else {
                            assert(k < a.len());
                        }
                    }
                    state.answer = na;
                    state.typing_x = nx;
                    assert(state@ == prompt_edit(p0, key@));
                    PromptOutcome::Continue
                } else {
                    PromptOutcome::Continue
                }
            },
            KeyCode::Backspace => {
                if x > 0 {
                    let px = crate::chars::step_left(state.answer.as_str(), x);
                    proof {
                        assert(k > 0) by {
                            lemma_bpos_full(a);
                        }
                        lemma_left_of(a, k);
                        crate::textseq::lemma_boundary(a, px as int);
                        lemma_left_index(a, x as int, cidx(a, px as int));
                        lemma_cidx(a, k - 1);
                    }
                    let na = splice_text(state.answer.as_str(), px, x, "");
                    proof {
                        reveal_strlit("");
                        assert(x == bpos(a, k));
                        assert(cidx(a, px as int) == k - 1);
                        assert(na@ =~= a.remove(k - 1));
                        let b = a.remove(k - 1);
                        assert(b.take(k - 1) =~= a.take(k - 1));
                        lemma_cidx(b, k - 1);
                    }
                    state.answer = na;
                    state.typing_x = px;
                    assert(state@ == prompt_edit(p0, key@));
                }
                PromptOutcome::Continue
            },
            KeyCode::Delete => {
                if x < len {
                    let nx = crate::chars::step_right(state.answer.as_str(), x);
                    proof {
                        assert(k < a.len()) by {
                            if k >= a.len() {
                                assert(k == a.len());
                            }
                        }
                        lemma_right_of(a, k);
                        crate::textseq::lemma_boundary(a, nx as int);
                        lemma_right_index(a, x as int, cidx(a, nx as int));
                        lemma_cidx(a, k + 1);
                    }
                    let na = splice_text(state.answer.as_str(), x, nx, "");
                    proof {
                        reveal_strlit("");
                        assert(x == bpos(a, k));
                        assert(cidx(a, nx as int) == k + 1);
                        assert(na@ =~= a.remove(k));
                        let b = a.remove(k);
                        assert(b.take(k) =~= a.take(k));
                        lemma_cidx(b, k);
                    }
                    state.answer = na;
                    assert(state@ == prompt_edit(p0, key@));
                }
                PromptOutcome::Continue
            },
            KeyCode::Left => {
                if x > 0 {
                    let px = crate::chars::step_left(state.answer.as_str(), x);
                    proof {
                        assert(k > 0);
                        lemma_left_of(a, k);
                        crate::textseq::lemma_boundary(a, px as int);
                        lemma_left_index(a, x as int, cidx(a, px as int));
                    }
                    state.typing_x = px;
                    assert(state@.pos == k - 1);
                    assert(state@ == prompt_edit(p0, key@));
                }
                PromptOutcome::Continue
            },
            KeyCode::Right => {
                if x < len {
                    let nx = crate::chars::step_right(state.answer.as_str(), x);
                    proof {
                        assert(k < a.len()) by {
                            if k >= a.len() {
                                assert(k == a.len());
                            }
                        }
                        lemma_right_of(a, k);
                        crate::textseq::lemma_boundary(a, nx as int);
                        lemma_right_index(a, x as int, cidx(a, nx as int));
                    }
                    state.typing_x = nx;
                    assert(state@.pos == k + 1);
                    assert(state@ == prompt_edit(p0, key@));
                }
                PromptOutcome::Continue
            },
            KeyCode::Home => {
                proof {
                    lemma_cidx(a, 0);
                }
                state.typing_x = 0;
                assert(state@ == prompt_edit(p0, key@));
                PromptOutcome::Continue
            },
            KeyCode::End => {
                proof {
                    lemma_cidx(a, a.len() as int);
                }
                state.typing_x = len;
                assert(state@ == prompt_edit(p0, key@));
                PromptOutcome::Continue
            },
            KeyCode::Char(c) => {
                self.insert_in_answer(state, *c);
                assert(state@ == prompt_edit(p0, key@));
                PromptOutcome::Continue
            },
            KeyCode::Tab => {
                self.insert_in_answer(state, '\t');
                assert(state@ == prompt_edit(p0, key@));
                PromptOutcome::Continue
            },
            _ => PromptOutcome::Continue,
        }
    }

    /// Put `c` into the answer at the cursor, and the cursor after it.
    fn insert_in_answer(&self, state: &mut PromptState, c: char)
        requires
            old(state).wf(),
        ensures
            final(state).wf(),
            final(state)@ == (PromptView {
                answer: old(state)@.answer.insert(old(state)@.pos, c),
                pos: old(state)@.pos + 1,
                ..old(state)@
            }),
    {
        let x = state.typing_x;
        let ghost a = state.answer@;
        let ghost k = cidx(a, x as int);
        let _len = byte_len(state.answer.as_str());
        proof {
            crate::textseq::lemma_boundary(a, x as int);
        }
        let mut one = String::new();
        crate::textseq::push_char(&mut one, c);
        let na = splice_text(state.answer.as_str(), x, x, one.as_str());
        let _nlen = byte_len(na.as_str());
        let w = crate::textseq::len_utf8(c);
        proof {
            let b = a.insert(k, c);
            assert(na@ =~= b);
            assert(b.take(k) =~= a.take(k));
            assert(b.take(k + 1) =~= a.take(k).push(c));
            lemma_bpos_step(b, k);
            lemma_bpos_full(b);
            lemma_bpos_mono(b, k + 1, b.len() as int);
            lemma_cidx(b, k + 1);
        }
        state.answer = na;
        state.typing_x = x + w;
    }

    /// Answer a key of a yes/no question: `Some` answer for y, n, a (either
    /// case), ^C and Escape; `None` for any other key, which the question
    /// ignores.
    pub fn ask_yes_no(&self, key: &KeyCode) -> (r: Option<AskResult>)
        ensures
            r == yes_no_answer(key@),
    {
        match key {
            KeyCode::Char(c) => {
                if *c == 'y' || *c == 'Y' {
                    Some(AskResult::Yes)
                } else if *c == 'n' || *c == 'N' {
                    Some(AskResult::No)
                } else if *c == 'a' || *c == 'A' {
                    Some(AskResult::All)
                } else {
                    None
                }
            },
            KeyCode::Ctrl(c) => if *c == 'c' {
                Some(AskResult::Cancel)
            } else {
                None
            },
            KeyCode::Escape => Some(AskResult::Cancel),
            _ => None,
        }
    }
}

/// What a key answers to a yes/no question.
pub open spec fn yes_no_answer(key: KeyView) -> Option<AskResult> {
    match key {
        KeyView::Char(c) => if c == 'y' || c == 'Y' {
            Some(AskResult::Yes)
        } else if c == 'n' || c == 'N' {
            Some(AskResult::No)
        } else if c == 'a' || c == 'A' {
            Some(AskResult::All)
        } else {
            None
        },
        KeyView::Ctrl(c) => if c == 'c' {
            Some(AskResult::Cancel)
        } else {
            None
        },
        KeyView::Escape => Some(AskResult::Cancel),
        _ => None,
    }
}

} // verus!

verus! {

/// Typing a character at a prompt and then Backspace gives back the answer
/// and the cursor as they were.
pub proof fn law_prompt_type_then_backspace(p: PromptView, c: char)
    requires
        0 <= p.pos <= p.answer.len(),
    ensures
        prompt_edit(prompt_edit(p, KeyView::Char(c)), KeyView::Backspace) == p,
{
    let q = prompt_edit(p, KeyView::Char(c));
    assert(q.answer.remove(q.pos - 1) =~= p.answer);
}

/// Moving left and then right at a prompt, away from its start, leaves the
/// cursor where it was.
pub proof fn law_prompt_left_then_right(p: PromptView)
    requires
        0 < p.pos <= p.answer.len(),
    ensures
        prompt_edit(prompt_edit(p, KeyView::Left), KeyView::Right) == p,
{
}

} // verus!
