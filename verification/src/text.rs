//! Editing the text: typing, deleting, splitting and joining lines, and the
//! undo history that lets these be taken back and done again.
use vstd::prelude::*;

use crate::chars::{cols, cols_ok, fit_count, lemma_fit_count_boundary, step_left, step_right, wideness};
use crate::definitions::{
    BufferView, EditorFlags, Line, LineView, MessageType, OpenBuffer, UndoFlags, UndoItem,
    UndoType, UndoView, fresh_line, line_views, opt_text, renumbered,
};
use crate::editor::{Editor, EditorView};
use crate::movement::cols_to;
use crate::textseq::{
    bpos, byte_len, bytes_len, cidx, concat_text, copy_text, is_boundary, lemma_boundary,
    lemma_bpos_full, lemma_bpos_mono, lemma_bpos_step, lemma_cidx, push_char, slice_text,
    splice_text,
};

verus! {

/// The characters of `t` before the boundary `x`.
pub open spec fn head(t: Seq<char>, x: int) -> Seq<char> {
    t.take(cidx(t, x))
}

/// The characters of `t` from the boundary `x` on.
pub open spec fn tail(t: Seq<char>, x: int) -> Seq<char> {
    t.skip(cidx(t, x))
}

/// `t` with `s` inserted at the boundary `x`.
pub open spec fn insert_at(t: Seq<char>, x: int, s: Seq<char>) -> Seq<char> {
    head(t, x) + s + tail(t, x)
}

/// `t` without the characters between the boundaries `a` and `b`.
pub open spec fn delete_between(t: Seq<char>, a: int, b: int) -> Seq<char> {
    head(t, a) + tail(t, b)
}

/// `l` holding the text `d`.
pub open spec fn with_text(l: LineView, d: Seq<char>) -> LineView {
    LineView { data: d, ..l }
}

/// Line `i` of `ls` split at the boundary `x`; the new line below starts with `ind`,
/// and the lines after the split are renumbered.
pub open spec fn split_lines(ls: Seq<LineView>, i: int, x: int, ind: Seq<char>) -> Seq<LineView> {
    let t = ls[i].data;
    renumbered(
        ls.update(i, with_text(ls[i], head(t, x))).insert(
            i + 1,
            fresh_line(ind + tail(t, x), (i + 2) as usize),
        ),
        i + 1,
    )
}

/// Line `i + 1` of `ls` appended to line `i`, and the lines after renumbered.
pub open spec fn join_lines(ls: Seq<LineView>, i: int) -> Seq<LineView> {
    renumbered(ls.update(i, with_text(ls[i], ls[i].data + ls[i + 1].data)).remove(i + 1), i + 1)
}

/// `ls` with the text of line `i` replaced by `d`.
pub open spec fn put_text(ls: Seq<LineView>, i: int, d: Seq<char>) -> Seq<LineView> {
    ls.update(i, with_text(ls[i], d))
}

/// The boundary before the boundary `x > 0` is that of the character before.
pub proof fn lemma_left_boundary(t: Seq<char>, x: int, r: int)
    requires
        is_boundary(t, x),
        x > 0,
        is_boundary(t, r),
        r < x,
        cidx(t, r) < t.len() ==> bpos(t, cidx(t, r) + 1) >= x,
    ensures
        1 <= cidx(t, x) <= t.len(),
        cidx(t, r) == cidx(t, x) - 1,
        r == bpos(t, cidx(t, x) - 1),
        x == r + crate::textseq::char_len(t[cidx(t, x) - 1]),
{
    lemma_boundary(t, x);
    lemma_boundary(t, r);
    let j = cidx(t, r);
    let k = cidx(t, x);
    if j >= k {
        lemma_bpos_mono(t, k, j);
    }
    if j + 1 < k {
        lemma_bpos_mono(t, j + 1, k);
    }
    lemma_bpos_step(t, j);
}

/// The boundary after the boundary `x` before the end is that of the character after.
pub proof fn lemma_right_boundary(t: Seq<char>, x: int, r: int)
    requires
        is_boundary(t, x),
        x < bytes_len(t),
        is_boundary(t, r),
        r > x,
        cidx(t, r) > 0 ==> bpos(t, cidx(t, r) - 1) <= x,
    ensures
        0 <= cidx(t, x) < t.len(),
        cidx(t, r) == cidx(t, x) + 1,
        r == bpos(t, cidx(t, x) + 1),
        r == x + crate::textseq::char_len(t[cidx(t, x)]),
{
    lemma_boundary(t, x);
    lemma_boundary(t, r);
    lemma_bpos_full(t);
    let j = cidx(t, r);
    let k = cidx(t, x);
    if k == t.len() {
        assert(false);
    }
    if j <= k {
        lemma_bpos_mono(t, j, k);
    }
    if j > k + 1 {
        lemma_bpos_mono(t, k + 1, j - 1);
    }
    lemma_bpos_step(t, k);
}

/// The boundary `x` of `t` is the boundary `x` of `t` with text inserted at or after it,
/// and of any text sharing the characters before it.
pub proof fn lemma_same_head(t: Seq<char>, u: Seq<char>, x: int)
    requires
        is_boundary(t, x),
        head(t, x).len() <= u.len(),
        u.take(cidx(t, x)) == head(t, x),
    ensures
        is_boundary(u, x),
        cidx(u, x) == cidx(t, x),
        head(u, x) == head(t, x),
{
    lemma_boundary(t, x);
    let k = cidx(t, x);
    assert(bpos(u, k) == bpos(t, k));
    lemma_cidx(u, k);
}

impl OpenBuffer {
    /// Replace the text of line `i`.
    pub fn set_text(&mut self, i: usize, d: String)
        requires
            i < old(self)@.lines.len(),
        ensures
            final(self)@ == (BufferView {
                lines: put_text(old(self)@.lines, i as int, d@),
                ..old(self)@
            }),
    {
        self.lines[i].data = d;
        assert(self@.lines =~= put_text(old(self)@.lines, i as int, d@));
    }

    /// Split line `i` at the boundary `x`; the new line starts with `ind`.
    pub fn split_line(&mut self, i: usize, x: usize, ind: &str)
        requires
            i < old(self)@.lines.len() < usize::MAX,
            is_boundary(old(self)@.lines[i as int].data, x as int),
        ensures
            final(self)@ == (BufferView {
                lines: split_lines(old(self)@.lines, i as int, x as int, ind@),
                ..old(self)@
            }),
    {
        let ghost t = self@.lines[i as int].data;
        let len = byte_len(self.lines[i].data.as_str());
        proof {
            lemma_boundary(t, x as int);
            lemma_bpos_full(t);
            lemma_cidx(t, t.len() as int);
        }
        let after = slice_text(self.lines[i].data.as_str(), x, len);
        let before = slice_text(self.lines[i].data.as_str(), 0, x);
        proof {
            lemma_cidx(t, 0);
            assert(after@ =~= tail(t, x as int));
            assert(before@ =~= head(t, x as int));
        }
        self.set_text(i, before);
        let ghost mid = self@;
        let data = concat_text(ind, after.as_str());
        let line = Line::new(data, i + 2);
        self.lines.insert(i + 1, line);
        assert(self@.lines =~= mid.lines.insert(i + 1, line@));
        self.renumber_from(i + 1);
    }

    /// Append line `i + 1` to line `i`.
    pub fn join_next(&mut self, i: usize)
        requires
            i + 1 < old(self)@.lines.len(),
        ensures
            final(self)@ == (BufferView { lines: join_lines(old(self)@.lines, i as int), ..old(self)@ }),
    {
        let _n = self.lines.len();
        let joined = concat_text(self.lines[i].data.as_str(), self.lines[i + 1].data.as_str());
        self.set_text(i, joined);
        let ghost mid = self@;
        let _gone = self.lines.remove(i + 1);
        assert(self@.lines =~= mid.lines.remove(i + 1));
        self.renumber_from(i + 1);
    }
}

} // verus!

verus! {

/// What the undo item of `action` records as the text it takes away: the
/// character before the cursor for a backspace, the one under it for a delete,
/// or a newline where a line break goes.
pub open spec fn undo_text(b: BufferView, action: UndoType) -> Option<Seq<char>> {
    let t = b.cur_text();
    let k = cidx(t, b.current_x as int);
    match action {
        UndoType::Back => if b.current_x > 0 {
            Some(seq![t[k - 1]])
        } else if b.current > 0 {
            Some(seq!['\n'])
        } else {
            None
        },
        UndoType::Del | UndoType::Join => if b.current_x < bytes_len(t) {
            Some(seq![t[k]])
        } else {
            Some(seq!['\n'])
        },
        _ => None,
    }
}

/// Whether `action` in `b` is a backspace that joins this line to the one above.
pub open spec fn joins_back(b: BufferView, action: UndoType) -> bool {
    action is Back && b.current_x == 0 && b.current > 0
}

/// The undo item that `add_undo` makes for `action` in `b`.  For a backspace
/// that joins two lines, the tail is where the two texts meet.
pub open spec fn undo_record(b: BufferView, action: UndoType) -> UndoView {
    UndoView {
        undo_type: action,
        xflags: 0,
        head_lineno: b.current,
        head_x: b.current_x,
        strdata: undo_text(b, action),
        wassize: b.totsize,
        newsize: b.totsize,
        groups: 0,
        cutbuffer: Seq::empty(),
        tail_lineno: if joins_back(b, action) {
            (b.current - 1) as usize
        } else {
            b.current
        },
        tail_x: if joins_back(b, action) {
            bytes_len(b.lines[b.current - 1].data) as usize
        } else {
            b.current_x
        },
    }
}

/// `b` with the text of its newest undo item set to `s`.
pub open spec fn with_top_text(b: BufferView, s: Seq<char>) -> BufferView {
    let n = b.undo_stack.len() - 1;
    BufferView {
        undo_stack: b.undo_stack.update(n, UndoView { strdata: Some(s), ..b.undo_stack[n] }),
        ..b
    }
}

impl BufferView {
    /// The buffer with `action` recorded: the items that could be redone are
    /// dropped and the new one goes on top.
    pub open spec fn recorded(self, action: UndoType) -> BufferView {
        let kept = if self.undo_index <= self.undo_stack.len() {
            self.undo_stack.take(self.undo_index as int)
        } else {
            self.undo_stack
        };
        BufferView {
            undo_stack: kept.push(undo_record(self, action)),
            undo_index: (self.undo_index + 1) as usize,
            last_action: Some(action),
            ..self
        }
    }
}

impl EditorView {
    /// What an editing key leaves in view mode: a complaint.
    pub open spec fn refused_in_view_mode(self) -> EditorView {
        self.status(MessageType::Ahem, "Key invalid in view mode"@)
    }

    /// What `do_char(c)` leaves.
    pub open spec fn after_char(self, c: char) -> EditorView {
        if self.has_flag(EditorFlags::VIEW_MODE) {
            self.refused_in_view_mode()
        } else {
            let b = with_top_text(self.cur().recorded(UndoType::Add), seq![c]);
            let t = b.cur_text();
            let x = b.current_x as int;
            let nt = insert_at(t, x, seq![c]);
            let nx = x + crate::textseq::char_len(c);
            EditorView {
                refresh_needed: true,
                ..self.with_cur(
                    BufferView {
                        lines: put_text(b.lines, b.current as int, nt),
                        current_x: nx as usize,
                        totsize: (b.totsize + crate::textseq::char_len(c)) as usize,
                        placewewant: cols_to(nt, nx, self.tabsize as int) as usize,
                        modified: true,
                        ..b
                    },
                )
            }
        }
    }

    /// `do_char(c)` can insert `c` without overflowing a counter or a column.
    pub open spec fn can_insert(self, c: char) -> bool {
        let b = self.cur();
        &&& self.has_cur()
        &&& b.cursor_ok()
        &&& b.undo_index < usize::MAX
        &&& b.totsize + crate::textseq::char_len(c) <= usize::MAX
        &&& cols_ok(head(b.cur_text(), b.current_x as int).push(c), self.tabsize as int)
    }
}

/// A text holding one newline.
fn newline_text() -> (r: String)
    ensures
        r@ == seq!['\n'],
{
    let mut s = String::new();
    push_char(&mut s, '\n');
    assert(s@ =~= seq!['\n']);
    s
}

impl Editor {
    /// Add an undo item for `action` to the stack of the current buffer.
    #[verifier::rlimit(40)]
    pub fn add_undo(&mut self, action: UndoType)
        requires
            old(self)@.has_cur(),
            old(self)@.cur().undo_index < usize::MAX,
            action is Back || action is Del || action is Join ==> old(self)@.cur().cursor_ok(),
        ensures
            final(self)@ == old(self)@.with_cur(old(self)@.cur().recorded(action)),
    {
        let cb = self.current_buf;
        let cur = self.buffers[cb].current;
        let x = self.buffers[cb].current_x;
        let ghost b = self@.cur();
        let ghost t = b.cur_text();
        let strdata: Option<String> = match action {
            UndoType::Back => {
                if x > 0 {
                    let text = self.buffers[cb].lines[cur].data.as_str();
                    let prev_x = step_left(text, x);
                    proof {
                        lemma_left_boundary(t, x as int, prev_x as int);
                    }
                    let s = slice_text(text, prev_x, x);
                    assert(s@ =~= seq![t[cidx(t, x as int) - 1]]);
                    Some(s)
                } else if cur > 0 {
                    Some(newline_text())
                } else {
                    None
                }
            },
            UndoType::Del | UndoType::Join => {
                let text = self.buffers[cb].lines[cur].data.as_str();
                if x < byte_len(text) {
                    let next_x = step_right(text, x);
                    proof {
                        lemma_right_boundary(t, x as int, next_x as int);
                    }
                    let s = slice_text(text, x, next_x);
                    assert(s@ =~= seq![t[cidx(t, x as int)]]);
                    Some(s)
                } else {
                    Some(newline_text())
                }
            },
            _ => None,
        };
        let (tail_lineno, tail_x) = match action {
            UndoType::Back => {
                if x == 0 && cur > 0 {
                    (cur - 1, byte_len(self.buffers[cb].lines[cur - 1].data.as_str()))
                } else {
                    (cur, x)
                }
            },
            _ => (cur, x),
        };
        let item = UndoItem {
            undo_type: action,
            xflags: UndoFlags::empty(),
            head_lineno: cur,
            head_x: x,
            strdata,
            wassize: self.buffers[cb].totsize,
            newsize: self.buffers[cb].totsize,
            grouping: Vec::new(),
            cutbuffer: Vec::new(),
            tail_lineno,
            tail_x,
        };
        assert(item@ == undo_record(b, action)) by {
            assert(item@.cutbuffer =~= Seq::<LineView>::empty());
        }
        let idx = self.buffers[cb].undo_index;
        self.buffers[cb].undo_stack.truncate(idx);
        self.buffers[cb].undo_stack.push(item);
        self.buffers[cb].undo_index = idx + 1;
        self.buffers[cb].last_action = Some(action);
        assert(self@.cur().undo_stack =~= b.recorded(action).undo_stack);
        assert(self@.buffers =~= old(self)@.buffers.update(cb as int, b.recorded(action)));
    }

    /// Insert a single character at the cursor position.
    pub fn do_char(&mut self, c: char)
        requires
            old(self)@.has_flag(EditorFlags::VIEW_MODE) || old(self)@.can_insert(c),
        ensures
            final(self)@ == old(self)@.after_char(c),
    {
        if self.flags.contains(EditorFlags::VIEW_MODE) {
            self.statusline(MessageType::Ahem, "Key invalid in view mode");
            return;
        }
        self.add_undo(UndoType::Add);
        let cb = self.current_buf;
        let mut typed = String::new();
        push_char(&mut typed, c);
        let ghost r = old(self)@.cur().recorded(UndoType::Add);
        let ghost e0 = self@;
        assert(self@.buffers.len() == old(self)@.buffers.len());
        assert(cb < self.buffers@.len());
        proof {
            crate::editor::lemma_cur(self);
        }
        assert(self@.cur() == r);
        assert(self.buffers@[cb as int].undo_stack@.len() == r.undo_stack.len());
        let mut top = self.buffers[cb].undo_stack.pop().unwrap();
        top.strdata = Some(typed);
        self.buffers[cb].undo_stack.push(top);
        proof {
            crate::editor::lemma_cur(self);
        }
        assert(self@.cur().undo_stack =~= with_top_text(r, seq![c]).undo_stack);
        assert(self@.cur().lines =~= r.lines);
        assert(self@.cur() == with_top_text(r, seq![c]));
        assert(self@.buffers =~= e0.buffers.update(cb as int, self@.cur()));
        assert(self@.buffers =~= old(self)@.buffers.update(cb as int, self@.cur()));
        let ghost e1 = self@;
        let ghost b = e1.cur();
        let ghost t = b.cur_text();
        let tabsize = self.tabsize;
        assert(self@.buffers.len() == old(self)@.buffers.len());
        assert(cb < self.buffers@.len());
        let cur = self.buffers[cb].current;
        let x = self.buffers[cb].current_x;
        let mut ins = String::new();
        push_char(&mut ins, c);
        let nt = splice_text(self.buffers[cb].lines[cur].data.as_str(), x, x, ins.as_str());
        assert(nt@ =~= insert_at(t, x as int, seq![c]));
        let _nlen = byte_len(nt.as_str());
        let ghost k = cidx(t, x as int);
        proof {
            lemma_boundary(t, x as int);
            let ht = head(t, x as int).push(c);
            assert(nt@.take(k + 1) =~= ht);
            crate::textseq::lemma_bytes_len_push(head(t, x as int), c);
            assert(bpos(nt@, k + 1) == x + crate::textseq::char_len(c));
            lemma_cidx(nt@, k + 1);
            lemma_bpos_mono(nt@, k + 1, nt@.len() as int);
            lemma_bpos_full(nt@);
        }
        let nx = x + crate::textseq::len_utf8(c);
        proof {
            lemma_fit_count_boundary(nt@, nx as int);
            assert(nt@.take(fit_count(nt@, nx as int)) =~= head(t, x as int).push(c));
        }
        let w = wideness(nt.as_str(), nx, tabsize);
        self.buffers[cb].set_text(cur, nt);
        self.buffers[cb].current_x = nx;
        self.buffers[cb].totsize = self.buffers[cb].totsize + crate::textseq::len_utf8(c);
        self.buffers[cb].placewewant = w;
        self.buffers[cb].modified = true;
        self.refresh_needed = true;
        assert(w == cols_to(nt@, nx as int, tabsize as int));
        assert(self@.cur() == old(self)@.after_char(c).cur());
        assert(self@.buffers =~= e1.buffers.update(cb as int, self@.cur()));
        assert(self@.buffers =~= old(self)@.after_char(c).buffers);
    }
}

} // verus!

verus! {

impl EditorView {
    /// What `do_delete` leaves: the character under the cursor deleted, or
    /// the next line joined to this one at the end of a line.
    pub open spec fn after_delete(self) -> EditorView {
        let b = self.cur();
        let t = b.cur_text();
        let k = cidx(t, b.current_x as int);
        if self.has_flag(EditorFlags::VIEW_MODE) {
            self.refused_in_view_mode()
        } else if b.current_x < bytes_len(t) {
            let nb = b.recorded(UndoType::Del);
            EditorView {
                refresh_needed: true,
                ..self.with_cur(
                    BufferView {
                        lines: put_text(b.lines, b.current as int, t.remove(k)),
                        totsize: (b.totsize - crate::textseq::char_len(t[k])) as usize,
                        modified: true,
                        ..nb
                    },
                )
            }
        } else if b.current < b.lines.len() - 1 {
            let nb = b.recorded(UndoType::Join);
            EditorView {
                refresh_needed: true,
                ..self.with_cur(
                    BufferView {
                        lines: join_lines(b.lines, b.current as int),
                        totsize: (b.totsize - 1) as usize,
                        modified: true,
                        ..nb
                    },
                ).margin_confirmed()
            }
        } else {
            self
        }
    }

    /// `do_delete` can run: the cursor is in the text, and the counters
    /// neither overflow nor run below zero.
    pub open spec fn can_delete(self) -> bool {
        let b = self.cur();
        let t = b.cur_text();
        &&& self.has_cur()
        &&& b.cursor_ok()
        &&& b.undo_index < usize::MAX
        &&& self.sidebar_fits()
        &&& b.current_x < bytes_len(t) ==> b.totsize >= crate::textseq::char_len(
            t[cidx(t, b.current_x as int)],
        )
        &&& b.current_x >= bytes_len(t) ==> b.totsize >= 1
    }

    /// What `do_backspace` leaves: the character before the cursor deleted,
    /// or this line joined to the previous one at the start of a line.
    pub open spec fn after_backspace(self) -> EditorView {
        let b = self.cur();
        let t = b.cur_text();
        let k = cidx(t, b.current_x as int);
        if self.has_flag(EditorFlags::VIEW_MODE) {
            self.refused_in_view_mode()
        } else if b.current_x > 0 {
            let nb = b.recorded(UndoType::Back);
            let nt = t.remove(k - 1);
            let nx = bpos(t, k - 1);
            EditorView {
                refresh_needed: true,
                ..self.with_cur(
                    BufferView {
                        lines: put_text(b.lines, b.current as int, nt),
                        current_x: nx as usize,
                        totsize: (b.totsize - crate::textseq::char_len(t[k - 1])) as usize,
                        placewewant: cols_to(nt, nx as int, self.tabsize as int) as usize,
                        modified: true,
                        ..nb
                    },
                )
            }
        } else if b.current > 0 {
            let nb = b.recorded(UndoType::Back);
            let i = b.current - 1;
            let lines = join_lines(b.lines, i);
            let nx = bytes_len(b.lines[i].data);
            EditorView {
                refresh_needed: true,
                ..self.with_cur(
                    BufferView {
                        lines,
                        current: i as usize,
                        current_x: nx as usize,
                        totsize: (b.totsize - 1) as usize,
                        placewewant: cols_to(lines[i].data, nx as int, self.tabsize as int) as usize,
                        modified: true,
                        ..nb
                    },
                ).margin_confirmed()
            }
        } else {
            self
        }
    }

    /// `do_backspace` can run: the cursor is in the text, and neither the
    /// counters nor the wanted column overflow or run below zero.
    pub open spec fn can_backspace(self) -> bool {
        let b = self.cur();
        let t = b.cur_text();
        let k = cidx(t, b.current_x as int);
        &&& self.has_cur()
        &&& b.cursor_ok()
        &&& b.undo_index < usize::MAX
        &&& self.sidebar_fits()
        &&& b.current_x > 0 ==> b.totsize >= crate::textseq::char_len(t[k - 1]) && cols_ok(
            t.take(k - 1),
            self.tabsize as int,
        )
        &&& b.current_x == 0 && b.current > 0 ==> b.totsize >= 1 && cols_ok(
            b.lines[b.current - 1].data,
            self.tabsize as int,
        )
    }

    /// The indentation that `do_enter` gives the new line.
    pub open spec fn enter_indent(self) -> Seq<char> {
        let b = self.cur();
        let h = head(b.cur_text(), b.current_x as int);
        if self.has_flag(EditorFlags::AUTOINDENT) {
            h.take(crate::chars::leading_blanks(h) as int)
        } else {
            Seq::empty()
        }
    }

    /// What `do_enter` leaves: the line split at the cursor, and the cursor
    /// after the indentation at the start of the new line.
    pub open spec fn after_enter(self) -> EditorView {
        let b = self.cur();
        if self.has_flag(EditorFlags::VIEW_MODE) {
            self.refused_in_view_mode()
        } else {
            let nb = b.recorded(UndoType::Enter);
            let ind = self.enter_indent();
            let lines = split_lines(b.lines, b.current as int, b.current_x as int, ind);
            let i = b.current + 1;
            EditorView {
                refresh_needed: true,
                ..self.with_cur(
                    BufferView {
                        lines,
                        current: i as usize,
                        current_x: bytes_len(ind) as usize,
                        totsize: (b.totsize + 1) as usize,
                        placewewant: cols_to(lines[i].data, bytes_len(ind) as int, self.tabsize as int) as usize,
                        modified: true,
                        ..nb
                    },
                ).margin_confirmed()
            }
        }
    }

    /// `do_enter` can run: the cursor is in the text, there is room for one
    /// more line, and neither the counters nor the wanted column overflow.
    pub open spec fn can_enter(self) -> bool {
        let b = self.cur();
        &&& self.has_cur()
        &&& b.cursor_ok()
        &&& b.lines.len() < usize::MAX
        &&& b.undo_index < usize::MAX
        &&& b.totsize < usize::MAX
        &&& self.sidebar_fits()
        &&& cols_ok(self.enter_indent(), self.tabsize as int)
    }
}

} // verus!

verus! {

impl Editor {
    /// Delete the character under the cursor, or join the next line to this one.
    #[verifier::rlimit(80)]
    pub fn do_delete(&mut self)
        requires
            old(self)@.has_flag(EditorFlags::VIEW_MODE) || old(self)@.can_delete(),
        ensures
            final(self)@ == old(self)@.after_delete(),
    {
        if self.flags.contains(EditorFlags::VIEW_MODE) {
            self.statusline(MessageType::Ahem, "Key invalid in view mode");
            return;
        }
        let ghost b = self@.cur();
        let ghost t = b.cur_text();
        let cb = self.current_buf;
        let cur = self.buffers[cb].current;
        let x = self.buffers[cb].current_x;
        let line_len = byte_len(self.buffers[cb].lines[cur].data.as_str());
        if x < line_len {
            self.add_undo(UndoType::Del);
            let ghost e1 = self@;
            assert(self@.buffers.len() == old(self)@.buffers.len());
            proof {
                crate::editor::lemma_cur(self);
            }
            let next_x = step_right(self.buffers[cb].lines[cur].data.as_str(), x);
            proof {
                lemma_right_boundary(t, x as int, next_x as int);
                lemma_boundary(t, x as int);
            }
            let removed_len = next_x - x;
            let empty = String::new();
            let nt = splice_text(self.buffers[cb].lines[cur].data.as_str(), x, next_x, empty.as_str());
            assert(nt@ =~= t.remove(cidx(t, x as int)));
            self.buffers[cb].set_text(cur, nt);
            self.buffers[cb].totsize = self.buffers[cb].totsize - removed_len;
            self.buffers[cb].modified = true;
            self.refresh_needed = true;
            assert(self@.buffers =~= e1.buffers.update(cb as int, self@.cur()));
            assert(self@.buffers =~= old(self)@.after_delete().buffers);
        } else if cur < self.buffers[cb].lines.len() - 1 {
            self.add_undo(UndoType::Join);
            let ghost e1 = self@;
            assert(self@.buffers.len() == old(self)@.buffers.len());
            proof {
                crate::editor::lemma_cur(self);
            }
            self.buffers[cb].join_next(cur);
            self.buffers[cb].totsize = self.buffers[cb].totsize - 1;
            self.buffers[cb].modified = true;
            assert(self@.buffers =~= e1.buffers.update(cb as int, self@.cur()));
            proof {
                crate::editor::lemma_cur(self);
                crate::editor::lemma_margin_bound(self@);
            }
            self.confirm_margin();
            self.refresh_needed = true;
            assert(self@.buffers =~= old(self)@.after_delete().buffers);
        }
    }

    /// Delete the character before the cursor, or join this line to the previous one.
    #[verifier::rlimit(80)]
    pub fn do_backspace(&mut self)
        requires
            old(self)@.has_flag(EditorFlags::VIEW_MODE) || old(self)@.can_backspace(),
        ensures
            final(self)@ == old(self)@.after_backspace(),
    {
        if self.flags.contains(EditorFlags::VIEW_MODE) {
            self.statusline(MessageType::Ahem, "Key invalid in view mode");
            return;
        }
        let ghost b = self@.cur();
        let ghost t = b.cur_text();
        let tabsize = self.tabsize;
        let cb = self.current_buf;
        let cur = self.buffers[cb].current;
        let x = self.buffers[cb].current_x;
        if x > 0 {
            self.add_undo(UndoType::Back);
            let ghost e1 = self@;
            assert(self@.buffers.len() == old(self)@.buffers.len());
            proof {
                crate::editor::lemma_cur(self);
            }
            let prev_x = step_left(self.buffers[cb].lines[cur].data.as_str(), x);
            proof {
                lemma_left_boundary(t, x as int, prev_x as int);
                lemma_boundary(t, x as int);
            }
            let removed_len = x - prev_x;
            let empty = String::new();
            let nt = splice_text(self.buffers[cb].lines[cur].data.as_str(), prev_x, x, empty.as_str());
            let ghost k = cidx(t, x as int);
            assert(nt@ =~= t.remove(k - 1));
            proof {
                assert(nt@.take(k - 1) =~= t.take(k - 1));
                lemma_cidx(nt@, k - 1);
                lemma_fit_count_boundary(nt@, prev_x as int);
            }
            let w = wideness(nt.as_str(), prev_x, tabsize);
            self.buffers[cb].set_text(cur, nt);
            self.buffers[cb].current_x = prev_x;
            self.buffers[cb].totsize = self.buffers[cb].totsize - removed_len;
            self.buffers[cb].placewewant = w;
            self.buffers[cb].modified = true;
            self.refresh_needed = true;
            assert(self@.buffers =~= e1.buffers.update(cb as int, self@.cur()));
            assert(self@.buffers =~= old(self)@.after_backspace().buffers);
        } else if cur > 0 {
            self.add_undo(UndoType::Back);
            let ghost e1 = self@;
            assert(self@.buffers.len() == old(self)@.buffers.len());
            proof {
                crate::editor::lemma_cur(self);
            }
            let prev_len = byte_len(self.buffers[cb].lines[cur - 1].data.as_str());
            let ghost p = b.lines[cur - 1].data;
            self.buffers[cb].join_next(cur - 1);
            self.buffers[cb].current = cur - 1;
            self.buffers[cb].current_x = prev_len;
            self.buffers[cb].totsize = self.buffers[cb].totsize - 1;
            let ghost j = self@.cur().lines[cur - 1].data;
            proof {
                assert(j =~= p + b.lines[cur as int].data);
                assert(j.take(p.len() as int) =~= p);
                crate::textseq::lemma_bpos_concat(p, b.lines[cur as int].data, p.len() as int);
                lemma_bpos_full(p);
                lemma_cidx(j, p.len() as int);
                lemma_fit_count_boundary(j, prev_len as int);
            }
            proof {
                crate::editor::lemma_cur(self);
            }
            let w = wideness(self.buffers[cb].lines[cur - 1].data.as_str(), prev_len, tabsize);
            self.buffers[cb].placewewant = w;
            self.buffers[cb].modified = true;
            assert(self@.buffers =~= e1.buffers.update(cb as int, self@.cur()));
            proof {
                crate::editor::lemma_cur(self);
                crate::editor::lemma_margin_bound(self@);
            }
            self.confirm_margin();
            self.refresh_needed = true;
            assert(self@.buffers =~= old(self)@.after_backspace().buffers);
        }
    }

    /// Split the line at the cursor, indenting the new line like this one
    /// when autoindent is on.
    #[verifier::rlimit(80)]
    pub fn do_enter(&mut self)
        requires
            old(self)@.has_flag(EditorFlags::VIEW_MODE) || old(self)@.can_enter(),
        ensures
            final(self)@ == old(self)@.after_enter(),
    {
        if self.flags.contains(EditorFlags::VIEW_MODE) {
            self.statusline(MessageType::Ahem, "Key invalid in view mode");
            return;
        }
        let ghost b = self@.cur();
        let ghost t = b.cur_text();
        let ghost ind0 = old(self)@.enter_indent();
        self.add_undo(UndoType::Enter);
        let ghost e1 = self@;
        let autoindent = self.flags.contains(EditorFlags::AUTOINDENT);
        let tabsize = self.tabsize;
        let cb = self.current_buf;
        assert(self@.buffers.len() == old(self)@.buffers.len());
        proof {
            crate::editor::lemma_cur(self);
        }
        let cur = self.buffers[cb].current;
        let x = self.buffers[cb].current_x;
        proof {
            lemma_boundary(t, x as int);
            lemma_cidx(t, 0);
        }
        let before = slice_text(self.buffers[cb].lines[cur].data.as_str(), 0, x);
        assert(before@ =~= head(t, x as int));
        let indent = if autoindent {
            let n = crate::chars::indent_length(before.as_str());
            proof {
                lemma_cidx(before@, n as int);
                lemma_cidx(before@, 0);
            }
            slice_text(before.as_str(), 0, n)
        } else {
            String::new()
        };
        assert(indent@ =~= ind0);
        let ilen = byte_len(indent.as_str());
        self.buffers[cb].split_line(cur, x, indent.as_str());
        self.buffers[cb].current = cur + 1;
        self.buffers[cb].current_x = ilen;
        self.buffers[cb].totsize = self.buffers[cb].totsize + 1;
        let ghost nl = self@.cur().lines[cur + 1].data;
        proof {
            assert(nl =~= ind0 + tail(t, x as int));
            assert(nl.take(ind0.len() as int) =~= ind0);
            crate::textseq::lemma_bpos_concat(ind0, tail(t, x as int), ind0.len() as int);
            lemma_bpos_full(ind0);
            lemma_cidx(nl, ind0.len() as int);
            lemma_fit_count_boundary(nl, ilen as int);
        }
        proof {
            crate::editor::lemma_cur(self);
        }
        let w = wideness(self.buffers[cb].lines[cur + 1].data.as_str(), ilen, tabsize);
        self.buffers[cb].placewewant = w;
        self.buffers[cb].modified = true;
        assert(self@.buffers =~= e1.buffers.update(cb as int, self@.cur()));
        proof {
            crate::editor::lemma_cur(self);
            crate::editor::lemma_margin_bound(self@);
        }
        self.confirm_margin();
        self.refresh_needed = true;
        assert(self@.buffers =~= old(self)@.after_enter().buffers);
    }
}

} // verus!

verus! {

/// `a - b`, or 0 when `b` is larger.
pub open spec fn sat_sub(a: int, b: int) -> int {
    if a >= b {
        a - b
    } else {
        0
    }
}

/// The buffer `b` with the cursor at `(line, x)`.
pub open spec fn cursor_to(b: BufferView, line: int, x: int) -> BufferView {
    BufferView { current: line as usize, current_x: x as usize, ..b }
}

/// What taking back the undo item `u` does to the buffer `b`, or `None` for
/// an action that cannot be taken back.
pub open spec fn undone(b: BufferView, u: UndoView) -> Option<BufferView> {
    undone_by(b, u.undo_type, u.head_lineno as int, u.head_x as int, u.strdata, u.tail_x as int)
}

/// The end of the `n` bytes from `x` in `t`, or the end of `t` where it is shorter.
pub open spec fn end_within(t: Seq<char>, x: int, n: int) -> int {
    if x + n <= bytes_len(t) {
        x + n
    } else {
        bytes_len(t) as int
    }
}

/// `undone` of an item given by its kind, line, position, text and the
/// position where it ends (for a backspace that joined two lines, where the
/// two texts meet).
pub open spec fn undone_by(
    b: BufferView,
    kind: UndoType,
    i: int,
    x: int,
    strdata: Option<Seq<char>>,
    tail_x: int,
) -> Option<BufferView> {
    let ls = b.lines;
    match kind {
        UndoType::Add => match strdata {
            Some(s) => {
                let t = ls[i].data;
                Some(
                    BufferView {
                        lines: put_text(ls, i, delete_between(t, x, end_within(t, x, bytes_len(s) as int))),
                        ..cursor_to(b, i, x)
                    },
                )
            },
            None => Some(cursor_to(b, i, x)),
        },
        UndoType::Back => match strdata {
            Some(s) => if x == 0 && i > 0 {
                Some(
                    BufferView {
                        lines: split_lines(ls, i - 1, tail_x, Seq::empty()),
                        ..cursor_to(b, i, 0)
                    },
                )
            } else {
                let ix = sat_sub(x, bytes_len(s) as int);
                Some(
                    BufferView {
                        lines: put_text(ls, i, insert_at(ls[i].data, ix, s)),
                        ..cursor_to(b, i, ix + bytes_len(s))
                    },
                )
            },
            None => Some(cursor_to(b, i, x)),
        },
        UndoType::Del | UndoType::Join => match strdata {
            Some(s) => if kind is Join {
                Some(BufferView { lines: split_lines(ls, i, x, Seq::empty()), ..cursor_to(b, i, x) })
            } else {
                Some(
                    BufferView {
                        lines: put_text(ls, i, insert_at(ls[i].data, x, s)),
                        ..cursor_to(b, i, x)
                    },
                )
            },
            None => Some(cursor_to(b, i, x)),
        },
        UndoType::Enter => if i + 1 < ls.len() {
            Some(BufferView { lines: join_lines(ls, i), ..cursor_to(b, i, x) })
        } else {
            Some(b)
        },
        _ => None,
    }
}

/// Taking back `u` in `b` neither indexes past the text nor cuts a character.
pub open spec fn undoable(b: BufferView, u: UndoView) -> bool {
    undoable_by(b, u.undo_type, u.head_lineno as int, u.head_x as int, u.strdata, u.tail_x as int)
}

/// `undoable` of an item given by its kind, line, position, text and end.
pub open spec fn undoable_by(
    b: BufferView,
    kind: UndoType,
    i: int,
    x: int,
    strdata: Option<Seq<char>>,
    tail_x: int,
) -> bool {
    let ls = b.lines;
    match kind {
        UndoType::Add => match strdata {
            Some(s) => {
                &&& i < ls.len()
                &&& is_boundary(ls[i].data, x)
                &&& is_boundary(ls[i].data, end_within(ls[i].data, x, bytes_len(s) as int))
            },
            None => true,
        },
        UndoType::Back => match strdata {
            Some(s) => if x == 0 && i > 0 {
                &&& i - 1 < ls.len() < usize::MAX
                &&& is_boundary(ls[i - 1].data, tail_x)
            } else {
                i < ls.len() && is_boundary(ls[i].data, sat_sub(x, bytes_len(s) as int))
            },
            None => true,
        },
        UndoType::Del | UndoType::Join => match strdata {
            Some(s) => i < ls.len() && is_boundary(ls[i].data, x) && (kind is Join ==> ls.len()
                < usize::MAX),
            None => true,
        },
        UndoType::Enter => i < usize::MAX,
        _ => true,
    }
}

/// What doing `u` again does to the buffer `b`, or `None` for an action that
/// cannot be done again.
pub open spec fn redone(b: BufferView, u: UndoView) -> Option<BufferView> {
    redone_by(b, u.undo_type, u.head_lineno as int, u.head_x as int, u.strdata)
}

/// `redone` of an item given by its kind, line, position and text.
pub open spec fn redone_by(b: BufferView, kind: UndoType, i: int, x: int, strdata: Option<Seq<char>>) -> Option<BufferView> {
    let ls = b.lines;
    match kind {
        UndoType::Add => match strdata {
            Some(s) => Some(
                BufferView {
                    lines: put_text(ls, i, insert_at(ls[i].data, x, s)),
                    ..cursor_to(b, i, x + bytes_len(s))
                },
            ),
            None => Some(cursor_to(b, i, x)),
        },
        UndoType::Back => match strdata {
            Some(s) => if x == 0 && i > 0 {
                Some(
                    BufferView {
                        lines: join_lines(ls, i - 1),
                        ..cursor_to(b, i - 1, bytes_len(ls[i - 1].data) as int)
                    },
                )
            } else {
                let px = sat_sub(x, bytes_len(s) as int);
                Some(
                    BufferView {
                        lines: put_text(ls, i, delete_between(ls[i].data, px, x)),
                        ..cursor_to(b, i, px)
                    },
                )
            },
            None => Some(cursor_to(b, i, x)),
        },
        UndoType::Del | UndoType::Join => match strdata {
            Some(s) => if kind is Join {
                if i + 1 < ls.len() {
                    Some(BufferView { lines: join_lines(ls, i), ..cursor_to(b, i, x) })
                } else {
                    Some(cursor_to(b, i, x))
                }
            } else {
                let e = if x + bytes_len(s) <= bytes_len(ls[i].data) {
                    x + bytes_len(s)
                } else {
                    bytes_len(ls[i].data) as int
                };
                Some(
                    BufferView {
                        lines: put_text(ls, i, delete_between(ls[i].data, x, e)),
                        ..cursor_to(b, i, x)
                    },
                )
            },
            None => Some(cursor_to(b, i, x)),
        },
        UndoType::Enter => Some(
            BufferView { lines: split_lines(ls, i, x, Seq::empty()), ..cursor_to(b, i + 1, 0) },
        ),
        _ => None,
    }
}

/// Doing `u` again in `b` neither indexes past the text nor cuts a character.
pub open spec fn redoable(b: BufferView, u: UndoView) -> bool {
    redoable_by(b, u.undo_type, u.head_lineno as int, u.head_x as int, u.strdata)
}

/// `redoable` of an item given by its kind, line, position and text.
pub open spec fn redoable_by(b: BufferView, kind: UndoType, i: int, x: int, strdata: Option<Seq<char>>) -> bool {
    let ls = b.lines;
    match kind {
        UndoType::Add => match strdata {
            Some(s) => i < ls.len() && is_boundary(ls[i].data, x),
            None => true,
        },
        UndoType::Back => match strdata {
            Some(s) => if x == 0 && i > 0 {
                i < ls.len()
            } else {
                &&& i < ls.len()
                &&& is_boundary(ls[i].data, sat_sub(x, bytes_len(s) as int))
                &&& is_boundary(ls[i].data, x)
            },
            None => true,
        },
        UndoType::Del | UndoType::Join => match strdata {
            Some(s) => if kind is Join {
                i < usize::MAX
            } else {
                &&& i < ls.len()
                &&& x + bytes_len(s) <= usize::MAX
                &&& is_boundary(ls[i].data, x)
                &&& is_boundary(
                    ls[i].data,
                    if x + bytes_len(s) <= bytes_len(ls[i].data) {
                        x + bytes_len(s)
                    } else {
                        bytes_len(ls[i].data) as int
                    },
                )
            },
            None => true,
        },
        UndoType::Enter => i < ls.len() < usize::MAX && is_boundary(ls[i].data, x),
        _ => true,
    }
}

impl EditorView {
    /// What `do_undo` leaves.
    pub open spec fn after_undo(self) -> EditorView {
        let b = self.cur();
        if b.undo_index == 0 {
            self.status(MessageType::Ahem, "Nothing to undo"@)
        } else {
            let idx = b.undo_index - 1;
            let b1 = BufferView { undo_index: idx as usize, ..b };
            match undone(b1, b.undo_stack[idx]) {
                Some(nb) => EditorView {
                    refresh_needed: true,
                    ..self.with_cur(BufferView { modified: true, ..nb }).margin_confirmed()
                },
                None => self.with_cur(b1).status(MessageType::Ahem, "Cannot undo this action"@),
            }
        }
    }

    /// `do_undo` can run: the item to take back is there and fits the text.
    pub open spec fn can_undo(self) -> bool {
        let b = self.cur();
        &&& self.has_cur()
        &&& self.sidebar_fits()
        &&& b.undo_index > 0 ==> b.undo_index - 1 < b.undo_stack.len() && undoable(
            b,
            b.undo_stack[b.undo_index - 1],
        )
    }

    /// What `do_redo` leaves.
    pub open spec fn after_redo(self) -> EditorView {
        let b = self.cur();
        if b.undo_index >= b.undo_stack.len() {
            self.status(MessageType::Ahem, "Nothing to redo"@)
        } else {
            match redone(b, b.undo_stack[b.undo_index as int]) {
                Some(nb) => EditorView {
                    refresh_needed: true,
                    ..self.with_cur(
                        BufferView {
                            undo_index: (b.undo_index + 1) as usize,
                            modified: true,
                            ..nb
                        },
                    ).margin_confirmed()
                },
                None => self.status(MessageType::Ahem, "Cannot redo this action"@),
            }
        }
    }

    /// `do_redo` can run: the item to do again fits the text.
    pub open spec fn can_redo(self) -> bool {
        let b = self.cur();
        &&& self.has_cur()
        &&& self.sidebar_fits()
        &&& b.undo_index < b.undo_stack.len() ==> redoable(b, b.undo_stack[b.undo_index as int])
    }
}

} // verus!

verus! {

/// A copy of an optional text.
fn copy_opt(o: &Option<String>) -> (r: Option<String>)
    ensures
        opt_text(r) == opt_text(*o),
{
    match o {
        Some(s) => Some(copy_text(s.as_str())),
        None => None,
    }
}

impl OpenBuffer {
    /// Take back an edit of kind `kind` made at `(i, x)` that took `strdata`
    /// away and ended at `tail_x`; false for a kind of edit that cannot be
    /// taken back.
    pub fn apply_undo(
        &mut self,
        kind: UndoType,
        i: usize,
        x: usize,
        strdata: &Option<String>,
        tail_x: usize,
    ) -> (done: bool)
        requires
            undoable_by(old(self)@, kind, i as int, x as int, opt_text(*strdata), tail_x as int),
        ensures
            done == undone_by(old(self)@, kind, i as int, x as int, opt_text(*strdata), tail_x as int) is Some,
            done ==> final(self)@ == undone_by(
                old(self)@,
                kind,
                i as int,
                x as int,
                opt_text(*strdata),
                tail_x as int,
            )->0,
            !done ==> final(self)@ == old(self)@,
    {
        let ghost b = self@;
        let ghost ls = b.lines;
        match kind {
            UndoType::Add => {
                self.current = i;
                self.current_x = x;
                match strdata {
                    Some(s) => {
                        let ghost t = ls[i as int].data;
                        let len = byte_len(self.lines[i].data.as_str());
                        let slen = byte_len(s.as_str());
                        proof {
                            lemma_boundary(t, x as int);
                        }
                        let e = if slen <= len - x {
                            x + slen
                        } else {
                            len
                        };
                        assert(e == end_within(t, x as int, slen as int));
                        let empty = String::new();
                        let nt = splice_text(self.lines[i].data.as_str(), x, e, empty.as_str());
                        assert(nt@ =~= delete_between(t, x as int, e as int));
                        self.set_text(i, nt);
                    },
                    None => {},
                }
                true
            },
            UndoType::Back => {
                self.current = i;
                self.current_x = x;
                match strdata {
                    Some(s) => {
                        if x == 0 && i > 0 {
                            let empty = String::new();
                            assert(empty@ + tail(ls[i - 1].data, tail_x as int) =~= tail(
                                ls[i - 1].data,
                                tail_x as int,
                            ));
                            self.split_line(i - 1, tail_x, empty.as_str());
                            self.current = i;
                            self.current_x = 0;
                        } else {
                            let ghost t = ls[i as int].data;
                            let slen = byte_len(s.as_str());
                            let ix = if x >= slen {
                                x - slen
                            } else {
                                0
                            };
                            proof {
                                lemma_boundary(t, ix as int);
                            }
                            let nt = splice_text(self.lines[i].data.as_str(), ix, ix, s.as_str());
                            let _nlen = byte_len(nt.as_str());
                            proof {
                                let k = cidx(t, ix as int);
                                assert(nt@ =~= head(t, ix as int) + (s@ + tail(t, ix as int)));
                                crate::textseq::lemma_bytes_len_concat(
                                    head(t, ix as int),
                                    s@ + tail(t, ix as int),
                                );
                                crate::textseq::lemma_bytes_len_concat(s@, tail(t, ix as int));
                                assert(bytes_len(head(t, ix as int)) == ix);
                            }
                            self.set_text(i, nt);
                            self.current_x = ix + slen;
                        }
                    },
                    None => {},
                }
                true
            },
            UndoType::Del | UndoType::Join => {
                self.current = i;
                self.current_x = x;
                let join = match kind {
                    UndoType::Join => true,
                    _ => false,
                };
                match strdata {
                    Some(s) => {
                        if join {
                            let empty = String::new();
                            assert(empty@ + tail(ls[i as int].data, x as int) =~= tail(
                                ls[i as int].data,
                                x as int,
                            ));
                            self.split_line(i, x, empty.as_str());
                        } else {
                            let nt = splice_text(self.lines[i].data.as_str(), x, x, s.as_str());
                            self.set_text(i, nt);
                        }
                    },
                    None => {},
                }
                true
            },
            UndoType::Enter => {
                if i + 1 < self.lines.len() {
                    self.join_next(i);
                    self.current = i;
                    self.current_x = x;
                }
                true
            },
            _ => false,
        }
    }

    /// Do again an edit of kind `kind` made at `(i, x)` that took `strdata`
    /// away; false for a kind of edit that cannot be done again.
    pub fn apply_redo(&mut self, kind: UndoType, i: usize, x: usize, strdata: &Option<String>) -> (done: bool)
        requires
            redoable_by(old(self)@, kind, i as int, x as int, opt_text(*strdata)),
        ensures
            done == redone_by(old(self)@, kind, i as int, x as int, opt_text(*strdata)) is Some,
            done ==> final(self)@ == redone_by(old(self)@, kind, i as int, x as int, opt_text(*strdata))->0,
            !done ==> final(self)@ == old(self)@,
    {
        let ghost b = self@;
        let ghost ls = b.lines;
        match kind {
            UndoType::Add => {
                self.current = i;
                self.current_x = x;
                match strdata {
                    Some(s) => {
                        let ghost t = ls[i as int].data;
                        let nt = splice_text(self.lines[i].data.as_str(), x, x, s.as_str());
                        let _nlen = byte_len(nt.as_str());
                        proof {
                            lemma_boundary(t, x as int);
                            assert(nt@ =~= head(t, x as int) + (s@ + tail(t, x as int)));
                            crate::textseq::lemma_bytes_len_concat(
                                head(t, x as int),
                                s@ + tail(t, x as int),
                            );
                            crate::textseq::lemma_bytes_len_concat(s@, tail(t, x as int));
                            assert(bytes_len(head(t, x as int)) == x);
                        }
                        self.set_text(i, nt);
                        self.current_x = x + byte_len(s.as_str());
                    },
                    None => {},
                }
                true
            },
            UndoType::Back => {
                self.current = i;
                self.current_x = x;
                match strdata {
                    Some(s) => {
                        if x == 0 && i > 0 {
                            let prev_len = byte_len(self.lines[i - 1].data.as_str());
                            self.join_next(i - 1);
                            self.current = i - 1;
                            self.current_x = prev_len;
                        } else {
                            let slen = byte_len(s.as_str());
                            let px = if x >= slen {
                                x - slen
                            } else {
                                0
                            };
                            let empty = String::new();
                            let nt = splice_text(self.lines[i].data.as_str(), px, x, empty.as_str());
                            assert(nt@ =~= delete_between(ls[i as int].data, px as int, x as int));
                            self.set_text(i, nt);
                            self.current_x = px;
                        }
                    },
                    None => {},
                }
                true
            },
            UndoType::Del | UndoType::Join => {
                self.current = i;
                self.current_x = x;
                let join = match kind {
                    UndoType::Join => true,
                    _ => false,
                };
                match strdata {
                    Some(s) => {
                        if join {
                            if i + 1 < self.lines.len() {
                                self.join_next(i);
                            }
                        } else {
                            let next_x = x + byte_len(s.as_str());
                            let line_len = byte_len(self.lines[i].data.as_str());
                            let e = if next_x <= line_len {
                                next_x
                            } else {
                                line_len
                            };
                            proof {
                                lemma_boundary(ls[i as int].data, x as int);
                                lemma_boundary(ls[i as int].data, e as int);
                            }
                            let empty = String::new();
                            let nt = splice_text(self.lines[i].data.as_str(), x, e, empty.as_str());
                            assert(nt@ =~= delete_between(ls[i as int].data, x as int, e as int));
                            self.set_text(i, nt);
                        }
                    },
                    None => {},
                }
                true
            },
            UndoType::Enter => {
                let empty = String::new();
                assert(empty@ + tail(ls[i as int].data, x as int) =~= tail(ls[i as int].data, x as int));
                self.split_line(i, x, empty.as_str());
                self.current = i + 1;
                self.current_x = 0;
                true
            },
            _ => false,
        }
    }
}

} // verus!

verus! {

impl Editor {
    /// Take back the last edit.
    pub fn do_undo(&mut self)
        requires
            old(self)@.can_undo(),
        ensures
            final(self)@ == old(self)@.after_undo(),
    {
        let cb = self.current_buf;
        if self.buffers[cb].undo_index == 0 {
            self.statusline(MessageType::Ahem, "Nothing to undo");
            return;
        }
        let idx = self.buffers[cb].undo_index - 1;
        self.buffers[cb].undo_index = idx;
        let ghost e1 = self@;
        assert(e1.buffers =~= old(self)@.buffers.update(
            cb as int,
            BufferView { undo_index: idx, ..old(self)@.cur() },
        ));
        let kind = self.buffers[cb].undo_stack[idx].undo_type;
        let i = self.buffers[cb].undo_stack[idx].head_lineno;
        let x = self.buffers[cb].undo_stack[idx].head_x;
        let s = copy_opt(&self.buffers[cb].undo_stack[idx].strdata);
        let tx = self.buffers[cb].undo_stack[idx].tail_x;
        let done = self.buffers[cb].apply_undo(kind, i, x, &s, tx);
        if !done {
            assert(self@.buffers =~= e1.buffers);
            self.statusline(MessageType::Ahem, "Cannot undo this action");
            return;
        }
        self.buffers[cb].modified = true;
        assert(self@.buffers =~= e1.buffers.update(cb as int, self@.cur()));
        proof {
            crate::editor::lemma_cur(self);
            crate::editor::lemma_margin_bound(self@);
        }
        self.confirm_margin();
        self.refresh_needed = true;
        assert(self@.buffers =~= old(self)@.after_undo().buffers);
    }

    /// Do again the last edit that was taken back.
    pub fn do_redo(&mut self)
        requires
            old(self)@.can_redo(),
        ensures
            final(self)@ == old(self)@.after_redo(),
    {
        let cb = self.current_buf;
        if self.buffers[cb].undo_index >= self.buffers[cb].undo_stack.len() {
            self.statusline(MessageType::Ahem, "Nothing to redo");
            return;
        }
        let idx = self.buffers[cb].undo_index;
        let kind = self.buffers[cb].undo_stack[idx].undo_type;
        let i = self.buffers[cb].undo_stack[idx].head_lineno;
        let x = self.buffers[cb].undo_stack[idx].head_x;
        let s = copy_opt(&self.buffers[cb].undo_stack[idx].strdata);
        let done = self.buffers[cb].apply_redo(kind, i, x, &s);
        if !done {
            assert(self@.buffers =~= old(self)@.buffers);
            self.statusline(MessageType::Ahem, "Cannot redo this action");
            return;
        }
        self.buffers[cb].undo_index = idx + 1;
        self.buffers[cb].modified = true;
        assert(self@.buffers =~= old(self)@.buffers.update(cb as int, self@.cur()));
        proof {
            crate::editor::lemma_cur(self);
            crate::editor::lemma_margin_bound(self@);
        }
        self.confirm_margin();
        self.refresh_needed = true;
        assert(self@.buffers =~= old(self)@.after_redo().buffers);
    }
}

} // verus!

verus! {

impl BufferView {
    /// The undo position lies within the undo stack.
    pub open spec fn undo_consistent(self) -> bool {
        self.undo_index <= self.undo_stack.len()
    }

    /// The lines, and every line's text, fit in memory.
    pub open spec fn lines_fit(self) -> bool {
        &&& self.lines.len() <= usize::MAX
        &&& forall|i: int|
            0 <= i < self.lines.len() ==> bytes_len(#[trigger] self.lines[i].data) <= usize::MAX
    }
}

impl EditorView {
    /// The cursor is on a character of its line.
    pub open spec fn on_char(self) -> bool {
        self.cur().current_x < bytes_len(self.cur().cur_text())
    }

    /// The cursor is at the end of a line that has a line after it.
    pub open spec fn at_joinable_end(self) -> bool {
        let b = self.cur();
        b.current_x >= bytes_len(b.cur_text()) && b.current + 1 < b.lines.len()
    }

    /// The cursor is at the start of a line that has a line before it.
    pub open spec fn at_joinable_start(self) -> bool {
        self.cur().current_x == 0 && self.cur().current > 0
    }

    /// The cursor is after a character of its line.
    pub open spec fn after_char_pos(self) -> bool {
        self.cur().current_x > 0
    }
}

proof fn lemma_recorded_top(b: BufferView, action: UndoType)
    requires
        b.undo_consistent(),
        b.undo_index < usize::MAX,
    ensures
        b.recorded(action).undo_stack.len() == b.undo_index + 1,
        b.recorded(action).undo_stack[b.undo_index as int] == undo_record(b, action),
        b.recorded(action).undo_index == b.undo_index + 1,
{
}

/// Deleting the character under the cursor, or the line break at the end
/// of a line, and then undoing gives back the text, the cursor and the undo
/// position; the undo item stays on the stack.
#[verifier::spinoff_prover]
#[verifier::rlimit(60)]
pub proof fn law_undo_delete(e: EditorView)
    requires
        e.can_delete(),
        !e.has_flag(EditorFlags::VIEW_MODE),
        e.cur().undo_consistent(),
        e.cur().lines_fit(),
        e.on_char() || e.at_joinable_end(),
    ensures
        e.after_delete().can_undo(),
        e.after_delete().after_undo().cur().text() == e.cur().text(),
        e.after_delete().after_undo().cur().current == e.cur().current,
        e.after_delete().after_undo().cur().current_x == e.cur().current_x,
        e.after_delete().after_undo().cur().undo_index == e.cur().undo_index,
        e.after_delete().after_undo().cur().undo_stack.len() == e.cur().undo_index + 1,
{
    let b = e.cur();
    let t = b.cur_text();
    let x = b.current_x as int;
    let i = b.current as int;
    lemma_boundary(t, x);
    lemma_bpos_full(t);
    let e1 = e.after_delete();
    if x < bytes_len(t) {
        let k = cidx(t, x);
        let nt = t.remove(k);
        lemma_recorded_top(b, UndoType::Del);
        assert(nt.take(k) =~= t.take(k));
        lemma_same_head(t, nt, x);
        assert(e1.cur().lines[i].data == nt);
        assert(insert_at(nt, x, seq![t[k]]) =~= t);
        assert(e1.after_undo().cur().text() =~= b.text());
    } else {
        lemma_recorded_top(b, UndoType::Join);
        let ls = b.lines;
        let j = join_lines(ls, i);
        let d = ls[i].data + ls[i + 1].data;
        assert(j[i].data == d);
        assert(d.take(t.len() as int) =~= t);
        crate::textseq::lemma_bpos_concat(t, ls[i + 1].data, t.len() as int);
        lemma_cidx(d, t.len() as int);
        assert(head(d, x) =~= t);
        assert(tail(d, x) =~= ls[i + 1].data);
        let s = split_lines(j, i, x, Seq::empty());
        assert(e1.after_undo().cur().lines == s);
        assert forall|m: int| 0 <= m < ls.len() implies #[trigger] s[m].data == ls[m].data by {
            if m > i + 1 {
                assert(s[m].data == j[m - 1].data);
            }
        }
        assert(e1.after_undo().cur().text() =~= b.text());
    }
}

} // verus!

verus! {

proof fn lemma_join_texts(a: Seq<LineView>, b: Seq<LineView>, i: int)
    requires
        crate::definitions::texts(a) == crate::definitions::texts(b),
        0 <= i,
        i + 1 < a.len(),
    ensures
        crate::definitions::texts(join_lines(a, i)) == crate::definitions::texts(join_lines(b, i)),
{
    assert(a.len() == crate::definitions::texts(a).len());
    assert forall|m: int| 0 <= m < a.len() implies #[trigger] a[m].data == b[m].data by {
        assert(crate::definitions::texts(a)[m] == crate::definitions::texts(b)[m]);
    }
    assert(crate::definitions::texts(join_lines(a, i)) =~= crate::definitions::texts(
        join_lines(b, i),
    ));
}

proof fn lemma_split_texts(a: Seq<LineView>, b: Seq<LineView>, i: int, x: int, ind: Seq<char>)
    requires
        crate::definitions::texts(a) == crate::definitions::texts(b),
        0 <= i < a.len(),
    ensures
        crate::definitions::texts(split_lines(a, i, x, ind)) == crate::definitions::texts(
            split_lines(b, i, x, ind),
        ),
{
    assert(a.len() == crate::definitions::texts(a).len());
    assert forall|m: int| 0 <= m < a.len() implies #[trigger] a[m].data == b[m].data by {
        assert(crate::definitions::texts(a)[m] == crate::definitions::texts(b)[m]);
    }
    assert(crate::definitions::texts(split_lines(a, i, x, ind)) =~= crate::definitions::texts(
        split_lines(b, i, x, ind),
    ));
}

/// Deleting the character before the cursor, or the
/// line break before the line, and then undoing gives back the text, the
/// cursor and the undo position; the undo item stays on the stack.
#[verifier::spinoff_prover]
#[verifier::rlimit(60)]
pub proof fn law_undo_backspace(e: EditorView)
    requires
        e.can_backspace(),
        !e.has_flag(EditorFlags::VIEW_MODE),
        e.cur().undo_consistent(),
        e.cur().lines_fit(),
        e.after_char_pos() || e.at_joinable_start(),
    ensures
        e.after_backspace().can_undo(),
        e.after_backspace().after_undo().cur().text() == e.cur().text(),
        e.after_backspace().after_undo().cur().current == e.cur().current,
        e.after_backspace().after_undo().cur().current_x == e.cur().current_x,
        e.after_backspace().after_undo().cur().undo_index == e.cur().undo_index,
        e.after_backspace().after_undo().cur().undo_stack.len() == e.cur().undo_index + 1,
{
    let b = e.cur();
    let t = b.cur_text();
    let x = b.current_x as int;
    let i = b.current as int;
    lemma_boundary(t, x);
    lemma_bpos_full(t);
    let e1 = e.after_backspace();
    lemma_recorded_top(b, UndoType::Back);
    if x > 0 {
        let k = cidx(t, x);
        let nt = t.remove(k - 1);
        lemma_bpos_step(t, k - 1);
        let ix = bpos(t, k - 1) as int;
        assert(nt.take(k - 1) =~= t.take(k - 1));
        lemma_cidx(t, k - 1);
        lemma_same_head(t, nt, ix);
        crate::textseq::lemma_bytes_len_push(Seq::<char>::empty(), t[k - 1]);
        assert(seq![t[k - 1]] =~= Seq::<char>::empty().push(t[k - 1]));
        assert(e1.cur().lines[i].data == nt);
        assert(insert_at(nt, ix, seq![t[k - 1]]) =~= t);
        assert(e1.after_undo().cur().text() =~= b.text());
    } else {
        let ls = b.lines;
        let p = ls[i - 1].data;
        let q = ls[i].data;
        let j = join_lines(ls, i - 1);
        let d = p + q;
        assert(j[i - 1].data == d);
        assert(d.take(p.len() as int) =~= p);
        crate::textseq::lemma_bpos_concat(p, q, p.len() as int);
        lemma_bpos_full(p);
        lemma_cidx(d, p.len() as int);
        let px = bytes_len(p) as int;
        assert(head(d, px) =~= p);
        assert(tail(d, px) =~= q);
        assert(e1.cur().lines == j);
        let sp = split_lines(j, i - 1, px, Seq::empty());
        assert(e1.after_undo().cur().lines == sp);
        assert forall|m: int| 0 <= m < ls.len() implies #[trigger] sp[m].data == ls[m].data by {
            if m > i {
                assert(sp[m].data == j[m - 1].data);
            }
        }
        assert(e1.after_undo().cur().text() =~= b.text());
    }
}

/// Splitting a line without indenting the new one, and then undoing, gives
/// back the text, the cursor and the undo position; the undo item stays on
/// the stack.
#[verifier::spinoff_prover]
#[verifier::rlimit(60)]
pub proof fn law_undo_enter(e: EditorView)
    requires
        e.can_enter(),
        !e.has_flag(EditorFlags::VIEW_MODE),
        e.cur().undo_consistent(),
        e.enter_indent().len() == 0,
    ensures
        e.after_enter().can_undo(),
        e.after_enter().after_undo().cur().text() == e.cur().text(),
        e.after_enter().after_undo().cur().current == e.cur().current,
        e.after_enter().after_undo().cur().current_x == e.cur().current_x,
        e.after_enter().after_undo().cur().undo_index == e.cur().undo_index,
        e.after_enter().after_undo().cur().undo_stack.len() == e.cur().undo_index + 1,
{
    let b = e.cur();
    let t = b.cur_text();
    let x = b.current_x as int;
    let i = b.current as int;
    lemma_boundary(t, x);
    lemma_recorded_top(b, UndoType::Enter);
    let ls = b.lines;
    assert(e.enter_indent() =~= Seq::<char>::empty());
    let s = split_lines(ls, i, x, Seq::empty());
    let e1 = e.after_enter();
    assert(e1.cur().lines == s);
    let j = join_lines(s, i);
    assert(j[i].data =~= t);
    assert forall|m: int| 0 <= m < ls.len() implies #[trigger] j[m].data == ls[m].data by {
        if m > i {
            assert(j[m].data == s[m + 1].data);
        }
    }
    assert(e1.after_undo().cur().text() =~= b.text());
}

} // verus!

verus! {

/// Deleting, undoing and redoing leaves the text, the cursor and the undo
/// position as the deletion left them.
#[verifier::spinoff_prover]
#[verifier::rlimit(60)]
pub proof fn law_redo_delete(e: EditorView)
    requires
        e.can_delete(),
        !e.has_flag(EditorFlags::VIEW_MODE),
        e.cur().undo_consistent(),
        e.cur().lines_fit(),
        e.on_char() || e.at_joinable_end(),
    ensures
        e.after_delete().after_undo().can_redo(),
        e.after_delete().after_undo().after_redo().cur().text() == e.after_delete().cur().text(),
        e.after_delete().after_undo().after_redo().cur().current == e.after_delete().cur().current,
        e.after_delete().after_undo().after_redo().cur().current_x == e.after_delete().cur().current_x,
        e.after_delete().after_undo().after_redo().cur().undo_index == e.after_delete().cur().undo_index,
{
    law_undo_delete(e);
    let b = e.cur();
    let t = b.cur_text();
    let x = b.current_x as int;
    let i = b.current as int;
    lemma_boundary(t, x);
    lemma_bpos_full(t);
    let e1 = e.after_delete();
    let e2 = e1.after_undo();
    assert(e2.cur().text()[i] == t);
    assert(e2.cur().lines[i].data == t);
    if x < bytes_len(t) {
        let k = cidx(t, x);
        lemma_recorded_top(b, UndoType::Del);
        lemma_bpos_step(t, k);
        lemma_cidx(t, k + 1);
        lemma_bpos_mono(t, k + 1, t.len() as int);
        crate::textseq::lemma_bytes_len_push(Seq::<char>::empty(), t[k]);
        assert(seq![t[k]] =~= Seq::<char>::empty().push(t[k]));
        assert(delete_between(t, x, bpos(t, k + 1) as int) =~= t.remove(k));
        assert(e2.after_redo().cur().text() =~= e1.cur().text());
    } else {
        lemma_recorded_top(b, UndoType::Join);
        lemma_join_texts(e2.cur().lines, b.lines, i);
    }
}

/// Deleting the character before the cursor, or the line break before the
/// line, undoing and redoing leaves the text, the cursor and the undo
/// position as the deletion left them.
#[verifier::spinoff_prover]
#[verifier::rlimit(60)]
pub proof fn law_redo_backspace(e: EditorView)
    requires
        e.can_backspace(),
        !e.has_flag(EditorFlags::VIEW_MODE),
        e.cur().undo_consistent(),
        e.cur().lines_fit(),
        e.after_char_pos() || e.at_joinable_start(),
    ensures
        e.after_backspace().after_undo().can_redo(),
        e.after_backspace().after_undo().after_redo().cur().text() == e.after_backspace().cur().text(),
        e.after_backspace().after_undo().after_redo().cur().current == e.after_backspace().cur().current,
        e.after_backspace().after_undo().after_redo().cur().current_x
            == e.after_backspace().cur().current_x,
        e.after_backspace().after_undo().after_redo().cur().undo_index
            == e.after_backspace().cur().undo_index,
{
    law_undo_backspace(e);
    let b = e.cur();
    let t = b.cur_text();
    let x = b.current_x as int;
    let i = b.current as int;
    lemma_boundary(t, x);
    lemma_bpos_full(t);
    let e1 = e.after_backspace();
    let e2 = e1.after_undo();
    lemma_recorded_top(b, UndoType::Back);
    if x > 0 {
        let k = cidx(t, x);
        assert(e2.cur().text()[i] == t);
        assert(e2.cur().lines[i].data == t);
        lemma_bpos_step(t, k - 1);
        lemma_cidx(t, k - 1);
        crate::textseq::lemma_bytes_len_push(Seq::<char>::empty(), t[k - 1]);
        assert(seq![t[k - 1]] =~= Seq::<char>::empty().push(t[k - 1]));
        assert(delete_between(t, bpos(t, k - 1) as int, x) =~= t.remove(k - 1));
        assert(e2.after_redo().cur().text() =~= e1.cur().text());
    } else {
        let p = b.lines[i - 1].data;
        assert(e2.cur().text()[i - 1] == p);
        assert(e2.cur().lines[i - 1].data == p);
        lemma_join_texts(e2.cur().lines, b.lines, i - 1);
    }
}

/// Splitting a line without indenting the new one, undoing and redoing leaves
/// the text, the cursor and the undo position as the split left them.
#[verifier::spinoff_prover]
#[verifier::rlimit(60)]
pub proof fn law_redo_enter(e: EditorView)
    requires
        e.can_enter(),
        !e.has_flag(EditorFlags::VIEW_MODE),
        e.cur().undo_consistent(),
        e.enter_indent().len() == 0,
    ensures
        e.after_enter().after_undo().can_redo(),
        e.after_enter().after_undo().after_redo().cur().text() == e.after_enter().cur().text(),
        e.after_enter().after_undo().after_redo().cur().current == e.after_enter().cur().current,
        e.after_enter().after_undo().after_redo().cur().current_x == e.after_enter().cur().current_x,
        e.after_enter().after_undo().after_redo().cur().undo_index
            == e.after_enter().cur().undo_index,
{
    law_undo_enter(e);
    let b = e.cur();
    let t = b.cur_text();
    let x = b.current_x as int;
    let i = b.current as int;
    lemma_boundary(t, x);
    lemma_recorded_top(b, UndoType::Enter);
    assert(e.enter_indent() =~= Seq::<char>::empty());
    let e1 = e.after_enter();
    let e2 = e1.after_undo();
    assert(e2.cur().text()[i] == t);
    assert(e2.cur().lines[i].data == t);
    lemma_split_texts(e2.cur().lines, b.lines, i, x, Seq::empty());
}

} // verus!

verus! {

/// The lines from `top` to `bottom` that an indent, unindent or comment works on:
/// from the mark to the cursor line, or the cursor line alone.
pub open spec fn marked_span(b: BufferView) -> (int, int) {
    match b.mark {
        Some(m) => if m <= b.current {
            (m as int, b.current as int)
        } else {
            (b.current as int, m as int)
        },
        None => (b.current as int, b.current as int),
    }
}

/// `ls` with the non-empty lines from `top` to `bottom` indented by `ind`.
pub open spec fn indent_lines(ls: Seq<LineView>, top: int, bottom: int, ind: Seq<char>) -> Seq<
    LineView,
> {
    Seq::new(
        ls.len(),
        |m: int|
            if top <= m <= bottom {
                with_text(ls[m], indented(ls[m].data, ind))
            } else {
                ls[m]
            },
    )
}

/// `ls` with the lines from `top` to `bottom` unindented by one level.
pub open spec fn unindent_lines(ls: Seq<LineView>, top: int, bottom: int, tabsize: nat) -> Seq<
    LineView,
> {
    Seq::new(
        ls.len(),
        |m: int|
            if top <= m <= bottom {
                with_text(ls[m], unindented(ls[m].data, tabsize))
            } else {
                ls[m]
            },
    )
}

/// `ls` with the lines from `top` to `bottom` commented.
pub open spec fn comment_lines(ls: Seq<LineView>, top: int, bottom: int) -> Seq<LineView> {
    Seq::new(
        ls.len(),
        |m: int|
            if top <= m <= bottom {
                with_text(ls[m], commented(ls[m].data))
            } else {
                ls[m]
            },
    )
}

/// `ls` with the first `#` of each line from `top` to `bottom` taken out.
pub open spec fn uncomment_lines(ls: Seq<LineView>, top: int, bottom: int) -> Seq<LineView> {
    Seq::new(
        ls.len(),
        |m: int|
            if top <= m <= bottom {
                with_text(ls[m], without_first(ls[m].data, '#'))
            } else {
                ls[m]
            },
    )
}

/// `n` copies of `c`.
pub open spec fn repeated(c: char, n: nat) -> Seq<char> {
    Seq::new(n, |_i: int| c)
}

/// A non-empty line with `ind` put in front of it.
pub open spec fn indented(d: Seq<char>, ind: Seq<char>) -> Seq<char> {
    if d.len() == 0 {
        d
    } else {
        ind + d
    }
}

/// Number of spaces at the start of `d`.
pub open spec fn leading_spaces(d: Seq<char>) -> nat
    decreases d.len(),
{
    if d.len() > 0 && d[0] == ' ' {
        1 + leading_spaces(d.drop_first())
    } else {
        0
    }
}

/// `d` without one level of indentation: a leading tab, or up to `tabsize`
/// leading spaces.
pub open spec fn unindented(d: Seq<char>, tabsize: nat) -> Seq<char> {
    if d.len() > 0 && d[0] == '\t' {
        d.drop_first()
    } else if leading_spaces(d) < tabsize {
        d.skip(leading_spaces(d) as int)
    } else {
        d.skip(tabsize as int)
    }
}

/// `d` holds only white space, or its first other character is `#`.
pub open spec fn commented_or_blank(d: Seq<char>) -> bool {
    let w = crate::utils::leading_ws(d) as int;
    w >= d.len() || d[w] == '#'
}

/// `d` without its first `c`, if it has one.
pub open spec fn without_first(d: Seq<char>, c: char) -> Seq<char>
    decreases d.len(),
{
    if d.len() == 0 {
        d
    } else if d[0] == c {
        d.drop_first()
    } else {
        seq![d[0]] + without_first(d.drop_first(), c)
    }
}

/// `d` with `#` put after its indentation, unless it is all white space.
pub open spec fn commented(d: Seq<char>) -> Seq<char> {
    if crate::utils::leading_ws(d) >= d.len() {
        d
    } else {
        let n = crate::chars::leading_blanks(d) as int;
        d.take(n) + seq!['#'] + d.skip(n)
    }
}

impl EditorView {
    /// What `do_mark` leaves.
    pub open spec fn after_mark(self) -> EditorView {
        let b = self.cur();
        match b.mark {
            Some(_) => EditorView {
                refresh_needed: true,
                ..self.with_cur(BufferView { mark: None, softmark: false, ..b }).status(
                    MessageType::Info,
                    "Mark Unset"@,
                )
            },
            None => EditorView {
                refresh_needed: true,
                ..self.with_cur(
                    BufferView {
                        mark: Some(b.current),
                        mark_x: b.current_x,
                        softmark: false,
                        ..b
                    },
                ).status(MessageType::Info, "Mark Set"@)
            },
        }
    }

    /// The text that `do_indent` puts in front of each line.
    pub open spec fn indent_unit(self) -> Seq<char> {
        if self.has_flag(EditorFlags::TABS_TO_SPACES) {
            repeated(' ', self.tabsize as nat)
        } else {
            seq!['\t']
        }
    }

    /// What `do_indent` leaves.
    pub open spec fn after_indent(self) -> EditorView {
        let b = self.cur();
        let (top, bottom) = marked_span(b);
        let ind = self.indent_unit();
        if self.has_flag(EditorFlags::VIEW_MODE) {
            self
        } else {
            EditorView {
                refresh_needed: true,
                ..self.with_cur(
                    BufferView {
                        lines: indent_lines(b.lines, top, bottom, ind),
                        current_x: if b.cur_text().len() == 0 {
                            b.current_x
                        } else {
                            (b.current_x + bytes_len(ind)) as usize
                        },
                        modified: true,
                        ..b
                    },
                )
            }
        }
    }

    /// What `do_unindent` leaves.
    pub open spec fn after_unindent(self) -> EditorView {
        let b = self.cur();
        let (top, bottom) = marked_span(b);
        let tabsize = self.tabsize as nat;
        let lines = unindent_lines(b.lines, top, bottom, tabsize);
        let len = bytes_len(lines[b.current as int].data);
        if self.has_flag(EditorFlags::VIEW_MODE) {
            self
        } else {
            EditorView {
                refresh_needed: true,
                ..self.with_cur(
                    BufferView {
                        lines,
                        current_x: if b.current_x > len {
                            len as usize
                        } else {
                            b.current_x
                        },
                        modified: true,
                        ..b
                    },
                )
            }
        }
    }

    /// What `do_comment` leaves: the lines uncommented when each is commented
    /// or blank, else commented.
    pub open spec fn after_comment(self) -> EditorView {
        let b = self.cur();
        let (top, bottom) = marked_span(b);
        let all = forall|m: int| top <= m <= bottom ==> commented_or_blank(#[trigger] b.lines[m].data);
        if self.has_flag(EditorFlags::VIEW_MODE) {
            self
        } else {
            EditorView {
                refresh_needed: true,
                ..self.with_cur(
                    BufferView {
                        lines: if all {
                            uncomment_lines(b.lines, top, bottom)
                        } else {
                            comment_lines(b.lines, top, bottom)
                        },
                        modified: true,
                        ..b
                    },
                )
            }
        }
    }

    /// The lines that an indent, unindent or comment works on are in the buffer.
    pub open spec fn span_ok(self) -> bool {
        &&& self.has_cur()
        &&& marked_span(self.cur()).1 < self.cur().lines.len()
        &&& self.cur().lines_fit()
    }
}

} // verus!

verus! {

/// A non-empty line with `ind` put in front of it.
fn indent_line(d: &str, ind: &str) -> (r: String)
    ensures
        r@ == indented(d@, ind@),
{
    if byte_len(d) == 0 {
        proof {
            if d@.len() > 0 {
                lemma_bpos_full(d@);
                lemma_bpos_mono(d@, 0, d@.len() as int);
            }
        }
        copy_text(d)
    } else {
        concat_text(ind, d)
    }
}

proof fn lemma_leading_spaces(d: Seq<char>, i: int)
    requires
        0 <= i <= d.len(),
        forall|j: int| 0 <= j < i ==> #[trigger] d[j] == ' ',
    ensures
        leading_spaces(d) == i + leading_spaces(d.skip(i)),
    decreases i,
{
    if i == 0 {
        assert(d.skip(0) =~= d);
    } else {
        lemma_leading_spaces(d, i - 1);
        assert(d.skip(i - 1).drop_first() =~= d.skip(i));
        assert(d.skip(i - 1)[0] == d[i - 1]);
    }
}

/// `d` without one level of indentation.
fn unindent_line(d: &str, tabsize: usize) -> (r: String)
    ensures
        r@ == unindented(d@, tabsize as nat),
{
    let cs = crate::textseq::chars_of(d);
    let n = cs.len();
    if n > 0 && cs[0] == '\t' {
        let r = crate::textseq::string_of(&cs, 1, n);
        assert(r@ =~= d@.drop_first());
        return r;
    }
    let mut k: usize = 0;
    while k < n && k < tabsize && cs[k] == ' '
        invariant
            cs@ == d@,
            n == cs@.len(),
            k <= n,
            k <= tabsize,
            forall|j: int| 0 <= j < k ==> #[trigger] cs@[j] == ' ',
        decreases n - k,
    {
        k += 1;
    }
    proof {
        lemma_leading_spaces(d@, k as int);
        if k < n && k < tabsize {
            assert(d@.skip(k as int)[0] == d@[k as int]);
        }
        if k == tabsize && tabsize < n {
            assert(leading_spaces(d@) >= tabsize);
        }
    }
    let r = crate::textseq::string_of(&cs, k, n);
    assert(r@ =~= d@.skip(k as int));
    r
}

/// Whether `d` is all white space or has `#` first after its white space.
fn is_commented_or_blank(d: &str) -> (r: bool)
    ensures
        r == commented_or_blank(d@),
{
    let cs = crate::textseq::chars_of(d);
    let n = cs.len();
    let mut w: usize = 0;
    while w < n && crate::chars::is_whitespace_exec(cs[w])
        invariant
            cs@ == d@,
            n == cs@.len(),
            w <= n,
            forall|j: int| 0 <= j < w ==> crate::chars::is_white_space(#[trigger] cs@[j]),
        decreases n - w,
    {
        w += 1;
    }
    proof {
        crate::utils::lemma_leading_ws(d@, w as int);
        if w < n {
            assert(d@.skip(w as int)[0] == d@[w as int]);
        }
    }
    w >= n || cs[w] == '#'
}

/// `d` with `#` put after its indentation, unless it is all white space.
fn comment_line(d: &str) -> (r: String)
    ensures
        r@ == commented(d@),
{
    let cs = crate::textseq::chars_of(d);
    let n = cs.len();
    let mut w: usize = 0;
    while w < n && crate::chars::is_whitespace_exec(cs[w])
        invariant
            cs@ == d@,
            n == cs@.len(),
            w <= n,
            forall|j: int| 0 <= j < w ==> crate::chars::is_white_space(#[trigger] cs@[j]),
        decreases n - w,
    {
        w += 1;
    }
    proof {
        crate::utils::lemma_leading_ws(d@, w as int);
        if w < n {
            assert(d@.skip(w as int)[0] == d@[w as int]);
        }
    }
    if w >= n {
        return copy_text(d);
    }
    let k = crate::chars::indent_length(d);
    let mut hash = String::new();
    push_char(&mut hash, '#');
    proof {
        lemma_cidx(d@, k as int);
        assert(hash@ =~= seq!['#']);
    }
    let r = splice_text(d, k, k, hash.as_str());
    r
}

proof fn lemma_without_first(d: Seq<char>, c: char, p: int)
    requires
        0 <= p <= d.len(),
        forall|j: int| 0 <= j < p ==> #[trigger] d[j] != c,
    ensures
        without_first(d, c) == d.take(p) + without_first(d.skip(p), c),
    decreases p,
{
    if p == 0 {
        assert(d.skip(0) =~= d);
        assert(d.take(0) + without_first(d, c) =~= without_first(d, c));
    } else {
        let r = d.drop_first();
        assert forall|j: int| 0 <= j < p - 1 implies #[trigger] r[j] != c by {
            assert(r[j] == d[j + 1]);
        }
        lemma_without_first(r, c, p - 1);
        assert(r.skip(p - 1) =~= d.skip(p));
        assert(d.take(p) =~= seq![d[0]] + r.take(p - 1));
    }
}

/// `d` without its first `#`, if it has one.
fn uncomment_line(d: &str) -> (r: String)
    ensures
        r@ == without_first(d@, '#'),
{
    let cs = crate::textseq::chars_of(d);
    let n = cs.len();
    let mut p: usize = 0;
    while p < n && cs[p] != '#'
        invariant
            cs@ == d@,
            n == cs@.len(),
            p <= n,
            forall|j: int| 0 <= j < p ==> #[trigger] cs@[j] != '#',
        decreases n - p,
    {
        p += 1;
    }
    proof {
        lemma_without_first(d@, '#', p as int);
    }
    if p == n {
        assert(d@.skip(p as int) =~= Seq::<char>::empty());
        assert(d@.take(p as int) =~= d@);
        return copy_text(d);
    }
    let mut r = crate::textseq::string_of(&cs, 0, p);
    let rest = crate::textseq::string_of(&cs, p + 1, n);
    crate::textseq::append_str(&mut r, rest.as_str());
    assert(d@.skip(p as int).drop_first() =~= d@.skip(p as int + 1));
    assert(r@ =~= d@.take(p as int) + without_first(d@.skip(p as int), '#'));
    r
}

} // verus!

verus! {

impl OpenBuffer {
    /// Indent the non-empty lines from `top` to `bottom` by `ind`.
    fn indent_span(&mut self, top: usize, bottom: usize, ind: &str)
        requires
            top <= bottom < old(self)@.lines.len(),
        ensures
            final(self)@ == (BufferView {
                lines: indent_lines(old(self)@.lines, top as int, bottom as int, ind@),
                ..old(self)@
            }),
    {
        let _n = self.lines.len();
        let mut i = top;
        assert(indent_lines(old(self)@.lines, top as int, top - 1, ind@) =~= old(self)@.lines);
        while i <= bottom
            invariant
                top <= i <= bottom + 1,
                bottom < old(self)@.lines.len() <= usize::MAX,
                self.lines@.len() == old(self)@.lines.len(),
                self@ == (BufferView {
                    lines: indent_lines(old(self)@.lines, top as int, i - 1, ind@),
                    ..old(self)@
                }),
            decreases bottom + 1 - i,
        {
            let d = indent_line(self.lines[i].data.as_str(), ind);
            self.set_text(i, d);
            assert(self@.lines =~= indent_lines(old(self)@.lines, top as int, i as int, ind@));
            i += 1;
        }
    }

    /// Unindent the lines from `top` to `bottom` by one level.
    fn unindent_span(&mut self, top: usize, bottom: usize, tabsize: usize)
        requires
            top <= bottom < old(self)@.lines.len(),
        ensures
            final(self)@ == (BufferView {
                lines: unindent_lines(old(self)@.lines, top as int, bottom as int, tabsize as nat),
                ..old(self)@
            }),
    {
        let _n = self.lines.len();
        let mut i = top;
        assert(unindent_lines(old(self)@.lines, top as int, top - 1, tabsize as nat)
            =~= old(self)@.lines);
        while i <= bottom
            invariant
                top <= i <= bottom + 1,
                bottom < old(self)@.lines.len() <= usize::MAX,
                self.lines@.len() == old(self)@.lines.len(),
                self@ == (BufferView {
                    lines: unindent_lines(old(self)@.lines, top as int, i - 1, tabsize as nat),
                    ..old(self)@
                }),
            decreases bottom + 1 - i,
        {
            let d = unindent_line(self.lines[i].data.as_str(), tabsize);
            self.set_text(i, d);
            assert(self@.lines =~= unindent_lines(
                old(self)@.lines,
                top as int,
                i as int,
                tabsize as nat,
            ));
            i += 1;
        }
    }

    /// Comment the lines from `top` to `bottom`.
    fn comment_span(&mut self, top: usize, bottom: usize)
        requires
            top <= bottom < old(self)@.lines.len(),
        ensures
            final(self)@ == (BufferView {
                lines: comment_lines(old(self)@.lines, top as int, bottom as int),
                ..old(self)@
            }),
    {
        let _n = self.lines.len();
        let mut i = top;
        assert(comment_lines(old(self)@.lines, top as int, top - 1) =~= old(self)@.lines);
        while i <= bottom
            invariant
                top <= i <= bottom + 1,
                bottom < old(self)@.lines.len() <= usize::MAX,
                self.lines@.len() == old(self)@.lines.len(),
                self@ == (BufferView {
                    lines: comment_lines(old(self)@.lines, top as int, i - 1),
                    ..old(self)@
                }),
            decreases bottom + 1 - i,
        {
            let d = comment_line(self.lines[i].data.as_str());
            self.set_text(i, d);
            assert(self@.lines =~= comment_lines(old(self)@.lines, top as int, i as int));
            i += 1;
        }
    }

    /// Take the first `#` out of each line from `top` to `bottom`.
    fn uncomment_span(&mut self, top: usize, bottom: usize)
        requires
            top <= bottom < old(self)@.lines.len(),
        ensures
            final(self)@ == (BufferView {
                lines: uncomment_lines(old(self)@.lines, top as int, bottom as int),
                ..old(self)@
            }),
    {
        let _n = self.lines.len();
        let mut i = top;
        assert(uncomment_lines(old(self)@.lines, top as int, top - 1) =~= old(self)@.lines);
        while i <= bottom
            invariant
                top <= i <= bottom + 1,
                bottom < old(self)@.lines.len() <= usize::MAX,
                self.lines@.len() == old(self)@.lines.len(),
                self@ == (BufferView {
                    lines: uncomment_lines(old(self)@.lines, top as int, i - 1),
                    ..old(self)@
                }),
            decreases bottom + 1 - i,
        {
            let d = uncomment_line(self.lines[i].data.as_str());
            self.set_text(i, d);
            assert(self@.lines =~= uncomment_lines(old(self)@.lines, top as int, i as int));
            i += 1;
        }
    }

    /// Whether each line from `top` to `bottom` is commented or blank.
    fn span_commented(&self, top: usize, bottom: usize) -> (r: bool)
        requires
            top <= bottom < self@.lines.len(),
        ensures
            r == forall|m: int| top <= m <= bottom ==> commented_or_blank(#[trigger] self@.lines[m].data),
    {
        let _n = self.lines.len();
        let mut i = top;
        while i <= bottom
            invariant
                top <= i <= bottom + 1,
                bottom < self@.lines.len() <= usize::MAX,
                self.lines@.len() == self@.lines.len(),
                forall|m: int| top <= m < i ==> commented_or_blank(#[trigger] self@.lines[m].data),
            decreases bottom + 1 - i,
        {
            if !is_commented_or_blank(self.lines[i].data.as_str()) {
                assert(self@.lines[i as int].data == self.lines@[i as int].data@);
                return false;
            }
            i += 1;
        }
        true
    }

    /// The lines from the mark to the cursor, or the cursor line alone.
    fn span(&self) -> (r: (usize, usize))
        ensures
            r.0 == marked_span(self@).0,
            r.1 == marked_span(self@).1,
    {
        match self.mark {
            Some(m) => if m <= self.current {
                (m, self.current)
            } else {
                (self.current, m)
            },
            None => (self.current, self.current),
        }
    }
}

} // verus!

verus! {

/// `n` spaces.
fn spaces(n: usize) -> (r: String)
    ensures
        r@ == repeated(' ', n as nat),
{
    let mut s = String::new();
    let mut i: usize = 0;
    while i < n
        invariant
            i <= n,
            s@ == repeated(' ', i as nat),
        decreases n - i,
    {
        push_char(&mut s, ' ');
        i += 1;
        assert(s@ =~= repeated(' ', i as nat));
    }
    s
}

impl Editor {
    /// Set the mark at the cursor, or unset it.
    pub fn do_mark(&mut self)
        requires
            old(self)@.has_cur(),
        ensures
            final(self)@ == old(self)@.after_mark(),
    {
        let cb = self.current_buf;
        if self.buffers[cb].mark.is_some() {
            self.buffers[cb].mark = None;
            self.buffers[cb].softmark = false;
            assert(self@.buffers =~= old(self)@.buffers.update(
                cb as int,
                BufferView { mark: None, softmark: false, ..old(self)@.cur() },
            ));
            self.statusline(MessageType::Info, "Mark Unset");
        } else {
            let cur = self.buffers[cb].current;
            let x = self.buffers[cb].current_x;
            self.buffers[cb].mark = Some(cur);
            self.buffers[cb].mark_x = x;
            self.buffers[cb].softmark = false;
            assert(self@.buffers =~= old(self)@.buffers.update(
                cb as int,
                BufferView { mark: Some(cur), mark_x: x, softmark: false, ..old(self)@.cur() },
            ));
            self.statusline(MessageType::Info, "Mark Set");
        }
        self.refresh_needed = true;
    }

    /// Indent the cursor line, or the lines from the mark to the cursor.
    pub fn do_indent(&mut self)
        requires
            old(self)@.has_flag(EditorFlags::VIEW_MODE) || (old(self)@.span_ok() && old(
                self,
            )@.cur().current_x + bytes_len(old(self)@.indent_unit()) <= usize::MAX),
        ensures
            final(self)@ == old(self)@.after_indent(),
    {
        if self.flags.contains(EditorFlags::VIEW_MODE) {
            return;
        }
        let ind = if self.flags.contains(EditorFlags::TABS_TO_SPACES) {
            spaces(self.tabsize)
        } else {
            let mut t = String::new();
            push_char(&mut t, '\t');
            assert(t@ =~= seq!['\t']);
            t
        };
        let cb = self.current_buf;
        let cur = self.buffers[cb].current;
        let was_empty = byte_len(self.buffers[cb].lines[cur].data.as_str()) == 0;
        proof {
            crate::textseq::lemma_bytes_len_zero(self@.cur().cur_text());
        }
        let (top, bottom) = self.buffers[cb].span();
        self.buffers[cb].indent_span(top, bottom, ind.as_str());
        let ilen = byte_len(ind.as_str());
        if !was_empty {
            self.buffers[cb].current_x = self.buffers[cb].current_x + ilen;
        }
        self.buffers[cb].modified = true;
        self.refresh_needed = true;
        assert(self@.buffers =~= old(self)@.after_indent().buffers);
    }

    /// Take one level of indentation off the cursor line, or off the lines
    /// from the mark to the cursor.
    pub fn do_unindent(&mut self)
        requires
            old(self)@.has_flag(EditorFlags::VIEW_MODE) || old(self)@.span_ok(),
        ensures
            final(self)@ == old(self)@.after_unindent(),
    {
        if self.flags.contains(EditorFlags::VIEW_MODE) {
            return;
        }
        let tabsize = self.tabsize;
        let cb = self.current_buf;
        let (top, bottom) = self.buffers[cb].span();
        self.buffers[cb].unindent_span(top, bottom, tabsize);
        proof {
            crate::editor::lemma_cur(self);
        }
        let cur = self.buffers[cb].current;
        let _indent = crate::chars::indent_length(self.buffers[cb].lines[cur].data.as_str());
        let len = byte_len(self.buffers[cb].lines[cur].data.as_str());
        if self.buffers[cb].current_x > len {
            self.buffers[cb].current_x = len;
        }
        self.buffers[cb].modified = true;
        self.refresh_needed = true;
        assert(self@.buffers =~= old(self)@.after_unindent().buffers);
    }

    /// Comment the cursor line, or the lines from the mark to the cursor; or
    /// uncomment them when each is already commented or blank.
    pub fn do_comment(&mut self)
        requires
            old(self)@.has_flag(EditorFlags::VIEW_MODE) || old(self)@.span_ok(),
        ensures
            final(self)@ == old(self)@.after_comment(),
    {
        if self.flags.contains(EditorFlags::VIEW_MODE) {
            return;
        }
        let cb = self.current_buf;
        let (top, bottom) = self.buffers[cb].span();
        let all_commented = self.buffers[cb].span_commented(top, bottom);
        if all_commented {
            self.buffers[cb].uncomment_span(top, bottom);
        } else {
            self.buffers[cb].comment_span(top, bottom);
        }
        self.buffers[cb].modified = true;
        self.refresh_needed = true;
        assert(self@.buffers =~= old(self)@.after_comment().buffers);
    }
}

} // verus!

verus! {

/// The editor after typing `c` `n` times.
pub open spec fn typed(e: EditorView, c: char, n: nat) -> EditorView
    decreases n,
{
    if n == 0 {
        e
    } else {
        typed(e, c, (n - 1) as nat).after_char(c)
    }
}

impl EditorView {
    /// The number of spaces that take the cursor to the next tab stop.
    pub open spec fn tab_spaces(self) -> nat {
        let b = self.cur();
        let col = cols_to(b.cur_text(), b.current_x as int, self.tabsize as int);
        (self.tabsize - col % (self.tabsize as int)) as nat
    }

    /// What `do_tab` leaves: spaces up to the next tab stop, or a tab.
    pub open spec fn after_tab(self) -> EditorView {
        if self.has_flag(EditorFlags::VIEW_MODE) {
            self.refused_in_view_mode()
        } else if self.has_flag(EditorFlags::TABS_TO_SPACES) {
            typed(self, ' ', self.tab_spaces())
        } else {
            self.after_char('\t')
        }
    }

    /// `do_tab` can run without dividing by zero or overflowing.
    pub open spec fn can_tab(self) -> bool {
        let b = self.cur();
        if self.has_flag(EditorFlags::TABS_TO_SPACES) {
            &&& self.has_cur()
            &&& b.cursor_ok()
            &&& self.tabsize > 0
            &&& b.undo_index + self.tabsize <= usize::MAX
            &&& b.totsize + self.tabsize <= usize::MAX
            &&& bytes_len(b.cur_text()) + self.tabsize <= usize::MAX
            &&& crate::chars::cols_bound(head(b.cur_text(), b.current_x as int), self.tabsize as int)
                + 3 * self.tabsize <= usize::MAX
        } else {
            self.can_insert('\t')
        }
    }
}

/// What typing a character keeps and changes.
proof fn lemma_after_char(e: EditorView, c: char)
    requires
        e.can_insert(c),
        !e.has_flag(EditorFlags::VIEW_MODE),
        bytes_len(e.cur().cur_text()) + crate::textseq::char_len(c) <= usize::MAX,
    ensures
        ({
            let f = e.after_char(c);
            let b = e.cur();
            let nb = f.cur();
            &&& f.flags == e.flags
            &&& f.tabsize == e.tabsize
            &&& f.current_buf == e.current_buf
            &&& f.has_cur()
            &&& nb.cursor_ok()
            &&& nb.current == b.current
            &&& nb.current_x == b.current_x + crate::textseq::char_len(c)
            &&& nb.undo_index == b.undo_index + 1
            &&& nb.totsize == b.totsize + crate::textseq::char_len(c)
            &&& bytes_len(nb.cur_text()) == bytes_len(b.cur_text()) + crate::textseq::char_len(c)
            &&& head(nb.cur_text(), nb.current_x as int) == head(b.cur_text(), b.current_x as int).push(
                c,
            )
        }),
{
    let b = e.cur();
    let t = b.cur_text();
    let x = b.current_x as int;
    lemma_boundary(t, x);
    let k = cidx(t, x);
    let nt = insert_at(t, x, seq![c]);
    assert(nt.take(k + 1) =~= head(t, x).push(c));
    crate::textseq::lemma_bytes_len_push(head(t, x), c);
    assert(bpos(nt, k + 1) == x + crate::textseq::char_len(c));
    lemma_cidx(nt, k + 1);
    assert(e.after_char(c).cur().cur_text() == nt);
    assert(nt =~= head(t, x).push(c) + tail(t, x));
    crate::textseq::lemma_bytes_len_concat(head(t, x).push(c), tail(t, x));
    crate::textseq::lemma_bytes_len_concat(head(t, x), tail(t, x));
    assert(t =~= head(t, x) + tail(t, x));
}

proof fn lemma_cols_bound_push(s: Seq<char>, c: char, tabsize: int)
    ensures
        crate::chars::cols_bound(s.push(c), tabsize) == crate::chars::cols_bound(s, tabsize) + (if c
            == '\t' {
            tabsize
        } else {
            3
        }),
{
    assert(s.push(c).drop_last() =~= s);
}

impl Editor {
    /// Insert a tab, or spaces up to the next tab stop.
    pub fn do_tab(&mut self)
        requires
            old(self)@.has_flag(EditorFlags::VIEW_MODE) || old(self)@.can_tab(),
        ensures
            final(self)@ == old(self)@.after_tab(),
    {
        if self.flags.contains(EditorFlags::VIEW_MODE) {
            self.statusline(MessageType::Ahem, "Key invalid in view mode");
            return;
        }
        if self.flags.contains(EditorFlags::TABS_TO_SPACES) {
            let ghost e0 = self@;
            let ghost b0 = e0.cur();
            let ghost h0 = head(b0.cur_text(), b0.current_x as int);
            let tabsize = self.tabsize;
            let cb = self.current_buf;
            let cur = self.buffers[cb].current;
            let x = self.buffers[cb].current_x;
            proof {
                lemma_boundary(b0.cur_text(), x as int);
                lemma_fit_count_boundary(b0.cur_text(), x as int);
                crate::chars::lemma_cols_bound_prefix(b0.cur_text(), cidx(b0.cur_text(), x as int), 0);
            }
            let col = wideness(self.buffers[cb].lines[cur].data.as_str(), x, tabsize);
            let n = tabsize - (col % tabsize);
            let mut j: usize = 0;
            while j < n
                invariant
                    e0 == old(self)@,
                    b0 == e0.cur(),
                    h0 == head(b0.cur_text(), b0.current_x as int),
                    !e0.has_flag(EditorFlags::VIEW_MODE),
                    e0.has_flag(EditorFlags::TABS_TO_SPACES),
                    e0.can_tab(),
                    n <= tabsize == e0.tabsize,
                    n == e0.tab_spaces(),
                    j <= n,
                    self@ == typed(e0, ' ', j as nat),
                    self@.flags == e0.flags,
                    self@.tabsize == e0.tabsize,
                    self@.has_cur(),
                    self@.cur().cursor_ok(),
                    self@.cur().undo_index == b0.undo_index + j,
                    self@.cur().totsize == b0.totsize + j,
                    bytes_len(self@.cur().cur_text()) == bytes_len(b0.cur_text()) + j,
                    head(self@.cur().cur_text(), self@.cur().current_x as int) == h0 + repeated(
                        ' ',
                        j as nat,
                    ),
                decreases n - j,
            {
                proof {
                    let hj = h0 + repeated(' ', j as nat);
                    assert(hj.push(' ') =~= h0 + repeated(' ', (j + 1) as nat));
                    lemma_cols_bound_spaces(h0, (j + 1) as nat, tabsize as int);
                }
                self.do_char(' ');
                proof {
                    lemma_after_char(typed(e0, ' ', j as nat), ' ');
                    assert((h0 + repeated(' ', j as nat)).push(' ') =~= h0 + repeated(' ', (j + 1) as nat));
                }
                j += 1;
            }
        } else {
            self.do_char('\t');
        }
    }
}

proof fn lemma_cols_bound_spaces(h: Seq<char>, m: nat, tabsize: int)
    ensures
        crate::chars::cols_bound(h + repeated(' ', m), tabsize) == crate::chars::cols_bound(h, tabsize) + 3 * m,
    decreases m,
{
    if m == 0 {
        assert(h + repeated(' ', 0) =~= h);
    } else {
        lemma_cols_bound_spaces(h, (m - 1) as nat, tabsize);
        assert(h + repeated(' ', m) =~= (h + repeated(' ', (m - 1) as nat)).push(' '));
        lemma_cols_bound_push(h + repeated(' ', (m - 1) as nat), ' ', tabsize);
    }
}

} // verus!

verus! {

proof fn lemma_leading_spaces_repeated(n: nat, d: Seq<char>)
    ensures
        leading_spaces(repeated(' ', n) + d) == n + leading_spaces(d),
    decreases n,
{
    if n > 0 {
        assert((repeated(' ', n) + d).drop_first() =~= repeated(' ', (n - 1) as nat) + d);
        lemma_leading_spaces_repeated((n - 1) as nat, d);
    } else {
        assert(repeated(' ', n) + d =~= d);
    }
}

/// Unindenting a line that was indented by one level gives it back.
proof fn lemma_unindent_indented(d: Seq<char>, ind: Seq<char>, tabsize: nat)
    requires
        tabsize > 0,
        ind == seq!['\t'] || ind == repeated(' ', tabsize),
    ensures
        unindented(indented(d, ind), tabsize) == d,
{
    if d.len() == 0 {
        assert(d.skip(0) =~= d);
    } else if ind == seq!['\t'] {
        assert((ind + d).drop_first() =~= d);
    } else {
        lemma_leading_spaces_repeated(tabsize, d);
        assert((ind + d)[0] == ' ');
        assert((ind + d).skip(tabsize as int) =~= d);
    }
}

/// Indenting the marked lines (or the cursor line) and then unindenting
/// them gives back the lines as they were.
pub proof fn law_indent_then_unindent(e: EditorView)
    requires
        e.has_cur(),
        !e.has_flag(EditorFlags::VIEW_MODE),
        e.tabsize > 0,
    ensures
        e.after_indent().after_unindent().cur().lines == e.cur().lines,
{
    let b = e.cur();
    let (top, bottom) = marked_span(b);
    let ind = e.indent_unit();
    let e1 = e.after_indent();
    assert(e1.cur().lines == indent_lines(b.lines, top, bottom, ind));
    assert(marked_span(e1.cur()) == (top, bottom));
    assert(e1.tabsize == e.tabsize);
    assert(e1.flags == e.flags);
    let l2 = unindent_lines(indent_lines(b.lines, top, bottom, ind), top, bottom, e.tabsize as nat);
    assert forall|m: int| 0 <= m < b.lines.len() implies #[trigger] l2[m] == b.lines[m] by {
        if top <= m <= bottom {
            lemma_unindent_indented(b.lines[m].data, ind, e.tabsize as nat);
        }
    }
    assert(l2 =~= b.lines);
}

} // verus!

verus! {

/// Typing a character and then undoing gives back the text, the cursor and
/// the undo position; the undo item stays on the stack to be redone.
#[verifier::spinoff_prover]
#[verifier::rlimit(60)]
pub proof fn law_undo_char(e: EditorView, c: char)
    requires
        e.can_insert(c),
        !e.has_flag(EditorFlags::VIEW_MODE),
        e.cur().undo_consistent(),
        e.cur().lines_fit(),
        e.sidebar_fits(),
    ensures
        e.after_char(c).can_undo(),
        e.after_char(c).after_undo().cur().text() == e.cur().text(),
        e.after_char(c).after_undo().cur().current == e.cur().current,
        e.after_char(c).after_undo().cur().current_x == e.cur().current_x,
        e.after_char(c).after_undo().cur().undo_index == e.cur().undo_index,
        e.after_char(c).after_undo().cur().undo_stack.len() == e.cur().undo_index + 1,
{
    let b = e.cur();
    let t = b.cur_text();
    let x = b.current_x as int;
    let i = b.current as int;
    lemma_typed_char(t, x, c);
    lemma_recorded_top(b, UndoType::Add);
    let nt = insert_at(t, x, seq![c]);
    let e1 = e.after_char(c);
    assert(e1.cur().lines[i].data == nt);
    assert(e1.after_undo().cur().text() =~= b.text());
}

/// Typing `c` at the boundary `x` of `t`: the text before `x` stays, `x` and
/// the end of `c` are boundaries of the new text, and taking the character
/// back out gives `t`.
proof fn lemma_typed_char(t: Seq<char>, x: int, c: char)
    requires
        is_boundary(t, x),
    ensures
        is_boundary(insert_at(t, x, seq![c]), x),
        cidx(insert_at(t, x, seq![c]), x) == cidx(t, x),
        bytes_len(seq![c]) == crate::textseq::char_len(c),
        end_within(insert_at(t, x, seq![c]), x, bytes_len(seq![c]) as int) == x
            + crate::textseq::char_len(c),
        is_boundary(insert_at(t, x, seq![c]), x + crate::textseq::char_len(c)),
        delete_between(
            insert_at(t, x, seq![c]),
            x,
            x + crate::textseq::char_len(c),
        ) =~= t,
{
    lemma_boundary(t, x);
    lemma_bpos_full(t);
    let k = cidx(t, x);
    let nt = insert_at(t, x, seq![c]);
    assert(nt.take(k) =~= t.take(k));
    lemma_same_head(t, nt, x);
    let ht = head(t, x).push(c);
    assert(nt.take(k + 1) =~= ht);
    crate::textseq::lemma_bytes_len_push(head(t, x), c);
    crate::textseq::lemma_bytes_len_push(Seq::<char>::empty(), c);
    assert(seq![c] =~= Seq::<char>::empty().push(c));
    assert(bpos(nt, k + 1) == x + crate::textseq::char_len(c));
    lemma_cidx(nt, k + 1);
    lemma_bpos_mono(nt, k + 1, nt.len() as int);
    lemma_bpos_full(nt);
    assert(nt.skip(k + 1) =~= t.skip(k));
}

/// Typing a character, undoing and redoing leaves the text, the cursor and
/// the undo position as the typing left them.
#[verifier::spinoff_prover]
#[verifier::rlimit(60)]
pub proof fn law_redo_char(e: EditorView, c: char)
    requires
        e.can_insert(c),
        !e.has_flag(EditorFlags::VIEW_MODE),
        e.cur().undo_consistent(),
        e.cur().lines_fit(),
        e.sidebar_fits(),
    ensures
        e.after_char(c).after_undo().can_redo(),
        e.after_char(c).after_undo().after_redo().cur().text() == e.after_char(c).cur().text(),
        e.after_char(c).after_undo().after_redo().cur().current == e.after_char(c).cur().current,
        e.after_char(c).after_undo().after_redo().cur().current_x == e.after_char(c).cur().current_x,
        e.after_char(c).after_undo().after_redo().cur().undo_index
            == e.after_char(c).cur().undo_index,
{
    law_undo_char(e, c);
    let b = e.cur();
    let t = b.cur_text();
    let x = b.current_x as int;
    let i = b.current as int;
    lemma_typed_char(t, x, c);
    lemma_recorded_top(b, UndoType::Add);
    let e1 = e.after_char(c);
    let e2 = e1.after_undo();
    assert(e2.cur().text()[i] == t);
    assert(e2.cur().lines[i].data == t);
    assert(e2.after_redo().cur().text() =~= e1.cur().text());
}

} // verus!

verus! {

proof fn lemma_blanks_prefix(d: Seq<char>, n: int)
    requires
        0 <= n <= crate::chars::leading_blanks(d),
        n <= d.len(),
    ensures
        forall|j: int| 0 <= j < n ==> crate::chars::is_blank(#[trigger] d[j]),
    decreases n,
{
    if n > 0 {
        assert(d[0] == ' ' || d[0] == '\t');
        lemma_blanks_prefix(d.drop_first(), n - 1);
        assert forall|j: int| 0 <= j < n implies crate::chars::is_blank(#[trigger] d[j]) by {
            if j > 0 {
                assert(d[j] == d.drop_first()[j - 1]);
            }
        }
    }
}

proof fn lemma_leading_blanks_le(d: Seq<char>)
    ensures
        crate::chars::leading_blanks(d) <= d.len(),
        crate::chars::leading_blanks(d) < d.len() ==> !crate::chars::is_blank(d[crate::chars::leading_blanks(d) as int]),
    decreases d.len(),
{
    if d.len() > 0 && crate::chars::is_blank(d[0]) {
        lemma_leading_blanks_le(d.drop_first());
    }
}

/// White space before text that starts with a non-white character counts
/// as its leading white space.
proof fn lemma_leading_ws_prefix(p: Seq<char>, s: Seq<char>)
    requires
        forall|j: int| 0 <= j < p.len() ==> crate::chars::is_white_space(#[trigger] p[j]),
        s.len() > 0,
        !crate::chars::is_white_space(s[0]),
    ensures
        crate::utils::leading_ws(p + s) == p.len(),
    decreases p.len(),
{
    if p.len() == 0 {
        assert(p + s =~= s);
    } else {
        assert((p + s).drop_first() =~= p.drop_first() + s);
        lemma_leading_ws_prefix(p.drop_first(), s);
    }
}

proof fn lemma_all_ws(d: Seq<char>, j: int)
    requires
        crate::utils::leading_ws(d) >= d.len(),
        0 <= j < d.len(),
    ensures
        crate::chars::is_white_space(d[j]),
    decreases j,
{
    assert(crate::chars::is_white_space(d[0]));
    if j > 0 {
        assert(crate::utils::leading_ws(d) == 1 + crate::utils::leading_ws(d.drop_first()));
        lemma_all_ws(d.drop_first(), j - 1);
    }
}

proof fn lemma_without_first_absent(d: Seq<char>, c: char)
    requires
        !d.contains(c),
    ensures
        without_first(d, c) == d,
    decreases d.len(),
{
    if d.len() > 0 {
        assert(d[0] != c);
        assert(!d.drop_first().contains(c)) by {
            if d.drop_first().contains(c) {
                let j = choose|j: int| 0 <= j < d.drop_first().len() && d.drop_first()[j] == c;
                assert(d[j + 1] == c);
            }
        }
        lemma_without_first_absent(d.drop_first(), c);
        assert(seq![d[0]] + d.drop_first() =~= d);
    }
}

proof fn lemma_without_first_after(p: Seq<char>, s: Seq<char>, c: char)
    requires
        !p.contains(c),
    ensures
        without_first(p + seq![c] + s, c) == p + s,
    decreases p.len(),
{
    if p.len() == 0 {
        assert(p + seq![c] + s =~= seq![c] + s);
        assert((seq![c] + s).drop_first() =~= s);
        assert(p + s =~= s);
    } else {
        let q = p.drop_first();
        assert(!q.contains(c)) by {
            if q.contains(c) {
                let j = choose|j: int| 0 <= j < q.len() && q[j] == c;
                assert(p[j + 1] == c);
            }
        }
        assert(p[0] != c);
        assert((p + seq![c] + s).drop_first() =~= q + seq![c] + s);
        lemma_without_first_after(q, s, c);
        assert(seq![p[0]] + (q + s) =~= p + s);
    }
}

/// Commenting a line and taking the comment out again gives the line back,
/// and a commented line counts as commented.
proof fn lemma_comment_line(d: Seq<char>)
    ensures
        commented_or_blank(commented(d)),
        without_first(commented(d), '#') == d,
{
    if crate::utils::leading_ws(d) >= d.len() {
        assert(!d.contains('#')) by {
            if d.contains('#') {
                let j = choose|j: int| 0 <= j < d.len() && d[j] == '#';
                lemma_all_ws(d, j);
            }
        }
        lemma_without_first_absent(d, '#');
    } else {
        let n = crate::chars::leading_blanks(d) as int;
        lemma_leading_blanks_le(d);
        let p = d.take(n);
        let s = seq!['#'] + d.skip(n);
        lemma_blanks_prefix(d, n);
        assert forall|j: int| 0 <= j < p.len() implies crate::chars::is_white_space(#[trigger] p[j]) by {
            assert(crate::chars::is_blank(d[j]));
        }
        assert(commented(d) =~= p + s);
        lemma_leading_ws_prefix(p, s);
        assert((p + s)[n] == '#');
        assert(!p.contains('#')) by {
            if p.contains('#') {
                let j = choose|j: int| 0 <= j < p.len() && p[j] == '#';
                assert(crate::chars::is_blank(d[j]));
            }
        }
        assert(p + seq!['#'] + d.skip(n) =~= p + s);
        lemma_without_first_after(p, d.skip(n), '#');
        assert(p + d.skip(n) =~= d);
    }
}

/// `d` is white space alone, or blanks, a `#`, and text that starts with
/// neither white space nor a `#`: a line that commenting gives back after
/// its comment is taken out.
pub open spec fn simply_commented(d: Seq<char>) -> bool {
    let n = crate::chars::leading_blanks(d) as int;
    ||| crate::utils::leading_ws(d) >= d.len()
    ||| n + 1 < d.len() && d[n] == '#' && !crate::chars::is_white_space(d[n + 1]) && d[n + 1] != '#'
}

/// Blanks before text that starts with a non-blank count as leading blanks.
proof fn lemma_leading_blanks_prefix(p: Seq<char>, s: Seq<char>)
    requires
        forall|j: int| 0 <= j < p.len() ==> crate::chars::is_blank(#[trigger] p[j]),
        s.len() > 0,
        !crate::chars::is_blank(s[0]),
    ensures
        crate::chars::leading_blanks(p + s) == p.len(),
    decreases p.len(),
{
    if p.len() == 0 {
        assert(p + s =~= s);
    } else {
        assert((p + s).drop_first() =~= p.drop_first() + s);
        lemma_leading_blanks_prefix(p.drop_first(), s);
    }
}

/// A simply commented line counts as commented or blank; taking its
/// comment out and commenting it again gives it back, and a line that is
/// not all white space is then no longer commented in between.
proof fn lemma_uncomment_line(d: Seq<char>)
    requires
        simply_commented(d),
    ensures
        commented_or_blank(d),
        commented(without_first(d, '#')) == d,
        crate::utils::leading_ws(d) < d.len() ==> !commented_or_blank(without_first(d, '#')),
        crate::utils::leading_ws(d) >= d.len() ==> without_first(d, '#') == d,
{
    if crate::utils::leading_ws(d) >= d.len() {
        assert(!d.contains('#')) by {
            if d.contains('#') {
                let j = choose|j: int| 0 <= j < d.len() && d[j] == '#';
                lemma_all_ws(d, j);
            }
        }
        lemma_without_first_absent(d, '#');
    } else {
        let n = crate::chars::leading_blanks(d) as int;
        lemma_leading_blanks_le(d);
        let p = d.take(n);
        let r = d.skip(n + 1);
        lemma_blanks_prefix(d, n);
        assert forall|j: int| 0 <= j < p.len() implies crate::chars::is_white_space(#[trigger] p[j]) by {
            assert(crate::chars::is_blank(d[j]));
        }
        assert forall|j: int| 0 <= j < p.len() implies crate::chars::is_blank(#[trigger] p[j]) by {
            assert(crate::chars::is_blank(d[j]));
        }
        assert(d =~= p + seq!['#'] + r);
        assert(d =~= p + d.skip(n));
        lemma_leading_ws_prefix(p, d.skip(n));
        assert(!p.contains('#')) by {
            if p.contains('#') {
                let j = choose|j: int| 0 <= j < p.len() && p[j] == '#';
                assert(crate::chars::is_blank(d[j]));
            }
        }
        lemma_without_first_after(p, r, '#');
        let u = p + r;
        assert(r[0] == d[n + 1]);
        lemma_leading_ws_prefix(p, r);
        lemma_leading_blanks_prefix(p, r);
        assert(u.take(n) =~= p);
        assert(u.skip(n) =~= r);
        assert(commented(u) =~= d);
    }
}

/// Commenting the marked lines (or the cursor line) when each of them is
/// commented already, and commenting again, gives back the lines, when each
/// is white space alone or blanks, a `#` and text that starts with neither
/// white space nor a `#`.
pub proof fn law_comment_twice_commented(e: EditorView)
    requires
        e.has_cur(),
        !e.has_flag(EditorFlags::VIEW_MODE),
        marked_span(e.cur()).1 < e.cur().lines.len(),
        forall|m: int|
            marked_span(e.cur()).0 <= m <= marked_span(e.cur()).1 ==> simply_commented(
                #[trigger] e.cur().lines[m].data,
            ),
    ensures
        e.after_comment().after_comment().cur().lines == e.cur().lines,
{
    let b = e.cur();
    let (top, bottom) = marked_span(b);
    assert forall|m: int| top <= m <= bottom implies commented_or_blank(#[trigger] b.lines[m].data) by {
        lemma_uncomment_line(b.lines[m].data);
    }
    let e1 = e.after_comment();
    let l1 = uncomment_lines(b.lines, top, bottom);
    assert(e1.cur().lines == l1);
    assert(marked_span(e1.cur()) == (top, bottom));
    if exists|m: int| top <= m <= bottom && crate::utils::leading_ws(#[trigger] b.lines[m].data) < b.lines[m].data.len() {
        let m0 = choose|m: int| top <= m <= bottom && crate::utils::leading_ws(#[trigger] b.lines[m].data) < b.lines[m].data.len();
        lemma_uncomment_line(b.lines[m0].data);
        assert(!commented_or_blank(l1[m0].data));
        let l2 = comment_lines(l1, top, bottom);
        assert forall|m: int| 0 <= m < b.lines.len() implies #[trigger] l2[m] == b.lines[m] by {
            if top <= m <= bottom {
                lemma_uncomment_line(b.lines[m].data);
            }
        }
        assert(l2 =~= b.lines);
    } else {
        assert forall|m: int| 0 <= m < b.lines.len() implies #[trigger] l1[m] == b.lines[m] by {
            if top <= m <= bottom {
                lemma_uncomment_line(b.lines[m].data);
            }
        }
        assert(l1 =~= b.lines);
        let l2 = uncomment_lines(l1, top, bottom);
        assert(l2 =~= b.lines);
    }
}

/// Commenting the marked lines (or the cursor line), when one of them is
/// not commented yet, and commenting again gives back the lines.
pub proof fn law_comment_twice(e: EditorView)
    requires
        e.has_cur(),
        !e.has_flag(EditorFlags::VIEW_MODE),
        marked_span(e.cur()).1 < e.cur().lines.len(),
        exists|m: int|
            marked_span(e.cur()).0 <= m <= marked_span(e.cur()).1 && !commented_or_blank(
                #[trigger] e.cur().lines[m].data,
            ),
    ensures
        e.after_comment().after_comment().cur().lines == e.cur().lines,
{
    let b = e.cur();
    let (top, bottom) = marked_span(b);
    let e1 = e.after_comment();
    let l1 = comment_lines(b.lines, top, bottom);
    assert(e1.cur().lines == l1);
    assert(marked_span(e1.cur()) == (top, bottom));
    assert forall|m: int| top <= m <= bottom implies commented_or_blank(#[trigger] l1[m].data) by {
        lemma_comment_line(b.lines[m].data);
    }
    let l2 = uncomment_lines(l1, top, bottom);
    assert forall|m: int| 0 <= m < b.lines.len() implies #[trigger] l2[m] == b.lines[m] by {
        if top <= m <= bottom {
            lemma_comment_line(b.lines[m].data);
        }
    }
    assert(l2 =~= b.lines);
}

} // verus!

verus! {

/// Typing a character and deleting keep the cursor on a line of the buffer,
/// at the start of a character or at the end of the line.
pub proof fn law_edits_keep_cursor(e: EditorView, c: char)
    requires
        e.has_cur(),
        e.cur().cursor_ok(),
        e.cur().lines_fit(),
        e.cur().current_x + 4 <= usize::MAX,
    ensures
        e.after_char(c).cur().cursor_ok(),
        e.after_delete().cur().cursor_ok(),
{
    let b = e.cur();
    let t = b.cur_text();
    let x = b.current_x as int;
    let i = b.current as int;
    lemma_boundary(t, x);
    lemma_bpos_full(t);
    let k = cidx(t, x);
    if !e.has_flag(EditorFlags::VIEW_MODE) {
        // typing
        let nt = insert_at(t, x, seq![c]);
        assert(nt.take(k) =~= t.take(k));
        assert(nt.take(k + 1) =~= t.take(k).push(c));
        lemma_bpos_step(nt, k);
        lemma_same_head(t, nt, x);
        lemma_cidx(nt, k + 1);
        assert(nt[k] == c);
        assert(bpos(nt, k) == bpos(t, k));
        crate::textseq::lemma_char_len_bounds(c);
        assert(e.after_char(c).cur().cur_text() == nt);
        assert(e.after_char(c).cur().current_x == bpos(nt, k + 1));
        // deleting
        if x < bytes_len(t) {
            let dt = t.remove(k);
            assert(dt.take(k) =~= t.take(k));
            lemma_same_head(t, dt, x);
            assert(e.after_delete().cur().cur_text() == dt);
        } else if b.current < b.lines.len() - 1 {
            let d = t + b.lines[i + 1].data;
            crate::textseq::lemma_bpos_concat(t, b.lines[i + 1].data, t.len() as int);
            lemma_cidx(d, t.len() as int);
            assert(d.take(t.len() as int) =~= t);
            assert(e.after_delete().cur().cur_text() == d);
            assert(x == bytes_len(t));
        }
    }
}

/// Enter splits the cursor line at the cursor: the line keeps the text
/// before the cursor, and a new line after it gets the text after the
/// cursor.  With autoindent on, the new line first repeats the blanks that
/// begin the text before the cursor (all of them, up to its first other
/// character) and the cursor sits right after them; with it off, the new
/// line is the text after the cursor alone and the cursor is at its start.
pub proof fn law_enter_splits(e: EditorView)
    requires
        e.can_enter(),
        !e.has_flag(EditorFlags::VIEW_MODE),
    ensures
        ({
            let b = e.cur();
            let t = b.cur_text();
            let x = b.current_x as int;
            let h = head(t, x);
            let i = b.current as int;
            let f = e.after_enter().cur();
            &&& f.lines.len() == b.lines.len() + 1
            &&& f.current == i + 1
            &&& f.lines[i].data == h
            &&& (forall|m: int| 0 <= m < i ==> #[trigger] f.lines[m].data == b.lines[m].data)
            &&& (forall|m: int| i + 1 < m < f.lines.len() ==> #[trigger] f.lines[m].data == b.lines[m - 1].data)
            &&& e.has_flag(EditorFlags::AUTOINDENT) ==> exists|n: int|
                #![trigger h.take(n)]
                0 <= n <= h.len() && (forall|j: int| 0 <= j < n ==> crate::chars::is_blank(#[trigger] h[j]))
                    && (n == h.len() || !crate::chars::is_blank(h[n]))
                    && f.lines[i + 1].data == h.take(n) + tail(t, x)
                    && f.current_x == bytes_len(h.take(n))
            &&& !e.has_flag(EditorFlags::AUTOINDENT) ==> f.lines[i + 1].data == tail(t, x) && f.current_x == 0
        }),
{
    let b = e.cur();
    let t = b.cur_text();
    let x = b.current_x as int;
    let h = head(t, x);
    let i = b.current as int;
    let f = e.after_enter().cur();
    let ind = e.enter_indent();
    let sl = split_lines(b.lines, i, x, ind);
    assert(f.lines == sl);
    lemma_boundary(t, x);
    lemma_bpos_full(h);
    assert(bytes_len(h) == x);
    if e.has_flag(EditorFlags::AUTOINDENT) {
        lemma_leading_blanks_le(h);
        crate::textseq::lemma_bpos_mono(h, crate::chars::leading_blanks(h) as int, h.len() as int);
    } else {
        assert(ind =~= Seq::<char>::empty());
    }
    assert(bytes_len(ind) <= x);
    assert(f.current_x == bytes_len(ind));
    if e.has_flag(EditorFlags::AUTOINDENT) {
        let n = crate::chars::leading_blanks(h) as int;
        lemma_leading_blanks_le(h);
        lemma_blanks_prefix(h, n);
        assert(ind == h.take(n));
        assert(f.lines[i + 1].data == h.take(n) + tail(t, x));
    } else {
        assert(ind =~= Seq::<char>::empty());
        assert(f.lines[i + 1].data == Seq::<char>::empty() + tail(t, x));
        assert(Seq::<char>::empty() + tail(t, x) =~= tail(t, x));
    }
}

/// Typing `c` puts it into the cursor line right at the cursor, after the
/// characters before the cursor and before the others, and moves the cursor
/// past it; no other line changes.
pub proof fn law_char_inserts(e: EditorView, c: char)
    requires
        e.can_insert(c),
        !e.has_flag(EditorFlags::VIEW_MODE),
        bytes_len(e.cur().cur_text()) + crate::textseq::char_len(c) <= usize::MAX,
    ensures
        ({
            let b = e.cur();
            let t = b.cur_text();
            let k = cidx(t, b.current_x as int);
            let f = e.after_char(c).cur();
            &&& crate::definitions::texts(f.lines) == crate::definitions::texts(b.lines).update(
                b.current as int,
                t.take(k).push(c) + t.skip(k),
            )
            &&& f.current == b.current
            &&& f.current_x == b.current_x + crate::textseq::char_len(c)
        }),
{
    let b = e.cur();
    let t = b.cur_text();
    let k = cidx(t, b.current_x as int);
    let f = e.after_char(c).cur();
    lemma_boundary(t, b.current_x as int);
    assert(insert_at(t, b.current_x as int, seq![c]) =~= t.take(k).push(c) + t.skip(k));
    assert(crate::definitions::texts(f.lines) =~= crate::definitions::texts(b.lines).update(
        b.current as int,
        t.take(k).push(c) + t.skip(k),
    ));
}

/// Deleting takes out the character under the cursor and leaves the cursor
/// where it is; at the end of a line it joins the next line to it.
pub proof fn law_delete_removes(e: EditorView)
    requires
        e.can_delete(),
        !e.has_flag(EditorFlags::VIEW_MODE),
        e.on_char() || e.at_joinable_end(),
    ensures
        ({
            let b = e.cur();
            let i = b.current as int;
            let t = b.cur_text();
            let k = cidx(t, b.current_x as int);
            let ts = crate::definitions::texts(b.lines);
            let f = e.after_delete().cur();
            &&& f.current == b.current
            &&& f.current_x == b.current_x
            &&& e.on_char() ==> crate::definitions::texts(f.lines) == ts.update(i, t.take(k) + t.skip(k + 1))
            &&& !e.on_char() ==> crate::definitions::texts(f.lines) == ts.update(i, t + ts[i + 1]).remove(i + 1)
        }),
{
    let b = e.cur();
    let i = b.current as int;
    let t = b.cur_text();
    let k = cidx(t, b.current_x as int);
    let ts = crate::definitions::texts(b.lines);
    let f = e.after_delete().cur();
    if e.on_char() {
        assert(t.remove(k) =~= t.take(k) + t.skip(k + 1));
        assert(crate::definitions::texts(f.lines) =~= ts.update(i, t.take(k) + t.skip(k + 1)));
    } else {
        assert(crate::definitions::texts(f.lines) =~= ts.update(i, t + ts[i + 1]).remove(i + 1));
    }
}

/// Backspace takes out the character before the cursor and puts the cursor
/// where that character started; at the start of a line it joins the line to
/// the one above, with the cursor where the two meet.
pub proof fn law_backspace_removes(e: EditorView)
    requires
        e.can_backspace(),
        !e.has_flag(EditorFlags::VIEW_MODE),
        e.cur().lines_fit(),
        e.after_char_pos() || e.at_joinable_start(),
    ensures
        ({
            let b = e.cur();
            let i = b.current as int;
            let t = b.cur_text();
            let k = cidx(t, b.current_x as int);
            let ts = crate::definitions::texts(b.lines);
            let f = e.after_backspace().cur();
            &&& e.after_char_pos() ==> crate::definitions::texts(f.lines) == ts.update(i, t.take(k - 1) + t.skip(k))
                && f.current == i && f.current_x == bpos(t, k - 1)
            &&& !e.after_char_pos() ==> crate::definitions::texts(f.lines) == ts.update(i - 1, ts[i - 1] + t).remove(i)
                && f.current == i - 1 && f.current_x == bytes_len(ts[i - 1])
        }),
{
    let b = e.cur();
    let i = b.current as int;
    let t = b.cur_text();
    let k = cidx(t, b.current_x as int);
    let ts = crate::definitions::texts(b.lines);
    let f = e.after_backspace().cur();
    lemma_boundary(t, b.current_x as int);
    if e.after_char_pos() {
        assert(k > 0) by {
            if k == 0 {
                assert(bpos(t, 0) == 0);
            }
        }
        crate::textseq::lemma_bpos_mono(t, k - 1, k);
        assert(t.remove(k - 1) =~= t.take(k - 1) + t.skip(k));
        assert(crate::definitions::texts(f.lines) =~= ts.update(i, t.take(k - 1) + t.skip(k)));
    } else {
        assert(crate::definitions::texts(f.lines) =~= ts.update(i - 1, ts[i - 1] + t).remove(i));
    }
}

} // verus!
