//! Cursor movement.
use vstd::prelude::*;

use crate::chars::{
    actual_x, actual_x_from, cols, cols_ok, fit_count, indent_length, is_zerowidth, leading_blanks,
    lemma_fit_count_boundary, step_left, step_right, wideness, white_string, width_or_one,
    is_blank, left_index, right_index, step_left_index, step_right_index, is_left_index,
    is_right_index,
};
use crate::definitions::{BufferView, EditorFlags, LineView};
use crate::editor::{Editor, EditorView};
use crate::textseq::{
    bpos, byte_len, bytes_len, chars_of, cidx, is_boundary, lemma_boundary, lemma_bpos_full,
    lemma_bpos_mono, lemma_bpos_step, lemma_cidx,
};

verus! {

/// Columns up to the boundary `x` of `cs`.
pub open spec fn cols_to(cs: Seq<char>, x: int, tabsize: int) -> int {
    cols(cs.take(fit_count(cs, x)), tabsize)
}

/// The text of line `i` of a buffer.
pub open spec fn line_text(b: BufferView, i: int) -> Seq<char> {
    b.lines[i].data
}

/// A line holds only blanks and carriage returns.
pub open spec fn is_white(cs: Seq<char>) -> bool {
    forall|i: int| 0 <= i < cs.len() ==> is_blank(#[trigger] cs[i]) || cs[i] == '\r'
}

/// Index reached by stepping left from `j` over zero-width characters.
pub open spec fn skip_zw_left(cs: Seq<char>, j: int) -> int
    decreases j,
{
    if 0 < j < cs.len() && width_or_one(cs[j]) == 0 {
        skip_zw_left(cs, j - 1)
    } else {
        j
    }
}

/// Index reached by stepping right from `j` over zero-width characters.
pub open spec fn skip_zw_right(cs: Seq<char>, j: int) -> int
    decreases cs.len() - j,
{
    if 0 <= j < cs.len() && width_or_one(cs[j]) == 0 {
        skip_zw_right(cs, j + 1)
    } else {
        j
    }
}

/// Lines that `do_page_up` and `do_page_down` move by.
pub open spec fn must_move(rows: usize) -> int {
    if rows < 3 {
        1
    } else {
        rows - 2
    }
}

impl EditorView {
    /// The cursor at `(line, x)` with the wanted column recomputed.
    pub open spec fn cursor_at(self, line: int, x: int) -> BufferView {
        let b = self.cur();
        BufferView {
            current: line as usize,
            current_x: x as usize,
            placewewant: cols_to(line_text(b, line), x, self.tabsize as int) as usize,
            ..b
        }
    }

    /// The editor after a move of the cursor to `(line, x)`, needing a refresh.
    pub open spec fn moved_to(self, line: int, x: int) -> EditorView {
        EditorView { refresh_needed: true, ..self.with_cur(self.cursor_at(line, x)) }
    }

    /// What `do_up` leaves.
    pub open spec fn after_up(self) -> EditorView {
        let b = self.cur();
        if b.current == 0 {
            self
        } else {
            let line = b.current - 1;
            let nb = BufferView {
                current: line as usize,
                current_x: actual_x_from(
                    line_text(b, line),
                    b.placewewant as int,
                    self.tabsize as int,
                    0,
                ) as usize,
                cursor_row: if b.cursor_row > 0 {
                    (b.cursor_row - 1) as isize
                } else {
                    b.cursor_row
                },
                ..b
            };
            EditorView {
                refresh_needed: if b.cursor_row > 0 {
                    self.refresh_needed
                } else {
                    true
                },
                ..self.with_cur(nb)
            }
        }
    }

    /// What `do_down` leaves.
    pub open spec fn after_down(self) -> EditorView {
        let b = self.cur();
        if b.current >= b.lines.len() - 1 {
            self
        } else {
            let line = b.current + 1;
            let nb = BufferView {
                current: line as usize,
                current_x: actual_x_from(
                    line_text(b, line),
                    b.placewewant as int,
                    self.tabsize as int,
                    0,
                ) as usize,
                cursor_row: if b.cursor_row < self.editwinrows - 1 {
                    (b.cursor_row + 1) as isize
                } else {
                    b.cursor_row
                },
                ..b
            };
            EditorView {
                refresh_needed: if b.cursor_row < self.editwinrows - 1 {
                    self.refresh_needed
                } else {
                    true
                },
                ..self.with_cur(nb)
            }
        }
    }

    /// The wanted column of line `line` can be found without dividing by zero or overflowing.
    pub open spec fn line_cols_ok(self, line: int) -> bool {
        cols_ok(line_text(self.cur(), line), self.tabsize as int)
    }
}

} // verus!

verus! {

impl Editor {
    /// Move to the first line of the file.
    pub fn to_first_line(&mut self)
        requires
            old(self)@.has_cur(),
        ensures
            final(self)@ == (EditorView {
                refresh_needed: true,
                ..old(self)@.with_cur(
                    BufferView { current: 0, current_x: 0, placewewant: 0, ..old(self)@.cur() },
                )
            }),
    {
        let cb = self.current_buf;
        self.buffers[cb].current = 0;
        self.buffers[cb].current_x = 0;
        self.buffers[cb].placewewant = 0;
        self.refresh_needed = true;
        assert(self@.buffers =~= old(self)@.buffers.update(
            cb as int,
            BufferView { current: 0, current_x: 0, placewewant: 0, ..old(self)@.cur() },
        ));
    }

    /// Move to the end of the last line of the file.
    pub fn to_last_line(&mut self)
        requires
            old(self)@.has_cur(),
            old(self)@.cur().lines.len() > 0,
            old(self)@.line_cols_ok(old(self)@.cur().lines.len() - 1),
            old(self).editwinrows <= isize::MAX,
        ensures
            ({
                let b = old(self)@.cur();
                let last = b.lines.len() - 1;
                final(self)@ == EditorView {
                    refresh_needed: true,
                    focusing: false,
                    ..old(self)@.with_cur(
                        BufferView {
                            current: last as usize,
                            current_x: bytes_len(line_text(b, last)) as usize,
                            placewewant: cols(line_text(b, last), old(self).tabsize as int) as usize,
                            cursor_row: (old(self).editwinrows - 1) as isize,
                            ..b
                        },
                    )
                }
            }),
    {
        let cb = self.current_buf;
        let tabsize = self.tabsize;
        let editwinrows = self.editwinrows;
        let last = self.buffers[cb].lines.len() - 1;
        let x = byte_len(self.buffers[cb].lines[last].data.as_str());
        let ghost t = self.buffers@[cb as int].lines@[last as int].data@;
        proof {
            lemma_cidx(t, t.len() as int);
            lemma_bpos_full(t);
            lemma_fit_count_boundary(t, x as int);
            assert(t.take(t.len() as int) =~= t);
        }
        let w = wideness(self.buffers[cb].lines[last].data.as_str(), x, tabsize);
        self.buffers[cb].current = last;
        self.buffers[cb].current_x = x;
        self.buffers[cb].placewewant = w;
        self.buffers[cb].cursor_row = editwinrows as isize - 1;
        self.refresh_needed = true;
        self.focusing = false;
        assert(self@.buffers =~= old(self)@.buffers.update(
            cb as int,
            BufferView {
                current: last as usize,
                current_x: x,
                placewewant: w,
                cursor_row: (editwinrows - 1) as isize,
                ..old(self)@.cur()
            },
        ));
    }

    /// Move up one line, to the column wanted.
    pub fn do_up(&mut self)
        requires
            old(self)@.has_cur(),
            old(self)@.cur().current > 0 ==> old(self)@.cur().current - 1 < old(
                self,
            )@.cur().lines.len() && old(self)@.line_cols_ok(old(self)@.cur().current - 1),
        ensures
            final(self)@ == old(self)@.after_up(),
    {
        let cb = self.current_buf;
        if self.buffers[cb].current == 0 {
            return ;
        }
        let tabsize = self.tabsize;
        let target = self.buffers[cb].placewewant;
        let line = self.buffers[cb].current - 1;
        let x = actual_x(self.buffers[cb].lines[line].data.as_str(), target, tabsize);
        self.buffers[cb].current = line;
        self.buffers[cb].current_x = x;
        self.buffers[cb].placewewant = target;
        if self.buffers[cb].cursor_row > 0 {
            self.buffers[cb].cursor_row = self.buffers[cb].cursor_row - 1;
        } else {
            self.refresh_needed = true;
        }
        assert(self@.buffers =~= old(self)@.after_up().buffers);
    }

    /// Move down one line, to the column wanted.
    pub fn do_down(&mut self)
        requires
            old(self)@.has_cur(),
            old(self)@.cur().lines.len() > 0,
            old(self).editwinrows <= isize::MAX,
            old(self)@.cur().current < old(self)@.cur().lines.len() - 1 ==> old(
                self,
            )@.line_cols_ok(old(self)@.cur().current + 1),
        ensures
            final(self)@ == old(self)@.after_down(),
    {
        let cb = self.current_buf;
        let line_count = self.buffers[cb].lines.len();
        if self.buffers[cb].current >= line_count - 1 {
            return ;
        }
        let tabsize = self.tabsize;
        let target = self.buffers[cb].placewewant;
        let line = self.buffers[cb].current + 1;
        let x = actual_x(self.buffers[cb].lines[line].data.as_str(), target, tabsize);
        self.buffers[cb].current = line;
        self.buffers[cb].current_x = x;
        self.buffers[cb].placewewant = target;
        if self.buffers[cb].cursor_row < self.editwinrows as isize - 1 {
            self.buffers[cb].cursor_row = self.buffers[cb].cursor_row + 1;
        } else {
            self.refresh_needed = true;
        }
        assert(self@.buffers =~= old(self)@.after_down().buffers);
    }
}

} // verus!

verus! {

impl EditorView {
    /// The wanted column at `(line, x)` can be found without dividing by zero or overflowing.
    pub open spec fn pos_cols_ok(self, line: int, x: int) -> bool {
        let t = line_text(self.cur(), line);
        cols_ok(t.take(fit_count(t, x)), self.tabsize as int)
    }

    /// Where `do_left` puts the cursor.
    pub open spec fn left_target(self) -> (int, int) {
        let b = self.cur();
        let t = b.cur_text();
        if b.current_x > 0 {
            (b.current as int, bpos(t, skip_zw_left(t, left_index(t, b.current_x as int))) as int)
        } else if b.current > 0 {
            (b.current - 1, bytes_len(line_text(b, b.current - 1)) as int)
        } else {
            (b.current as int, 0)
        }
    }

    /// Where `do_right` puts the cursor.
    pub open spec fn right_target(self) -> (int, int) {
        let b = self.cur();
        let t = b.cur_text();
        if b.current_x < bytes_len(t) {
            (
                b.current as int,
                bpos(t, skip_zw_right(t, right_index(t, b.current_x as int))) as int,
            )
        } else if b.current < b.lines.len() - 1 {
            (b.current + 1, 0)
        } else {
            (b.current as int, b.current_x as int)
        }
    }

    /// Where `do_home` puts the cursor: the start of the line; with smart
    /// home, the indentation, or the start when already there or when the
    /// line is all indentation.
    pub open spec fn home_target(self) -> int {
        let b = self.cur();
        let t = b.cur_text();
        let indent = leading_blanks(t);
        if !self.has_flag(EditorFlags::SMART_HOME) || b.current_x == indent || indent >= bytes_len(t) {
            0
        } else {
            indent as int
        }
    }
}

proof fn lemma_skip_zw_left_bounds(cs: Seq<char>, j: int)
    requires
        0 <= j <= cs.len(),
    ensures
        0 <= skip_zw_left(cs, j) <= j,
    decreases j,
{
    if 0 < j < cs.len() && width_or_one(cs[j]) == 0 {
        lemma_skip_zw_left_bounds(cs, j - 1);
    }
}

proof fn lemma_skip_zw_right_bounds(cs: Seq<char>, j: int)
    requires
        0 <= j <= cs.len(),
    ensures
        j <= skip_zw_right(cs, j) <= cs.len(),
    decreases cs.len() - j,
{
    if 0 <= j < cs.len() && width_or_one(cs[j]) == 0 {
        lemma_skip_zw_right_bounds(cs, j + 1);
    }
}

/// Cols over a prefix are fine when they are over a longer prefix.
pub proof fn lemma_cols_ok_prefix(cs: Seq<char>, i: int, j: int, tabsize: int)
    requires
        0 <= i <= j <= cs.len(),
        cols_ok(cs.take(j), tabsize),
        tabsize >= 0,
    ensures
        cols_ok(cs.take(i), tabsize),
{
    assert(cs.take(j).take(i) =~= cs.take(i));
    crate::chars::lemma_cols_bound_prefix(cs.take(j), i, tabsize);
    if !(tabsize > 0) {
        assert forall|k: int| 0 <= k < cs.take(i).len() implies cs.take(i)[k] != '\t' by {
            assert(cs.take(j)[k] == cs.take(i)[k]);
        }
    }
}

impl Editor {
    /// Put the cursor of the current buffer at `(line, x)` (a boundary of that
    /// line) and recompute the wanted column.
    fn place_at(&mut self, line: usize, x: usize)
        requires
            old(self)@.has_cur(),
            line < old(self)@.cur().lines.len(),
            is_boundary(line_text(old(self)@.cur(), line as int), x as int),
            old(self)@.pos_cols_ok(line as int, x as int),
        ensures
            final(self)@ == old(self)@.moved_to(line as int, x as int),
    {
        let cb = self.current_buf;
        let tabsize = self.tabsize;
        let w = wideness(self.buffers[cb].lines[line].data.as_str(), x, tabsize);
        self.buffers[cb].current = line;
        self.buffers[cb].current_x = x;
        self.buffers[cb].placewewant = w;
        self.refresh_needed = true;
        assert(self@.buffers =~= old(self)@.moved_to(line as int, x as int).buffers);
    }

    /// Move left one character (over zero-width characters), or to the end of
    /// the previous line.
    pub fn do_left(&mut self)
        requires
            old(self)@.has_cur(),
            old(self)@.cur().current < old(self)@.cur().lines.len(),
            old(self)@.cur().current_x > 0 ==> old(self)@.pos_cols_ok(
                old(self)@.cur().current as int,
                old(self)@.cur().current_x as int,
            ),
            old(self)@.cur().current_x == 0 && old(self)@.cur().current > 0 ==> old(
                self,
            )@.line_cols_ok(old(self)@.cur().current - 1),
        ensures
            final(self)@ == old(self)@.moved_to(
                old(self)@.left_target().0,
                old(self)@.left_target().1,
            ),
    {
        let cb = self.current_buf;
        let cur = self.buffers[cb].current;
        let x0 = self.buffers[cb].current_x;
        let ghost t = self@.cur().cur_text();
        if x0 > 0 {
            let _n = byte_len(self.buffers[cb].lines[cur].data.as_str());
            let cs = chars_of(self.buffers[cb].lines[cur].data.as_str());
            let mut k = step_left_index(self.buffers[cb].lines[cur].data.as_str(), &cs, x0);
            let ghost k0: int = k as int;
            while k > 0 && k < cs.len() && is_zerowidth(cs[k])
                invariant
                    cs@ == t,
                    k <= cs@.len(),
                    skip_zw_left(t, k0) == skip_zw_left(t, k as int),
                decreases k,
            {
                k -= 1;
            }
            let x = crate::textseq::offset_of(&cs, k);
            proof {
                lemma_cidx(t, k as int);
                lemma_fit_count_boundary(t, x as int);
                lemma_fit_count_boundary(t, bpos(t, k0) as int);
                lemma_cidx(t, k0);
                lemma_skip_zw_left_bounds(t, k0);
                crate::chars::lemma_fit_count_exists(t, x0 as int);
                let f = fit_count(t, x0 as int);
                if f < k0 {
                    lemma_bpos_mono(t, f + 1, k0);
                }
                lemma_cols_ok_prefix(t, k as int, f, self.tabsize as int);
            }
            self.place_at(cur, x);
        } else if cur > 0 {
            let x = byte_len(self.buffers[cb].lines[cur - 1].data.as_str());
            let ghost p = line_text(self@.cur(), cur - 1);
            proof {
                lemma_bpos_full(p);
                lemma_cidx(p, p.len() as int);
                lemma_fit_count_boundary(p, x as int);
                assert(p.take(p.len() as int) =~= p);
            }
            self.place_at(cur - 1, x);
        } else {
            proof {
                lemma_bpos_full(t);
                lemma_cidx(t, 0);
                lemma_fit_count_boundary(t, 0);
                assert(t.take(0).len() == 0);
            }
            self.place_at(cur, 0);
        }
    }

    /// Move right one character (over zero-width characters), or to the start
    /// of the next line.
    pub fn do_right(&mut self)
        requires
            old(self)@.has_cur(),
            old(self)@.cur().current < old(self)@.cur().lines.len(),
            old(self)@.line_cols_ok(old(self)@.cur().current as int),
        ensures
            final(self)@ == old(self)@.moved_to(
                old(self)@.right_target().0,
                old(self)@.right_target().1,
            ),
    {
        let cb = self.current_buf;
        let cur = self.buffers[cb].current;
        let x0 = self.buffers[cb].current_x;
        let ghost t = self@.cur().cur_text();
        let len = byte_len(self.buffers[cb].lines[cur].data.as_str());
        if x0 < len {
            let cs = chars_of(self.buffers[cb].lines[cur].data.as_str());
            let mut k = step_right_index(self.buffers[cb].lines[cur].data.as_str(), &cs, x0);
            let ghost k0: int = k as int;
            while k < cs.len() && is_zerowidth(cs[k])
                invariant
                    cs@ == t,
                    k0 <= k <= cs@.len(),
                    skip_zw_right(t, k0) == skip_zw_right(t, k as int),
                decreases cs@.len() - k,
            {
                k += 1;
            }
            let x = crate::textseq::offset_of(&cs, k);
            proof {
                lemma_cidx(t, k as int);
                lemma_fit_count_boundary(t, x as int);
                assert(t.take(t.len() as int) =~= t);
                lemma_cols_ok_prefix(t, k as int, t.len() as int, self.tabsize as int);
            }
            self.place_at(cur, x);
        } else if cur < self.buffers[cb].lines.len() - 1 {
            let ghost p = line_text(self@.cur(), cur + 1);
            proof {
                lemma_bpos_full(p);
                lemma_cidx(p, 0);
                lemma_fit_count_boundary(p, 0);
                assert(p.take(0).len() == 0);
            }
            self.place_at(cur + 1, 0);
        } else {
            let tabsize = self.tabsize;
            proof {
                crate::chars::lemma_fit_count_exists(t, x0 as int);
                assert(t.take(t.len() as int) =~= t);
                lemma_cols_ok_prefix(t, fit_count(t, x0 as int), t.len() as int, tabsize as int);
            }
            let w = wideness(self.buffers[cb].lines[cur].data.as_str(), x0, tabsize);
            self.buffers[cb].placewewant = w;
            self.refresh_needed = true;
            assert(self@.buffers =~= old(self)@.moved_to(cur as int, x0 as int).buffers);
        }
    }

    /// Move to the beginning of the current line (with smart home, to its
    /// indentation first).
    pub fn do_home(&mut self)
        requires
            old(self)@.has_cur(),
            old(self)@.cur().current < old(self)@.cur().lines.len(),
            old(self)@.line_cols_ok(old(self)@.cur().current as int),
        ensures
            final(self)@ == old(self)@.moved_to(
                old(self)@.cur().current as int,
                old(self)@.home_target(),
            ),
    {
        let cb = self.current_buf;
        let cur = self.buffers[cb].current;
        let ghost t = self@.cur().cur_text();
        let indent = indent_length(self.buffers[cb].lines[cur].data.as_str());
        let len = byte_len(self.buffers[cb].lines[cur].data.as_str());
        let smart = self.flags.contains(EditorFlags::SMART_HOME);
        let x = if !smart || self.buffers[cb].current_x == indent || indent >= len {
            0
        } else {
            indent
        };
        proof {
            lemma_bpos_full(t);
            lemma_cidx(t, x as int);
            lemma_fit_count_boundary(t, x as int);
            assert(t.take(t.len() as int) =~= t);
            lemma_cols_ok_prefix(t, x as int, t.len() as int, self.tabsize as int);
        }
        self.place_at(cur, x);
    }

    /// Move to the end of the current line.
    pub fn do_end(&mut self)
        requires
            old(self)@.has_cur(),
            old(self)@.cur().current < old(self)@.cur().lines.len(),
            old(self)@.line_cols_ok(old(self)@.cur().current as int),
        ensures
            final(self)@ == old(self)@.moved_to(
                old(self)@.cur().current as int,
                bytes_len(old(self)@.cur().cur_text()) as int,
            ),
    {
        let cb = self.current_buf;
        let cur = self.buffers[cb].current;
        let ghost t = self@.cur().cur_text();
        let x = byte_len(self.buffers[cb].lines[cur].data.as_str());
        proof {
            lemma_bpos_full(t);
            lemma_cidx(t, t.len() as int);
            lemma_fit_count_boundary(t, x as int);
            assert(t.take(t.len() as int) =~= t);
        }
        self.place_at(cur, x);
    }
}

} // verus!

verus! {

impl EditorView {
    /// What `do_page_up` leaves.
    pub open spec fn after_page_up(self) -> EditorView {
        let b = self.cur();
        let m = must_move(self.editwinrows);
        if b.current < m {
            EditorView {
                refresh_needed: true,
                ..self.with_cur(
                    BufferView { current: 0, current_x: 0, placewewant: 0, ..b },
                )
            }
        } else {
            let line = b.current - m;
            EditorView {
                refresh_needed: true,
                ..self.with_cur(
                    BufferView {
                        current: line as usize,
                        current_x: actual_x_from(
                            line_text(b, line),
                            b.placewewant as int,
                            self.tabsize as int,
                            0,
                        ) as usize,
                        ..b
                    },
                )
            }
        }
    }

    /// What `do_page_down` leaves.
    pub open spec fn after_page_down(self) -> EditorView {
        let b = self.cur();
        let m = must_move(self.editwinrows);
        if b.current + m >= b.lines.len() {
            let line = b.lines.len() - 1;
            EditorView {
                refresh_needed: true,
                ..self.with_cur(
                    BufferView {
                        current: line as usize,
                        current_x: bytes_len(line_text(b, line)) as usize,
                        ..b
                    },
                )
            }
        } else {
            let line = b.current + m;
            EditorView {
                refresh_needed: true,
                ..self.with_cur(
                    BufferView {
                        current: line as usize,
                        current_x: actual_x_from(
                            line_text(b, line),
                            b.placewewant as int,
                            self.tabsize as int,
                            0,
                        ) as usize,
                        ..b
                    },
                )
            }
        }
    }

    /// `r` is where `to_prev_block` goes from line `cur`: the first line of the
    /// nearest block of text above, or the first line when there is none.
    pub open spec fn is_prev_block_start(self, cur: int, r: int) -> bool {
        let b = self.cur();
        ||| (r == 0 && forall|j: int| 0 <= j < cur ==> is_white(#[trigger] line_text(b, j)))
        ||| (0 <= r < cur && !is_white(line_text(b, r)) && (r == 0 || is_white(
            line_text(b, r - 1),
        )) && forall|j: int, k: int|
            r <= j <= k < cur && is_white(#[trigger] line_text(b, j)) ==> is_white(
                #[trigger] line_text(b, k),
            ))
    }

    /// `t` is a line of text below `cur` with a blank line in between (or at `cur`).
    pub open spec fn text_after_blank(self, cur: int, t: int) -> bool {
        let b = self.cur();
        cur < t && !is_white(line_text(b, t)) && exists|j: int|
            cur <= j < t && is_white(#[trigger] line_text(b, j))
    }

    /// `r` is where `to_next_block` goes from line `cur`: the first line of the
    /// next block of text, or the last line when there is none.
    pub open spec fn is_next_block_start(self, cur: int, r: int) -> bool {
        let b = self.cur();
        &&& cur <= r < b.lines.len()
        &&& (r == b.lines.len() - 1 || self.text_after_blank(cur, r))
        &&& forall|t: int| cur < t < r ==> !#[trigger] self.text_after_blank(cur, t)
    }

    /// What `do_scroll_up` leaves.
    pub open spec fn after_scroll_up(self) -> EditorView {
        let b = self.cur();
        if b.edittop == 0 {
            self
        } else {
            let e1 = self.with_cur(BufferView { edittop: (b.edittop - 1) as usize, ..b });
            let e2 = if b.cursor_row < self.editwinrows - 1 {
                e1.with_cur(BufferView { cursor_row: (b.cursor_row + 1) as isize, ..e1.cur() })
            } else {
                e1.after_up()
            };
            EditorView { refresh_needed: true, ..e2 }
        }
    }

    /// What `do_scroll_down` leaves.
    pub open spec fn after_scroll_down(self) -> EditorView {
        let b = self.cur();
        if b.edittop >= b.lines.len() - 1 {
            self
        } else {
            let e1 = self.with_cur(BufferView { edittop: (b.edittop + 1) as usize, ..b });
            let e2 = if b.cursor_row > 0 {
                e1.with_cur(BufferView { cursor_row: (b.cursor_row - 1) as isize, ..e1.cur() })
            } else {
                e1.after_down()
            };
            EditorView { refresh_needed: true, ..e2 }
        }
    }
}

impl Editor {
    /// Move up almost one screenful.
    pub fn do_page_up(&mut self)
        requires
            old(self)@.has_cur(),
            old(self)@.cur().current >= must_move(old(self).editwinrows) ==> old(
                self,
            )@.cur().current - must_move(old(self).editwinrows) < old(self)@.cur().lines.len()
                && old(self)@.line_cols_ok(
                old(self)@.cur().current - must_move(old(self).editwinrows),
            ),
        ensures
            final(self)@ == old(self)@.after_page_up(),
    {
        let cb = self.current_buf;
        let tabsize = self.tabsize;
        let mustmove = if self.editwinrows < 3 {
            1
        } else {
            self.editwinrows - 2
        };
        if self.buffers[cb].current < mustmove {
            self.buffers[cb].current = 0;
            self.buffers[cb].current_x = 0;
            self.buffers[cb].placewewant = 0;
        } else {
            let target = self.buffers[cb].placewewant;
            let line = self.buffers[cb].current - mustmove;
            let x = actual_x(self.buffers[cb].lines[line].data.as_str(), target, tabsize);
            self.buffers[cb].current = line;
            self.buffers[cb].current_x = x;
        }
        self.refresh_needed = true;
        assert(self@.buffers =~= old(self)@.after_page_up().buffers);
    }

    /// Move down almost one screenful.
    pub fn do_page_down(&mut self)
        requires
            old(self)@.has_cur(),
            old(self)@.cur().lines.len() > 0,
            old(self)@.cur().current + must_move(old(self).editwinrows) <= usize::MAX,
            old(self)@.cur().current + must_move(old(self).editwinrows) < old(
                self,
            )@.cur().lines.len() ==> old(self)@.line_cols_ok(
                old(self)@.cur().current + must_move(old(self).editwinrows),
            ),
        ensures
            final(self)@ == old(self)@.after_page_down(),
    {
        let cb = self.current_buf;
        let tabsize = self.tabsize;
        let mustmove = if self.editwinrows < 3 {
            1
        } else {
            self.editwinrows - 2
        };
        let line_count = self.buffers[cb].lines.len();
        if self.buffers[cb].current + mustmove >= line_count {
            let line = line_count - 1;
            let x = byte_len(self.buffers[cb].lines[line].data.as_str());
            self.buffers[cb].current = line;
            self.buffers[cb].current_x = x;
        } else {
            let target = self.buffers[cb].placewewant;
            let line = self.buffers[cb].current + mustmove;
            let x = actual_x(self.buffers[cb].lines[line].data.as_str(), target, tabsize);
            self.buffers[cb].current = line;
            self.buffers[cb].current_x = x;
        }
        self.refresh_needed = true;
        assert(self@.buffers =~= old(self)@.after_page_down().buffers);
    }

    /// Move to the first line of the preceding block of text.
    pub fn to_prev_block(&mut self)
        requires
            old(self)@.has_cur(),
            old(self)@.cur().current < old(self)@.cur().lines.len(),
        ensures
            final(self)@.current_buf == old(self)@.current_buf,
            old(self)@.is_prev_block_start(
                old(self)@.cur().current as int,
                final(self)@.cur().current as int,
            ),
            final(self)@ == (EditorView {
                refresh_needed: true,
                ..old(self)@.with_cur(
                    BufferView {
                        current: final(self)@.cur().current,
                        current_x: 0,
                        placewewant: 0,
                        ..old(self)@.cur()
                    },
                )
            }),
    {
        let cb = self.current_buf;
        let ghost b = self@.cur();
        let cur = self.buffers[cb].current;
        let lines = &self.buffers[cb].lines;
        assert(forall|k: int| 0 <= k < lines@.len() ==> #[trigger] lines@[k].data@ == line_text(b, k));
        let mut j = cur;
        while j > 0 && white_string(lines[j - 1].data.as_str())
            invariant
                cur == b.current,
                cur < b.lines.len() == lines@.len(),
                forall|k: int| 0 <= k < lines@.len() ==> #[trigger] lines@[k].data@ == line_text(b, k),
                j <= cur,
                forall|k: int| j <= k < cur ==> is_white(#[trigger] line_text(b, k)),
            decreases j,
        {
            j -= 1;
        }
        let mut s = j;
        if j > 0 {
            s = j - 1;
            while s > 0 && !white_string(lines[s - 1].data.as_str())
                invariant
                    cur == b.current,
                    cur < b.lines.len() == lines@.len(),
                    forall|k: int| 0 <= k < lines@.len() ==> #[trigger] lines@[k].data@ == line_text(b, k),
                    0 < j <= cur,
                    s <= j - 1,
                    forall|k: int| j <= k < cur ==> is_white(#[trigger] line_text(b, k)),
                    !is_white(line_text(b, j - 1)),
                    forall|k: int| s <= k <= j - 1 ==> !is_white(#[trigger] line_text(b, k)),
                decreases s,
            {
                s -= 1;
            }
            proof {
                assert forall|p: int, q: int|
                    s <= p <= q < cur && is_white(#[trigger] line_text(b, p)) implies is_white(
                    #[trigger] line_text(b, q),
                ) by {
                    if p < j {
                        assert(!is_white(line_text(b, p)));
                    }
                }
            }
        }
        self.buffers[cb].current = s;
        self.buffers[cb].current_x = 0;
        self.buffers[cb].placewewant = 0;
        self.refresh_needed = true;
        assert(self@.buffers =~= old(self)@.with_cur(
            BufferView { current: s, current_x: 0, placewewant: 0, ..old(self)@.cur() },
        ).buffers);
    }

    /// Move to the first line of the next block of text.
    pub fn to_next_block(&mut self)
        requires
            old(self)@.has_cur(),
            old(self)@.cur().current < old(self)@.cur().lines.len(),
        ensures
            final(self)@.current_buf == old(self)@.current_buf,
            old(self)@.is_next_block_start(
                old(self)@.cur().current as int,
                final(self)@.cur().current as int,
            ),
            final(self)@ == (EditorView {
                refresh_needed: true,
                ..old(self)@.with_cur(
                    BufferView {
                        current: final(self)@.cur().current,
                        current_x: 0,
                        placewewant: 0,
                        ..old(self)@.cur()
                    },
                )
            }),
    {
        let cb = self.current_buf;
        let ghost e = old(self)@;
        let ghost b = self@.cur();
        let cur = self.buffers[cb].current;
        let lines = &self.buffers[cb].lines;
        let n = lines.len();
        assert(forall|k: int| 0 <= k < lines@.len() ==> #[trigger] lines@[k].data@ == line_text(b, k));
        let mut w = cur;
        while w < n && !white_string(lines[w].data.as_str())
            invariant
                cur == b.current,
                n == b.lines.len() == lines@.len(),
                forall|k: int| 0 <= k < lines@.len() ==> #[trigger] lines@[k].data@ == line_text(b, k),
                cur <= w <= n,
                forall|k: int| cur <= k < w ==> !is_white(#[trigger] line_text(b, k)),
            decreases n - w,
        {
            w += 1;
        }
        let mut r = n - 1;
        if w < n {
            let mut t = w + 1;
            while t < n && white_string(lines[t].data.as_str())
                invariant
                    cur == b.current,
                    n == b.lines.len() == lines@.len(),
                    forall|k: int| 0 <= k < lines@.len() ==> #[trigger] lines@[k].data@ == line_text(b, k),
                    cur <= w < n,
                    w < t <= n,
                    is_white(line_text(b, w as int)),
                    forall|k: int| cur <= k < w ==> !is_white(#[trigger] line_text(b, k)),
                    forall|k: int| w < k < t ==> is_white(#[trigger] line_text(b, k)),
                decreases n - t,
            {
                t += 1;
            }
            if t < n {
                r = t;
                proof {
                    assert(e.text_after_blank(cur as int, t as int));
                }
            }
            proof {
                assert forall|q: int| cur < q < r implies !#[trigger] e.text_after_blank(
                    cur as int,
                    q,
                ) by {
                    if q < w {
                        if e.text_after_blank(cur as int, q) {
                            let jj = choose|jj: int|
                                cur <= jj < q && is_white(#[trigger] line_text(b, jj));
                            assert(!is_white(line_text(b, jj)));
                        }
                    }
                }
            }
        } else {
            proof {
                assert forall|q: int| cur < q < r implies !#[trigger] e.text_after_blank(
                    cur as int,
                    q,
                ) by {
                    if e.text_after_blank(cur as int, q) {
                        let jj = choose|jj: int| cur <= jj < q && is_white(#[trigger] line_text(b, jj));
                        assert(!is_white(line_text(b, jj)));
                    }
                }
            }
        }
        self.buffers[cb].current = r;
        self.buffers[cb].current_x = 0;
        self.buffers[cb].placewewant = 0;
        self.refresh_needed = true;
        assert(self@.buffers =~= old(self)@.with_cur(
            BufferView { current: r, current_x: 0, placewewant: 0, ..old(self)@.cur() },
        ).buffers);
    }

    /// Scroll up one line without moving the cursor textwise.
    #[verifier::rlimit(50)]
    pub fn do_scroll_up(&mut self)
        requires
            old(self)@.has_cur(),
            old(self).editwinrows <= isize::MAX,
            old(self)@.cur().current > 0 ==> old(self)@.cur().current - 1 < old(
                self,
            )@.cur().lines.len() && old(self)@.line_cols_ok(old(self)@.cur().current - 1),
        ensures
            final(self)@ == old(self)@.after_scroll_up(),
    {
        let cb = self.current_buf;
        let editwinrows = self.editwinrows;
        if self.buffers[cb].edittop == 0 {
            return ;
        }
        self.buffers[cb].edittop = self.buffers[cb].edittop - 1;
        let ghost e1 = self@;
        assert(e1.buffers =~= old(self)@.with_cur(
            BufferView { edittop: (old(self)@.cur().edittop - 1) as usize, ..old(self)@.cur() },
        ).buffers);
        if self.buffers[cb].cursor_row < editwinrows as isize - 1 {
            self.buffers[cb].cursor_row = self.buffers[cb].cursor_row + 1;
            assert(self@.buffers =~= e1.with_cur(
                BufferView { cursor_row: (e1.cur().cursor_row + 1) as isize, ..e1.cur() },
            ).buffers);
        } else {
            self.do_up();
        }
        self.refresh_needed = true;
    }

    /// Scroll down one line without moving the cursor textwise.
    #[verifier::rlimit(50)]
    pub fn do_scroll_down(&mut self)
        requires
            old(self)@.has_cur(),
            old(self)@.cur().lines.len() > 0,
            old(self).editwinrows <= isize::MAX,
            old(self)@.cur().current < old(self)@.cur().lines.len() - 1 ==> old(
                self,
            )@.line_cols_ok(old(self)@.cur().current + 1),
        ensures
            final(self)@ == old(self)@.after_scroll_down(),
    {
        let cb = self.current_buf;
        let line_count = self.buffers[cb].lines.len();
        if self.buffers[cb].edittop >= line_count - 1 {
            return ;
        }
        self.buffers[cb].edittop = self.buffers[cb].edittop + 1;
        let ghost e1 = self@;
        assert(e1.buffers =~= old(self)@.with_cur(
            BufferView { edittop: (old(self)@.cur().edittop + 1) as usize, ..old(self)@.cur() },
        ).buffers);
        if self.buffers[cb].cursor_row > 0 {
            self.buffers[cb].cursor_row = self.buffers[cb].cursor_row - 1;
            assert(self@.buffers =~= e1.with_cur(
                BufferView { cursor_row: (e1.cur().cursor_row - 1) as isize, ..e1.cur() },
            ).buffers);
        } else {
            self.do_down();
        }
        self.refresh_needed = true;
    }
}

} // verus!

verus! {

/// A character that words are made of, for moving by words.
pub open spec fn wordish(c: char) -> bool {
    crate::chars::is_word(c, false, None)
}

/// Where the backward search for the start of a word stops, from the
/// character index `k` of line `l`, where `seen` tells whether a word
/// character has been passed: the line, the index, and whether to step
/// forward off the character found there.
pub open spec fn prev_word_from(ls: Seq<LineView>, l: int, k: int, seen: bool) -> (int, int, bool)
    decreases l, k,
{
    if l < 0 || l >= ls.len() || k < 0 || k > ls[l].data.len() {
        (l, k, false)
    } else if k == 0 && l == 0 {
        (0, 0, false)
    } else {
        let l2 = if k > 0 {
            l
        } else {
            l - 1
        };
        let m = ls[l2].data.len();
        if k == 0 && m == 0 {
            prev_word_from(ls, l2, 0, seen)
        } else {
            let j = if k > 0 {
                k - 1
            } else {
                m - 1
            };
            let c = ls[l2].data[j];
            if wordish(c) {
                if j == 0 {
                    (l2, 0, false)
                } else {
                    prev_word_from(ls, l2, j, true)
                }
            } else if width_or_one(c) == 0 {
                prev_word_from(ls, l2, j, seen)
            } else if seen {
                (l2, j, true)
            } else {
                prev_word_from(ls, l2, j, seen)
            }
        }
    }
}

/// Where the forward search for the start of the next word stops, from the
/// character index `k` of line `l`, where `space` tells whether a character
/// that is not part of a word has been passed.
pub open spec fn next_word_from(ls: Seq<LineView>, l: int, k: int, space: bool) -> (int, int)
    decreases ls.len() - l, ls[l].data.len() - k,
{
    if l < 0 || l >= ls.len() || k < 0 || k > ls[l].data.len() {
        (l, k)
    } else if k >= ls[l].data.len() && l >= ls.len() - 1 {
        (l, k)
    } else {
        let (l2, k2, s2) = if k >= ls[l].data.len() {
            (l + 1, 0, true)
        } else {
            (l, k + 1, space)
        };
        let t = ls[l2].data;
        if k2 < t.len() {
            let c = t[k2];
            if width_or_one(c) == 0 {
                next_word_from(ls, l2, k2, s2)
            } else if !wordish(c) {
                next_word_from(ls, l2, k2, true)
            } else if s2 {
                (l2, k2)
            } else {
                next_word_from(ls, l2, k2, s2)
            }
        } else {
            next_word_from(ls, l2, k2, s2)
        }
    }
}

impl EditorView {
    /// Where `to_prev_word` puts the cursor, as `(line, x)`.
    pub open spec fn prev_word_target(self) -> (int, int) {
        let b = self.cur();
        let t = b.cur_text();
        let (l, j, forward) = prev_word_from(b.lines, b.current as int, cidx(t, b.current_x as int), false);
        let u = b.lines[l].data;
        (l, bpos(u, if forward {
            j + 1
        } else {
            j
        }) as int)
    }

    /// Where `to_next_word` puts the cursor, as `(line, x)`.
    pub open spec fn next_word_target(self) -> (int, int) {
        let b = self.cur();
        let t = b.cur_text();
        let k = cidx(t, b.current_x as int);
        let space = k >= t.len() || !wordish(t[k]);
        let (l, j) = next_word_from(b.lines, b.current as int, k, space);
        (l, bpos(b.lines[l].data, j) as int)
    }
}

} // verus!

verus! {

/// Where the backward search for the start of a word stops in `lines`.
fn prev_word_stop(lines: &Vec<crate::definitions::Line>, l0: usize, k0: usize) -> (r: (usize, usize, bool))
    requires
        l0 < lines@.len(),
        k0 <= lines@[l0 as int].data@.len(),
    ensures
        (r.0 as int, r.1 as int, r.2) == prev_word_from(crate::definitions::line_views(lines@), l0 as int, k0 as int, false),
        r.0 < lines@.len(),
        r.1 <= lines@[r.0 as int].data@.len(),
        r.2 ==> r.1 < lines@[r.0 as int].data@.len(),
{
    let ghost ls = crate::definitions::line_views(lines@);
    let mut l = l0;
    let mut k = k0;
    let mut seen = false;
    let mut cs = chars_of(lines[l].data.as_str());
    loop
        invariant
            ls == crate::definitions::line_views(lines@),
            l < ls.len(),
            cs@ == ls[l as int].data,
            k <= cs@.len(),
            prev_word_from(ls, l0 as int, k0 as int, false) == prev_word_from(ls, l as int, k as int, seen),
        decreases l, k,
    {
        if k == 0 && l == 0 {
            return (0, 0, false);
        }
        let l2 = if k > 0 {
            l
        } else {
            l - 1
        };
        if k == 0 {
            cs = chars_of(lines[l2].data.as_str());
        }
        let m = cs.len();
        if k == 0 && m == 0 {
            l = l2;
            k = 0;
            continue;
        }
        let j = if k > 0 {
            k - 1
        } else {
            m - 1
        };
        let c = cs[j];
        if crate::chars::is_word_char(c, false, &None) {
            if j == 0 {
                return (l2, 0, false);
            }
            l = l2;
            k = j;
            seen = true;
        } else if is_zerowidth(c) {
            l = l2;
            k = j;
        } else if seen {
            return (l2, j, true);
        } else {
            l = l2;
            k = j;
        }
    }
}

/// Where the forward search for the start of the next word stops in `lines`.
fn next_word_stop(lines: &Vec<crate::definitions::Line>, l0: usize, k0: usize, space0: bool) -> (r: (usize, usize))
    requires
        l0 < lines@.len(),
        k0 <= lines@[l0 as int].data@.len(),
    ensures
        (r.0 as int, r.1 as int) == next_word_from(crate::definitions::line_views(lines@), l0 as int, k0 as int, space0),
        r.0 < lines@.len(),
        r.1 <= lines@[r.0 as int].data@.len(),
{
    let ghost ls = crate::definitions::line_views(lines@);
    let n = lines.len();
    let mut l = l0;
    let mut k = k0;
    let mut space = space0;
    let mut cs = chars_of(lines[l].data.as_str());
    loop
        invariant
            ls == crate::definitions::line_views(lines@),
            n == ls.len(),
            l < n,
            cs@ == ls[l as int].data,
            k <= cs@.len(),
            next_word_from(ls, l0 as int, k0 as int, space0) == next_word_from(ls, l as int, k as int, space),
        decreases n - l, cs@.len() - k,
    {
        if k >= cs.len() && l >= n - 1 {
            return (l, k);
        }
        if k >= cs.len() {
            l = l + 1;
            k = 0;
            space = true;
            cs = chars_of(lines[l].data.as_str());
        } else {
            k = k + 1;
        }
        if k < cs.len() {
            let c = cs[k];
            if is_zerowidth(c) {
            } else if !crate::chars::is_word_char(c, false, &None) {
                space = true;
            } else if space {
                return (l, k);
            }
        }
    }
}

} // verus!

verus! {

impl Editor {
    /// Move to the start of the word before the cursor, across lines.
    pub fn to_prev_word(&mut self)
        requires
            old(self)@.has_cur(),
            old(self)@.cur().cursor_ok(),
            old(self)@.display_ok(),
        ensures
            final(self)@ == old(self)@.moved_to(
                old(self)@.prev_word_target().0,
                old(self)@.prev_word_target().1,
            ),
    {
        let cb = self.current_buf;
        proof {
            crate::editor::lemma_cur(self);
        }
        let cur = self.buffers[cb].current;
        let x = self.buffers[cb].current_x;
        let (_cs, kopt) = crate::textseq::locate(self.buffers[cb].lines[cur].data.as_str(), x);
        let k = kopt.unwrap();
        let (l, j, forward) = prev_word_stop(&self.buffers[cb].lines, cur, k);
        let csl = chars_of(self.buffers[cb].lines[l].data.as_str());
        assert(forward ==> j < csl.len());
        let jj = if forward {
            j + 1
        } else {
            j
        };
        let _bl = byte_len(self.buffers[cb].lines[l].data.as_str());
        let nx = crate::textseq::offset_of(&csl, jj);
        proof {
            let u = self@.cur().lines[l as int].data;
            lemma_cidx(u, jj as int);
            lemma_fit_count_boundary(u, nx as int);
            crate::editor::lemma_display_prefix(self@, l as int, jj as int);
        }
        self.place_at(l, nx);
    }

    /// Move to the start of the next word, across lines.
    pub fn to_next_word(&mut self)
        requires
            old(self)@.has_cur(),
            old(self)@.cur().cursor_ok(),
            old(self)@.display_ok(),
        ensures
            final(self)@ == old(self)@.moved_to(
                old(self)@.next_word_target().0,
                old(self)@.next_word_target().1,
            ),
    {
        let cb = self.current_buf;
        proof {
            crate::editor::lemma_cur(self);
        }
        let cur = self.buffers[cb].current;
        let x = self.buffers[cb].current_x;
        let (cs, kopt) = crate::textseq::locate(self.buffers[cb].lines[cur].data.as_str(), x);
        let k = kopt.unwrap();
        let space = k >= cs.len() || !crate::chars::is_word_char(cs[k], false, &None);
        let (l, j) = next_word_stop(&self.buffers[cb].lines, cur, k, space);
        let csl = chars_of(self.buffers[cb].lines[l].data.as_str());
        let _bl = byte_len(self.buffers[cb].lines[l].data.as_str());
        let nx = crate::textseq::offset_of(&csl, j);
        proof {
            let u = self@.cur().lines[l as int].data;
            lemma_cidx(u, j as int);
            lemma_fit_count_boundary(u, nx as int);
            crate::editor::lemma_display_prefix(self@, l as int, j as int);
        }
        self.place_at(l, nx);
    }
}

} // verus!

verus! {

impl EditorView {
    /// One line scrolled up (or down).
    #[verifier::opaque]
    pub open spec fn scrolled(self, up: bool) -> EditorView {
        if up {
            self.after_scroll_up()
        } else {
            self.after_scroll_down()
        }
    }

    /// What turning the mouse wheel one notch leaves: three lines scrolled
    /// up (or down), and the screen to be redrawn.
    pub open spec fn after_mouse_scroll(self, up: bool) -> EditorView {
        EditorView { refresh_needed: true, ..self.scrolled(up).scrolled(up).scrolled(up) }
    }

    /// The mouse wheel can scroll: every line of the buffer can be displayed.
    pub open spec fn can_mouse_scroll(self) -> bool {
        &&& self.has_cur()
        &&& self.cur().lines.len() > 0
        &&& self.cur().current < self.cur().lines.len()
        &&& self.editwinrows <= isize::MAX
        &&& self.display_ok()
    }
}

/// A scroll keeps the text, the tab width and what the mouse wheel needs.
#[verifier::spinoff_prover]
#[verifier::rlimit(40)]
proof fn lemma_scroll_keeps(e: EditorView, up: bool)
    requires
        e.can_mouse_scroll(),
    ensures
        e.scrolled(up).can_mouse_scroll(),
{
    reveal(EditorView::scrolled);
    let b = e.cur();
    if b.current > 0 {
        assert(e.line_cols_ok(b.current - 1));
    }
    if b.current + 1 < b.lines.len() {
        assert(e.line_cols_ok(b.current + 1));
    }
}

impl Editor {
    /// Scroll three lines up (or down) for a notch of the mouse wheel.
    pub fn do_mouse_scroll(&mut self, up: bool)
        requires
            old(self)@.can_mouse_scroll(),
        ensures
            final(self)@ == old(self)@.after_mouse_scroll(up),
    {
        let mut k: usize = 0;
        while k < 3
            invariant
                k <= 3,
                self@.can_mouse_scroll(),
                self@ == (if k == 0 {
                    old(self)@
                } else if k == 1 {
                    old(self)@.scrolled(up)
                } else if k == 2 {
                    old(self)@.scrolled(up).scrolled(up)
                } else {
                    old(self)@.scrolled(up).scrolled(up).scrolled(up)
                }),
            decreases 3 - k,
        {
            let ghost before = self@;
            proof {
                lemma_scroll_keeps(before, up);
            }
            if up {
                self.do_scroll_up();
            } else {
                self.do_scroll_down();
            }
            assert(self@ == before.scrolled(up)) by {
                reveal(EditorView::scrolled);
            }
            k += 1;
        }
        self.refresh_needed = true;
    }
}

} // verus!

verus! {

/// No character of `t` is displayed in zero columns.
pub open spec fn no_zero_width(t: Seq<char>) -> bool {
    forall|j: int| 0 <= j < t.len() ==> width_or_one(#[trigger] t[j]) != 0
}

/// `actual_x` aims at the columns up to a boundary: from any character at
/// or before it, it finds that boundary again.
proof fn lemma_actual_x_at(t: Seq<char>, k: int, tabsize: int, j: int)
    requires
        0 <= j <= k <= t.len(),
        tabsize >= 1,
        no_zero_width(t),
    ensures
        actual_x_from(t, cols(t.take(k), tabsize), tabsize, j) == bpos(t, k),
    decreases k - j,
{
    let c = cols(t.take(k), tabsize);
    if j < k {
        crate::chars::lemma_cols_prefix_mono(t, j + 1, k, tabsize);
        lemma_actual_x_at(t, k, tabsize, j + 1);
    } else if k < t.len() {
        assert(t.take(k + 1).drop_last() =~= t.take(k));
        assert(t.take(k + 1).last() == t[k]);
        assert(width_or_one(t[k]) != 0);
        assert(cols(t.take(k + 1), tabsize) > c);
    } else {
        lemma_bpos_full(t);
    }
}

/// Moving right and then left gives back the cursor when no character of
/// its line takes zero columns and it is not at the end of the last line.
pub proof fn law_left_after_right(e: EditorView)
    requires
        e.has_cur(),
        e.cur().cursor_ok(),
        e.cur().lines_fit(),
        no_zero_width(e.cur().cur_text()),
        e.cur().current_x < bytes_len(e.cur().cur_text()) || e.cur().current + 1 < e.cur().lines.len(),
    ensures
        ({
            let f = e.moved_to(e.right_target().0, e.right_target().1);
            &&& f.cur().lines == e.cur().lines
            &&& f.left_target() == (e.cur().current as int, e.cur().current_x as int)
        }),
{
    let b = e.cur();
    let t = b.cur_text();
    let x = b.current_x as int;
    lemma_boundary(t, x);
    lemma_bpos_full(t);
    let k = cidx(t, x);
    if x < bytes_len(t) {
        assert(k < t.len());
        lemma_bpos_step(t, k);
        crate::textseq::lemma_char_len_bounds(t[k]);
        assert(is_right_index(t, x, k + 1));
        crate::chars::lemma_right_index(t, x, k + 1);
        if k + 1 < t.len() {
            assert(width_or_one(t[k + 1]) != 0);
        }
        assert(skip_zw_right(t, k + 1) == k + 1);
        let x2 = bpos(t, k + 1) as int;
        assert(is_left_index(t, x2, k));
        crate::chars::lemma_left_index(t, x2, k);
        if k > 0 {
            assert(width_or_one(t[k]) != 0);
        }
        assert(skip_zw_left(t, k) == k);
        assert(bytes_len(b.lines[b.current as int].data) <= usize::MAX);
        lemma_bpos_mono(t, k + 1, t.len() as int);
        let f = e.moved_to(e.right_target().0, e.right_target().1);
        assert(e.right_target() == (b.current as int, x2));
        assert(f.cur().current == b.current);
        assert(f.cur().current_x == x2);
        assert(f.cur().cur_text() == t);
    } else {
        let f = e.moved_to(e.right_target().0, e.right_target().1);
        assert(e.right_target() == (b.current + 1, 0int));
        assert(f.cur().current == b.current + 1);
        assert(f.cur().current_x == 0);
        assert(line_text(f.cur(), b.current as int) == t);
    }
}

/// Moving down and then up gives back the cursor line, the cursor and the
/// wanted column, when the wanted column is that of the cursor and no
/// character of the cursor line takes zero columns.
pub proof fn law_up_after_down(e: EditorView)
    requires
        e.has_cur(),
        e.cur().cursor_ok(),
        e.cur().lines_fit(),
        e.cur().current + 1 < e.cur().lines.len(),
        e.tabsize >= 1,
        no_zero_width(e.cur().cur_text()),
        e.cur().placewewant == cols_to(e.cur().cur_text(), e.cur().current_x as int, e.tabsize as int),
    ensures
        e.after_down().after_up().cur().lines == e.cur().lines,
        e.after_down().after_up().cur().current == e.cur().current,
        e.after_down().after_up().cur().current_x == e.cur().current_x,
        e.after_down().after_up().cur().placewewant == e.cur().placewewant,
{
    let b = e.cur();
    let t = b.cur_text();
    let x = b.current_x as int;
    lemma_boundary(t, x);
    let k = cidx(t, x);
    lemma_fit_count_boundary(t, x);
    lemma_actual_x_at(t, k, e.tabsize as int, 0);
}

} // verus!

verus! {

/// The forward search for a word start stops at or after where it starts,
/// on a character of a word that is displayed, or at the end of the last
/// line; and it stops on the first character of a word only after it has
/// passed a character that is not part of a word (or a line break).
proof fn lemma_next_word_stops(ls: Seq<LineView>, l: int, k: int, space: bool)
    requires
        0 <= l < ls.len(),
        0 <= k <= ls[l].data.len(),
    ensures
        ({
            let (l2, k2) = next_word_from(ls, l, k, space);
            &&& l <= l2 < ls.len()
            &&& (l2 == l ==> k <= k2)
            &&& 0 <= k2 <= ls[l2].data.len()
            &&& (l2 == ls.len() - 1 && k2 == ls[l2].data.len()) || (k2 < ls[l2].data.len()
                && wordish(ls[l2].data[k2]) && width_or_one(ls[l2].data[k2]) != 0)
        }),
    decreases ls.len() - l, ls[l].data.len() - k,
{
    if k >= ls[l].data.len() && l >= ls.len() - 1 {
    } else {
        let (l2, k2, s2) = if k >= ls[l].data.len() {
            (l + 1, 0, true)
        } else {
            (l, k + 1, space)
        };
        let t = ls[l2].data;
        if k2 < t.len() {
            let c = t[k2];
            if width_or_one(c) == 0 {
                lemma_next_word_stops(ls, l2, k2, s2);
            } else if !wordish(c) {
                lemma_next_word_stops(ls, l2, k2, true);
            } else if s2 {
            } else {
                lemma_next_word_stops(ls, l2, k2, s2);
            }
        } else {
            lemma_next_word_stops(ls, l2, k2, s2);
        }
    }
}

/// Moving to the next word puts the cursor after it, on the first
/// character of a word that is displayed, or at the end of the last line.
pub proof fn law_next_word_lands_on_a_word(e: EditorView)
    requires
        e.has_cur(),
        e.cur().cursor_ok(),
    ensures
        ({
            let b = e.cur();
            let (l, x) = e.next_word_target();
            let t = b.lines[l].data;
            &&& b.current <= l < b.lines.len()
            &&& (l == b.current ==> b.current_x <= x)
            &&& (l == b.lines.len() - 1 && x == bytes_len(t)) || (cidx(t, x) < t.len() && wordish(
                t[cidx(t, x)],
            ) && width_or_one(t[cidx(t, x)]) != 0)
        }),
{
    let b = e.cur();
    let t0 = b.cur_text();
    lemma_boundary(t0, b.current_x as int);
    let k = cidx(t0, b.current_x as int);
    let space = k >= t0.len() || !wordish(t0[k]);
    lemma_next_word_stops(b.lines, b.current as int, k, space);
    let (l, j) = next_word_from(b.lines, b.current as int, k, space);
    let t = b.lines[l].data;
    lemma_cidx(t, j);
    lemma_bpos_full(t);
    if l == b.current {
        crate::textseq::lemma_bpos_mono(t, k, j);
    }
}

/// The backward search for a word start stops at or before where it
/// starts: at the start of the text, at the start of a line that begins
/// with a word character, or (stepping forward) right after a displayed
/// character that is not part of a word.
proof fn lemma_prev_word_stops(ls: Seq<LineView>, l: int, k: int, seen: bool)
    requires
        0 <= l < ls.len(),
        0 <= k <= ls[l].data.len(),
    ensures
        ({
            let (l2, j, fwd) = prev_word_from(ls, l, k, seen);
            let i = if fwd { j + 1 } else { j };
            &&& 0 <= l2 <= l
            &&& (l2 == l ==> i <= k)
            &&& 0 <= j && i <= ls[l2].data.len()
            &&& (l2 == 0 && i == 0) || (!fwd && j == 0 && j < ls[l2].data.len() && wordish(ls[l2].data[0]))
                || (fwd && j < ls[l2].data.len() && !wordish(ls[l2].data[j]) && width_or_one(ls[l2].data[j]) != 0)
        }),
    decreases l, k,
{
    if k == 0 && l == 0 {
    } else {
        let l2 = if k > 0 { l } else { l - 1 };
        let m = ls[l2].data.len();
        if k == 0 && m == 0 {
            lemma_prev_word_stops(ls, l2, 0, seen);
        } else {
            let j = if k > 0 { k - 1 } else { m - 1 };
            let c = ls[l2].data[j];
            if wordish(c) {
                if j == 0 {
                } else {
                    lemma_prev_word_stops(ls, l2, j, true);
                }
            } else if width_or_one(c) == 0 {
                lemma_prev_word_stops(ls, l2, j, seen);
            } else if seen {
            } else {
                lemma_prev_word_stops(ls, l2, j, seen);
            }
        }
    }
}

/// Moving to the previous word puts the cursor before it: at the start of
/// the text, at the start of a line that begins with a word character, or
/// right after a displayed character that is not part of a word.
pub proof fn law_prev_word_lands_after_a_break(e: EditorView)
    requires
        e.has_cur(),
        e.cur().cursor_ok(),
    ensures
        ({
            let b = e.cur();
            let (l, x) = e.prev_word_target();
            let t = b.lines[l].data;
            let i = cidx(t, x);
            &&& 0 <= l <= b.current
            &&& (l == b.current ==> x <= b.current_x)
            &&& 0 <= i <= t.len()
            &&& (l == 0 && x == 0) || (i == 0 && i < t.len() && wordish(t[0])) || (i > 0 && !wordish(t[i - 1])
                && width_or_one(t[i - 1]) != 0)
        }),
{
    let b = e.cur();
    let t0 = b.cur_text();
    lemma_boundary(t0, b.current_x as int);
    let k = cidx(t0, b.current_x as int);
    lemma_prev_word_stops(b.lines, b.current as int, k, false);
    let (l, j, fwd) = prev_word_from(b.lines, b.current as int, k, false);
    let t = b.lines[l].data;
    let i = if fwd { j + 1 } else { j };
    lemma_cidx(t, i);
    lemma_bpos_full(t);
    if l == b.current {
        crate::textseq::lemma_bpos_mono(t, i, k);
    }
    if l == 0 && i == 0 {
        assert(bpos(t, 0) == 0);
    }
}

/// The character `k` of line `l` starts a word: it is part of a word and is
/// the first character of its line or follows one that is not.
pub open spec fn word_start_at(ls: Seq<LineView>, l: int, k: int) -> bool {
    &&& 0 <= l < ls.len()
    &&& 0 <= k < ls[l].data.len()
    &&& wordish(ls[l].data[k])
    &&& (k == 0 || !wordish(ls[l].data[k - 1]))
}

/// Position `(l1, k1)` comes before `(l2, k2)` in reading order.
pub open spec fn pos_before(l1: int, k1: int, l2: int, k2: int) -> bool {
    l1 < l2 || (l1 == l2 && k1 < k2)
}

/// No character of any of the lines is displayed in zero columns.
pub open spec fn all_displayed(ls: Seq<LineView>) -> bool {
    forall|l: int| 0 <= l < ls.len() ==> no_zero_width(#[trigger] ls[l].data)
}

/// The forward search from `(l, k)`, where `space` says whether the character
/// there is not part of a word, stops at the first word start after `(l, k)`,
/// or at the end of the last line when there is none.
proof fn lemma_next_word_first(ls: Seq<LineView>, l: int, k: int, space: bool)
    requires
        0 <= l < ls.len(),
        0 <= k <= ls[l].data.len(),
        all_displayed(ls),
        k < ls[l].data.len() ==> space == !wordish(ls[l].data[k]),
    ensures
        ({
            let (l2, k2) = next_word_from(ls, l, k, space);
            &&& pos_before(l, k, l2, k2) || (l2 == l && k2 == k && l == ls.len() - 1 && k == ls[l].data.len())
            &&& word_start_at(ls, l2, k2) || (l2 == ls.len() - 1 && k2 == ls[l2].data.len())
            &&& forall|m: int, j: int|
                pos_before(l, k, m, j) && pos_before(m, j, l2, k2) ==> !#[trigger] word_start_at(ls, m, j)
        }),
    decreases ls.len() - l, ls[l].data.len() - k,
{
    if k >= ls[l].data.len() && l >= ls.len() - 1 {
    } else {
        let (l2, k2, s2) = if k >= ls[l].data.len() {
            (l + 1, 0, true)
        } else {
            (l, k + 1, space)
        };
        let t = ls[l2].data;
        assert(no_zero_width(t));
        if k2 < t.len() {
            let c = t[k2];
            assert(width_or_one(c) != 0);
            if !wordish(c) {
                lemma_next_word_first(ls, l2, k2, true);
            } else if s2 {
            } else {
                lemma_next_word_first(ls, l2, k2, s2);
            }
        } else {
            lemma_next_word_first(ls, l2, k2, s2);
        }
    }
}

/// Moving to the next word puts the cursor on the first word start after it
/// (a line break counts as a break between words): no word starts between
/// the old cursor and the new one.  Where no word starts after the cursor,
/// it goes to the end of the last line.  (When no character of the buffer
/// is displayed in zero columns.)
pub proof fn law_next_word_is_nearest(e: EditorView)
    requires
        e.has_cur(),
        e.cur().cursor_ok(),
        all_displayed(e.cur().lines),
    ensures
        ({
            let b = e.cur();
            let k0 = cidx(b.cur_text(), b.current_x as int);
            let (l, x) = e.next_word_target();
            let j = cidx(b.lines[l].data, x);
            &&& 0 <= l < b.lines.len()
            &&& is_boundary(b.lines[l].data, x)
            &&& pos_before(b.current as int, k0, l, j) || (l == b.current && j == k0 && l == b.lines.len() - 1
                && j == b.lines[l].data.len())
            &&& word_start_at(b.lines, l, j) || (l == b.lines.len() - 1 && j == b.lines[l].data.len())
            &&& forall|m: int, i: int|
                pos_before(b.current as int, k0, m, i) && pos_before(m, i, l, j) ==> !#[trigger] word_start_at(
                    b.lines,
                    m,
                    i,
                )
        }),
{
    let b = e.cur();
    let t0 = b.cur_text();
    lemma_boundary(t0, b.current_x as int);
    let k = cidx(t0, b.current_x as int);
    let space = k >= t0.len() || !wordish(t0[k]);
    lemma_next_word_stops(b.lines, b.current as int, k, space);
    lemma_next_word_first(b.lines, b.current as int, k, space);
    let (l, j) = next_word_from(b.lines, b.current as int, k, space);
    lemma_cidx(b.lines[l].data, j);
}

/// The backward search from `(l, k)` toward the start, for a cursor at
/// `(cl, ck)`, stops at the last word start before the cursor, or at the
/// start of the text when there is none.  `seen` says whether the character
/// at `(l, k)` is part of a word that the search has passed.
proof fn lemma_prev_word_last(ls: Seq<LineView>, l: int, k: int, seen: bool, cl: int, ck: int)
    requires
        0 <= l < ls.len(),
        0 <= k <= ls[l].data.len(),
        all_displayed(ls),
        pos_before(l, k, cl, ck) || (l == cl && k == ck),
        seen ==> 0 < k < ls[l].data.len() && wordish(ls[l].data[k]) && pos_before(l, k, cl, ck),
        !seen && pos_before(l, k, cl, ck) ==> !word_start_at(ls, l, k),
        forall|m: int, j: int| pos_before(l, k, m, j) && pos_before(m, j, cl, ck) ==> !#[trigger] word_start_at(ls, m, j),
    ensures
        ({
            let (l2, j, fwd) = prev_word_from(ls, l, k, seen);
            let i = if fwd { j + 1 } else { j };
            &&& 0 <= l2 < ls.len()
            &&& 0 <= i <= ls[l2].data.len()
            &&& (l2 == 0 && i == 0) || word_start_at(ls, l2, i)
            &&& pos_before(l2, i, cl, ck) || (l2 == 0 && i == 0)
            &&& forall|m: int, jj: int|
                pos_before(l2, i, m, jj) && pos_before(m, jj, cl, ck) ==> !#[trigger] word_start_at(ls, m, jj)
        }),
    decreases l, k,
{
    if k == 0 && l == 0 {
    } else {
        let l2 = if k > 0 { l } else { l - 1 };
        let m = ls[l2].data.len();
        if k == 0 && m == 0 {
            lemma_prev_word_last(ls, l2, 0, seen, cl, ck);
        } else {
            let j = if k > 0 { k - 1 } else { m - 1 };
            let c = ls[l2].data[j];
            assert(no_zero_width(ls[l2].data));
            assert(width_or_one(c) != 0);
            if wordish(c) {
                if j == 0 {
                } else {
                    lemma_prev_word_last(ls, l2, j, true, cl, ck);
                }
            } else if seen {
            } else {
                lemma_prev_word_last(ls, l2, j, seen, cl, ck);
            }
        }
    }
}

/// Moving to the previous word puts the cursor on the last word start
/// before it (a line break counts as a break between words): no word starts
/// between the new cursor and the old one.  Where no word starts before the
/// cursor, it goes to the start of the text.  (When no character of the
/// buffer is displayed in zero columns.)
pub proof fn law_prev_word_is_nearest(e: EditorView)
    requires
        e.has_cur(),
        e.cur().cursor_ok(),
        all_displayed(e.cur().lines),
    ensures
        ({
            let b = e.cur();
            let k0 = cidx(b.cur_text(), b.current_x as int);
            let (l, x) = e.prev_word_target();
            let j = cidx(b.lines[l].data, x);
            &&& 0 <= l < b.lines.len()
            &&& is_boundary(b.lines[l].data, x)
            &&& (l == 0 && x == 0) || word_start_at(b.lines, l, j)
            &&& pos_before(l, j, b.current as int, k0) || (l == 0 && x == 0)
            &&& forall|m: int, i: int|
                pos_before(l, j, m, i) && pos_before(m, i, b.current as int, k0) ==> !#[trigger] word_start_at(
                    b.lines,
                    m,
                    i,
                )
        }),
{
    let b = e.cur();
    let t0 = b.cur_text();
    lemma_boundary(t0, b.current_x as int);
    let k = cidx(t0, b.current_x as int);
    lemma_prev_word_last(b.lines, b.current as int, k, false, b.current as int, k);
    let (l, j, fwd) = prev_word_from(b.lines, b.current as int, k, false);
    let i = if fwd { j + 1 } else { j };
    lemma_cidx(b.lines[l].data, i);
    if l == 0 && i == 0 {
        assert(bpos(b.lines[l].data, 0) == 0);
    }
    if l == 0 && bpos(b.lines[l].data, i) == 0 {
        if i > 0 {
            crate::textseq::lemma_bpos_mono(b.lines[l].data, 0, i);
        }
    }
}

} // verus!
