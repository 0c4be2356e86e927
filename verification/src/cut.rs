//! Cutting, copying and pasting text through the cutbuffer.
use vstd::prelude::*;

use crate::chars::{cols_ok, fit_count, lemma_fit_count_boundary, wideness};
use crate::definitions::{
    BufferView, EditorFlags, Line, LineView, MessageType, OpenBuffer, UndoType, fresh_line,
    line_views, renumbered,
};
use crate::editor::{Editor, EditorView};
use crate::movement::cols_to;
use crate::text::{delete_between, head, insert_at, put_text, tail, with_text};
use crate::textseq::{
    byte_len, bytes_len, cidx, concat_text, copy_text, is_boundary, lemma_boundary,
    lemma_bpos_full, lemma_cidx, push_char, slice_text, splice_text,
};

verus! {

/// The ends of the marked region of `b`, the earlier first: `(top, top_x, bot, bot_x)`.
/// The region runs from the mark to the end of a mouse drag, or to the cursor.
pub open spec fn region(b: BufferView) -> (int, int, int, int) {
    let (end_line, end_x) = if b.softmark && b.drag_end is Some {
        (b.drag_end->0 as int, b.drag_end_x as int)
    } else {
        (b.current as int, b.current_x as int)
    };
    let m = b.mark->0 as int;
    if m < end_line || (m == end_line && b.mark_x <= end_x) {
        (m, b.mark_x as int, end_line, end_x)
    } else {
        (end_line, end_x, m, b.mark_x as int)
    }
}

/// The cutbuffer `cb` with the pieces `new` of a further cut added: the
/// first of them continues the last piece of `cb`, where the earlier cut
/// stopped, so that the cutbuffer's text is the two texts one after the other.
pub open spec fn appended(cb: Seq<LineView>, new: Seq<LineView>) -> Seq<LineView> {
    if cb.len() == 0 || new.len() == 0 {
        cb + new
    } else {
        cb.drop_last().push(with_text(cb.last(), cb.last().data + new[0].data)) + new.skip(1)
    }
}

/// The lines that the region from `(top, tx)` to `(bot, bx)` of `ls` makes in the cutbuffer.
pub open spec fn region_lines(ls: Seq<LineView>, top: int, tx: int, bot: int, bx: int) -> Seq<
    LineView,
> {
    let t = ls[top].data;
    if top == bot {
        seq![fresh_line(t.subrange(cidx(t, tx), cidx(t, bx)), 0)]
    } else {
        seq![fresh_line(tail(t, tx), 0)] + ls.subrange(top + 1, bot) + seq![
            fresh_line(head(ls[bot].data, bx), 0),
        ]
    }
}

/// The lines of `ls` without the region from `(top, tx)` to `(bot, bx)`.
pub open spec fn cut_lines(ls: Seq<LineView>, top: int, tx: int, bot: int, bx: int) -> Seq<
    LineView,
> {
    let t = ls[top].data;
    if top == bot {
        put_text(ls, top, delete_between(t, tx, bx))
    } else {
        renumbered(
            put_text(ls, top, head(t, tx) + tail(ls[bot].data, bx)).take(top + 1) + ls.skip(
                bot + 1,
            ),
            top,
        )
    }
}

/// The region from `(top, tx)` to `(bot, bx)` lies in `ls`, between character boundaries.
pub open spec fn region_ok(ls: Seq<LineView>, top: int, tx: int, bot: int, bx: int) -> bool {
    &&& 0 <= top <= bot < ls.len()
    &&& is_boundary(ls[top].data, tx)
    &&& is_boundary(ls[bot].data, bx)
    &&& top == bot ==> tx <= bx
}

/// The texts of the lines `cb` joined by newlines.
pub open spec fn joined(cb: Seq<Seq<char>>) -> Seq<char>
    decreases cb.len(),
{
    if cb.len() == 0 {
        Seq::empty()
    } else if cb.len() == 1 {
        cb[0]
    } else {
        joined(cb.drop_last()) + seq!['\n'] + cb.last()
    }
}

/// The lines of `s` split at its newlines.
pub open spec fn split_at_newlines(s: Seq<char>) -> Seq<Seq<char>>
    decreases s.len(),
{
    if s.len() == 0 {
        seq![Seq::empty()]
    } else {
        let rest = split_at_newlines(s.drop_last());
        if s.last() == '\n' {
            rest.push(Seq::empty())
        } else {
            rest.update(rest.len() - 1, rest.last().push(s.last()))
        }
    }
}

/// Lines numbered from 0 holding the texts `ts`.
pub open spec fn numbered_lines(ts: Seq<Seq<char>>) -> Seq<LineView> {
    Seq::new(ts.len(), |k: int| fresh_line(ts[k], k as usize))
}

/// `ls` with the lines `cb` pasted at `(i, x)`: the first goes onto the end
/// of the head of line `i`, the last before its tail, and those between as
/// lines of their own.
pub open spec fn pasted_lines(ls: Seq<LineView>, i: int, x: int, cb: Seq<Seq<char>>) -> Seq<
    LineView,
> {
    let t = ls[i].data;
    let n = cb.len();
    if n == 1 {
        put_text(ls, i, insert_at(t, x, cb[0]))
    } else {
        renumbered(
            put_text(ls, i, head(t, x) + cb[0]).take(i + 1) + Seq::new(
                (n - 2) as nat,
                |k: int| fresh_line(cb[k + 1], (i + 2 + k) as usize),
            ) + seq![fresh_line(cb[n - 1] + tail(t, x), (i + n) as usize)] + ls.skip(i + 1),
            i,
        )
    }
}

impl EditorView {
    /// The cutbuffer that a cut or copy starts from: kept after a cut of a
    /// whole line, else emptied.
    pub open spec fn cut_base(self) -> Seq<LineView> {
        if self.keep_cutbuffer {
            self.cutbuffer
        } else {
            Seq::empty()
        }
    }

    /// The editor with the marked region moved from the text onto the end of
    /// the cutbuffer, and the mark taken away.
    pub open spec fn region_cut(self) -> EditorView {
        let b = self.cur();
        let (top, tx, bot, bx) = region(b);
        EditorView {
            cutbuffer: appended(self.cutbuffer, region_lines(b.lines, top, tx, bot, bx)),
            keep_cutbuffer: false,
            ..self.with_cur(
                BufferView {
                    lines: cut_lines(b.lines, top, tx, bot, bx),
                    current: top as usize,
                    current_x: tx as usize,
                    mark: None,
                    drag_end: None,
                    modified: true,
                    ..b
                },
            )
        }
    }

    /// The editor with the cursor line moved onto the end of the cutbuffer:
    /// the line itself and an empty one, or only the text of the last line.
    pub open spec fn line_cut(self) -> EditorView {
        let b = self.cur();
        let i = b.current as int;
        if i < b.lines.len() - 1 {
            EditorView {
                cutbuffer: appended(self.cutbuffer, seq![b.lines[i], fresh_line(Seq::empty(), 0)]),
                keep_cutbuffer: true,
                ..self.with_cur(
                    BufferView {
                        lines: renumbered(b.lines.remove(i), i),
                        current_x: 0,
                        modified: true,
                        ..b
                    },
                )
            }
        } else {
            EditorView {
                cutbuffer: appended(self.cutbuffer, seq![b.lines[i]]),
                keep_cutbuffer: true,
                ..self.with_cur(
                    BufferView {
                        lines: renumbered(put_text(b.lines, i, Seq::empty()), i),
                        current_x: 0,
                        modified: true,
                        ..b
                    },
                )
            }
        }
    }

    /// What `cut_text` leaves: the marked region, or the cursor line, moved
    /// into the cutbuffer.
    pub open spec fn after_cut(self) -> EditorView {
        let b = self.cur();
        let i = b.current as int;
        let last = b.lines.len() - 1;
        if self.has_flag(EditorFlags::VIEW_MODE) {
            self.refused_in_view_mode()
        } else if i >= last && b.lines[i].data.len() == 0 && b.mark is None {
            self.status(MessageType::Ahem, "Nothing was cut"@)
        } else {
            let e0 = EditorView { cutbuffer: self.cut_base(), ..self };
            let e = if b.mark is Some {
                e0.region_cut()
            } else {
                e0.line_cut()
            };
            EditorView { refresh_needed: true, ..e.margin_confirmed() }
        }
    }

    /// `cut_text` can run: the cursor line, and a marked region, lie in the text.
    pub open spec fn can_cut(self) -> bool {
        let b = self.cur();
        let (top, tx, bot, bx) = region(b);
        &&& self.has_cur()
        &&& b.current < b.lines.len()
        &&& self.sidebar_fits()
        &&& b.lines.len() <= usize::MAX
        &&& b.mark is Some ==> region_ok(b.lines, top, tx, bot, bx)
    }
}

} // verus!

verus! {

impl OpenBuffer {
    /// The ends of the marked region, the earlier first.
    fn region_ends(&self) -> (r: (usize, usize, usize, usize))
        requires
            self.mark is Some,
        ensures
            r.0 as int == region(self@).0,
            r.1 as int == region(self@).1,
            r.2 as int == region(self@).2,
            r.3 as int == region(self@).3,
    {
        let (end_line, end_x) = if self.softmark && self.drag_end.is_some() {
            (self.drag_end.unwrap(), self.drag_end_x)
        } else {
            (self.current, self.current_x)
        };
        let m = self.mark.unwrap();
        if m < end_line || (m == end_line && self.mark_x <= end_x) {
            (m, self.mark_x, end_line, end_x)
        } else {
            (end_line, end_x, m, self.mark_x)
        }
    }
}

/// Append to `cb` the lines that the region from `(top, tx)` to `(bot, bx)` of `lines` makes.
fn push_region(cb: &mut Vec<Line>, lines: &Vec<Line>, top: usize, tx: usize, bot: usize, bx: usize)
    requires
        region_ok(line_views(lines@), top as int, tx as int, bot as int, bx as int),
    ensures
        line_views(final(cb)@) == line_views(old(cb)@) + region_lines(
            line_views(lines@),
            top as int,
            tx as int,
            bot as int,
            bx as int,
        ),
{
    let ghost ls = line_views(lines@);
    let ghost t = ls[top as int].data;
    proof {
        lemma_boundary(t, tx as int);
        lemma_bpos_full(t);
        lemma_cidx(t, t.len() as int);
        lemma_cidx(t, 0);
    }
    if top == bot {
        proof {
            lemma_boundary(t, bx as int);
            if cidx(t, bx as int) < cidx(t, tx as int) {
                crate::textseq::lemma_bpos_mono(t, cidx(t, bx as int), cidx(t, tx as int));
            }
        }
        let s = slice_text(lines[top].data.as_str(), tx, bx);
        let sl = Line::new(s, 0);
        cb.push(sl);
        assert(line_views(cb@) =~= line_views(old(cb)@).push(sl@));
        assert(line_views(cb@) =~= line_views(old(cb)@) + region_lines(
            ls,
            top as int,
            tx as int,
            bot as int,
            bx as int,
        ));
    } else {
        let len_top = byte_len(lines[top].data.as_str());
        let first = slice_text(lines[top].data.as_str(), tx, len_top);
        assert(first@ =~= tail(t, tx as int));
        let fl = Line::new(first, 0);
        cb.push(fl);
        assert(line_views(cb@) =~= line_views(old(cb)@).push(fl@));
        assert(ls.subrange(top + 1, top + 1) =~= Seq::<LineView>::empty());
        assert(line_views(cb@) =~= line_views(old(cb)@) + seq![fresh_line(tail(t, tx as int), 0)]
            + ls.subrange(top + 1, top + 1));
        let mut i = top + 1;
        while i < bot
            invariant
                top < i <= bot < lines@.len(),
                ls == line_views(lines@),
                t == ls[top as int].data,
                line_views(cb@) == line_views(old(cb)@) + seq![fresh_line(tail(t, tx as int), 0)]
                    + ls.subrange(top + 1, i as int),
            decreases bot - i,
        {
            let l = lines[i].duplicate();
            let ghost prev = cb@;
            cb.push(l);
            assert(line_views(cb@) =~= line_views(prev).push(l@));
            assert(l@ == ls[i as int]);
            assert(line_views(cb@) =~= line_views(old(cb)@) + seq![fresh_line(tail(t, tx as int), 0)]
                + ls.subrange(top + 1, i + 1));
            i += 1;
        }
        let ghost u = ls[bot as int].data;
        proof {
            lemma_boundary(u, bx as int);
            lemma_cidx(u, 0);
        }
        let last = slice_text(lines[bot].data.as_str(), 0, bx);
        assert(last@ =~= head(u, bx as int));
        let ghost prev = cb@;
        let nl = Line::new(last, 0);
        cb.push(nl);
        assert(line_views(cb@) =~= line_views(prev).push(nl@));
        assert(line_views(cb@) =~= line_views(old(cb)@) + region_lines(
            ls,
            top as int,
            tx as int,
            bot as int,
            bx as int,
        ));
    }
}

impl OpenBuffer {
    /// Take the region from `(top, tx)` to `(bot, bx)` out of the lines, and
    /// put the cursor where it started.
    fn remove_region(&mut self, top: usize, tx: usize, bot: usize, bx: usize)
        requires
            region_ok(old(self)@.lines, top as int, tx as int, bot as int, bx as int),
        ensures
            final(self)@ == (BufferView {
                lines: cut_lines(old(self)@.lines, top as int, tx as int, bot as int, bx as int),
                current: top,
                current_x: tx,
                ..old(self)@
            }),
    {
        let ghost ls = old(self)@.lines;
        let ghost t = ls[top as int].data;
        proof {
            lemma_boundary(t, tx as int);
            lemma_bpos_full(t);
            lemma_cidx(t, t.len() as int);
            lemma_cidx(t, 0);
        }
        if top == bot {
            let empty = String::new();
            let nt = splice_text(self.lines[top].data.as_str(), tx, bx, empty.as_str());
            assert(nt@ =~= delete_between(t, tx as int, bx as int));
            self.set_text(top, nt);
            self.current = top;
            self.current_x = tx;
        } else {
            let ghost u = ls[bot as int].data;
            proof {
                lemma_boundary(u, bx as int);
                lemma_bpos_full(u);
                lemma_cidx(u, u.len() as int);
            }
            let len_bot = byte_len(self.lines[bot].data.as_str());
            let after_bot = slice_text(self.lines[bot].data.as_str(), bx, len_bot);
            let before = slice_text(self.lines[top].data.as_str(), 0, tx);
            assert(after_bot@ =~= tail(u, bx as int));
            assert(before@ =~= head(t, tx as int));
            let joined_text = concat_text(before.as_str(), after_bot.as_str());
            self.set_text(top, joined_text);
            let ghost p = self@.lines;
            let mut r: usize = 0;
            while r < bot - top
                invariant
                    top < bot < ls.len(),
                    p.len() == ls.len(),
                    r <= bot - top,
                    self@.lines == p.take(top + 1) + p.skip(top + 1 + r),
                    self@ == (BufferView { lines: self@.lines, ..old(self)@ }),
                decreases bot - top - r,
            {
                assert(self.lines@.len() == self@.lines.len());
                let ghost before = self.lines@;
                let ghost bv = self@.lines;
                let _gone = self.lines.remove(top + 1);
                assert(self@.lines =~= bv.remove(top + 1));
                assert(self@.lines =~= p.take(top + 1) + p.skip(top + 1 + r + 1));
                r += 1;
            }
            assert(p.skip(bot + 1) =~= ls.skip(bot + 1));
            self.current = top;
            self.current_x = tx;
            self.renumber_from(top);
        }
    }
}

} // verus!

verus! {

/// Whether `s` is empty.
pub fn text_is_empty(s: &str) -> (r: bool)
    ensures
        r == (s@.len() == 0),
{
    proof {
        lemma_bpos_full(s@);
        crate::textseq::lemma_bpos_mono(s@, 0, s@.len() as int);
    }
    byte_len(s) == 0
}

/// Add the pieces `new` of a further cut to the cutbuffer `cb`.
fn append_pieces(cb: &mut Vec<Line>, new: Vec<Line>)
    ensures
        line_views(final(cb)@) == appended(line_views(old(cb)@), line_views(new@)),
{
    let ghost old_v = line_views(cb@);
    let ghost new_v = line_views(new@);
    let mut start: usize = 0;
    if cb.len() > 0 && new.len() > 0 {
        let last = cb.pop().unwrap();
        let data = concat_text(last.data.as_str(), new[0].data.as_str());
        let merged = Line { data, lineno: last.lineno, multidata: last.multidata, has_anchor: last.has_anchor };
        assert(merged@ == with_text(old_v.last(), old_v.last().data + new_v[0].data));
        cb.push(merged);
        start = 1;
    }
    let ghost base = line_views(cb@);
    assert(base + new_v.skip(start as int) == appended(old_v, new_v)) by {
        if old_v.len() == 0 || new_v.len() == 0 {
            assert(new_v.skip(0) =~= new_v);
        } else {
            assert(base =~= old_v.drop_last().push(with_text(old_v.last(), old_v.last().data + new_v[0].data)));
        }
    }
    let mut k: usize = start;
    while k < new.len()
        invariant
            start <= k <= new@.len(),
            new_v == line_views(new@),
            line_views(cb@) == base + new_v.skip(start as int).take(k - start),
            base + new_v.skip(start as int) == appended(old_v, new_v),
        decreases new@.len() - k,
    {
        let ghost prev = line_views(cb@);
        cb.push(new[k].duplicate());
        assert(line_views(cb@) =~= prev.push(new_v[k as int]));
        assert(new_v.skip(start as int).take(k + 1 - start) =~= new_v.skip(start as int).take(k - start).push(new_v[k as int]));
        k += 1;
    }
    assert(new_v.skip(start as int).take(k - start) =~= new_v.skip(start as int));
}

impl Editor {
    /// Move the region from `(top, tx)` to `(bot, bx)` of the current buffer
    /// into the cutbuffer, leaving the cursor where it started.
    fn cut_region(&mut self, top: usize, tx: usize, bot: usize, bx: usize)
        requires
            old(self)@.has_cur(),
            region_ok(old(self)@.cur().lines, top as int, tx as int, bot as int, bx as int),
        ensures
            final(self)@ == (EditorView {
                cutbuffer: appended(old(self)@.cutbuffer, region_lines(
                    old(self)@.cur().lines,
                    top as int,
                    tx as int,
                    bot as int,
                    bx as int,
                )),
                ..old(self)@.with_cur(
                    BufferView {
                        lines: cut_lines(
                            old(self)@.cur().lines,
                            top as int,
                            tx as int,
                            bot as int,
                            bx as int,
                        ),
                        current: top,
                        current_x: tx,
                        ..old(self)@.cur()
                    },
                )
            }),
    {
        let cb = self.current_buf;
        let mut pieces: Vec<Line> = Vec::new();
        push_region(&mut pieces, &self.buffers[cb].lines, top, tx, bot, bx);
        assert(line_views(pieces@) =~= Seq::<LineView>::empty() + region_lines(
            old(self)@.cur().lines,
            top as int,
            tx as int,
            bot as int,
            bx as int,
        ));
        append_pieces(&mut self.cutbuffer, pieces);
        self.buffers[cb].remove_region(top, tx, bot, bx);
        assert(self@.buffers =~= old(self)@.buffers.update(cb as int, self@.cur()));
    }

    /// Move the marked region, or the cursor line, into the cutbuffer; true
    /// when something was cut, for the system clipboard to take.
    pub fn cut_text(&mut self) -> (cut: bool)
        requires
            old(self)@.has_flag(EditorFlags::VIEW_MODE) || old(self)@.can_cut(),
        ensures
            final(self)@ == old(self)@.after_cut(),
            cut == old(self)@.cuts(),
    {
        if self.flags.contains(EditorFlags::VIEW_MODE) {
            self.statusline(MessageType::Ahem, "Key invalid in view mode");
            return false;
        }
        let cb = self.current_buf;
        let cur = self.buffers[cb].current;
        let n = self.buffers[cb].lines.len();
        if cur >= n - 1 && text_is_empty(self.buffers[cb].lines[cur].data.as_str())
            && self.buffers[cb].mark.is_none() {
            self.statusline(MessageType::Ahem, "Nothing was cut");
            return false;
        }
        if !self.keep_cutbuffer {
            self.cutbuffer.clear();
        }
        let ghost e0 = self@;
        assert(e0.cutbuffer =~= old(self)@.cut_base());
        assert(e0 == EditorView { cutbuffer: old(self)@.cut_base(), ..old(self)@ });
        if self.buffers[cb].mark.is_some() {
            self.cut_marked();
        } else {
            self.cut_line();
        }
        assert(self@.buffers.len() == old(self)@.buffers.len());
        proof {
            crate::editor::lemma_cur(self);
            crate::editor::lemma_margin_bound(self@);
        }
        self.confirm_margin();
        self.refresh_needed = true;
        true
    }

    /// Move the marked region onto the end of the cutbuffer.
    fn cut_marked(&mut self)
        requires
            old(self)@.has_cur(),
            old(self)@.cur().mark is Some,
            ({
                let (top, tx, bot, bx) = region(old(self)@.cur());
                region_ok(old(self)@.cur().lines, top, tx, bot, bx)
            }),
        ensures
            final(self)@ == old(self)@.region_cut(),
    {
        let cb = self.current_buf;
        let (top, tx, bot, bx) = self.buffers[cb].region_ends();
        self.cut_region(top, tx, bot, bx);
        let ghost e1 = self@;
        assert(self@.buffers.len() == old(self)@.buffers.len());
        proof {
            crate::editor::lemma_cur(self);
        }
        self.buffers[cb].mark = None;
        self.buffers[cb].drag_end = None;
        self.keep_cutbuffer = false;
        self.buffers[cb].modified = true;
        assert(self@.buffers =~= e1.buffers.update(cb as int, self@.cur()));
        assert(self@.buffers =~= old(self)@.region_cut().buffers);
    }

    /// Move the cursor line onto the end of the cutbuffer.
    fn cut_line(&mut self)
        requires
            old(self)@.has_cur(),
            old(self)@.cur().current < old(self)@.cur().lines.len(),
        ensures
            final(self)@ == old(self)@.line_cut(),
    {
        let cb = self.current_buf;
        let cur = self.buffers[cb].current;
        let n = self.buffers[cb].lines.len();
        if cur < n - 1 {
            let l = self.buffers[cb].lines[cur].duplicate();
            let pieces = vec![l, Line::new(String::new(), 0)];
            assert(line_views(pieces@) =~= seq![old(self)@.cur().lines[cur as int], fresh_line(Seq::empty(), 0)]);
            append_pieces(&mut self.cutbuffer, pieces);
            let ghost lv = self.buffers@[cb as int]@.lines;
            let _gone = self.buffers[cb].lines.remove(cur);
            assert(self.buffers@[cb as int]@.lines =~= lv.remove(cur as int));
            if self.buffers[cb].current >= self.buffers[cb].lines.len() {
                self.buffers[cb].current = self.buffers[cb].lines.len() - 1;
            }
            self.buffers[cb].current_x = 0;
        } else {
            let l = self.buffers[cb].lines[cur].duplicate();
            let pieces = vec![l];
            assert(line_views(pieces@) =~= seq![old(self)@.cur().lines[cur as int]]);
            append_pieces(&mut self.cutbuffer, pieces);
            self.buffers[cb].set_text(cur, String::new());
            self.buffers[cb].current_x = 0;
        }
        self.buffers[cb].renumber_from(cur);
        self.keep_cutbuffer = true;
        self.buffers[cb].modified = true;
        assert(self@.cutbuffer =~= old(self)@.line_cut().cutbuffer);
        assert(self@.buffers =~= old(self)@.line_cut().buffers);
    }
}

} // verus!

verus! {

impl EditorView {
    /// What `copy_text` leaves: the marked region, or the cursor line and an
    /// empty one, copied into the emptied cutbuffer.
    pub open spec fn after_copy(self) -> EditorView {
        let b = self.cur();
        let i = b.current as int;
        if b.mark is Some {
            let (top, tx, bot, bx) = region(b);
            if top == bot && tx == bx {
                EditorView { cutbuffer: Seq::empty(), ..self }.status(
                    MessageType::Ahem,
                    "Copied nothing"@,
                )
            } else {
                EditorView {
                    refresh_needed: true,
                    ..EditorView {
                        cutbuffer: region_lines(b.lines, top, tx, bot, bx),
                        ..self.with_cur(BufferView { mark: None, drag_end: None, ..b })
                    }.status(MessageType::Info, "Copied text"@)
                }
            }
        } else {
            EditorView {
                refresh_needed: true,
                ..EditorView {
                    cutbuffer: seq![b.lines[i], fresh_line(Seq::empty(), 0)],
                    ..self
                }.status(MessageType::Info, "Copied text"@)
            }
        }
    }

    /// Whether `copy_text` copies something.
    pub open spec fn copies(self) -> bool {
        let b = self.cur();
        let (top, tx, bot, bx) = region(b);
        !(b.mark is Some && top == bot && tx == bx)
    }

    /// Whether `cut_text` cuts something.
    pub open spec fn cuts(self) -> bool {
        let b = self.cur();
        let i = b.current as int;
        !self.has_flag(EditorFlags::VIEW_MODE) && !(i >= b.lines.len() - 1 && b.lines[i].data.len()
            == 0 && b.mark is None)
    }
}

impl Editor {
    /// Copy the marked region, or the cursor line, into the cutbuffer; true
    /// when something was copied, for the system clipboard to take.
    #[verifier::rlimit(60)]
    #[verifier::spinoff_prover]
    pub fn copy_text(&mut self) -> (copied: bool)
        requires
            old(self)@.can_cut(),
        ensures
            final(self)@ == old(self)@.after_copy(),
            copied == old(self)@.copies(),
    {
        self.cutbuffer.clear();
        let ghost e0 = self@;
        assert(e0.cutbuffer =~= Seq::<LineView>::empty());
        let cb = self.current_buf;
        if self.buffers[cb].mark.is_some() {
            let (top, tx, bot, bx) = self.buffers[cb].region_ends();
            if top == bot && tx == bx {
                self.statusline(MessageType::Ahem, "Copied nothing");
                return false;
            }
            push_region(&mut self.cutbuffer, &self.buffers[cb].lines, top, tx, bot, bx);
            assert(self@.cutbuffer =~= region_lines(old(self)@.cur().lines, top as int, tx as int, bot as int, bx as int));
            self.buffers[cb].mark = None;
            self.buffers[cb].drag_end = None;
            assert(self@.buffers =~= old(self)@.buffers.update(
                cb as int,
                BufferView { mark: None, drag_end: None, ..old(self)@.cur() },
            ));
        } else {
            let cur = self.buffers[cb].current;
            let l = self.buffers[cb].lines[cur].duplicate();
            self.cutbuffer.push(l);
            self.cutbuffer.push(Line::new(String::new(), 0));
            assert(self@.cutbuffer =~= seq![old(self)@.cur().lines[cur as int], fresh_line(Seq::empty(), 0)]);
        }
        self.statusline(MessageType::Info, "Copied text");
        self.refresh_needed = true;
        true
    }

    /// The texts of the cutbuffer joined by newlines, for the system clipboard.
    pub fn cutbuffer_to_string(&self) -> (r: String)
        ensures
            r@ == joined(crate::definitions::texts(self@.cutbuffer)),
    {
        let mut result = String::new();
        let n = self.cutbuffer.len();
        let ghost ts = crate::definitions::texts(self@.cutbuffer);
        let mut i: usize = 0;
        while i < n
            invariant
                n == self.cutbuffer@.len() == ts.len(),
                ts == crate::definitions::texts(self@.cutbuffer),
                i <= n,
                result@ == joined(ts.take(i as int)),
            decreases n - i,
        {
            let ghost prev = result@;
            if i > 0 {
                push_char(&mut result, '\n');
            }
            crate::textseq::append_str(&mut result, self.cutbuffer[i].data.as_str());
            proof {
                let tk = ts.take(i + 1);
                assert(tk.drop_last() =~= ts.take(i as int));
                assert(tk.last() == ts[i as int]);
                assert(ts[i as int] == self.cutbuffer@[i as int].data@);
                if i == 0 {
                    assert(ts.take(0).len() == 0);
                    assert(result@ =~= ts[0]);
                } else {
                    assert(result@ =~= prev + seq!['\n'] + ts[i as int]);
                }
            }
            i += 1;
        }
        assert(ts.take(n as int) =~= ts);
        result
    }
}

} // verus!

verus! {

impl EditorView {
    /// The lines that `paste_text` pastes: the cutbuffer, or, when it is
    /// empty, the lines of the non-empty text of the system clipboard.
    pub open spec fn paste_source(self, clip: Option<Seq<char>>) -> Seq<LineView> {
        if self.cutbuffer.len() == 0 && clip is Some && clip->0.len() > 0 {
            numbered_lines(split_at_newlines(clip->0))
        } else {
            self.cutbuffer
        }
    }

    /// Where the cursor ends after pasting the texts `ts`: after the pasted text.
    pub open spec fn paste_end(self, ts: Seq<Seq<char>>) -> (int, int) {
        let b = self.cur();
        let n = ts.len();
        if n == 1 {
            (b.current as int, b.current_x + bytes_len(ts[0]))
        } else {
            (b.current + n - 1, bytes_len(ts[n - 1]) as int)
        }
    }

    /// What `paste_text(clip)` leaves: the cutbuffer pasted at the cursor,
    /// and the cursor after it.
    pub open spec fn after_paste(self, clip: Option<Seq<char>>) -> EditorView {
        if self.has_flag(EditorFlags::VIEW_MODE) {
            self.refused_in_view_mode()
        } else {
            let cbuf = self.paste_source(clip);
            let e0 = EditorView { cutbuffer: cbuf, ..self };
            if cbuf.len() == 0 {
                e0.status(MessageType::Ahem, "Cutbuffer is empty"@)
            } else {
                let b = self.cur().recorded(UndoType::Paste);
                let ts = crate::definitions::texts(cbuf);
                let lines = pasted_lines(b.lines, b.current as int, b.current_x as int, ts);
                let (ni, nx) = self.paste_end(ts);
                EditorView {
                    refresh_needed: true,
                    ..e0.with_cur(
                        BufferView {
                            lines,
                            current: ni as usize,
                            current_x: nx as usize,
                            placewewant: cols_to(lines[ni].data, nx, self.tabsize as int) as usize,
                            modified: true,
                            ..b
                        },
                    ).margin_confirmed()
                }
            }
        }
    }

    /// `paste_text(clip)` can run: the cursor is in the text, and neither the
    /// lines nor the counters nor the wanted column overflow.
    pub open spec fn can_paste(self, clip: Option<Seq<char>>) -> bool {
        let b = self.cur();
        let ts = crate::definitions::texts(self.paste_source(clip));
        let n = ts.len();
        let t = b.cur_text();
        let x = b.current_x as int;
        &&& self.has_cur()
        &&& b.cursor_ok()
        &&& b.undo_index < usize::MAX
        &&& self.sidebar_fits()
        &&& b.lines.len() + n <= usize::MAX
        &&& n > 0 ==> cols_ok(
            if n == 1 {
                head(t, x) + ts[0]
            } else {
                ts[n - 1]
            },
            self.tabsize as int,
        )
    }
}

/// The lines of `s` split at its newlines, numbered from 0.
fn split_text(s: &str) -> (r: Vec<Line>)
    ensures
        line_views(r@) == numbered_lines(split_at_newlines(s@)),
{
    let cs = crate::textseq::chars_of(s);
    let n = cs.len();
    let mut done: Vec<Line> = Vec::new();
    let mut piece = String::new();
    let mut k: usize = 0;
    assert(s@.take(0) =~= Seq::<char>::empty());
    assert(crate::definitions::texts(line_views(done@)).push(piece@) =~= split_at_newlines(s@.take(0)));
    while k < n
        invariant
            cs@ == s@,
            n == cs@.len(),
            k <= n,
            crate::definitions::texts(line_views(done@)).push(piece@) == split_at_newlines(s@.take(k as int)),
            forall|j: int| 0 <= j < done@.len() ==> #[trigger] done@[j]@ == fresh_line(done@[j]@.data, j as usize),
        decreases n - k,
    {
        let c = cs[k];
        let ghost prev = split_at_newlines(s@.take(k as int));
        assert(s@.take(k + 1).drop_last() =~= s@.take(k as int));
        if c == '\n' {
            let num = done.len();
            let ghost pd = done@;
            done.push(Line::new(piece, num));
            piece = String::new();
            assert(crate::definitions::texts(line_views(done@)) =~= crate::definitions::texts(line_views(pd)).push(done@[num as int]@.data));
            assert(crate::definitions::texts(line_views(done@)).push(piece@) =~= prev.push(Seq::empty()));
        } else {
            let ghost pp = piece@;
            push_char(&mut piece, c);
            assert(crate::definitions::texts(line_views(done@)).push(piece@) =~= prev.update(prev.len() - 1, prev.last().push(c)));
        }
        k += 1;
    }
    let num = done.len();
    let ghost pd = done@;
    done.push(Line::new(piece, num));
    assert(s@.take(n as int) =~= s@);
    assert(line_views(done@) =~= numbered_lines(split_at_newlines(s@)));
    done
}

} // verus!

verus! {

/// After a paste the cursor is at the end of what was pasted, and the line
/// before it is the head of the line and the last pasted text.
proof fn lemma_paste_cursor(t: Seq<char>, x0: int, tv: Seq<Seq<char>>, nl: Seq<char>, x: int)
    requires
        is_boundary(t, x0),
        tv.len() > 0,
        tv.len() == 1 ==> nl == (head(t, x0) + tv[0]) + tail(t, x0) && x == x0 + bytes_len(tv[0]),
        tv.len() > 1 ==> nl == tv[tv.len() - 1] + tail(t, x0) && x == bytes_len(tv[tv.len() - 1]),
    ensures
        is_boundary(nl, x),
        nl.take(fit_count(nl, x)) == (if tv.len() == 1 {
            head(t, x0) + tv[0]
        } else {
            tv[tv.len() - 1]
        }),
{
    let n = tv.len();
    let pre = if n == 1 {
        head(t, x0) + tv[0]
    } else {
        tv[n - 1]
    };
    lemma_boundary(t, x0);
    if n == 1 {
        crate::textseq::lemma_bytes_len_concat(head(t, x0), tv[0]);
        assert(bytes_len(head(t, x0)) == x0);
    }
    assert(nl == pre + tail(t, x0));
    assert(nl.take(pre.len() as int) =~= pre);
    crate::textseq::lemma_bpos_concat(pre, tail(t, x0), pre.len() as int);
    lemma_bpos_full(pre);
    lemma_cidx(nl, pre.len() as int);
    lemma_fit_count_boundary(nl, x);
}

impl OpenBuffer {
    /// Paste the texts `ts` at the cursor, and put the cursor after them.
    pub(crate) fn paste_lines(&mut self, ts: &Vec<String>)
        requires
            ts@.len() > 0,
            old(self)@.cursor_ok(),
            old(self)@.lines.len() + ts@.len() <= usize::MAX,
        ensures
            ({
                let b = old(self)@;
                let tv = crate::editor::text_views(ts@);
                let n = tv.len();
                final(self)@ == BufferView {
                    lines: pasted_lines(b.lines, b.current as int, b.current_x as int, tv),
                    current: (if n == 1 {
                        b.current as int
                    } else {
                        b.current + n - 1
                    }) as usize,
                    current_x: (if n == 1 {
                        b.current_x + bytes_len(tv[0])
                    } else {
                        bytes_len(tv[n - 1]) as int
                    }) as usize,
                    ..b
                }
            }),
            final(self)@.current_x == (if ts@.len() == 1 {
                old(self)@.current_x + bytes_len(ts@[0]@)
            } else {
                bytes_len(ts@[ts@.len() - 1]@) as int
            }),
    {
        let ghost b = self@;
        let ghost ls = b.lines;
        let ghost tv = crate::editor::text_views(ts@);
        let i = self.current;
        let x = self.current_x;
        let n = ts.len();
        let ghost t = ls[i as int].data;
        proof {
            lemma_boundary(t, x as int);
            lemma_bpos_full(t);
            lemma_cidx(t, t.len() as int);
            lemma_cidx(t, 0);
        }
        if n == 1 {
            let nt = splice_text(self.lines[i].data.as_str(), x, x, ts[0].as_str());
            let _nlen = byte_len(nt.as_str());
            proof {
                assert(nt@ =~= head(t, x as int) + (ts@[0]@ + tail(t, x as int)));
                crate::textseq::lemma_bytes_len_concat(head(t, x as int), ts@[0]@ + tail(t, x as int));
                crate::textseq::lemma_bytes_len_concat(ts@[0]@, tail(t, x as int));
                assert(bytes_len(head(t, x as int)) == x);
            }
            self.set_text(i, nt);
            self.current_x = x + byte_len(ts[0].as_str());
            assert(self@.lines =~= pasted_lines(ls, i as int, x as int, tv));
        } else {
            let len = byte_len(self.lines[i].data.as_str());
            let after = slice_text(self.lines[i].data.as_str(), x, len);
            let before = slice_text(self.lines[i].data.as_str(), 0, x);
            assert(after@ =~= tail(t, x as int));
            assert(before@ =~= head(t, x as int));
            let first = concat_text(before.as_str(), ts[0].as_str());
            self.set_text(i, first);
            let ghost p = put_text(ls, i as int, head(t, x as int) + tv[0]);
            let mut idx = i + 1;
            let mut k: usize = 1;
            assert(self@.lines =~= p.take(i + 1) + Seq::new(
                (k - 1) as nat,
                |j: int| fresh_line(tv[j + 1], (i + 2 + j) as usize),
            ) + ls.skip(i + 1));
            while k < n - 1
                invariant
                    1 <= k <= n - 1,
                    n == ts@.len() == tv.len(),
                    tv == crate::editor::text_views(ts@),
                    i < ls.len(),
                    ls.len() + n <= usize::MAX,
                    idx == i + k,
                    p == put_text(ls, i as int, head(t, x as int) + tv[0]),
                    self@.lines == p.take(i + 1) + Seq::new(
                        (k - 1) as nat,
                        |j: int| fresh_line(tv[j + 1], (i + 2 + j) as usize),
                    ) + ls.skip(i + 1),
                    self@ == (BufferView { lines: self@.lines, ..b }),
                decreases n - k,
            {
                let d = copy_text(ts[k].as_str());
                let ghost prev = self@.lines;
                assert(self.lines@.len() == prev.len());
                self.lines.insert(idx, Line::new(d, idx + 1));
                assert(self@.lines =~= prev.insert(idx as int, fresh_line(tv[k as int], (idx + 1) as usize)));
                assert(self@.lines =~= p.take(i + 1) + Seq::new(
                    k as nat,
                    |j: int| fresh_line(tv[j + 1], (i + 2 + j) as usize),
                ) + ls.skip(i + 1));
                idx += 1;
                k += 1;
            }
            let final_x = byte_len(ts[n - 1].as_str());
            let last = concat_text(ts[n - 1].as_str(), after.as_str());
            let ghost prev = self@.lines;
            assert(self.lines@.len() == prev.len());
            self.lines.insert(idx, Line::new(last, idx + 1));
            assert(self@.lines =~= prev.insert(idx as int, fresh_line(tv[n - 1] + tail(t, x as int), (idx + 1) as usize)));
            self.current = idx;
            self.current_x = final_x;
            assert(self@.lines =~= p.take(i + 1) + Seq::new(
                (n - 2) as nat,
                |j: int| fresh_line(tv[j + 1], (i + 2 + j) as usize),
            ) + seq![fresh_line(tv[n - 1] + tail(t, x as int), (i + n) as usize)] + ls.skip(i + 1));
            self.renumber_from(i);
        }
    }
}

} // verus!

verus! {

impl Editor {
    /// Paste the cutbuffer at the cursor.  When the cutbuffer is empty, the
    /// non-empty text `clipboard` (what the system clipboard held) is split
    /// into lines and pasted instead.
    #[verifier::rlimit(40)]
    pub fn paste_text(&mut self, clipboard: Option<String>)
        requires
            old(self)@.has_flag(EditorFlags::VIEW_MODE) || old(self)@.can_paste(
                crate::definitions::opt_text(clipboard),
            ),
        ensures
            final(self)@ == old(self)@.after_paste(crate::definitions::opt_text(clipboard)),
    {
        if self.flags.contains(EditorFlags::VIEW_MODE) {
            self.statusline(MessageType::Ahem, "Key invalid in view mode");
            return;
        }
        let ghost clip = crate::definitions::opt_text(clipboard);
        if self.cutbuffer.len() == 0 {
            match clipboard {
                Some(text) => {
                    if !text_is_empty(text.as_str()) {
                        self.cutbuffer = split_text(text.as_str());
                    }
                },
                None => {},
            }
        }
        let ghost e0 = self@;
        assert(e0 == EditorView { cutbuffer: old(self)@.paste_source(clip), ..old(self)@ });
        if self.cutbuffer.len() == 0 {
            self.statusline(MessageType::Ahem, "Cutbuffer is empty");
            return;
        }
        self.add_undo(UndoType::Paste);
        let ghost e1 = self@;
        assert(self@.buffers.len() == old(self)@.buffers.len());
        assert(e1.has_cur());
        let n = self.cutbuffer.len();
        let mut ts: Vec<String> = Vec::new();
        let mut k: usize = 0;
        while k < n
            invariant
                n == self.cutbuffer@.len(),
                k <= n,
                self@ == e1,
                e1.has_cur(),
                crate::editor::text_views(ts@) == crate::definitions::texts(self@.cutbuffer).take(k as int),
            decreases n - k,
        {
            let ghost prev = ts@;
            ts.push(copy_text(self.cutbuffer[k].data.as_str()));
            assert(crate::editor::text_views(ts@) =~= crate::editor::text_views(prev).push(self@.cutbuffer[k as int].data));
            assert(crate::editor::text_views(ts@) =~= crate::definitions::texts(self@.cutbuffer).take(k + 1));
            k += 1;
        }
        assert(crate::definitions::texts(self@.cutbuffer).take(n as int) =~= crate::definitions::texts(self@.cutbuffer));
        let tabsize = self.tabsize;
        let cb = self.current_buf;
        proof {
            crate::editor::lemma_cur(self);
        }
        self.buffers[cb].paste_lines(&ts);
        proof {
            crate::editor::lemma_cur(self);
        }
        let cur = self.buffers[cb].current;
        let x = self.buffers[cb].current_x;
        let ghost nl = self@.cur().lines[cur as int].data;
        proof {
            let bb = e1.cur();
            lemma_paste_cursor(bb.cur_text(), bb.current_x as int, crate::editor::text_views(ts@), nl, x as int);
        }
        let w = wideness(self.buffers[cb].lines[cur].data.as_str(), x, tabsize);
        self.buffers[cb].placewewant = w;
        self.buffers[cb].modified = true;
        assert(self@.buffers =~= e1.buffers.update(cb as int, self@.cur()));
        proof {
            crate::editor::lemma_cur(self);
            crate::editor::lemma_margin_bound(self@);
        }
        self.confirm_margin();
        self.refresh_needed = true;
        assert(self@.buffers =~= old(self)@.after_paste(clip).buffers);
    }
}

} // verus!

verus! {

proof fn lemma_texts_renumbered(ls: Seq<LineView>, s: int)
    ensures
        crate::definitions::texts(renumbered(ls, s)) == crate::definitions::texts(ls),
{
    assert(crate::definitions::texts(renumbered(ls, s)) =~= crate::definitions::texts(ls));
}

/// The texts of lines with `cb` pasted at `(i, x)`.
proof fn lemma_pasted_texts(ls: Seq<LineView>, i: int, x: int, cb: Seq<Seq<char>>, m: int)
    requires
        0 <= i < ls.len(),
        cb.len() >= 2,
        0 <= m < ls.len() + cb.len() - 1,
    ensures
        pasted_lines(ls, i, x, cb).len() == ls.len() + cb.len() - 1,
        pasted_lines(ls, i, x, cb)[m].data == (if m < i {
            ls[m].data
        } else if m == i {
            head(ls[i].data, x) + cb[0]
        } else if m < i + cb.len() - 1 {
            cb[m - i]
        } else if m == i + cb.len() - 1 {
            cb[cb.len() - 1] + tail(ls[i].data, x)
        } else {
            ls[m - cb.len() + 1].data
        }),
{
}

/// Cutting a region within one line and pasting it back.
#[verifier::spinoff_prover]
proof fn lemma_cut_paste_span(e: EditorView)
    requires
        e.can_cut(),
        e.cuts(),
        !e.keep_cutbuffer,
        e.after_cut().can_paste(None),
        e.cur().mark is Some,
        region(e.cur()).0 == region(e.cur()).2,
    ensures
        e.after_cut().after_paste(None).cur().text() == e.cur().text(),
{
    let b = e.cur();
    let ls = b.lines;
    let i = b.current as int;
    let e1 = e.after_cut();
    let b1 = e1.cur();
    let ts = crate::definitions::texts(e1.cutbuffer);
    let e2 = e1.after_paste(None);
    let p = e2.cur().lines;
    assert(e.cut_base() =~= Seq::<LineView>::empty());
    let (top, tx, bot, bx) = region(b);
    let t = ls[top].data;
    lemma_boundary(t, tx);
    lemma_boundary(t, bx);
    lemma_bpos_full(t);
    if cidx(t, bx) < cidx(t, tx) {
        crate::textseq::lemma_bpos_mono(t, cidx(t, bx), cidx(t, tx));
    }
    let nt = delete_between(t, tx, bx);
    assert(nt.take(cidx(t, tx)) =~= head(t, tx));
    crate::text::lemma_same_head(t, nt, tx);
    assert(b1.lines[top].data == nt);
    assert(tail(nt, tx) =~= tail(t, bx));
    assert(ts =~= seq![t.subrange(cidx(t, tx), cidx(t, bx))]);
    assert(insert_at(nt, tx, ts[0]) =~= t);
    assert(p =~= put_text(b1.lines, top, t));
    assert(e2.cur().text() =~= b.text());
}

/// Cutting a region over several lines and pasting it back.
#[verifier::spinoff_prover]
#[verifier::rlimit(40)]
proof fn lemma_cut_paste_region(e: EditorView)
    requires
        e.can_cut(),
        e.cuts(),
        !e.keep_cutbuffer,
        e.after_cut().can_paste(None),
        e.cur().mark is Some,
        region(e.cur()).0 != region(e.cur()).2,
    ensures
        e.after_cut().after_paste(None).cur().text() == e.cur().text(),
{
    let b = e.cur();
    let ls = b.lines;
    let i = b.current as int;
    let e1 = e.after_cut();
    let b1 = e1.cur();
    let ts = crate::definitions::texts(e1.cutbuffer);
    let e2 = e1.after_paste(None);
    let p = e2.cur().lines;
    assert(e.cut_base() =~= Seq::<LineView>::empty());
    let (top, tx, bot, bx) = region(b);
    let t = ls[top].data;
    lemma_boundary(t, tx);
    let u = ls[bot].data;
    let nt = head(t, tx) + tail(u, bx);
    assert(nt.take(cidx(t, tx)) =~= head(t, tx));
    crate::text::lemma_same_head(t, nt, tx);
    assert(tail(nt, tx) =~= tail(u, bx));
    let q = put_text(ls, top, nt).take(top + 1) + ls.skip(bot + 1);
    assert(b1.lines == renumbered(q, top));
    lemma_texts_renumbered(q, top);
    assert(b1.lines[top].data == nt);
    let n = bot - top + 1;
    assert(ts.len() == n);
    assert(ts[0] == tail(t, tx));
    assert(ts[n - 1] == head(u, bx));
    assert forall|k: int| 0 < k < n - 1 implies #[trigger] ts[k] == ls[top + k].data by {
        assert(e1.cutbuffer[k] == ls[top + k]);
    }
    assert forall|m: int| 0 <= m < ls.len() implies #[trigger] p[m].data == ls[m].data by {
        lemma_pasted_texts(b1.lines, top, tx, ts, m);
        if m > bot {
            assert(b1.lines[m - n + 1].data == q[m - n + 1].data);
        }
        if m < top {
            assert(b1.lines[m].data == q[m].data);
        }
        if m == bot {
            lemma_boundary(u, bx);
            assert(head(u, bx) + tail(u, bx) =~= u);
        }
        if m == top {
            assert(head(t, tx) + tail(t, tx) =~= t);
        }
    }
    assert(e2.cur().text() =~= b.text());
}

/// Cutting a line that has a line after it and pasting it back.
#[verifier::spinoff_prover]
proof fn lemma_cut_paste_line(e: EditorView)
    requires
        e.can_cut(),
        e.cuts(),
        !e.keep_cutbuffer,
        e.after_cut().can_paste(None),
        e.cur().mark is None,
        e.cur().current < e.cur().lines.len() - 1,
    ensures
        e.after_cut().after_paste(None).cur().text() == e.cur().text(),
{
    let b = e.cur();
    let ls = b.lines;
    let i = b.current as int;
    let e1 = e.after_cut();
    let b1 = e1.cur();
    let ts = crate::definitions::texts(e1.cutbuffer);
    let e2 = e1.after_paste(None);
    let p = e2.cur().lines;
    assert(e.cut_base() =~= Seq::<LineView>::empty());
    let q = ls.remove(i);
    lemma_texts_renumbered(q, i);
    let t1 = ls[i + 1].data;
    assert(b1.lines[i].data == t1);
    lemma_cidx(t1, 0);
    lemma_bpos_full(t1);
    assert(head(t1, 0) =~= Seq::<char>::empty());
    assert(tail(t1, 0) =~= t1);
    assert(ts =~= seq![ls[i].data, Seq::<char>::empty()]);
    assert forall|m: int| 0 <= m < ls.len() implies #[trigger] p[m].data == ls[m].data by {
        lemma_pasted_texts(b1.lines, i, 0, ts, m);
        if m > i + 1 {
            assert(b1.lines[m - 1].data == q[m - 1].data);
        }
        if m < i {
            assert(b1.lines[m].data == q[m].data);
        }
        if m == i {
            assert(Seq::<char>::empty() + ls[i].data =~= ls[i].data);
        }
        if m == i + 1 {
            assert(Seq::<char>::empty() + t1 =~= t1);
        }
    }
    assert(e2.cur().text() =~= b.text());
}

/// Cutting the text of the last line and pasting it back.
#[verifier::spinoff_prover]
proof fn lemma_cut_paste_last(e: EditorView)
    requires
        e.can_cut(),
        e.cuts(),
        !e.keep_cutbuffer,
        e.after_cut().can_paste(None),
        e.cur().mark is None,
        e.cur().current >= e.cur().lines.len() - 1,
    ensures
        e.after_cut().after_paste(None).cur().text() == e.cur().text(),
{
    let b = e.cur();
    let ls = b.lines;
    let i = b.current as int;
    let e1 = e.after_cut();
    let b1 = e1.cur();
    let ts = crate::definitions::texts(e1.cutbuffer);
    let e2 = e1.after_paste(None);
    let p = e2.cur().lines;
    assert(e.cut_base() =~= Seq::<LineView>::empty());
    let q = put_text(ls, i, Seq::empty());
    lemma_texts_renumbered(q, i);
    lemma_cidx(Seq::<char>::empty(), 0);
    lemma_bpos_full(Seq::<char>::empty());
    assert(b1.lines[i].data == Seq::<char>::empty());
    assert(ts =~= seq![ls[i].data]);
    assert(insert_at(Seq::<char>::empty(), 0, ls[i].data) =~= ls[i].data);
    assert forall|m: int| 0 <= m < ls.len() implies #[trigger] p[m].data == ls[m].data by {
        if m != i {
            assert(b1.lines[m].data == q[m].data);
        }
    }
    assert(e2.cur().text() =~= b.text());
}

/// Cutting the cursor line or the marked region into an emptied cutbuffer,
/// and then pasting at the cursor that the cut leaves, gives back the text.
pub proof fn law_cut_paste(e: EditorView)
    requires
        e.can_cut(),
        e.cuts(),
        !e.keep_cutbuffer,
        e.after_cut().can_paste(None),
    ensures
        e.after_cut().after_paste(None).cur().text() == e.cur().text(),
{
    let b = e.cur();
    if b.mark is Some {
        if region(b).0 == region(b).2 {
            lemma_cut_paste_span(e);
        } else {
            lemma_cut_paste_region(e);
        }
    } else if b.current < b.lines.len() - 1 {
        lemma_cut_paste_line(e);
    } else {
        lemma_cut_paste_last(e);
    }
}


/// The editor after `k` cuts in a row.
pub open spec fn cut_repeatedly(e: EditorView, k: nat) -> EditorView
    decreases k,
{
    if k == 0 {
        e
    } else {
        cut_repeatedly(e, (k - 1) as nat).after_cut()
    }
}

/// What `k >= 1` cuts in a row of lines that each have a line after them
/// leave: the `k` lines from the cursor line on gone from the text and in
/// the cutbuffer, each with its line break.
proof fn lemma_cut_repeatedly(e: EditorView, k: nat)
    requires
        k >= 1,
        !e.has_flag(EditorFlags::VIEW_MODE),
        !e.keep_cutbuffer,
        e.has_cur(),
        e.cur().mark is None,
        e.cur().current + k < e.cur().lines.len(),
    ensures
        ({
            let f = cut_repeatedly(e, k);
            let ts = crate::definitions::texts(e.cur().lines);
            let i = e.cur().current as int;
            &&& f.current_buf == e.current_buf
            &&& f.buffers.len() == e.buffers.len()
            &&& f.flags == e.flags
            &&& f.sidebar == e.sidebar
            &&& f.keep_cutbuffer
            &&& f.cur().mark is None
            &&& f.cur().current == e.cur().current
            &&& f.cur().current_x == 0
            &&& f.cur().undo_index == e.cur().undo_index
            &&& f.cur().lines.len() == e.cur().lines.len() - k
            &&& crate::definitions::texts(f.cur().lines) == ts.take(i) + ts.skip(i + k)
            &&& crate::definitions::texts(f.cutbuffer) == ts.subrange(i, i + k).push(Seq::<char>::empty())
        }),
    decreases k,
{
    let ts = crate::definitions::texts(e.cur().lines);
    let i = e.cur().current as int;
    let g = cut_repeatedly(e, (k - 1) as nat);
    if k > 1 {
        lemma_cut_repeatedly(e, (k - 1) as nat);
    }
    let b = g.cur();
    let gt = crate::definitions::texts(b.lines);
    if k == 1 {
        assert(gt =~= ts.take(i) + ts.skip(i));
    }
    assert(gt =~= ts.take(i) + ts.skip(i + k - 1));
    assert(b.lines.len() == gt.len());
    assert(b.current == i);
    assert(i < b.lines.len() - 1);
    let e0 = EditorView { cutbuffer: g.cut_base(), ..g };
    let f = g.after_cut();
    assert(f == EditorView { refresh_needed: true, ..e0.line_cut().margin_confirmed() });
    let q = b.lines.remove(i);
    lemma_texts_renumbered(q, i);
    assert(crate::definitions::texts(f.cur().lines) == crate::definitions::texts(q));
    assert(b.lines[i].data == gt[i]);
    assert(gt[i] == ts[i + k - 1]);
    assert(crate::definitions::texts(q) =~= ts.take(i) + ts.skip(i + k)) by {
        assert forall|m: int| 0 <= m < q.len() implies #[trigger] crate::definitions::texts(q)[m] == (
        ts.take(i) + ts.skip(i + k))[m] by {
            if m < i {
                assert(q[m] == b.lines[m]);
                assert(gt[m] == ts[m]);
            } else {
                assert(q[m] == b.lines[m + 1]);
                assert(gt[m + 1] == ts[m + k]);
            }
        }
    }
    let new = seq![b.lines[i], fresh_line(Seq::empty(), 0)];
    if k == 1 {
        assert(g.cut_base() =~= Seq::<LineView>::empty());
        assert(appended(g.cut_base(), new) =~= new);
        assert(crate::definitions::texts(f.cutbuffer) =~= ts.subrange(i, i + k).push(Seq::<char>::empty()));
    } else {
        let cb = g.cutbuffer;
        assert(g.cut_base() == cb);
        let ct = crate::definitions::texts(cb);
        assert(ct == ts.subrange(i, i + k - 1).push(Seq::<char>::empty()));
        assert(cb.len() == ct.len());
        let a = appended(cb, new);
        assert(a == cb.drop_last().push(with_text(cb.last(), cb.last().data + new[0].data)) + new.skip(1));
        assert(cb.last().data == ct.last());
        assert(ct.last() =~= Seq::<char>::empty());
        assert(Seq::<char>::empty() + ts[i + k - 1] =~= ts[i + k - 1]);
        assert(crate::definitions::texts(a) =~= ts.subrange(i, i + k).push(Seq::<char>::empty())) by {
            assert forall|m: int| 0 <= m < k - 1 implies #[trigger] crate::definitions::texts(a)[m] == ts[i + m] by {
                assert(a[m] == cb[m]);
                assert(ct[m] == ts[i + m]);
            }
        }
    }
}

/// Cutting `k >= 1` lines in a row, each with a line after it, into an
/// emptied cutbuffer and then pasting at the cursor that the cuts leave
/// gives back the text.
pub proof fn law_cut_lines_paste(e: EditorView, k: nat)
    requires
        k >= 1,
        !e.has_flag(EditorFlags::VIEW_MODE),
        !e.keep_cutbuffer,
        e.has_cur(),
        e.cur().mark is None,
        e.cur().current + k < e.cur().lines.len(),
        e.cur().lines.len() < usize::MAX,
        e.cur().undo_index < usize::MAX,
        e.sidebar_fits(),
    ensures
        cut_repeatedly(e, k).can_paste(None),
        cut_repeatedly(e, k).after_paste(None).cur().text() == e.cur().text(),
{
    lemma_cut_repeatedly(e, k);
    let ls = e.cur().lines;
    let ts = crate::definitions::texts(ls);
    let i = e.cur().current as int;
    let f = cut_repeatedly(e, k);
    let b1 = f.cur();
    let cts = crate::definitions::texts(f.cutbuffer);
    let e2 = f.after_paste(None);
    let p = e2.cur().lines;
    let bt = crate::definitions::texts(b1.lines);
    let t1 = b1.lines[i].data;
    assert(t1 == bt[i]);
    assert(bt[i] == ts[i + k]);
    lemma_cidx(t1, 0);
    lemma_bpos_full(t1);
    assert(crate::textseq::bpos(t1, 0) == 0);
    assert(is_boundary(t1, 0));
    assert(f.paste_source(None) == f.cutbuffer);
    assert(cts[k as int] =~= Seq::<char>::empty());
    assert(cols_ok(Seq::<char>::empty(), f.tabsize as int)) by {
        assert(!Seq::<char>::empty().contains('\t'));
    }
    assert(f.can_paste(None));
    assert(head(t1, 0) =~= Seq::<char>::empty());
    assert(tail(t1, 0) =~= t1);
    assert(cts.len() == k + 1);
    assert forall|m: int| 0 <= m < ls.len() implies #[trigger] p[m].data == ls[m].data by {
        lemma_pasted_texts(b1.lines, i, 0, cts, m);
        if m < i {
            assert(bt[m] == ts[m]);
        } else if m == i {
            assert(cts[0] == ts[i]);
            assert(Seq::<char>::empty() + ts[i] =~= ts[i]);
        } else if m < i + k {
            assert(cts[m - i] == ts[m]);
        } else if m == i + k {
            assert(cts[k as int] == Seq::<char>::empty());
            assert(Seq::<char>::empty() + t1 =~= t1);
        } else {
            assert(bt[m - k] == ts[m]);
        }
    }
    assert(e2.cur().text() =~= e.cur().text());
}

/// Copying without a mark puts the cursor line, with its line break, in the
/// cutbuffer (what pasting it puts back), and leaves the text as it was.
pub proof fn law_copy_line(e: EditorView)
    requires
        e.has_cur(),
        e.cur().mark is None,
        e.cur().current < e.cur().lines.len(),
    ensures
        joined(crate::definitions::texts(e.after_copy().cutbuffer)) == e.cur().cur_text() + seq!['\n'],
        e.after_copy().cur().lines == e.cur().lines,
{
    let t = e.cur().cur_text();
    let ts = crate::definitions::texts(e.after_copy().cutbuffer);
    assert(ts =~= seq![t, Seq::<char>::empty()]);
    assert(ts.drop_last() =~= seq![t]);
    assert(joined(seq![t]) == t);
    assert(joined(ts) == joined(ts.drop_last()) + seq!['\n'] + ts.last());
    assert(t + seq!['\n'] + Seq::<char>::empty() =~= t + seq!['\n']);
}

/// Cutting the cursor line without a mark into an emptied cutbuffer puts
/// the line in it, with its line break when a line follows, and takes the
/// line out of the text (the last line is only emptied).
pub proof fn law_cut_line(e: EditorView)
    requires
        e.can_cut(),
        e.cuts(),
        !e.keep_cutbuffer,
        e.cur().mark is None,
    ensures
        ({
            let b = e.cur();
            let i = b.current as int;
            let f = e.after_cut();
            let t = b.cur_text();
            &&& i < b.lines.len() - 1 ==> joined(crate::definitions::texts(f.cutbuffer)) == t + seq!['\n']
                && crate::definitions::texts(f.cur().lines) == crate::definitions::texts(b.lines).remove(i)
            &&& i >= b.lines.len() - 1 ==> joined(crate::definitions::texts(f.cutbuffer)) == t
                && crate::definitions::texts(f.cur().lines) == crate::definitions::texts(b.lines).update(
                i,
                Seq::<char>::empty(),
            )
            &&& f.cur().current == i
            &&& f.cur().current_x == 0
        }),
{
    let b = e.cur();
    let i = b.current as int;
    let t = b.cur_text();
    let f = e.after_cut();
    assert(e.cut_base() =~= Seq::<LineView>::empty());
    let ts = crate::definitions::texts(f.cutbuffer);
    if i < b.lines.len() - 1 {
        let q = b.lines.remove(i);
        lemma_texts_renumbered(q, i);
        assert(appended(Seq::empty(), seq![b.lines[i], fresh_line(Seq::empty(), 0)]) =~= seq![b.lines[i], fresh_line(Seq::empty(), 0)]);
        assert(f.cutbuffer == appended(Seq::empty(), seq![b.lines[i], fresh_line(Seq::empty(), 0)]));
        assert(ts =~= seq![t, Seq::<char>::empty()]);
        assert(ts.drop_last() =~= seq![t]);
        assert(joined(seq![t]) == t);
        assert(joined(ts) == joined(ts.drop_last()) + seq!['\n'] + ts.last());
        assert(t + seq!['\n'] + Seq::<char>::empty() =~= t + seq!['\n']);
        assert(f.cur().lines == renumbered(q, i));
        assert(crate::definitions::texts(q) =~= crate::definitions::texts(b.lines).remove(i));
    } else {
        let q = put_text(b.lines, i, Seq::empty());
        lemma_texts_renumbered(q, i);
        assert(appended(Seq::empty(), seq![b.lines[i]]) =~= seq![b.lines[i]]);
        assert(f.cutbuffer == appended(Seq::empty(), seq![b.lines[i]]));
        assert(ts =~= seq![t]);
        assert(joined(ts) == t);
        assert(f.cur().lines == renumbered(q, i));
        assert(crate::definitions::texts(q) =~= crate::definitions::texts(b.lines).update(i, Seq::<char>::empty()));
    }
}

/// Copying with the mark on the cursor line puts in the cutbuffer exactly
/// the characters between the mark and the cursor (whichever comes first),
/// and leaves the text as it was.
pub proof fn law_copy_span(e: EditorView)
    requires
        e.has_cur(),
        e.cur().mark == Some(e.cur().current),
        !e.cur().softmark,
        e.cur().mark_x != e.cur().current_x,
    ensures
        ({
            let b = e.cur();
            let t = b.cur_text();
            let a = if b.mark_x <= b.current_x { b.mark_x } else { b.current_x };
            let z = if b.mark_x <= b.current_x { b.current_x } else { b.mark_x };
            &&& joined(crate::definitions::texts(e.after_copy().cutbuffer)) == t.subrange(
                cidx(t, a as int),
                cidx(t, z as int),
            )
            &&& e.after_copy().cur().lines == b.lines
        }),
{
    let b = e.cur();
    let ts = crate::definitions::texts(e.after_copy().cutbuffer);
    assert(ts.len() == 1);
    assert(joined(ts) == ts[0]);
}

/// Copying, with or without a mark (but not the last line without one),
/// fills the cutbuffer with what cutting into an emptied cutbuffer would.
pub proof fn law_copy_as_cut(e: EditorView)
    requires
        e.has_cur(),
        !e.has_flag(EditorFlags::VIEW_MODE),
        !e.keep_cutbuffer,
        e.copies(),
        e.cuts(),
        e.cur().mark is None ==> e.cur().current < e.cur().lines.len() - 1,
    ensures
        e.after_copy().cutbuffer == e.after_cut().cutbuffer,
{
    let b = e.cur();
    assert(e.cut_base() =~= Seq::<LineView>::empty());
    if b.mark is Some {
        let (top, tx, bot, bx) = region(b);
        assert(appended(Seq::empty(), region_lines(b.lines, top, tx, bot, bx)) =~= region_lines(b.lines, top, tx, bot, bx));
    } else {
        let i = b.current as int;
        assert(appended(Seq::empty(), seq![b.lines[i], fresh_line(Seq::empty(), 0)]) =~= seq![b.lines[i], fresh_line(Seq::empty(), 0)]);
    }
}

} // verus!
