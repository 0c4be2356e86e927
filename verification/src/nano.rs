//! Counting the words of the buffer, and chopping words off around the cursor.
use vstd::prelude::*;

use crate::chars::{is_blank, is_white_space};
use crate::definitions::{BufferView, EditorFlags, LineView, MessageType};
use crate::editor::{Editor, EditorView};
use crate::text::put_text;
use crate::textseq::{
    bpos, byte_len, bytes_len, chars_of, cidx, is_boundary, lemma_boundary, lemma_bpos_full,
    lemma_cidx, offset_of,
};

verus! {

/// Number of words in `t` before index `k`: the places where a character
/// other than white space follows white space or the start of the line.
pub open spec fn words_upto(t: Seq<char>, k: int) -> nat
    decreases k,
{
    if k <= 0 || k > t.len() {
        0
    } else {
        words_upto(t, k - 1) + if !is_white_space(t[k - 1]) && (k == 1 || is_white_space(t[k - 2])) {
            1nat
        } else {
            0nat
        }
    }
}

/// Number of words in `t`.
pub open spec fn words_in(t: Seq<char>) -> nat {
    words_upto(t, t.len() as int)
}

/// Words in the first `k` lines of `ls`.
pub open spec fn words_of_lines(ls: Seq<LineView>, k: int) -> nat
    decreases k,
{
    if k <= 0 || k > ls.len() {
        0
    } else {
        words_of_lines(ls, k - 1) + words_in(ls[k - 1].data)
    }
}

/// Characters in the first `k` lines of `ls`, each with its newline.
pub open spec fn chars_of_lines(ls: Seq<LineView>, k: int) -> nat
    decreases k,
{
    if k <= 0 || k > ls.len() {
        0
    } else {
        chars_of_lines(ls, k - 1) + ls[k - 1].data.len() + 1
    }
}

/// Characters in the lines `ls`, without the newline of an empty last line
/// when there is more than one line.
pub open spec fn char_count(ls: Seq<LineView>) -> nat {
    let c = chars_of_lines(ls, ls.len() as int);
    if ls.len() > 1 && ls.last().data.len() == 0 && c > 0 {
        (c - 1) as nat
    } else {
        c
    }
}

/// Number of blanks just before index `k` of `t`.
pub open spec fn blanks_before(t: Seq<char>, k: int) -> nat
    decreases k,
{
    if 0 < k <= t.len() && is_blank(t[k - 1]) {
        1 + blanks_before(t, k - 1)
    } else {
        0
    }
}

/// Number of non-blanks just before index `k` of `t`.
pub open spec fn nonblanks_before(t: Seq<char>, k: int) -> nat
    decreases k,
{
    if 0 < k <= t.len() && !is_blank(t[k - 1]) {
        1 + nonblanks_before(t, k - 1)
    } else {
        0
    }
}

/// Number of blanks from index `k` of `t` on.
pub open spec fn blanks_after(t: Seq<char>, k: int) -> nat
    decreases t.len() - k,
{
    if 0 <= k < t.len() && is_blank(t[k]) {
        1 + blanks_after(t, k + 1)
    } else {
        0
    }
}

/// Number of non-blanks from index `k` of `t` on.
pub open spec fn nonblanks_after(t: Seq<char>, k: int) -> nat
    decreases t.len() - k,
{
    if 0 <= k < t.len() && !is_blank(t[k]) {
        1 + nonblanks_after(t, k + 1)
    } else {
        0
    }
}

/// Where the word before index `k` of `t` starts, after the blanks that follow it.
pub open spec fn prev_word_start(t: Seq<char>, k: int) -> int {
    let k1 = k - blanks_before(t, k);
    k1 - nonblanks_before(t, k1)
}

/// Where the blanks after the word at index `k` of `t` end.
pub open spec fn next_word_end(t: Seq<char>, k: int) -> int {
    let k1 = k + nonblanks_after(t, k);
    k1 + blanks_after(t, k1)
}

impl EditorView {
    /// The status message of `count_lines_words_characters`.
    pub open spec fn count_message(self) -> Seq<char> {
        let ls = self.cur().lines;
        "Lines: "@ + crate::textseq::decimal(ls.len()) + "  Words: "@ + crate::textseq::decimal(
            words_of_lines(ls, ls.len() as int),
        ) + "  Chars: "@ + crate::textseq::decimal(char_count(ls))
    }

    /// What `count_lines_words_characters` leaves.
    pub open spec fn after_count(self) -> EditorView {
        EditorView {
            refresh_needed: true,
            ..self.status(MessageType::Info, self.count_message())
        }
    }

    /// The counts of the current buffer fit in a `usize`.
    pub open spec fn counts_fit(self) -> bool {
        let ls = self.cur().lines;
        &&& self.has_cur()
        &&& words_of_lines(ls, ls.len() as int) <= usize::MAX
        &&& chars_of_lines(ls, ls.len() as int) <= usize::MAX
    }

    /// What `chop_previous_word` leaves: the blanks before the cursor and the
    /// word before them deleted, or a backspace at the start of a line.
    pub open spec fn after_chop_previous(self) -> EditorView {
        let b = self.cur();
        let t = b.cur_text();
        if self.has_flag(EditorFlags::VIEW_MODE) {
            self.refused_in_view_mode()
        } else if b.current_x == 0 {
            self.after_backspace()
        } else {
            let k = cidx(t, b.current_x as int);
            let p = prev_word_start(t, k);
            EditorView {
                refresh_needed: true,
                ..self.with_cur(
                    BufferView {
                        lines: put_text(b.lines, b.current as int, t.take(p) + t.skip(k)),
                        current_x: bpos(t, p) as usize,
                        modified: true,
                        ..b
                    },
                )
            }
        }
    }

    /// What `chop_next_word` leaves: the word at the cursor and the blanks
    /// after it deleted, or a delete at the end of a line.
    pub open spec fn after_chop_next(self) -> EditorView {
        let b = self.cur();
        let t = b.cur_text();
        if self.has_flag(EditorFlags::VIEW_MODE) {
            self.refused_in_view_mode()
        } else if b.current_x >= bytes_len(t) {
            self.after_delete()
        } else {
            let k = cidx(t, b.current_x as int);
            let q = next_word_end(t, k);
            EditorView {
                refresh_needed: true,
                ..self.with_cur(
                    BufferView {
                        lines: put_text(b.lines, b.current as int, t.take(k) + t.skip(q)),
                        modified: true,
                        ..b
                    },
                )
            }
        }
    }
}

} // verus!

verus! {

proof fn lemma_words_upto_mono(t: Seq<char>, j: int, k: int)
    requires
        0 <= j <= k <= t.len(),
    ensures
        words_upto(t, j) <= words_upto(t, k),
    decreases k - j,
{
    if j < k {
        lemma_words_upto_mono(t, j, k - 1);
    }
}

proof fn lemma_lines_mono(ls: Seq<LineView>, j: int, k: int)
    requires
        0 <= j <= k <= ls.len(),
    ensures
        words_of_lines(ls, j) <= words_of_lines(ls, k),
        chars_of_lines(ls, j) <= chars_of_lines(ls, k),
    decreases k - j,
{
    if j < k {
        lemma_lines_mono(ls, j, k - 1);
    }
}

impl Editor {
    /// Count the lines, words and characters of the current buffer, and say them.
    pub fn count_lines_words_characters(&mut self)
        requires
            old(self)@.counts_fit(),
        ensures
            final(self)@ == old(self)@.after_count(),
    {
        let cb = self.current_buf;
        let ghost ls = self@.cur().lines;
        proof {
            crate::editor::lemma_cur(self);
        }
        let n = self.buffers[cb].lines.len();
        let mut words: usize = 0;
        let mut chars: usize = 0;
        let mut i: usize = 0;
        while i < n
            invariant
                self@ == old(self)@,
                old(self)@.counts_fit(),
                cb == self.current_buf,
                ls == self@.cur().lines,
                n == ls.len(),
                i <= n,
                words == words_of_lines(ls, i as int),
                chars == chars_of_lines(ls, i as int),
            decreases n - i,
        {
            proof {
                crate::editor::lemma_cur(self);
                lemma_lines_mono(ls, i + 1, n as int);
            }
            let cs = chars_of(self.buffers[cb].lines[i].data.as_str());
            let ghost t = ls[i as int].data;
            assert(cs@ == t);
            chars = chars + cs.len();
            chars = chars + 1;
            let mut in_word = false;
            let mut j: usize = 0;
            while j < cs.len()
                invariant
                    cs@ == t,
                    j <= t.len(),
                    words == words_of_lines(ls, i as int) + words_upto(t, j as int),
                    words_of_lines(ls, i as int) + words_in(t) <= usize::MAX,
                    in_word == (j > 0 && !is_white_space(t[j - 1])),
                decreases t.len() - j,
            {
                proof {
                    lemma_words_upto_mono(t, j + 1, t.len() as int);
                }
                let c = cs[j];
                if crate::chars::is_whitespace_exec(c) {
                    in_word = false;
                } else {
                    if !in_word {
                        words = words + 1;
                    }
                    in_word = true;
                }
                j += 1;
            }
            i += 1;
        }
        proof {
            crate::editor::lemma_cur(self);
        }
        if n > 1 && crate::cut::text_is_empty(self.buffers[cb].lines[n - 1].data.as_str()) {
            chars = if chars >= 1 {
                chars - 1
            } else {
                0
            };
        }
        let mut msg = String::new();
        crate::textseq::append_str(&mut msg, "Lines: ");
        crate::textseq::append_str(&mut msg, crate::textseq::decimal_string(n).as_str());
        crate::textseq::append_str(&mut msg, "  Words: ");
        crate::textseq::append_str(&mut msg, crate::textseq::decimal_string(words).as_str());
        crate::textseq::append_str(&mut msg, "  Chars: ");
        crate::textseq::append_str(&mut msg, crate::textseq::decimal_string(chars).as_str());
        assert(msg@ =~= old(self)@.count_message());
        self.statusline(MessageType::Info, msg.as_str());
        self.refresh_needed = true;
    }
}

} // verus!

verus! {

impl EditorView {
    /// `chop_previous_word` can run.
    pub open spec fn can_chop_previous(self) -> bool {
        &&& self.has_cur()
        &&& self.cur().cursor_ok()
        &&& self.cur().current_x == 0 ==> self.can_backspace()
    }

    /// `chop_next_word` can run.
    pub open spec fn can_chop_next(self) -> bool {
        &&& self.has_cur()
        &&& self.cur().cursor_ok()
        &&& self.cur().current_x >= bytes_len(self.cur().cur_text()) ==> self.can_delete()
    }
}

impl Editor {
    /// Delete the word before the cursor, with the blanks after it.
    pub fn chop_previous_word(&mut self)
        requires
            old(self)@.has_flag(EditorFlags::VIEW_MODE) || old(self)@.can_chop_previous(),
        ensures
            final(self)@ == old(self)@.after_chop_previous(),
    {
        if self.flags.contains(EditorFlags::VIEW_MODE) {
            self.statusline(MessageType::Ahem, "Key invalid in view mode");
            return;
        }
        let cb = self.current_buf;
        let x = self.buffers[cb].current_x;
        if x == 0 {
            self.do_backspace();
            return;
        }
        let cur = self.buffers[cb].current;
        let ghost t = self@.cur().cur_text();
        let _len = byte_len(self.buffers[cb].lines[cur].data.as_str());
        let cs = chars_of(self.buffers[cb].lines[cur].data.as_str());
        let k = crate::textseq::index_at(&cs, x).unwrap();
        let mut k1 = k;
        while k1 > 0 && (cs[k1 - 1] == ' ' || cs[k1 - 1] == '\t')
            invariant
                cs@ == t,
                k <= t.len(),
                k1 <= k,
                k - blanks_before(t, k as int) == k1 - blanks_before(t, k1 as int),
            decreases k1,
        {
            k1 -= 1;
        }
        let mut k2 = k1;
        while k2 > 0 && !(cs[k2 - 1] == ' ' || cs[k2 - 1] == '\t')
            invariant
                cs@ == t,
                k1 <= t.len(),
                k2 <= k1,
                k1 - nonblanks_before(t, k1 as int) == k2 - nonblanks_before(t, k2 as int),
            decreases k2,
        {
            k2 -= 1;
        }
        assert(k2 as int == prev_word_start(t, k as int));
        let pos = offset_of(&cs, k2);
        proof {
            lemma_cidx(t, k2 as int);
            crate::textseq::lemma_bpos_mono(t, k2 as int, k as int);
        }
        let empty = String::new();
        let nt = crate::textseq::splice_text(self.buffers[cb].lines[cur].data.as_str(), pos, x, empty.as_str());
        assert(nt@ =~= t.take(k2 as int) + t.skip(k as int));
        self.buffers[cb].set_text(cur, nt);
        self.buffers[cb].current_x = pos;
        self.buffers[cb].modified = true;
        self.refresh_needed = true;
        assert(self@.buffers =~= old(self)@.after_chop_previous().buffers);
    }

    /// Delete the word at the cursor, with the blanks after it.
    pub fn chop_next_word(&mut self)
        requires
            old(self)@.has_flag(EditorFlags::VIEW_MODE) || old(self)@.can_chop_next(),
        ensures
            final(self)@ == old(self)@.after_chop_next(),
    {
        if self.flags.contains(EditorFlags::VIEW_MODE) {
            self.statusline(MessageType::Ahem, "Key invalid in view mode");
            return;
        }
        let cb = self.current_buf;
        let x = self.buffers[cb].current_x;
        let cur = self.buffers[cb].current;
        let len = byte_len(self.buffers[cb].lines[cur].data.as_str());
        if x >= len {
            self.do_delete();
            return;
        }
        let ghost t = self@.cur().cur_text();
        let cs = chars_of(self.buffers[cb].lines[cur].data.as_str());
        let n = cs.len();
        let k = crate::textseq::index_at(&cs, x).unwrap();
        let mut k1 = k;
        while k1 < n && !(cs[k1] == ' ' || cs[k1] == '\t')
            invariant
                cs@ == t,
                n == t.len(),
                k <= k1 <= n,
                k + nonblanks_after(t, k as int) == k1 + nonblanks_after(t, k1 as int),
            decreases n - k1,
        {
            k1 += 1;
        }
        let mut k2 = k1;
        while k2 < n && (cs[k2] == ' ' || cs[k2] == '\t')
            invariant
                cs@ == t,
                n == t.len(),
                k1 <= k2 <= n,
                k1 + blanks_after(t, k1 as int) == k2 + blanks_after(t, k2 as int),
            decreases n - k2,
        {
            k2 += 1;
        }
        assert(k2 as int == next_word_end(t, k as int));
        let pos = offset_of(&cs, k2);
        proof {
            lemma_cidx(t, k2 as int);
            crate::textseq::lemma_bpos_mono(t, k as int, k2 as int);
        }
        let empty = String::new();
        let nt = crate::textseq::splice_text(self.buffers[cb].lines[cur].data.as_str(), x, pos, empty.as_str());
        assert(nt@ =~= t.take(k as int) + t.skip(k2 as int));
        self.buffers[cb].set_text(cur, nt);
        self.buffers[cb].modified = true;
        self.refresh_needed = true;
        assert(self@.buffers =~= old(self)@.after_chop_next().buffers);
    }
}

} // verus!

verus! {

impl EditorView {
    /// What `handle_resize` leaves for a terminal of `cols` columns and `rows`
    /// rows: the window sized anew and the margin confirmed.
    pub open spec fn resized(self, cols: usize, rows: usize) -> EditorView {
        let bars: int = if self.has_flag(EditorFlags::NO_HELP) { 2 } else { 4 };
        EditorView {
            refresh_needed: true,
            ..EditorView {
                term_rows: rows,
                term_cols: cols,
                editwinrows: (if rows >= bars { rows - bars } else { 0 }) as usize,
                ..self
            }.margin_confirmed()
        }
    }
}

impl Editor {
    /// Fit the editor to a terminal of `term_cols` columns and `term_rows` rows.
    pub fn handle_resize(&mut self, term_cols: u16, term_rows: u16)
        requires
            old(self)@.has_cur(),
            old(self)@.sidebar_fits(),
        ensures
            final(self)@ == old(self)@.resized(term_cols as usize, term_rows as usize),
    {
        self.term_rows = term_rows as usize;
        self.term_cols = term_cols as usize;
        let bars: usize = if self.flags.contains(EditorFlags::NO_HELP) { 2 } else { 4 };
        self.editwinrows = if self.term_rows >= bars { self.term_rows - bars } else { 0 };
        proof {
            crate::editor::lemma_cur(self);
            crate::editor::lemma_margin_bound(self@);
        }
        self.confirm_margin();
        self.refresh_needed = true;
    }
}

} // verus!
