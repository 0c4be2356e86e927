//! What the screen code decides: turning key presses into key codes, and
//! where the cursor goes on the screen.
use vstd::prelude::*;

use crate::definitions::{KeyCode, KeyView, SpecialKey, SpecialKeyView};

verus! {

/// The key of a key press, as the terminal reports it.
#[derive(Debug, Clone, Copy, PartialEq, Eq, Structural)]
pub enum RawKey {
    Char(char),
    F(u8),
    Backspace,
    Enter,
    Left,
    Right,
    Up,
    Down,
    Home,
    End,
    PageUp,
    PageDown,
    Tab,
    Delete,
    Insert,
    Esc,
    Null,
    /// Any other key.
    Other,
}

/// A key press: the key and the modifiers held with it.
#[derive(Debug, Clone, Copy, PartialEq, Eq, Structural)]
pub struct KeyPress {
    pub code: RawKey,
    pub ctrl: bool,
    pub alt: bool,
    pub shift: bool,
}

/// `c` with an ASCII capital made small.
pub open spec fn ascii_lower(c: char) -> char {
    if 'A' <= c && c <= 'Z' {
        ((c as u32) + 32) as char
    } else {
        c
    }
}

/// The key code that a key press stands for.
pub open spec fn translated(k: KeyPress) -> KeyView {
    match k.code {
        RawKey::Char(c) => if k.ctrl && k.alt {
            KeyView::AltCtrl(ascii_lower(c))
        } else if k.ctrl {
            KeyView::Ctrl(ascii_lower(c))
        } else if k.alt {
            KeyView::Alt(c)
        } else {
            KeyView::Char(c)
        },
        RawKey::F(n) => KeyView::F(n),
        RawKey::Backspace => if k.alt {
            KeyView::Alt('\x08')
        } else {
            KeyView::Backspace
        },
        RawKey::Enter => KeyView::Enter,
        RawKey::Left => if k.ctrl && k.shift {
            KeyView::Special(SpecialKeyView::ShiftControlLeft)
        } else if k.ctrl {
            KeyView::Special(SpecialKeyView::ControlLeft)
        } else if k.alt && k.shift {
            KeyView::Special(SpecialKeyView::ShiftAltLeft)
        } else if k.alt {
            KeyView::Special(SpecialKeyView::AltLeft)
        } else {
            KeyView::Left
        },
        RawKey::Right => if k.ctrl && k.shift {
            KeyView::Special(SpecialKeyView::ShiftControlRight)
        } else if k.ctrl {
            KeyView::Special(SpecialKeyView::ControlRight)
        } else if k.alt && k.shift {
            KeyView::Special(SpecialKeyView::ShiftAltRight)
        } else if k.alt {
            KeyView::Special(SpecialKeyView::AltRight)
        } else {
            KeyView::Right
        },
        RawKey::Up => if k.ctrl {
            KeyView::Special(SpecialKeyView::ControlUp)
        } else if k.alt {
            KeyView::Special(SpecialKeyView::AltUp)
        } else {
            KeyView::Up
        },
        RawKey::Down => if k.ctrl {
            KeyView::Special(SpecialKeyView::ControlDown)
        } else if k.alt {
            KeyView::Special(SpecialKeyView::AltDown)
        } else {
            KeyView::Down
        },
        RawKey::Home => if k.ctrl {
            KeyView::Special(SpecialKeyView::ControlHome)
        } else {
            KeyView::Home
        },
        RawKey::End => if k.ctrl {
            KeyView::Special(SpecialKeyView::ControlEnd)
        } else {
            KeyView::End
        },
        RawKey::PageUp => KeyView::PageUp,
        RawKey::PageDown => KeyView::PageDown,
        RawKey::Tab => if k.shift {
            KeyView::Special(SpecialKeyView::ShiftTab)
        } else {
            KeyView::Tab
        },
        RawKey::Delete => if k.ctrl {
            KeyView::Special(SpecialKeyView::ControlDelete)
        } else {
            KeyView::Delete
        },
        RawKey::Insert => if k.alt {
            KeyView::Special(SpecialKeyView::AltInsert)
        } else {
            KeyView::Insert
        },
        RawKey::Esc => KeyView::Escape,
        RawKey::Null => KeyView::Null,
        RawKey::Other => KeyView::Unknown(0),
    }
}

/// `c` with an ASCII capital made small (`char::to_ascii_lowercase`).
fn to_ascii_lower(c: char) -> (r: char)
    ensures
        r == ascii_lower(c),
{
    if 'A' <= c && c <= 'Z' {
        let v = (c as u32) + 32;
        proof {
            assert(0x41 <= v - 32 <= 0x5a);
        }
        char_from_ascii(v)
    } else {
        c
    }
}

/// The character of an ASCII code.
fn char_from_ascii(v: u32) -> (r: char)
    requires
        0x61 <= v <= 0x7a,
    ensures
        r == v as char,
{
    let b = v as u8;
    b as char
}

/// Translate a key press into the key code that the editor works with.
pub fn translate_key(key: KeyPress) -> (r: KeyCode)
    ensures
        r@ == translated(key),
{
    let has_ctrl = key.ctrl;
    let has_alt = key.alt;
    let has_shift = key.shift;
    match key.code {
        RawKey::Char(c) => {
            if has_ctrl && has_alt {
                KeyCode::AltCtrl(to_ascii_lower(c))
            } else if has_ctrl {
                KeyCode::Ctrl(to_ascii_lower(c))
            } else if has_alt {
                KeyCode::Alt(c)
            } else {
                KeyCode::Char(c)
            }
        },
        RawKey::F(n) => KeyCode::F(n),
        RawKey::Backspace => {
            if has_alt {
                KeyCode::Alt('\x08')
            } else {
                KeyCode::Backspace
            }
        },
        RawKey::Enter => KeyCode::Enter,
        RawKey::Left => {
            if has_ctrl && has_shift {
                KeyCode::Special(SpecialKey::ShiftControlLeft)
            } else if has_ctrl {
                KeyCode::Special(SpecialKey::ControlLeft)
            } else if has_alt && has_shift {
                KeyCode::Special(SpecialKey::ShiftAltLeft)
            } else if has_alt {
                KeyCode::Special(SpecialKey::AltLeft)
            } else {
                KeyCode::Left
            }
        },
        RawKey::Right => {
            if has_ctrl && has_shift {
                KeyCode::Special(SpecialKey::ShiftControlRight)
            } else if has_ctrl {
                KeyCode::Special(SpecialKey::ControlRight)
            } else if has_alt && has_shift {
                KeyCode::Special(SpecialKey::ShiftAltRight)
            } else if has_alt {
                KeyCode::Special(SpecialKey::AltRight)
            } else {
                KeyCode::Right
            }
        },
        RawKey::Up => {
            if has_ctrl {
                KeyCode::Special(SpecialKey::ControlUp)
            } else if has_alt {
                KeyCode::Special(SpecialKey::AltUp)
            } else {
                KeyCode::Up
            }
        },
        RawKey::Down => {
            if has_ctrl {
                KeyCode::Special(SpecialKey::ControlDown)
            } else if has_alt {
                KeyCode::Special(SpecialKey::AltDown)
            } else {
                KeyCode::Down
            }
        },
        RawKey::Home => {
            if has_ctrl {
                KeyCode::Special(SpecialKey::ControlHome)
            } else {
                KeyCode::Home
            }
        },
        RawKey::End => {
            if has_ctrl {
                KeyCode::Special(SpecialKey::ControlEnd)
            } else {
                KeyCode::End
            }
        },
        RawKey::PageUp => KeyCode::PageUp,
        RawKey::PageDown => KeyCode::PageDown,
        RawKey::Tab => {
            if has_shift {
                KeyCode::Special(SpecialKey::ShiftTab)
            } else {
                KeyCode::Tab
            }
        },
        RawKey::Delete => {
            if has_ctrl {
                KeyCode::Special(SpecialKey::ControlDelete)
            } else {
                KeyCode::Delete
            }
        },
        RawKey::Insert => {
            if has_alt {
                KeyCode::Special(SpecialKey::AltInsert)
            } else {
                KeyCode::Insert
            }
        },
        RawKey::Esc => KeyCode::Escape,
        RawKey::Null => KeyCode::Null,
        RawKey::Other => KeyCode::Unknown(0),
    }
}

} // verus!

verus! {

/// What a line shows from column `col` on, in `max` columns: a tab as spaces
/// to the next tab stop, a control character as `^` and its letter (left
/// out when it does not fit), any other character as itself, stopping at a
/// character too wide for what is left.
pub open spec fn display_of(cs: Seq<char>, tabsize: int, max: int, col: int) -> Seq<char>
    decreases cs.len(),
{
    if cs.len() == 0 || col >= max {
        Seq::empty()
    } else {
        let c = cs[0];
        let rest = cs.drop_first();
        if c == '\t' {
            let spaces = tabsize - col % tabsize;
            let n = if spaces < max - col { spaces } else { max - col };
            Seq::new(n as nat, |i: int| ' ') + display_of(rest, tabsize, max, col + spaces)
        } else if crate::chars::is_control(c) {
            if col + 2 <= max {
                seq!['^', crate::chars::control_rep_spec(c)] + display_of(rest, tabsize, max, col + 2)
            } else {
                display_of(rest, tabsize, max, col)
            }
        } else {
            let w = crate::chars::width_or_one(c) as int;
            if col + w <= max {
                seq![c] + display_of(rest, tabsize, max, col + w)
            } else {
                Seq::empty()
            }
        }
    }
}

impl crate::editor::Editor {
    /// What the line `data` shows in `max_cols` columns.
    pub fn make_display_string(&self, data: &str, max_cols: usize) -> (r: String)
        requires
            self.tabsize > 0,
            max_cols + self.tabsize <= usize::MAX,
        ensures
            r@ == display_of(data@, self.tabsize as int, max_cols as int, 0),
    {
        let cs = crate::textseq::chars_of(data);
        let n = cs.len();
        let ts = self.tabsize;
        let mut out = String::new();
        let mut col: usize = 0;
        let mut i: usize = 0;
        assert(data@.skip(0) =~= data@);
        while i < n
            invariant
                cs@ == data@,
                n == cs@.len(),
                i <= n,
                ts == self.tabsize,
                ts > 0,
                max_cols + ts <= usize::MAX,
                col <= max_cols + ts,
                display_of(data@, ts as int, max_cols as int, 0) == out@ + display_of(
                    data@.skip(i as int),
                    ts as int,
                    max_cols as int,
                    col as int,
                ),
            decreases n - i,
        {
            let ghost rest = data@.skip(i as int);
            assert(rest[0] == cs@[i as int]);
            assert(rest.drop_first() =~= data@.skip(i + 1));
            if col >= max_cols {
                assert(display_of(rest, ts as int, max_cols as int, col as int) =~= Seq::<char>::empty());
                assert(out@ + Seq::<char>::empty() =~= out@);
                return out;
            }
            let c = cs[i];
            if c == '\t' {
                let spaces = ts - (col % ts);
                let n_sp = if spaces < max_cols - col { spaces } else { max_cols - col };
                let ghost before = out@;
                let mut k: usize = 0;
                while k < n_sp
                    invariant
                        k <= n_sp,
                        out@ == before + Seq::new(k as nat, |j: int| ' '),
                    decreases n_sp - k,
                {
                    crate::textseq::push_char(&mut out, ' ');
                    assert(out@ =~= before + Seq::new((k + 1) as nat, |j: int| ' '));
                    k += 1;
                }
                col = col + spaces;
            } else if crate::chars::is_control_exec(c) {
                if 2 <= max_cols - col {
                    crate::textseq::push_char(&mut out, '^');
                    crate::textseq::push_char(&mut out, crate::chars::control_rep(c));
                    col = col + 2;
                }
            } else {
                let w = match crate::chars::table_width(c) {
                    Some(w) => w,
                    None => 1,
                };
                if w <= max_cols - col {
                    crate::textseq::push_char(&mut out, c);
                    col = col + w;
                } else {
                    assert(out@ + Seq::<char>::empty() =~= out@);
                    return out;
                }
            }
            i += 1;
        }
        assert(data@.skip(n as int) =~= Seq::<char>::empty());
        assert(out@ + Seq::<char>::empty() =~= out@);
        out
    }
}

} // verus!

verus! {

/// The column that the edit window starts at when the cursor is at `column`.
pub open spec fn page_start(column: int, editwincols: int) -> int {
    if column == 0 || column + 2 < editwincols {
        0
    } else if editwincols > 8 {
        column - 6 - (column - 6) % (editwincols - 8)
    } else if column >= editwincols - 2 {
        column - (editwincols - 2)
    } else {
        0
    }
}

impl crate::editor::EditorView {
    /// The first line on screen once the cursor line is in view.
    pub open spec fn top_for_cursor(self) -> usize {
        let b = self.cur();
        if b.current < b.edittop {
            b.current
        } else if b.current >= b.edittop + self.editwinrows {
            (if b.current >= self.editwinrows - 1 { b.current - (self.editwinrows - 1) } else { 0 }) as usize
        } else {
            b.edittop
        }
    }

    /// The display column of the cursor in its line.
    pub open spec fn cursor_column(self) -> int {
        let b = self.cur();
        let t = b.cur_text();
        crate::chars::cols(t.take(crate::chars::fit_count(t, b.current_x as int)), self.tabsize as int)
    }

    /// `place_the_cursor` can run.
    pub open spec fn can_place(self) -> bool {
        let b = self.cur();
        let t = b.cur_text();
        let col = self.cursor_column();
        &&& self.has_cur()
        &&& b.current < b.lines.len()
        &&& crate::chars::cols_ok(t.take(crate::chars::fit_count(t, b.current_x as int)), self.tabsize as int)
        &&& b.current >= b.edittop ==> self.editwinrows > 0 && b.edittop + self.editwinrows <= usize::MAX
        &&& col == 0 || col + 2 <= usize::MAX
        &&& col == 0 || col + 2 < self.editwincols || self.editwincols >= 2
        &&& self.margin + col <= usize::MAX
    }
}

impl crate::editor::Editor {
    /// Bring the cursor line into view and say where the cursor goes on the
    /// screen: its row (the title bar being row 0), its column, and whether
    /// the first line on screen changed (so that the window is redrawn).
    pub fn place_the_cursor(&mut self) -> (r: (usize, usize, bool))
        requires
            old(self)@.can_place(),
        ensures
            ({
                let e = old(self)@;
                let b = e.cur();
                let top = e.top_for_cursor();
                &&& final(self)@ == e.with_cur(crate::definitions::BufferView { edittop: top, ..b })
                &&& r.0 == b.current - top + 1
                &&& r.1 == e.margin + e.cursor_column() - page_start(e.cursor_column(), e.editwincols as int)
                &&& r.2 == (top != b.edittop || b.current < b.edittop || b.current >= b.edittop + e.editwinrows)
            }),
    {
        proof {
            crate::editor::lemma_cur(self);
        }
        let cb = self.current_buf;
        let cur = self.buffers[cb].current;
        let x = self.buffers[cb].current_x;
        let col = crate::chars::wideness(self.buffers[cb].lines[cur].data.as_str(), x, self.tabsize);
        let rows = self.editwinrows;
        let top = self.buffers[cb].edittop;
        let mut adjusted = false;
        let mut new_top = top;
        if cur < top {
            new_top = cur;
            adjusted = true;
        } else if cur >= top + rows {
            new_top = if cur >= rows - 1 { cur - (rows - 1) } else { 0 };
            adjusted = true;
        }
        self.buffers[cb].edittop = new_top;
        assert(self@.buffers =~= old(self)@.buffers.update(
            cb as int,
            crate::definitions::BufferView { edittop: new_top, ..old(self)@.cur() },
        ));
        let ps = crate::utils::get_page_start(col, self.editwincols);
        let screen_col = self.margin + col - ps;
        (cur - new_top + 1, screen_col, adjusted)
    }
}

} // verus!
