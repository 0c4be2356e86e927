//! The help viewer: the text it shows and how it answers keys.
use vstd::prelude::*;

use crate::definitions::{EditorFunction, FuncEntry, KeyBinding, KeyCode, KeyView, Menu};
use crate::editor::{Editor, EditorView};
use crate::textseq::{append_str, chars_of, push_char};

verus! {

/// `s` with spaces before it up to `w` characters (as `{:>w}` formats).
pub open spec fn pad_left(s: Seq<char>, w: nat) -> Seq<char> {
    if s.len() >= w {
        s
    } else {
        Seq::new((w - s.len()) as nat, |i: int| ' ') + s
    }
}

/// The tag of the first entry of `funcs` from index `i` on for the function
/// `f`, or `???` when there is none.
pub open spec fn tag_from(funcs: Seq<FuncEntry>, f: EditorFunction, i: int) -> Seq<char>
    decreases funcs.len() - i,
{
    if i < 0 || i >= funcs.len() {
        "???"@
    } else if funcs[i].func == f {
        funcs[i].tag@
    } else {
        tag_from(funcs, f, i + 1)
    }
}

/// The line of the help text for one key binding.
pub open spec fn help_line(b: KeyBinding, funcs: Seq<FuncEntry>) -> Seq<char> {
    "   "@ + pad_left(b.keystr@, 8) + "   "@ + tag_from(funcs, b.func, 0) + "\n"@
}

/// The help lines of the bindings `keys` that apply in the main menu.
pub open spec fn help_body(keys: Seq<KeyBinding>, funcs: Seq<FuncEntry>) -> Seq<char>
    decreases keys.len(),
{
    if keys.len() == 0 {
        Seq::empty()
    } else {
        let b = keys.last();
        help_body(keys.drop_last(), funcs) + if b.menus.bits & Menu::MAIN == Menu::MAIN {
            help_line(b, funcs)
        } else {
            Seq::empty()
        }
    }
}

/// The whole help text.
pub open spec fn help_text(keys: Seq<KeyBinding>, funcs: Seq<FuncEntry>) -> Seq<char> {
    " rano help text\n\n"@ + " The main shortcuts are:\n\n"@ + help_body(keys, funcs)
        + "\n The editor is modeled on GNU nano.\n"@
        + " For more information, see the nano documentation.\n"@
}

/// The lines of `s` as `str::lines` gives them: split at line feeds, a
/// carriage return before a line feed dropped, and no empty line after a
/// final line feed.
pub open spec fn text_lines(s: Seq<char>) -> Seq<Seq<char>> {
    let parts = crate::cut::split_at_newlines(s);
    let kept = if parts.last().len() == 0 { parts.drop_last() } else { parts };
    Seq::new(
        kept.len(),
        |i: int|
            if i < parts.len() - 1 && kept[i].len() > 0 && kept[i].last() == '\r' {
                kept[i].drop_last()
            } else {
                kept[i]
            },
    )
}

/// `s` padded on the left with spaces to `w` characters.
fn pad_left_text(s: &str, w: usize) -> (r: String)
    ensures
        r@ == pad_left(s@, w as nat),
{
    let n = chars_of(s).len();
    let mut r = String::new();
    if n < w {
        let mut i: usize = 0;
        while i < w - n
            invariant
                n < w,
                i <= w - n,
                r@ == Seq::new(i as nat, |j: int| ' '),
            decreases w - n - i,
        {
            push_char(&mut r, ' ');
            assert(r@ =~= Seq::new((i + 1) as nat, |j: int| ' '));
            i += 1;
        }
    }
    append_str(&mut r, s);
    assert(r@ =~= pad_left(s@, w as nat));
    r
}

impl Editor {
    /// The tag of the first function-table entry for `f`, or `???`.
    fn tag_for(&self, f: EditorFunction) -> (r: &str)
        ensures
            r@ == tag_from(self.func_table@, f, 0),
    {
        let mut i: usize = 0;
        while i < self.func_table.len()
            invariant
                i <= self.func_table@.len(),
                tag_from(self.func_table@, f, 0) == tag_from(self.func_table@, f, i as int),
            decreases self.func_table@.len() - i,
        {
            if self.func_table[i].func == f {
                return self.func_table[i].tag;
            }
            i += 1;
        }
        "???"
    }

    /// The help text: a heading, a line for each binding of the main menu
    /// (its keys right-aligned in eight columns, then the function's tag),
    /// and a closing word.
    pub fn build_help_text(&self) -> (r: String)
        ensures
            r@ == help_text(self.keybindings@, self.func_table@),
    {
        let mut text = String::new();
        append_str(&mut text, " rano help text\n\n");
        append_str(&mut text, " The main shortcuts are:\n\n");
        let ghost head = text@;
        let n = self.keybindings.len();
        let mut i: usize = 0;
        assert(self.keybindings@.take(0) =~= Seq::<KeyBinding>::empty());
        while i < n
            invariant
                n == self.keybindings@.len(),
                i <= n,
                text@ == head + help_body(self.keybindings@.take(i as int), self.func_table@),
            decreases n - i,
        {
            let b = &self.keybindings[i];
            let ghost prev = text@;
            assert(self.keybindings@.take(i + 1).drop_last() =~= self.keybindings@.take(i as int));
            if b.menus.contains(Menu { bits: Menu::MAIN }) {
                append_str(&mut text, "   ");
                append_str(&mut text, pad_left_text(b.keystr.as_str(), 8).as_str());
                append_str(&mut text, "   ");
                append_str(&mut text, self.tag_for(b.func));
                append_str(&mut text, "\n");
                assert(text@ =~= prev + help_line(*b, self.func_table@));
            }
            i += 1;
        }
        assert(self.keybindings@.take(n as int) =~= self.keybindings@);
        append_str(&mut text, "\n The editor is modeled on GNU nano.\n");
        append_str(&mut text, " For more information, see the nano documentation.\n");
        assert(text@ =~= help_text(self.keybindings@, self.func_table@));
        text
    }
}

/// The lines of `s`, as `str::lines` gives them.
pub fn lines_of_text(s: &str) -> (r: Vec<String>)
    ensures
        crate::editor::text_views(r@) == text_lines(s@),
{
    let cs = chars_of(s);
    let n = cs.len();
    let mut parts: Vec<String> = Vec::new();
    let mut piece = String::new();
    let mut k: usize = 0;
    assert(cs@.take(0) =~= Seq::<char>::empty());
    assert(crate::editor::text_views(parts@).push(piece@) =~= crate::cut::split_at_newlines(cs@.take(0)));
    while k < n
        invariant
            n == cs@.len(),
            cs@ == s@,
            k <= n,
            crate::editor::text_views(parts@).push(piece@) == crate::cut::split_at_newlines(cs@.take(k as int)),
        decreases n - k,
    {
        let c = cs[k];
        let ghost prev = crate::cut::split_at_newlines(cs@.take(k as int));
        assert(cs@.take(k + 1).drop_last() =~= cs@.take(k as int));
        if c == '\n' {
            let ghost pd = parts@;
            parts.push(piece);
            piece = String::new();
            assert(crate::editor::text_views(parts@) =~= crate::editor::text_views(pd).push(parts@[parts@.len() - 1]@));
            assert(crate::editor::text_views(parts@).push(piece@) =~= prev.push(Seq::empty()));
        } else {
            push_char(&mut piece, c);
            assert(crate::editor::text_views(parts@).push(piece@) =~= prev.update(prev.len() - 1, prev.last().push(c)));
        }
        k += 1;
    }
    assert(cs@.take(n as int) =~= cs@);
    let ghost all = crate::editor::text_views(parts@).push(piece@);
    let last_empty = crate::cut::text_is_empty(piece.as_str());
    assert(all.last() == piece@);
    assert(all.len() > 0);
    if !last_empty {
        let ghost pd = parts@;
        parts.push(piece);
        assert(crate::editor::text_views(parts@) =~= all);
    } else {
        assert(crate::editor::text_views(parts@) =~= all.drop_last());
    }
    let ghost kept = crate::editor::text_views(parts@);
    // Drop a carriage return at the end of every line that a line feed ended.
    let m = parts.len();
    let mut out: Vec<String> = Vec::new();
    let mut i: usize = 0;
    while i < m
        invariant
            m == parts@.len(),
            kept == crate::editor::text_views(parts@),
            all == crate::cut::split_at_newlines(s@),
            kept == (if all.last().len() == 0 { all.drop_last() } else { all }),
            last_empty == (all.last().len() == 0),
            all.len() > 0,
            i <= m,
            crate::editor::text_views(out@) == text_lines(s@).take(i as int),
        decreases m - i,
    {
        let p = parts[i].as_str();
        let pc = chars_of(p);
        let ended = i + 1 < m || last_empty;
        let ghost prev = crate::editor::text_views(out@);
        assert(pc@ == kept[i as int]);
        assert(kept.len() == m);
        assert(all.len() > 0);
        assert(ended == (i < all.len() - 1));
        if pc.len() > 0 {
            assert(pc@.subrange(0, pc@.len() - 1) =~= pc@.drop_last());
        }
        if ended && pc.len() > 0 && pc[pc.len() - 1] == '\r' {
            out.push(crate::textseq::string_of(&pc, 0, pc.len() - 1));
        } else {
            out.push(crate::textseq::copy_text(p));
        }
        assert(crate::editor::text_views(out@) =~= prev.push(text_lines(s@)[i as int]));
        assert(text_lines(s@).take(i + 1) =~= text_lines(s@).take(i as int).push(text_lines(s@)[i as int]));
        i += 1;
    }
    assert(text_lines(s@).take(m as int) =~= text_lines(s@));
    out
}

/// The help viewer: its lines, the first one on screen, and the menu to go
/// back to.
pub struct HelpState {
    pub lines: Vec<String>,
    pub top: usize,
    pub saved_menu: Menu,
}

/// The first line on screen after `key` in help text of `n` lines shown
/// `rows` at a time.
pub open spec fn help_moved(key: KeyView, n: int, top: int, rows: int) -> int {
    match key {
        KeyView::Up => if top > 0 { top - 1 } else { top },
        KeyView::Char(c) => if c == 'k' {
            if top > 0 { top - 1 } else { top }
        } else if c == 'j' {
            if top + rows < n { top + 1 } else { top }
        } else {
            top
        },
        KeyView::Down => if top + rows < n { top + 1 } else { top },
        KeyView::PageUp => if top >= rows { top - rows } else { 0 },
        KeyView::PageDown => if top + rows < n {
            let limit = if n >= rows { n - rows } else { 0 };
            if top + rows < limit { top + rows } else { limit }
        } else {
            top
        },
        KeyView::Home => 0,
        KeyView::End => if n >= rows { n - rows } else { 0 },
        _ => top,
    }
}

/// The keys that leave the help viewer: Escape, ^C, ^G, F1, ^X, q and Q.
pub open spec fn leaves_help(key: KeyView) -> bool {
    match key {
        KeyView::Escape => true,
        KeyView::Ctrl(c) => c == 'c' || c == 'g' || c == 'x',
        KeyView::F(n) => n == 1,
        KeyView::Char(c) => c == 'q' || c == 'Q',
        _ => false,
    }
}

impl Editor {
    /// Enter the help viewer: its lines are those of the help text, shown
    /// from the first.
    pub fn start_help(&mut self) -> (r: HelpState)
        ensures
            crate::editor::text_views(r.lines@) == text_lines(help_text(old(self)@.keybindings, old(self)@.func_table)),
            r.top == 0,
            r.saved_menu.bits == old(self)@.currmenu,
            final(self)@ == (EditorView { inhelp: true, ..old(self)@ }),
    {
        let text = self.build_help_text();
        let lines = lines_of_text(text.as_str());
        let saved = self.currmenu;
        self.inhelp = true;
        HelpState { lines, top: 0, saved_menu: saved }
    }

    /// Answer a key in the help viewer: leave it (giving `true`, and the
    /// menu from before back), or scroll the text.
    pub fn do_help(&mut self, state: &mut HelpState, key: &KeyCode) -> (done: bool)
        requires
            old(state).top + old(self).editwinrows <= usize::MAX,
        ensures
            done == leaves_help(key@),
            done ==> final(self)@ == (EditorView {
                inhelp: false,
                currmenu: old(state).saved_menu.bits,
                refresh_needed: true,
                ..old(self)@
            }),
            done ==> final(state).top == old(state).top,
            !done ==> final(self)@ == old(self)@,
            !done ==> final(state).top == help_moved(
                key@,
                old(state).lines@.len() as int,
                old(state).top as int,
                old(self).editwinrows as int,
            ),
            final(state).lines@ == old(state).lines@,
            final(state).saved_menu == old(state).saved_menu,
    {
        let leave = match key {
            KeyCode::Escape => true,
            KeyCode::Ctrl(c) => *c == 'c' || *c == 'g' || *c == 'x',
            KeyCode::F(n) => *n == 1,
            KeyCode::Char(c) => *c == 'q' || *c == 'Q',
            _ => false,
        };
        if leave {
            self.inhelp = false;
            self.currmenu = state.saved_menu;
            self.refresh_needed = true;
            return true;
        }
        let rows = self.editwinrows;
        let n = state.lines.len();
        let top = state.top;
        let up = match key {
            KeyCode::Up => true,
            KeyCode::Char(c) => *c == 'k',
            _ => false,
        };
        let down = match key {
            KeyCode::Down => true,
            KeyCode::Char(c) => *c == 'j',
            _ => false,
        };
        if up {
            if top > 0 {
                state.top = top - 1;
            }
        } else if down {
            if top + rows < n {
                state.top = top + 1;
            }
        } else {
            match key {
                KeyCode::PageUp => {
                    state.top = if top >= rows { top - rows } else { 0 };
                },
                KeyCode::PageDown => {
                    if top + rows < n {
                        let limit = if n >= rows { n - rows } else { 0 };
                        state.top = if top + rows < limit { top + rows } else { limit };
                    }
                },
                KeyCode::Home => {
                    state.top = 0;
                },
                KeyCode::End => {
                    state.top = if n >= rows { n - rows } else { 0 };
                },
                _ => {},
            }
        }
        false
    }
}

/// The status line of the help viewer: `[ line t/n (p%) ]` for the first
/// line on screen `t` (counted from 1) of `n`.
pub open spec fn help_status(top: nat, n: nat) -> Seq<char> {
    "[ line "@ + crate::textseq::decimal(top + 1) + "/"@ + crate::textseq::decimal(n) + " ("@
        + crate::textseq::decimal(if n == 0 { 0 } else { (top + 1) * 100 / n }) + "%) ]"@
}

/// The status line of the help viewer.
pub fn help_status_text(state: &HelpState) -> (r: String)
    requires
        (state.top + 1) * 100 <= usize::MAX,
    ensures
        r@ == help_status(state.top as nat, state.lines@.len()),
{
    let n = state.lines.len();
    let t = state.top + 1;
    let pct = if n == 0 { 0 } else { t * 100 / n };
    let mut s = String::new();
    append_str(&mut s, "[ line ");
    append_str(&mut s, crate::textseq::decimal_string(t).as_str());
    append_str(&mut s, "/");
    append_str(&mut s, crate::textseq::decimal_string(n).as_str());
    append_str(&mut s, " (");
    append_str(&mut s, crate::textseq::decimal_string(pct).as_str());
    append_str(&mut s, "%) ]");
    s
}

} // verus!
