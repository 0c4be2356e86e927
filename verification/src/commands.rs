//! Running the editor's functions, and turning keys into them.
use vstd::prelude::*;

use crate::definitions::{BufferView, Direction, EditorFlags, EditorFunction, KeyBinding, KeyCode, KeyView, Menu, MessageType};
use crate::editor::{Editor, EditorView};
use crate::global::binds_key;
use crate::movement::must_move;
use crate::textseq::bytes_len;

verus! {

/// What is left to do after a function ran: nothing, or a piece of work that
/// needs the outside world (a question, a file, the clipboard, the terminal)
/// before the library can go on.
pub enum Command {
    /// The function ran in full.
    Handled,
    /// The cut or copied text is to go to the system clipboard too.
    ToClipboard,
    /// Ask whether to save a modified buffer, then `do_exit`.
    Exit,
    /// Ask for a file name and write the buffer.
    WriteOut,
    /// Write the buffer to its file (or ask for a name).
    SaveFile,
    /// Ask for a search string, then `do_search`.
    Search(Direction),
    /// Ask for a search string and its replacement, then `do_replace`.
    Replace,
    /// Ask for a line and column, then `do_gotolinecolumn`.
    GotoLineColumn,
    /// Ask for a file name, read it, then `do_insertfile`.
    InsertFile,
    /// Show the help viewer.
    Help,
    /// Read the system clipboard, then `paste_text`.
    Paste,
    /// Suspend the editor.
    Suspend,
}

impl EditorView {
    /// The function `f` can run in the library: the conditions under which
    /// the function called for it neither fails nor overflows.
    pub open spec fn can_run(self, f: EditorFunction) -> bool {
        let b = self.cur();
        let rows = self.editwinrows;
        &&& self.has_cur()
        &&& match f {
            EditorFunction::ToFirstLine => true,
            EditorFunction::ToLastLine => b.lines.len() > 0 && self.line_cols_ok(b.lines.len() - 1)
                && rows <= isize::MAX,
            EditorFunction::DoUp => b.current > 0 ==> b.current - 1 < b.lines.len()
                && self.line_cols_ok(b.current - 1),
            EditorFunction::DoDown => b.lines.len() > 0 && rows <= isize::MAX && (b.current
                < b.lines.len() - 1 ==> self.line_cols_ok(b.current + 1)),
            EditorFunction::DoLeft => b.current < b.lines.len() && (b.current_x > 0
                ==> self.pos_cols_ok(b.current as int, b.current_x as int)) && (b.current_x == 0
                && b.current > 0 ==> self.line_cols_ok(b.current - 1)),
            EditorFunction::DoRight => b.current < b.lines.len() && self.line_cols_ok(b.current as int),
            EditorFunction::DoHome => b.current < b.lines.len() && self.line_cols_ok(b.current as int),
            EditorFunction::DoEnd => b.current < b.lines.len() && self.line_cols_ok(b.current as int),
            EditorFunction::DoPageUp => b.current >= must_move(rows) ==> b.current - must_move(rows)
                < b.lines.len() && self.line_cols_ok(b.current - must_move(rows)),
            EditorFunction::DoPageDown => b.lines.len() > 0 && b.current + must_move(rows)
                <= usize::MAX && (b.current + must_move(rows) < b.lines.len() ==> self.line_cols_ok(
                b.current + must_move(rows),
            )),
            EditorFunction::ToPrevWord => b.cursor_ok() && self.display_ok(),
            EditorFunction::ToNextWord => b.cursor_ok() && self.display_ok(),
            EditorFunction::ToPrevBlock => b.current < b.lines.len(),
            EditorFunction::ToNextBlock => b.current < b.lines.len(),
            EditorFunction::DoScrollUp => rows <= isize::MAX && (b.current > 0 ==> b.current - 1
                < b.lines.len() && self.line_cols_ok(b.current - 1)),
            EditorFunction::DoScrollDown => b.lines.len() > 0 && rows <= isize::MAX && (b.current
                < b.lines.len() - 1 ==> self.line_cols_ok(b.current + 1)),
            EditorFunction::DoBackspace => self.has_flag(EditorFlags::VIEW_MODE) || self.can_backspace(),
            EditorFunction::DoDelete => self.has_flag(EditorFlags::VIEW_MODE) || self.can_delete(),
            EditorFunction::DoEnter => self.has_flag(EditorFlags::VIEW_MODE) || self.can_enter(),
            EditorFunction::DoTab => self.has_flag(EditorFlags::VIEW_MODE) || self.can_tab(),
            EditorFunction::CutText => self.has_flag(EditorFlags::VIEW_MODE) || self.can_cut(),
            EditorFunction::CopyText => self.can_cut(),
            EditorFunction::DoUndo => self.can_undo(),
            EditorFunction::DoRedo => self.can_redo(),
            EditorFunction::DoIndent => self.has_flag(EditorFlags::VIEW_MODE) || (self.span_ok()
                && b.current_x + bytes_len(self.indent_unit()) <= usize::MAX),
            EditorFunction::DoUnindent => self.has_flag(EditorFlags::VIEW_MODE) || self.span_ok(),
            EditorFunction::DoComment => self.has_flag(EditorFlags::VIEW_MODE) || self.span_ok(),
            EditorFunction::ReportCursorPosition => self.can_report(),
            EditorFunction::DoFindNext => self.can_search_again(false),
            EditorFunction::DoFindPrevious => self.can_search_again(true),
            EditorFunction::SwitchToPrevBuffer => self.sidebar_fits(),
            EditorFunction::SwitchToNextBuffer => self.sidebar_fits(),
            _ => true,
        }
    }

    /// The work that `execute_function(f)` leaves to its caller.
    pub open spec fn command_for(self, f: EditorFunction) -> CommandView {
        match f {
            EditorFunction::DoExit => CommandView::Exit,
            EditorFunction::DoWriteOut => CommandView::WriteOut,
            EditorFunction::DoSaveFile => CommandView::SaveFile,
            EditorFunction::DoSearch => CommandView::Search(Direction::Forward),
            EditorFunction::DoSearchForward => CommandView::Search(Direction::Forward),
            EditorFunction::DoSearchBackward => CommandView::Search(Direction::Backward),
            EditorFunction::DoReplace => CommandView::Replace,
            EditorFunction::DoGotoLineColumn => CommandView::GotoLineColumn,
            EditorFunction::DoInsertFile => CommandView::InsertFile,
            EditorFunction::DoHelp => CommandView::Help,
            EditorFunction::PasteText => CommandView::Paste,
            EditorFunction::DoSuspend => CommandView::Suspend,
            EditorFunction::CutText => if self.cuts() {
                CommandView::ToClipboard
            } else {
                CommandView::Handled
            },
            EditorFunction::CopyText => if self.copies() {
                CommandView::ToClipboard
            } else {
                CommandView::Handled
            },
            _ => CommandView::Handled,
        }
    }

    /// `new` is what running `f` in the library can leave of `self`.
    pub open spec fn ran(self, f: EditorFunction, new: EditorView) -> bool {
        let b = self.cur();
        match f {
            EditorFunction::ToFirstLine => new == EditorView {
                refresh_needed: true,
                ..self.with_cur(BufferView { current: 0, current_x: 0, placewewant: 0, ..b })
            },
            EditorFunction::ToLastLine => {
                let last = b.lines.len() - 1;
                new == EditorView {
                    refresh_needed: true,
                    focusing: false,
                    ..self.with_cur(
                        BufferView {
                            current: last as usize,
                            current_x: bytes_len(crate::movement::line_text(b, last)) as usize,
                            placewewant: crate::chars::cols(
                                crate::movement::line_text(b, last),
                                self.tabsize as int,
                            ) as usize,
                            cursor_row: (self.editwinrows - 1) as isize,
                            ..b
                        },
                    )
                }
            },
            EditorFunction::DoUp => new == self.after_up(),
            EditorFunction::DoDown => new == self.after_down(),
            EditorFunction::DoLeft => new == self.moved_to(self.left_target().0, self.left_target().1),
            EditorFunction::DoRight => new == self.moved_to(self.right_target().0, self.right_target().1),
            EditorFunction::DoHome => new == self.moved_to(b.current as int, self.home_target()),
            EditorFunction::DoEnd => new == self.moved_to(b.current as int, bytes_len(b.cur_text()) as int),
            EditorFunction::DoPageUp => new == self.after_page_up(),
            EditorFunction::DoPageDown => new == self.after_page_down(),
            EditorFunction::ToPrevWord => new == self.moved_to(
                self.prev_word_target().0,
                self.prev_word_target().1,
            ),
            EditorFunction::ToNextWord => new == self.moved_to(
                self.next_word_target().0,
                self.next_word_target().1,
            ),
            EditorFunction::ToPrevBlock => new.current_buf == self.current_buf
                && self.is_prev_block_start(b.current as int, new.cur().current as int) && new
                == EditorView {
                refresh_needed: true,
                ..self.with_cur(
                    BufferView { current: new.cur().current, current_x: 0, placewewant: 0, ..b },
                )
            },
            EditorFunction::ToNextBlock => new.current_buf == self.current_buf
                && self.is_next_block_start(b.current as int, new.cur().current as int) && new
                == EditorView {
                refresh_needed: true,
                ..self.with_cur(
                    BufferView { current: new.cur().current, current_x: 0, placewewant: 0, ..b },
                )
            },
            EditorFunction::DoScrollUp => new == self.after_scroll_up(),
            EditorFunction::DoScrollDown => new == self.after_scroll_down(),
            EditorFunction::DoBackspace => new == self.after_backspace(),
            EditorFunction::DoDelete => new == self.after_delete(),
            EditorFunction::DoEnter => new == self.after_enter(),
            EditorFunction::DoTab => new == self.after_tab(),
            EditorFunction::CutText => new == self.after_cut(),
            EditorFunction::CopyText => new == self.after_copy(),
            EditorFunction::DoUndo => new == self.after_undo(),
            EditorFunction::DoRedo => new == self.after_redo(),
            EditorFunction::DoMark => new == self.after_mark(),
            EditorFunction::DoIndent => new == self.after_indent(),
            EditorFunction::DoUnindent => new == self.after_unindent(),
            EditorFunction::DoComment => new == self.after_comment(),
            EditorFunction::DoFindNext => new == self.after_again(false),
            EditorFunction::DoFindPrevious => new == self.after_again(true),
            EditorFunction::ReportCursorPosition => new == self.after_report(),
            EditorFunction::DoCancel => new == EditorView {
                currmenu: Menu::MAIN,
                refresh_needed: true,
                ..self
            },
            EditorFunction::SwitchToPrevBuffer => new == self.after_prev_buffer(),
            EditorFunction::SwitchToNextBuffer => new == self.after_next_buffer(),
            EditorFunction::DoExit | EditorFunction::DoWriteOut | EditorFunction::DoSaveFile
            | EditorFunction::DoSearch | EditorFunction::DoSearchForward
            | EditorFunction::DoSearchBackward | EditorFunction::DoReplace
            | EditorFunction::DoGotoLineColumn | EditorFunction::DoInsertFile
            | EditorFunction::DoHelp | EditorFunction::PasteText | EditorFunction::DoSuspend => new
                == self,
            _ => new == EditorView {
                statusmsg: "Unbound function"@,
                lastmessage: MessageType::Ahem,
                ..self
            },
        }
    }
}

/// A command as a plain value.
pub ghost enum CommandView {
    Handled,
    ToClipboard,
    Exit,
    WriteOut,
    SaveFile,
    Search(Direction),
    Replace,
    GotoLineColumn,
    InsertFile,
    Help,
    Paste,
    Suspend,
}

impl View for Command {
    type V = CommandView;

    open spec fn view(&self) -> CommandView {
        match self {
            Command::Handled => CommandView::Handled,
            Command::ToClipboard => CommandView::ToClipboard,
            Command::Exit => CommandView::Exit,
            Command::WriteOut => CommandView::WriteOut,
            Command::SaveFile => CommandView::SaveFile,
            Command::Search(d) => CommandView::Search(*d),
            Command::Replace => CommandView::Replace,
            Command::GotoLineColumn => CommandView::GotoLineColumn,
            Command::InsertFile => CommandView::InsertFile,
            Command::Help => CommandView::Help,
            Command::Paste => CommandView::Paste,
            Command::Suspend => CommandView::Suspend,
        }
    }
}

impl Editor {
    /// Run the moving functions.
    fn run_movement(&mut self, f: EditorFunction)
        requires
            old(self)@.can_run(f),
            f is ToFirstLine || f is ToLastLine || f is DoUp || f is DoDown || f is DoLeft
                || f is DoRight || f is DoHome || f is DoEnd || f is DoPageUp || f is DoPageDown
                || f is ToPrevWord || f is ToNextWord || f is ToPrevBlock || f is ToNextBlock
                || f is DoScrollUp || f is DoScrollDown,
        ensures
            old(self)@.ran(f, final(self)@),
    {
        match f {
            EditorFunction::ToFirstLine => self.to_first_line(),
            EditorFunction::ToLastLine => self.to_last_line(),
            EditorFunction::DoUp => self.do_up(),
            EditorFunction::DoDown => self.do_down(),
            EditorFunction::DoLeft => self.do_left(),
            EditorFunction::DoRight => self.do_right(),
            EditorFunction::DoHome => self.do_home(),
            EditorFunction::DoEnd => self.do_end(),
            EditorFunction::DoPageUp => self.do_page_up(),
            EditorFunction::DoPageDown => self.do_page_down(),
            EditorFunction::ToPrevWord => self.to_prev_word(),
            EditorFunction::ToNextWord => self.to_next_word(),
            EditorFunction::ToPrevBlock => self.to_prev_block(),
            EditorFunction::ToNextBlock => self.to_next_block(),
            EditorFunction::DoScrollUp => self.do_scroll_up(),
            _ => self.do_scroll_down(),
        }
    }

    /// Run the editing functions.
    #[verifier::rlimit(100)]
    #[verifier::spinoff_prover]
    fn run_editing(&mut self, f: EditorFunction) -> (r: Command)
        requires
            old(self)@.can_run(f),
            f is DoBackspace || f is DoDelete || f is DoEnter || f is DoTab || f is CutText
                || f is CopyText || f is DoUndo || f is DoRedo || f is DoMark || f is DoIndent
                || f is DoUnindent || f is DoComment,
        ensures
            old(self)@.ran(f, final(self)@),
            r@ == old(self)@.command_for(f),
    {
        match f {
            EditorFunction::DoBackspace => self.do_backspace(),
            EditorFunction::DoDelete => self.do_delete(),
            EditorFunction::DoEnter => self.do_enter(),
            EditorFunction::DoTab => self.do_tab(),
            EditorFunction::CutText => {
                if self.cut_text() {
                    return Command::ToClipboard;
                }
            },
            EditorFunction::CopyText => {
                if self.copy_text() {
                    return Command::ToClipboard;
                }
            },
            EditorFunction::DoUndo => self.do_undo(),
            EditorFunction::DoRedo => self.do_redo(),
            EditorFunction::DoMark => self.do_mark(),
            EditorFunction::DoIndent => self.do_indent(),
            EditorFunction::DoUnindent => self.do_unindent(),
            _ => self.do_comment(),
        }
        Command::Handled
    }

    /// Run the editor function `f`: what the library can do itself it does;
    /// for the rest (questions, files, the clipboard, the terminal) it says
    /// what its caller is to do.
    #[verifier::rlimit(100)]
    #[verifier::spinoff_prover]
    pub fn execute_function(&mut self, f: EditorFunction) -> (r: Command)
        requires
            old(self)@.can_run(f),
        ensures
            old(self)@.ran(f, final(self)@),
            r@ == old(self)@.command_for(f),
    {
        match f {
            EditorFunction::DoExit => Command::Exit,
            EditorFunction::DoWriteOut => Command::WriteOut,
            EditorFunction::DoSaveFile => Command::SaveFile,
            EditorFunction::ToFirstLine | EditorFunction::ToLastLine | EditorFunction::DoUp
            | EditorFunction::DoDown | EditorFunction::DoLeft | EditorFunction::DoRight
            | EditorFunction::DoHome | EditorFunction::DoEnd | EditorFunction::DoPageUp
            | EditorFunction::DoPageDown | EditorFunction::ToPrevWord | EditorFunction::ToNextWord
            | EditorFunction::ToPrevBlock | EditorFunction::ToNextBlock | EditorFunction::DoScrollUp
            | EditorFunction::DoScrollDown => {
                self.run_movement(f);
                Command::Handled
            },
            EditorFunction::DoBackspace | EditorFunction::DoDelete | EditorFunction::DoEnter
            | EditorFunction::DoTab | EditorFunction::CutText | EditorFunction::CopyText
            | EditorFunction::DoUndo | EditorFunction::DoRedo | EditorFunction::DoMark
            | EditorFunction::DoIndent | EditorFunction::DoUnindent | EditorFunction::DoComment => {
                self.run_editing(f)
            },
            EditorFunction::PasteText => Command::Paste,
            EditorFunction::DoSearch | EditorFunction::DoSearchForward => Command::Search(
                Direction::Forward,
            ),
            EditorFunction::DoSearchBackward => Command::Search(Direction::Backward),
            EditorFunction::DoFindNext => {
                self.do_findnext();
                Command::Handled
            },
            EditorFunction::DoFindPrevious => {
                self.do_findprevious();
                Command::Handled
            },
            EditorFunction::DoReplace => Command::Replace,
            EditorFunction::DoGotoLineColumn => Command::GotoLineColumn,
            EditorFunction::DoInsertFile => Command::InsertFile,
            EditorFunction::DoHelp => Command::Help,
            EditorFunction::ReportCursorPosition => {
                self.report_cursor_position();
                Command::Handled
            },
            EditorFunction::DoSuspend => Command::Suspend,
            EditorFunction::DoCancel => {
                self.currmenu = Menu { bits: Menu::MAIN };
                self.refresh_needed = true;
                Command::Handled
            },
            EditorFunction::SwitchToPrevBuffer => {
                self.switch_to_prev_buffer();
                Command::Handled
            },
            EditorFunction::SwitchToNextBuffer => {
                self.switch_to_next_buffer();
                Command::Handled
            },
            _ => {
                let mut msg = String::new();
                crate::textseq::append_str(&mut msg, "Unbound function");
                self.statusmsg = msg;
                self.lastmessage = MessageType::Ahem;
                Command::Handled
            },
        }
    }
}

/// The function of the first binding of `key` in one of the menus of `menu`,
/// looking from index `i` on.
pub open spec fn bound_func(ks: Seq<KeyBinding>, key: KeyView, menu: Menu, i: int) -> Option<EditorFunction>
    decreases ks.len() - i,
{
    if i < 0 || i >= ks.len() {
        None
    } else if binds_key(ks[i], key, menu) {
        Some(ks[i].func)
    } else {
        bound_func(ks, key, menu, i + 1)
    }
}

proof fn lemma_bound_func(ks: Seq<KeyBinding>, key: KeyView, menu: Menu, i: int, r: Option<EditorFunction>)
    requires
        0 <= i <= ks.len(),
        forall|j: int| 0 <= j < i ==> !binds_key(#[trigger] ks[j], key, menu),
        r matches Some(f) ==> exists|m: int|
            0 <= m < ks.len() && ks[m].func == f && binds_key(ks[m], key, menu) && forall|j: int|
                0 <= j < m ==> !binds_key(#[trigger] ks[j], key, menu),
        r is None ==> forall|j: int| 0 <= j < ks.len() ==> !binds_key(#[trigger] ks[j], key, menu),
    ensures
        bound_func(ks, key, menu, i) == r,
    decreases ks.len() - i,
{
    if i < ks.len() {
        if binds_key(ks[i], key, menu) {
            if let Some(f) = r {
                let m = choose|m: int|
                    0 <= m < ks.len() && ks[m].func == f && binds_key(ks[m], key, menu) && forall|j: int|
                        0 <= j < m ==> !binds_key(#[trigger] ks[j], key, menu);
                assert(m == i) by {
                    if m > i {
                        assert(!binds_key(ks[i], key, menu));
                    }
                }
            }
        } else {
            lemma_bound_func(ks, key, menu, i + 1, r);
        }
    }
}

/// What a key does: the function bound to it in the current menu, or, in
/// the main menu, typing its character (not in view mode), or nothing.
pub ghost enum KeyEffect {
    Run(EditorFunction),
    Type(char),
    Ignore,
}

impl EditorView {
    /// What `key` does in this editor.
    pub open spec fn key_effect(self, key: KeyView) -> KeyEffect {
        match bound_func(self.keybindings, key, Menu { bits: self.currmenu }, 0) {
            Some(f) => KeyEffect::Run(f),
            None => if self.currmenu == Menu::MAIN && !self.has_flag(EditorFlags::VIEW_MODE) {
                match key {
                    KeyView::Char(c) => KeyEffect::Type(c),
                    _ => KeyEffect::Ignore,
                }
            } else {
                KeyEffect::Ignore
            },
        }
    }

    /// `process_key(key)` can run.
    pub open spec fn can_process(self, key: KeyView) -> bool {
        match self.key_effect(key) {
            KeyEffect::Run(f) => self.can_run(f),
            KeyEffect::Type(c) => self.can_insert(c),
            KeyEffect::Ignore => true,
        }
    }
}

impl Editor {
    /// Answer a key in the main loop: run the function bound to it in the
    /// current menu, or type its character in the main menu (not in view
    /// mode).  Mouse-wheel keys are handled by the caller, through
    /// `do_mouse_scroll`.
    pub fn process_key(&mut self, key: &KeyCode) -> (r: Command)
        requires
            old(self)@.can_process(key@),
        ensures
            match old(self)@.key_effect(key@) {
                KeyEffect::Run(f) => old(self)@.ran(f, final(self)@) && r@ == old(self)@.command_for(f),
                KeyEffect::Type(c) => final(self)@ == old(self)@.after_char(c) && r@ is Handled,
                KeyEffect::Ignore => final(self)@ == old(self)@ && r@ is Handled,
            },
    {
        let menu = self.currmenu;
        let found = crate::global::func_from_key(self.keybindings.as_slice(), key, menu);
        proof {
            lemma_bound_func(self.keybindings@, key@, menu, 0, found);
        }
        match found {
            Some(f) => self.execute_function(f),
            None => {
                if self.currmenu.bits == Menu::MAIN && !self.flags.contains(EditorFlags::VIEW_MODE) {
                    match key {
                        KeyCode::Char(c) => {
                            self.do_char(*c);
                        },
                        _ => {},
                    }
                }
                Command::Handled
            },
        }
    }
}

} // verus!
