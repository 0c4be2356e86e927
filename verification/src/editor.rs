//! The central `Editor` state and the operations that do not belong to a
//! more specific module.
use vstd::prelude::*;

use crate::color::SyntaxDef;
use crate::definitions::{
    BufferView, EditorFlags, FuncEntry, KeyBinding, Line, LineView, Menu, MessageType,
    OpenBuffer, fresh_buffer, line_views, opt_text,
};
use crate::textseq::{append_str, copy_text, decimal, decimal_string};

verus! {

/// Settings that the command line gives the editor.
#[derive(Debug, Clone)]
pub struct Options {
    pub line_numbers: bool,
    pub mouse: bool,
    pub constant_show: bool,
    pub autoindent: bool,
    pub softwrap: bool,
    pub tabsize: usize,
    pub tabs_to_spaces: bool,
    pub no_wrap: bool,
    pub no_help: bool,
    pub bold_text: bool,
    pub view: bool,
    pub no_newlines: bool,
    pub backup: bool,
}

/// The main editor state.
pub struct Editor {
    /// All open file buffers.
    pub buffers: Vec<OpenBuffer>,
    /// Index of the currently active buffer.
    pub current_buf: usize,
    /// Editor-wide flags.
    pub flags: EditorFlags,
    /// Tab size in columns.
    pub tabsize: usize,
    /// Height of the edit window in rows.
    pub editwinrows: usize,
    /// Width of the edit window in columns.
    pub editwincols: usize,
    /// Total terminal rows.
    pub term_rows: usize,
    /// Total terminal columns.
    pub term_cols: usize,
    /// Width of the line-number margin.
    pub margin: usize,
    /// Width of the scrollbar sidebar.
    pub sidebar: usize,
    /// Whether the screen needs a full refresh.
    pub refresh_needed: bool,
    /// The last displayed status message.
    pub lastmessage: MessageType,
    /// The status message text.
    pub statusmsg: String,
    /// Whether we are in the help viewer.
    pub inhelp: bool,
    /// Whether the editor is still running.
    pub running: bool,
    /// Whether focusing is active.
    pub focusing: bool,
    /// The answer in prompt mode.
    pub answer: String,
    /// Last search string.
    pub last_search: String,
    /// The cut buffer.
    pub cutbuffer: Vec<Line>,
    /// Whether to keep the cutbuffer on next cut.
    pub keep_cutbuffer: bool,
    /// Current menu context.
    pub currmenu: Menu,
    /// The function table.
    pub func_table: Vec<FuncEntry>,
    /// The keybinding table.
    pub keybindings: Vec<KeyBinding>,
    /// Home directory.
    pub homedir: Option<String>,
    /// Word chars for word detection.
    pub word_chars: Option<String>,
    /// Search flags.
    pub search_flags: EditorFlags,
    /// Loaded syntax definitions.
    pub syntaxes: Vec<SyntaxDef>,
    /// Whether the interface colors are set up.
    pub have_palette: bool,
    /// Search history.
    pub search_history: Vec<String>,
    /// Replace history.
    pub replace_history: Vec<String>,
}

pub ghost struct EditorView {
    pub buffers: Seq<BufferView>,
    pub current_buf: usize,
    pub flags: u64,
    pub tabsize: usize,
    pub editwinrows: usize,
    pub editwincols: usize,
    pub term_rows: usize,
    pub term_cols: usize,
    pub margin: usize,
    pub sidebar: usize,
    pub refresh_needed: bool,
    pub lastmessage: MessageType,
    pub statusmsg: Seq<char>,
    pub inhelp: bool,
    pub running: bool,
    pub focusing: bool,
    pub answer: Seq<char>,
    pub last_search: Seq<char>,
    pub cutbuffer: Seq<LineView>,
    pub keep_cutbuffer: bool,
    pub currmenu: u16,
    pub func_table: Seq<FuncEntry>,
    pub keybindings: Seq<KeyBinding>,
    pub homedir: Option<Seq<char>>,
    pub word_chars: Option<Seq<char>>,
    pub search_flags: u64,
    pub syntaxes: Seq<crate::color::SyntaxView>,
    pub have_palette: bool,
    pub search_history: Seq<Seq<char>>,
    pub replace_history: Seq<Seq<char>>,
}

/// The views of a sequence of texts.
pub open spec fn text_views(v: Seq<String>) -> Seq<Seq<char>> {
    Seq::new(v.len(), |i: int| v[i]@)
}

impl View for Editor {
    type V = EditorView;

    open spec fn view(&self) -> EditorView {
        EditorView {
            buffers: Seq::new(self.buffers@.len(), |i: int| self.buffers@[i]@),
            current_buf: self.current_buf,
            flags: self.flags.bits,
            tabsize: self.tabsize,
            editwinrows: self.editwinrows,
            editwincols: self.editwincols,
            term_rows: self.term_rows,
            term_cols: self.term_cols,
            margin: self.margin,
            sidebar: self.sidebar,
            refresh_needed: self.refresh_needed,
            lastmessage: self.lastmessage,
            statusmsg: self.statusmsg@,
            inhelp: self.inhelp,
            running: self.running,
            focusing: self.focusing,
            answer: self.answer@,
            last_search: self.last_search@,
            cutbuffer: line_views(self.cutbuffer@),
            keep_cutbuffer: self.keep_cutbuffer,
            currmenu: self.currmenu.bits,
            func_table: self.func_table@,
            keybindings: self.keybindings@,
            homedir: opt_text(self.homedir),
            word_chars: opt_text(self.word_chars),
            search_flags: self.search_flags.bits,
            syntaxes: crate::color::syntax_views(self.syntaxes@),
            have_palette: self.have_palette,
            search_history: text_views(self.search_history@),
            replace_history: text_views(self.replace_history@),
        }
    }
}

impl EditorView {
    /// The current buffer.
    pub open spec fn cur(self) -> BufferView {
        self.buffers[self.current_buf as int]
    }

    /// There is a current buffer.
    pub open spec fn has_cur(self) -> bool {
        self.current_buf < self.buffers.len()
    }

    /// The editor with the current buffer replaced by `b`.
    pub open spec fn with_cur(self, b: BufferView) -> EditorView {
        EditorView { buffers: self.buffers.update(self.current_buf as int, b), ..self }
    }

    pub open spec fn has_flag(self, mask: u64) -> bool {
        self.flags & mask == mask
    }

    /// What `statusline` leaves: the message when it is at least as important
    /// as the last one, else the editor unchanged.
    pub open spec fn status(self, importance: MessageType, msg: Seq<char>) -> EditorView {
        if importance.rank() >= self.lastmessage.rank() {
            EditorView { statusmsg: msg, lastmessage: importance, ..self }
        } else {
            self
        }
    }

    /// Number of decimal digits of `n` (1 for 0).
    pub open spec fn margin_for(self) -> usize {
        if self.has_flag(EditorFlags::LINE_NUMBERS) {
            (crate::utils::digits_spec(self.cur().lines.len() as nat) + 1) as usize
        } else {
            0
        }
    }

    /// The margin and the sidebar fit in a `usize` together, whatever the number of lines.
    pub open spec fn sidebar_fits(self) -> bool {
        self.sidebar + 21 <= usize::MAX
    }

    /// Every line of the current buffer can be displayed without its
    /// columns overflowing (and holds no tab when tabs have no width).
    pub open spec fn display_ok(self) -> bool {
        forall|i: int|
            0 <= i < self.cur().lines.len() ==> crate::chars::cols_ok(
                #[trigger] self.cur().lines[i].data,
                self.tabsize as int,
            )
    }

    /// What `confirm_margin` leaves.
    pub open spec fn margin_confirmed(self) -> EditorView {
        let m = self.margin_for();
        EditorView {
            margin: m,
            editwincols: if self.term_cols >= m + self.sidebar {
                (self.term_cols - m - self.sidebar) as usize
            } else {
                0
            },
            ..self
        }
    }
}

/// The view of the current buffer is the buffer's own view, line by line.
pub proof fn lemma_cur(ed: &Editor)
    requires
        ed.current_buf < ed.buffers@.len(),
    ensures
        ed@.has_cur(),
        ed.buffers@[ed.current_buf as int]@ == ed@.cur(),
        ed.buffers@[ed.current_buf as int].lines@.len() == ed@.cur().lines.len(),
        forall|i: int|
            0 <= i < ed@.cur().lines.len() ==> #[trigger] ed.buffers@[ed.current_buf as int].lines@[i].data@
                == ed@.cur().lines[i].data,
        ed@.cur().lines.len() <= usize::MAX,
        ed@.buffers.len() <= usize::MAX,
{
    assert(ed.buffers@[ed.current_buf as int].lines.len() == ed@.cur().lines.len());
    assert(ed.buffers.len() == ed@.buffers.len());
}

/// Any prefix of a line of a displayable buffer can be measured.
pub proof fn lemma_display_prefix(e: EditorView, i: int, m: int)
    requires
        e.display_ok(),
        0 <= i < e.cur().lines.len(),
        0 <= m <= e.cur().lines[i].data.len(),
    ensures
        crate::chars::cols_ok(e.cur().lines[i].data.take(m), e.tabsize as int),
{
    let t = e.cur().lines[i].data;
    assert(crate::chars::cols_ok(t, e.tabsize as int));
    crate::chars::lemma_cols_bound_prefix(t, m, e.tabsize as int);
    if t.take(m).contains('\t') {
        let j = choose|j: int| 0 <= j < t.take(m).len() && t.take(m)[j] == '\t';
        assert(t[j] == '\t');
        assert(t.contains('\t'));
    }
}

/// The margin never needs more than 21 columns.
pub proof fn lemma_margin_bound(e: EditorView)
    requires
        e.cur().lines.len() <= usize::MAX,
    ensures
        e.margin_for() <= 21,
{
    if e.has_flag(EditorFlags::LINE_NUMBERS) {
        crate::utils::lemma_digits_usize(e.cur().lines.len() as usize);
    }
}

impl Editor {
    /// Get a reference to the current buffer.
    pub fn current_buffer(&self) -> (r: &OpenBuffer)
        requires
            self.current_buf < self.buffers@.len(),
        ensures
            *r == self.buffers@[self.current_buf as int],
    {
        &self.buffers[self.current_buf]
    }

    /// Get a mutable reference to the current buffer.
    pub fn current_buffer_mut(&mut self) -> (r: &mut OpenBuffer)
        requires
            old(self).current_buf < old(self).buffers@.len(),
        ensures
            *r == old(self).buffers@[old(self).current_buf as int],
            final(self).buffers@ == old(self).buffers@.update(
                old(self).current_buf as int,
                *final(r),
            ),
            *final(self) == (Editor { buffers: final(self).buffers, ..*old(self) }),
    {
        &mut self.buffers[self.current_buf]
    }

    /// Create a new empty buffer and switch to it.
    pub fn make_new_buffer(&mut self)
        ensures
            final(self)@ == (EditorView {
                buffers: old(self)@.buffers.push(fresh_buffer()),
                current_buf: old(self)@.buffers.len() as usize,
                ..old(self)@
            }),
    {
        let buf = OpenBuffer::new();
        self.buffers.push(buf);
        self.current_buf = self.buffers.len() - 1;
        assert(self@.buffers =~= old(self)@.buffers.push(fresh_buffer()));
    }

    /// Set the status message, if it is at least as important as the last one.
    pub fn statusline(&mut self, importance: MessageType, msg: &str)
        ensures
            final(self)@ == old(self)@.status(importance, msg@),
    {
        if importance.level() >= self.lastmessage.level() {
            self.statusmsg = copy_text(msg);
            self.lastmessage = importance;
        }
    }

    /// Mark the current buffer as modified.
    pub fn set_modified(&mut self)
        requires
            old(self).current_buf < old(self).buffers@.len(),
        ensures
            final(self)@ == old(self)@.with_cur(
                BufferView { modified: true, ..old(self)@.cur() },
            ),
    {
        let cb = self.current_buf;
        self.buffers[cb].modified = true;
        assert(self@.buffers =~= old(self)@.buffers.update(
            cb as int,
            BufferView { modified: true, ..old(self)@.cur() },
        ));
    }

    /// Confirm the line-number margin width.
    pub fn confirm_margin(&mut self)
        requires
            old(self).current_buf < old(self).buffers@.len(),
            old(self)@.margin_for() + old(self).sidebar <= usize::MAX,
        ensures
            final(self)@ == old(self)@.margin_confirmed(),
    {
        if self.flags.contains(EditorFlags::LINE_NUMBERS) {
            let line_count = self.buffers[self.current_buf].lines.len();
            self.margin = crate::utils::digits(line_count) + 1;
        } else {
            self.margin = 0;
        }
        let used = self.margin + self.sidebar;
        self.editwincols = if self.term_cols >= used {
            self.term_cols - used
        } else {
            0
        };
    }
}

} // verus!

verus! {

impl EditorView {
    /// What `report_cursor_position` shows.
    pub open spec fn position_message(self) -> Seq<char> {
        let b = self.cur();
        let lineno = b.current + 1;
        let total = b.lines.len();
        let col = crate::movement::cols_to(b.cur_text(), b.current_x as int, self.tabsize as int) + 1;
        let pct = if total == 0 {
            0
        } else {
            lineno * 100 / (total as int)
        };
        "line "@ + crate::textseq::decimal(lineno as nat) + seq!['/'] + crate::textseq::decimal(total)
            + " ("@ + crate::textseq::decimal(pct as nat) + "%), col "@ + crate::textseq::decimal(
            col as nat,
        )
    }

    /// What `report_cursor_position` leaves.
    pub open spec fn after_report(self) -> EditorView {
        EditorView {
            statusmsg: self.position_message(),
            lastmessage: MessageType::Info,
            refresh_needed: true,
            ..self
        }
    }

    /// `report_cursor_position` can run without overflowing.
    pub open spec fn can_report(self) -> bool {
        let b = self.cur();
        let t = b.cur_text();
        &&& self.has_cur()
        &&& b.current < b.lines.len()
        &&& (b.current + 1) * 100 <= usize::MAX
        &&& crate::chars::cols_ok(t.take(crate::chars::fit_count(t, b.current_x as int)), self.tabsize as int)
        &&& crate::movement::cols_to(t, b.current_x as int, self.tabsize as int) < usize::MAX
    }

    /// The name a buffer goes by in messages.
    pub open spec fn buffer_name(b: BufferView) -> Seq<char> {
        if b.filename.len() == 0 {
            "New Buffer"@
        } else {
            b.filename
        }
    }

    /// What switching to the buffer `i` leaves.
    pub open spec fn switched_to(self, i: int) -> EditorView {
        let e = EditorView { current_buf: i as usize, ..self }.margin_confirmed();
        EditorView { refresh_needed: true, ..e }.status(
            MessageType::Info,
            "Switched to "@ + Self::buffer_name(self.buffers[i]),
        )
    }

    /// What `switch_to_prev_buffer` leaves.
    pub open spec fn after_prev_buffer(self) -> EditorView {
        if self.buffers.len() <= 1 {
            self.status(MessageType::Ahem, "No more open file buffers"@)
        } else {
            self.switched_to(
                if self.current_buf == 0 {
                    self.buffers.len() - 1
                } else {
                    self.current_buf - 1
                },
            )
        }
    }

    /// What `switch_to_next_buffer` leaves.
    pub open spec fn after_next_buffer(self) -> EditorView {
        if self.buffers.len() <= 1 {
            self.status(MessageType::Ahem, "No more open file buffers"@)
        } else {
            self.switched_to((self.current_buf + 1) % (self.buffers.len() as int))
        }
    }
}

impl Editor {
    /// Show the cursor's line, column and place in the buffer on the status bar.
    pub fn report_cursor_position(&mut self)
        requires
            old(self)@.can_report(),
        ensures
            final(self)@ == old(self)@.after_report(),
    {
        let cb = self.current_buf;
        let cur = self.buffers[cb].current;
        let lineno = cur + 1;
        let col = crate::chars::wideness(
            self.buffers[cb].lines[cur].data.as_str(),
            self.buffers[cb].current_x,
            self.tabsize,
        ) + 1;
        let total = self.buffers[cb].lines.len();
        let pct = if total == 0 {
            0
        } else {
            lineno * 100 / total
        };
        let mut msg = String::new();
        append_str(&mut msg, "line ");
        append_str(&mut msg, decimal_string(lineno).as_str());
        crate::textseq::push_char(&mut msg, '/');
        append_str(&mut msg, decimal_string(total).as_str());
        append_str(&mut msg, " (");
        append_str(&mut msg, decimal_string(pct).as_str());
        append_str(&mut msg, "%), col ");
        append_str(&mut msg, decimal_string(col).as_str());
        assert(msg@ =~= old(self)@.position_message());
        self.statusmsg = msg;
        self.lastmessage = MessageType::Info;
        self.refresh_needed = true;
    }

    /// Say which buffer is now current.
    fn announce_switch(&mut self)
        requires
            old(self)@.has_cur(),
        ensures
            final(self)@ == old(self)@.status(
                MessageType::Info,
                "Switched to "@ + EditorView::buffer_name(old(self)@.cur()),
            ),
    {
        let cb = self.current_buf;
        let mut msg = String::new();
        append_str(&mut msg, "Switched to ");
        if crate::cut::text_is_empty(self.buffers[cb].filename.as_str()) {
            append_str(&mut msg, "New Buffer");
        } else {
            append_str(&mut msg, self.buffers[cb].filename.as_str());
        }
        self.statusline(MessageType::Info, msg.as_str());
    }

    /// Switch to the previous buffer, from the first to the last.
    pub fn switch_to_prev_buffer(&mut self)
        requires
            old(self)@.has_cur(),
            old(self)@.sidebar_fits(),
        ensures
            final(self)@ == old(self)@.after_prev_buffer(),
    {
        let n = self.buffers.len();
        if n <= 1 {
            self.statusline(MessageType::Ahem, "No more open file buffers");
            return;
        }
        if self.current_buf == 0 {
            self.current_buf = n - 1;
        } else {
            self.current_buf = self.current_buf - 1;
        }
        proof {
            lemma_cur(self);
            lemma_margin_bound(self@);
        }
        self.confirm_margin();
        self.refresh_needed = true;
        self.announce_switch();
    }

    /// Switch to the next buffer, from the last to the first.
    pub fn switch_to_next_buffer(&mut self)
        requires
            old(self)@.has_cur(),
            old(self)@.sidebar_fits(),
        ensures
            final(self)@ == old(self)@.after_next_buffer(),
    {
        let n = self.buffers.len();
        if n <= 1 {
            self.statusline(MessageType::Ahem, "No more open file buffers");
            return;
        }
        self.current_buf = (self.current_buf + 1) % n;
        proof {
            lemma_cur(self);
            lemma_margin_bound(self@);
        }
        self.confirm_margin();
        self.refresh_needed = true;
        self.announce_switch();
    }
}

} // verus!

verus! {

/// `bits` with the flags of `mask` added when `on`.
pub open spec fn flag_if(bits: u64, on: bool, mask: u64) -> u64 {
    if on {
        bits | mask
    } else {
        bits
    }
}

impl Options {
    /// The editor flags that the options ask for.
    pub open spec fn flag_bits(self) -> u64 {
        let b = flag_if(0, self.line_numbers, EditorFlags::LINE_NUMBERS);
        let b = flag_if(b, self.mouse, EditorFlags::USE_MOUSE);
        let b = flag_if(b, self.constant_show, EditorFlags::CONSTANT_SHOW);
        let b = flag_if(b, self.autoindent, EditorFlags::AUTOINDENT);
        let b = flag_if(b, self.softwrap, EditorFlags::SOFTWRAP);
        let b = flag_if(b, self.tabs_to_spaces, EditorFlags::TABS_TO_SPACES);
        let b = flag_if(b, self.no_wrap, EditorFlags::NO_WRAP);
        let b = flag_if(b, self.no_help, EditorFlags::NO_HELP);
        let b = flag_if(b, self.bold_text, EditorFlags::BOLD_TEXT);
        let b = flag_if(b, self.view, EditorFlags::VIEW_MODE);
        let b = flag_if(b, self.no_newlines, EditorFlags::NO_NEWLINES);
        flag_if(b, self.backup, EditorFlags::MAKE_BACKUP)
    }

    /// The flags that the options ask for.
    pub fn flags(&self) -> (r: EditorFlags)
        ensures
            r.bits == self.flag_bits(),
    {
        let mut f = EditorFlags::empty();
        if self.line_numbers {
            f.insert(EditorFlags::LINE_NUMBERS);
        }
        if self.mouse {
            f.insert(EditorFlags::USE_MOUSE);
        }
        if self.constant_show {
            f.insert(EditorFlags::CONSTANT_SHOW);
        }
        if self.autoindent {
            f.insert(EditorFlags::AUTOINDENT);
        }
        if self.softwrap {
            f.insert(EditorFlags::SOFTWRAP);
        }
        if self.tabs_to_spaces {
            f.insert(EditorFlags::TABS_TO_SPACES);
        }
        if self.no_wrap {
            f.insert(EditorFlags::NO_WRAP);
        }
        if self.no_help {
            f.insert(EditorFlags::NO_HELP);
        }
        if self.bold_text {
            f.insert(EditorFlags::BOLD_TEXT);
        }
        if self.view {
            f.insert(EditorFlags::VIEW_MODE);
        }
        if self.no_newlines {
            f.insert(EditorFlags::NO_NEWLINES);
        }
        if self.backup {
            f.insert(EditorFlags::MAKE_BACKUP);
        }
        f
    }
}

/// The editor as it starts, before any buffer is open: the options' flags
/// and tab size, the window sized to the terminal of `cols` columns and
/// `rows` rows less the title, status and help bars, and nothing else.
pub open spec fn started(
    a: Options,
    cols: usize,
    rows: usize,
    home: Option<Seq<char>>,
    funcs: Seq<FuncEntry>,
    keys: Seq<KeyBinding>,
) -> EditorView {
    let bars: int = if a.no_help { 2 } else { 4 };
    EditorView {
        buffers: Seq::empty(),
        current_buf: 0,
        flags: a.flag_bits(),
        tabsize: a.tabsize,
        editwinrows: (if rows >= bars { rows - bars } else { 0 }) as usize,
        editwincols: cols,
        term_rows: rows,
        term_cols: cols,
        margin: 0,
        sidebar: 0,
        refresh_needed: true,
        lastmessage: MessageType::Vacuum,
        statusmsg: Seq::empty(),
        inhelp: false,
        running: true,
        focusing: false,
        answer: Seq::empty(),
        last_search: Seq::empty(),
        cutbuffer: Seq::empty(),
        keep_cutbuffer: false,
        currmenu: Menu::MAIN,
        func_table: funcs,
        keybindings: keys,
        homedir: home,
        word_chars: None,
        search_flags: 0,
        syntaxes: Seq::empty(),
        have_palette: false,
        search_history: Seq::empty(),
        replace_history: Seq::empty(),
    }
}

/// The views of files given as names and contents.
pub open spec fn file_views(fs: Seq<(String, Option<String>)>) -> Seq<(Seq<char>, Option<Seq<char>>)> {
    Seq::new(fs.len(), |i: int| (fs[i].0@, opt_text(fs[i].1)))
}

/// `e` after opening each of the files `fs` in turn, a leading `~` in a
/// name standing for the home directory; a single new buffer when there is
/// none.
pub open spec fn opened_files(e: EditorView, fs: Seq<(Seq<char>, Option<Seq<char>>)>) -> EditorView
    decreases fs.len(),
{
    if fs.len() == 0 {
        e
    } else {
        opened_files(e, fs.drop_last()).after_open(
            crate::utils::tilde_expansion(fs.last().0, e.homedir),
            fs.last().1,
        )
    }
}

/// What `Editor::new` gives.
pub open spec fn new_editor(
    a: Options,
    cols: usize,
    rows: usize,
    files: Seq<(Seq<char>, Option<Seq<char>>)>,
    home: Option<Seq<char>>,
    funcs: Seq<FuncEntry>,
    keys: Seq<KeyBinding>,
) -> EditorView {
    let e = started(a, cols, rows, home, funcs, keys);
    let opened = if files.len() == 0 {
        EditorView { buffers: seq![fresh_buffer()], current_buf: 0, ..e }
    } else {
        opened_files(e, files)
    };
    opened.margin_confirmed()
}

proof fn lemma_opened_files(e: EditorView, fs: Seq<(Seq<char>, Option<Seq<char>>)>)
    ensures
        opened_files(e, fs).buffers.len() == e.buffers.len() + fs.len(),
        fs.len() > 0 && e.buffers.len() + fs.len() <= usize::MAX ==> opened_files(e, fs).current_buf
            == e.buffers.len() + fs.len() - 1,
        opened_files(e, fs).homedir == e.homedir,
        opened_files(e, fs).func_table == e.func_table,
        opened_files(e, fs).keybindings == e.keybindings,
        opened_files(e, fs).sidebar == e.sidebar,
    decreases fs.len(),
{
    if fs.len() > 0 {
        lemma_opened_files(e, fs.drop_last());
    }
}

impl Editor {
    /// A new editor for a terminal of `term_cols` columns and `term_rows`
    /// rows, with the given options, that opens the `files` (each a name and
    /// its contents, `None` when there is no such file), or one new buffer
    /// when no file is given.
    pub fn new(args: &Options, term_cols: u16, term_rows: u16, files: Vec<(String, Option<String>)>) -> (r: Editor)
        ensures
            r@ == new_editor(
                *args,
                term_cols as usize,
                term_rows as usize,
                file_views(files@),
                r@.homedir,
                r@.func_table,
                r@.keybindings,
            ),
            crate::global::func_entries(r@.func_table) == crate::global::func_table_spec(),
            crate::global::binding_entries(r@.keybindings) == crate::global::keybinding_spec(),
    {
        let rows = term_rows as usize;
        let cols = term_cols as usize;
        let bars: usize = if args.no_help { 2 } else { 4 };
        let editwinrows = if rows >= bars { rows - bars } else { 0 };
        let flags = args.flags();
        let func_table = crate::global::build_func_table();
        let keybindings = crate::global::build_keybindings();
        let homedir = crate::utils::get_homedir();
        let ghost ft = func_table@;
        let ghost kb = keybindings@;
        let mut editor = Editor {
            buffers: Vec::new(),
            current_buf: 0,
            flags,
            tabsize: args.tabsize,
            editwinrows,
            editwincols: cols,
            term_rows: rows,
            term_cols: cols,
            margin: 0,
            sidebar: 0,
            refresh_needed: true,
            lastmessage: MessageType::Vacuum,
            statusmsg: String::new(),
            inhelp: false,
            running: true,
            focusing: false,
            answer: String::new(),
            last_search: String::new(),
            cutbuffer: Vec::new(),
            keep_cutbuffer: false,
            currmenu: Menu { bits: Menu::MAIN },
            func_table,
            keybindings,
            homedir,
            word_chars: None,
            search_flags: EditorFlags::empty(),
            syntaxes: Vec::new(),
            have_palette: false,
            search_history: Vec::new(),
            replace_history: Vec::new(),
        };
        let ghost e0 = editor@;
        assert(e0 == started(*args, cols, rows, editor@.homedir, editor@.func_table, editor@.keybindings)) by {
            assert(e0.buffers =~= Seq::<BufferView>::empty());
            assert(e0.cutbuffer =~= Seq::<LineView>::empty());
            assert(e0.search_history =~= Seq::<Seq<char>>::empty());
            assert(e0.replace_history =~= Seq::<Seq<char>>::empty());
            assert(e0.syntaxes =~= Seq::<crate::color::SyntaxView>::empty());
        }
        let ghost fs = file_views(files@);
        let n = files.len();
        if n == 0 {
            editor.make_new_buffer();
        } else {
            let mut i: usize = 0;
            while i < n
                invariant
                    n == files@.len() == fs.len(),
                    fs == file_views(files@),
                    i <= n,
                    editor@ == opened_files(e0, fs.take(i as int)),
                    editor@.homedir == e0.homedir,
                    e0.buffers.len() == 0,
                    editor@.buffers.len() == i,
                    i > 0 ==> editor.current_buf == i - 1,
                decreases n - i,
            {
                let content = match &files[i].1 {
                    Some(c) => Some(copy_text(c.as_str())),
                    None => None,
                };
                let name = crate::utils::expand_tilde(files[i].0.as_str(), &editor.homedir);
                assert(fs.take(i + 1).drop_last() =~= fs.take(i as int));
                editor.open_buffer_named(name.as_str(), content);
                proof {
                    lemma_opened_files(e0, fs.take(i as int));
                }
                i += 1;
            }
            assert(fs.take(n as int) =~= fs);
        }
        proof {
            lemma_opened_files(e0, fs);
            assert(editor.buffers@.len() == editor@.buffers.len());
            lemma_cur(&editor);
            lemma_margin_bound(editor@);
        }
        editor.confirm_margin();
        assert(editor@.func_table == ft);
        assert(editor@.keybindings == kb);
        editor
    }
}

impl EditorView {
    /// The line and column (counted from 0) that a start position such as
    /// `12,5` names: 1 where a part is missing or less than 1.
    pub open spec fn start_target(pos: Seq<char>) -> (int, int) {
        let lc = crate::utils::line_column(pos);
        let l: int = match lc.0 {
            Some(v) => if v > 1 { v as int } else { 1 },
            None => 1,
        };
        let c: int = match lc.1 {
            Some(v) => if v > 1 { v as int } else { 1 },
            None => 1,
        };
        (l - 1, c - 1)
    }

    /// The line that the start position `pos` puts the cursor on.
    pub open spec fn start_line(self, pos: Seq<char>) -> int {
        let t = Self::start_target(pos).0;
        let last = self.cur().lines.len() - 1;
        if t < last { t } else { last }
    }

    /// What `go_to_start_position(pos)` leaves: the cursor on the named
    /// line (the last when there are fewer), at the named column.
    pub open spec fn at_start_position(self, pos: Seq<char>) -> EditorView {
        let b = self.cur();
        let i = self.start_line(pos);
        self.with_cur(
            BufferView {
                current: i as usize,
                current_x: crate::chars::actual_x_from(
                    b.lines[i].data,
                    Self::start_target(pos).1,
                    self.tabsize as int,
                    0,
                ) as usize,
                ..b
            },
        )
    }
}

impl Editor {
    /// Put the cursor at the start position `pos`, given as `line,column`
    /// (or with `:` or `.` between them), both counted from 1.
    #[verifier::spinoff_prover]
    #[verifier::rlimit(80)]
    pub fn go_to_start_position(&mut self, pos: &str)
        requires
            old(self)@.has_cur(),
            old(self)@.cur().lines.len() > 0,
            crate::chars::cols_ok(
                old(self)@.cur().lines[old(self)@.start_line(pos@)].data,
                old(self)@.tabsize as int,
            ),
        ensures
            final(self)@ == old(self)@.at_start_position(pos@),
    {
        let (line, col) = crate::utils::parse_line_column(pos);
        let l: isize = match line {
            Some(v) => if v > 1 { v } else { 1 },
            None => 1,
        };
        let c: isize = match col {
            Some(v) => if v > 1 { v } else { 1 },
            None => 1,
        };
        let target_line = (l - 1) as usize;
        let target_col = (c - 1) as usize;
        proof {
            lemma_cur(self);
        }
        let cb = self.current_buf;
        let count = self.buffers[cb].lines.len();
        let cur = if target_line < count - 1 { target_line } else { count - 1 };
        assert(cur == old(self)@.start_line(pos@));
        assert(target_col == EditorView::start_target(pos@).1);
        let x = crate::chars::actual_x(self.buffers[cb].lines[cur].data.as_str(), target_col, self.tabsize);
        self.buffers[cb].current = cur;
        self.buffers[cb].current_x = x;
        assert(self@.buffers =~= old(self)@.buffers.update(
            cb as int,
            BufferView { current: cur, current_x: x, ..old(self)@.cur() },
        ));
    }
}

} // verus!

verus! {

/// Switching to the next buffer and then back to the previous one returns to
/// the buffer one started in, with its margin, the buffers unchanged.
pub proof fn law_next_then_prev_buffer(e: EditorView)
    requires
        e.has_cur(),
        e.buffers.len() >= 2,
        e.buffers.len() <= usize::MAX,
    ensures
        ({
            let r = e.after_next_buffer().after_prev_buffer();
            &&& r.current_buf == e.current_buf
            &&& r.buffers == e.buffers
            &&& r.margin == e.margin_confirmed().margin
            &&& r.editwincols == e.margin_confirmed().editwincols
        }),
{
    let n = e.buffers.len() as int;
    let c = e.current_buf as int;
    let e1 = e.after_next_buffer();
    assert(e1.current_buf == (c + 1) % n);
    assert(e1.buffers == e.buffers);
    if c + 1 < n {
        vstd::arithmetic::div_mod::lemma_small_mod((c + 1) as nat, n as nat);
    } else {
        assert((c + 1) % n == 0) by (nonlinear_arith)
            requires
                c + 1 == n,
                n > 0,
        ;
    }
}

} // verus!
