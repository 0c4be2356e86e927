//! Turning file contents into buffers and buffers into file contents, and
//! closing buffers.
use vstd::prelude::*;

use crate::definitions::{
    AskResult, renumbered, BufferView, EditorFlags, FormatType, Line, LineView, MessageType, OpenBuffer, fresh_buffer,
    fresh_line, line_views,
};
use crate::editor::{Editor, EditorView};
use crate::textseq::{append_str, chars_of, decimal, decimal_string, lemma_bpos_full, push_char};
use crate::utils::tail_text;

verus! {

/// `s` with each carriage return and line feed pair, and each lone carriage
/// return, made a line feed.
pub open spec fn normalized(s: Seq<char>) -> Seq<char>
    decreases s.len(),
{
    if s.len() == 0 {
        s
    } else if s[0] == '\r' && s.len() > 1 && s[1] == '\n' {
        seq!['\n'] + normalized(s.skip(2))
    } else if s[0] == '\r' {
        seq!['\n'] + normalized(s.skip(1))
    } else {
        seq![s[0]] + normalized(s.skip(1))
    }
}

/// `s` holds a carriage return followed by a line feed.
pub open spec fn has_crlf(s: Seq<char>) -> bool {
    exists|i: int| 0 <= i < s.len() - 1 && s[i] == '\r' && #[trigger] s[i + 1] == '\n'
}

/// The line ending that a file's contents use.
pub open spec fn format_of(s: Seq<char>) -> FormatType {
    if has_crlf(s) {
        FormatType::Dos
    } else if s.contains('\r') {
        FormatType::Mac
    } else {
        FormatType::Unix
    }
}

/// The lines of a file's contents, numbered from 1.
pub open spec fn lines_of(s: Seq<char>) -> Seq<LineView> {
    let parts = crate::cut::split_at_newlines(normalized(s));
    Seq::new(parts.len(), |k: int| fresh_line(parts[k], (k + 1) as usize))
}

/// The buffer that opening the file `name` makes, from its contents, or
/// empty when there is no such file.
pub open spec fn opened_buffer(name: Seq<char>, content: Option<Seq<char>>) -> BufferView {
    match content {
        Some(c) => BufferView {
            filename: name,
            lines: lines_of(c),
            format: format_of(c),
            totsize: crate::textseq::bytes_len(c) as usize,
            ..fresh_buffer()
        },
        None => BufferView { filename: name, ..fresh_buffer() },
    }
}

impl EditorView {
    /// What opening the file `name` leaves: its buffer added and current, and
    /// a word on what was read.
    pub open spec fn after_open(self, name: Seq<char>, content: Option<Seq<char>>) -> EditorView {
        let b = opened_buffer(name, content);
        let e = EditorView {
            buffers: self.buffers.push(b),
            current_buf: self.buffers.len() as usize,
            ..self
        };
        match content {
            Some(_) => e.status(
                MessageType::Info,
                "Read "@ + decimal(b.lines.len()) + " lines ("@ + tail_text(name) + seq![')'],
            ),
            None => e.status(MessageType::Info, "New File ("@ + tail_text(name) + seq![')']),
        }
    }
}

/// The line feed, or carriage return and line feed, or carriage return, that
/// ends a line in the format `f`.
pub open spec fn line_ending(f: FormatType) -> Seq<char> {
    match f {
        FormatType::Dos => seq!['\r', '\n'],
        FormatType::Mac => seq!['\r'],
        _ => seq!['\n'],
    }
}

/// The contents of a file holding the first `k` of the lines `ls`: each line
/// but the last of the buffer with its ending; the last line with an ending
/// only when it holds text and a newline is wanted at the end of files.
pub open spec fn file_text_upto(ls: Seq<LineView>, k: int, ending: Seq<char>, no_newlines: bool) -> Seq<char>
    decreases k,
{
    if k <= 0 || k > ls.len() {
        Seq::empty()
    } else {
        let d = ls[k - 1].data;
        let end = if k - 1 < ls.len() - 1 || (d.len() > 0 && !no_newlines) {
            ending
        } else {
            Seq::empty()
        };
        file_text_upto(ls, k - 1, ending, no_newlines) + d + end
    }
}

impl EditorView {
    /// The contents that writing the current buffer puts in its file.
    pub open spec fn file_contents(self) -> Seq<char> {
        let b = self.cur();
        file_text_upto(
            b.lines,
            b.lines.len() as int,
            line_ending(b.format),
            self.has_flag(EditorFlags::NO_NEWLINES),
        )
    }

    /// What writing the current buffer to the file `name` leaves: the buffer
    /// unmodified and saved at its undo position, and a word on it.
    pub open spec fn after_written(self, name: Seq<char>) -> EditorView {
        let b = self.cur();
        self.with_cur(BufferView { modified: false, last_saved_index: b.undo_index, ..b }).status(
            MessageType::Info,
            "Wrote "@ + decimal(b.lines.len()) + " lines ("@ + tail_text(name) + seq![')'],
        )
    }

    /// What `close_current_buffer` leaves: the editor stopped after its last
    /// buffer, or the buffer gone and its neighbour current.
    pub open spec fn after_close(self) -> EditorView {
        if self.buffers.len() <= 1 {
            EditorView { running: false, ..self }
        } else {
            let bs = self.buffers.remove(self.current_buf as int);
            let cb = if self.current_buf >= bs.len() {
                (bs.len() - 1) as usize
            } else {
                self.current_buf
            };
            EditorView { buffers: bs, current_buf: cb, ..self }.margin_confirmed()
        }
    }
}


/// The view of a result whose two sides are texts.
pub open spec fn result_text(r: Result<String, String>) -> Result<Seq<char>, Seq<char>> {
    match r {
        Ok(s) => Ok(s@),
        Err(e) => Err(e@),
    }
}

impl EditorView {
    /// The texts that inserting a file with the contents `c` puts at the cursor.
    pub open spec fn insert_texts(c: Seq<char>) -> Seq<Seq<char>> {
        crate::cut::split_at_newlines(normalized(c))
    }

    /// What `do_insertfile(name, content)` leaves: nothing but a word when no
    /// name was given or the file could not be read, else the file's lines
    /// put at the cursor, the cursor after them and the buffer modified.
    pub open spec fn after_insert(self, name: Seq<char>, content: Result<Seq<char>, Seq<char>>) -> EditorView {
        if name.len() == 0 {
            self.status(MessageType::Info, "Cancelled"@)
        } else {
            match content {
                Err(e) => self.status(MessageType::Alert, "Error reading "@ + name + ": "@ + e),
                Ok(c) => {
                    let ts = Self::insert_texts(c);
                    let n = ts.len();
                    let b = self.cur();
                    let lines = renumbered(
                        crate::cut::pasted_lines(b.lines, b.current as int, b.current_x as int, ts),
                        b.current as int,
                    );
                    let e = EditorView {
                        refresh_needed: true,
                        ..self.with_cur(
                            BufferView {
                                lines,
                                current: (if n == 1 {
                                    b.current as int
                                } else {
                                    b.current + n - 1
                                }) as usize,
                                current_x: (if n == 1 {
                                    b.current_x + crate::textseq::bytes_len(ts[0])
                                } else {
                                    crate::textseq::bytes_len(ts[n - 1]) as int
                                }) as usize,
                                modified: true,
                                ..b
                            },
                        ).margin_confirmed()
                    };
                    e.status(MessageType::Info, "Inserted "@ + decimal(n) + " lines"@)
                },
            }
        }
    }

    /// `do_insertfile` can run: the cursor is in the text and the lines fit.
    pub open spec fn can_insert_file(self, content: Seq<char>) -> bool {
        &&& self.has_cur()
        &&& self.cur().cursor_ok()
        &&& self.sidebar_fits()
        &&& self.cur().lines.len() + Self::insert_texts(content).len() <= usize::MAX
    }

    /// What `do_exit(response)` leaves, `response` being the answer to the
    /// question whether to save a modified buffer (given after any saving
    /// that the answer asked for was done).
    pub open spec fn after_exit(self, response: AskResult) -> EditorView {
        let e = if !self.cur().modified {
            self.after_close()
        } else {
            match response {
                AskResult::No => self.after_close(),
                AskResult::Cancel => self.status(MessageType::Info, "Cancelled"@),
                _ => self,
            }
        };
        EditorView { refresh_needed: true, ..e }
    }
}
} // verus!

verus! {

/// The characters of `s` with its line endings made line feeds, and the
/// format they were in.
fn normalize_text(s: &str) -> (r: (Vec<char>, FormatType))
    ensures
        r.0@ == normalized(s@),
        r.1 == format_of(s@),
{
    let cs = chars_of(s);
    let n = cs.len();
    let mut out: Vec<char> = Vec::new();
    let mut crlf = false;
    let mut cr = false;
    let mut i: usize = 0;
    assert(s@.skip(0) =~= s@);
    while i < n
        invariant
            cs@ == s@,
            n == cs@.len(),
            i <= n,
            normalized(s@) == out@ + normalized(s@.skip(i as int)),
            crlf == exists|j: int| 0 <= j < i && j < n - 1 && cs@[j] == '\r' && #[trigger] cs@[j + 1] == '\n',
            cr == exists|j: int| 0 <= j < i && #[trigger] cs@[j] == '\r',
        decreases n - i,
    {
        let ghost rest = s@.skip(i as int);
        let c = cs[i];
        if c == '\r' {
            cr = true;
            out.push('\n');
            if i + 1 < n && cs[i + 1] == '\n' {
                crlf = true;
                assert(rest.skip(2) =~= s@.skip(i + 2));
                assert(normalized(s@) =~= out@ + normalized(s@.skip(i + 2)));
                proof {
                    assert forall|j: int| 0 <= j < i + 2 && j < n - 1 && cs@[j] == '\r' && #[trigger] cs@[j + 1] == '\n' implies 0 <= j < i || j == i by {
                        if j == i + 1 {
                            assert(cs@[j] == '\n');
                        }
                    }
                }
                i = i + 2;
            } else {
                assert(rest.skip(1) =~= s@.skip(i + 1));
                assert(normalized(s@) =~= out@ + normalized(s@.skip(i + 1)));
                i = i + 1;
            }
        } else {
            out.push(c);
            assert(rest.skip(1) =~= s@.skip(i + 1));
            assert(normalized(s@) =~= out@ + normalized(s@.skip(i + 1)));
            proof {
                if i + 1 < n && cs@[i + 1] == '\n' {
                    assert(cs@[i as int] != '\r');
                }
            }
            i = i + 1;
        }
    }
    assert(s@.skip(i as int) =~= Seq::<char>::empty());
    assert(out@ =~= normalized(s@));
    let format = if crlf {
        FormatType::Dos
    } else if cr {
        FormatType::Mac
    } else {
        FormatType::Unix
    };
    proof {
        if crlf {
            assert(has_crlf(s@));
        } else {
            assert(!has_crlf(s@));
        }
        if cr {
            let j = choose|j: int| 0 <= j < i && #[trigger] cs@[j] == '\r';
            assert(s@.contains('\r')) by {
                assert(s@[j] == '\r');
            }
        } else {
            assert(!s@.contains('\r'));
        }
    }
    (out, format)
}

proof fn lemma_normalized_len(s: Seq<char>)
    ensures
        normalized(s).len() <= s.len(),
    decreases s.len(),
{
    if s.len() > 0 {
        if s[0] == '\r' && s.len() > 1 && s[1] == '\n' {
            lemma_normalized_len(s.skip(2));
        } else {
            lemma_normalized_len(s.skip(1));
        }
    }
}

/// The lines of the characters `cs`, split at their line feeds and numbered from 1.
fn numbered_lines_of(cs: &Vec<char>) -> (r: Vec<Line>)
    requires
        cs@.len() < usize::MAX,
    ensures
        line_views(r@) == Seq::new(
            crate::cut::split_at_newlines(cs@).len(),
            |k: int| fresh_line(crate::cut::split_at_newlines(cs@)[k], (k + 1) as usize),
        ),
{
    let n = cs.len();
    let mut done: Vec<Line> = Vec::new();
    let mut piece = String::new();
    let mut k: usize = 0;
    assert(cs@.take(0) =~= Seq::<char>::empty());
    assert(crate::definitions::texts(line_views(done@)).push(piece@) =~= crate::cut::split_at_newlines(cs@.take(0)));
    while k < n
        invariant
            n == cs@.len(),
            k <= n,
            crate::definitions::texts(line_views(done@)).push(piece@) == crate::cut::split_at_newlines(cs@.take(k as int)),
            forall|j: int| 0 <= j < done@.len() ==> #[trigger] done@[j]@ == fresh_line(done@[j]@.data, (j + 1) as usize),
            done@.len() <= k,
        decreases n - k,
    {
        let c = cs[k];
        let ghost prev = crate::cut::split_at_newlines(cs@.take(k as int));
        assert(cs@.take(k + 1).drop_last() =~= cs@.take(k as int));
        if c == '\n' {
            let num = done.len() + 1;
            let ghost pd = done@;
            done.push(Line::new(piece, num));
            piece = String::new();
            assert(crate::definitions::texts(line_views(done@)) =~= crate::definitions::texts(line_views(pd)).push(done@[num - 1]@.data));
            assert(crate::definitions::texts(line_views(done@)).push(piece@) =~= prev.push(Seq::empty()));
        } else {
            push_char(&mut piece, c);
            assert(crate::definitions::texts(line_views(done@)).push(piece@) =~= prev.update(prev.len() - 1, prev.last().push(c)));
        }
        k += 1;
    }
    let num = done.len() + 1;
    done.push(Line::new(piece, num));
    assert(cs@.take(n as int) =~= cs@);
    assert(line_views(done@) =~= Seq::new(
        crate::cut::split_at_newlines(cs@).len(),
        |k: int| fresh_line(crate::cut::split_at_newlines(cs@)[k], (k + 1) as usize),
    ));
    done
}

impl Editor {
    /// Open a buffer for the file `name` (its path with `~` expanded), from
    /// its contents, or empty when there is no such file.
    pub fn open_buffer_named(&mut self, name: &str, content: Option<String>)
        ensures
            final(self)@ == old(self)@.after_open(name@, crate::definitions::opt_text(content)),
    {
        let mut buf = OpenBuffer::new();
        buf.filename = crate::textseq::copy_text(name);
        let exists = content.is_some();
        match content {
            Some(c) => {
                let (norm, format) = normalize_text(c.as_str());
            let _cb = crate::textseq::byte_len(c.as_str());
            proof {
                lemma_normalized_len(c@);
                lemma_bpos_full(c@);
                crate::textseq::lemma_bpos_mono(c@, 0, c@.len() as int);
            }
                buf.lines = numbered_lines_of(&norm);
                buf.format = format;
                buf.totsize = crate::textseq::byte_len(c.as_str());
                assert(buf@.lines =~= lines_of(c@));
            },
            None => {},
        }
        buf.modified = false;
        buf.current = 0;
        buf.current_x = 0;
        buf.edittop = 0;
        let nlines = buf.lines.len();
        self.buffers.push(buf);
        self.current_buf = self.buffers.len() - 1;
        assert(self@.buffers =~= old(self)@.buffers.push(opened_buffer(name@, crate::definitions::opt_text(content))));
        let tail = crate::utils::tail(name);
        let mut msg = String::new();
        if exists {
            append_str(&mut msg, "Read ");
            append_str(&mut msg, decimal_string(nlines).as_str());
            append_str(&mut msg, " lines (");
        } else {
            append_str(&mut msg, "New File (");
        }
        append_str(&mut msg, tail);
        push_char(&mut msg, ')');
        proof {
            let b = opened_buffer(name@, crate::definitions::opt_text(content));
            assert(tail@ == tail_text(name@));
            if exists {
                assert(msg@ =~= "Read "@ + decimal(b.lines.len()) + " lines ("@ + tail_text(name@) + seq![')']);
            } else {
                assert(msg@ =~= "New File ("@ + tail_text(name@) + seq![')']);
            }
        }
        self.statusline(MessageType::Info, msg.as_str());
    }

    /// Open a buffer for the file `filename`, from its contents (`None` when
    /// there is no such file); a leading `~` stands for the home directory.
    pub fn open_buffer(&mut self, filename: &str, content: Option<String>)
        ensures
            exists|home: Option<Seq<char>>|
                final(self)@ == old(self)@.after_open(
                    crate::utils::tilde_expansion(filename@, home),
                    crate::definitions::opt_text(content),
                ),
    {
        let expanded = crate::utils::real_dir_from_tilde(filename);
        self.open_buffer_named(expanded.as_str(), content);
    }
}

} // verus!

verus! {

/// Splitting a text at its line feeds gives at least one piece.
proof fn lemma_split_nonempty(s: Seq<char>)
    ensures
        crate::cut::split_at_newlines(s).len() > 0,
    decreases s.len(),
{
    if s.len() > 0 {
        lemma_split_nonempty(s.drop_last());
    }
}

/// The texts of the characters `cs` split at their line feeds.
fn split_chars(cs: &Vec<char>) -> (r: Vec<String>)
    ensures
        crate::editor::text_views(r@) == crate::cut::split_at_newlines(cs@),
{
    let n = cs.len();
    let mut done: Vec<String> = Vec::new();
    let mut piece = String::new();
    let mut k: usize = 0;
    assert(cs@.take(0) =~= Seq::<char>::empty());
    assert(crate::editor::text_views(done@).push(piece@) =~= crate::cut::split_at_newlines(cs@.take(0)));
    while k < n
        invariant
            n == cs@.len(),
            k <= n,
            crate::editor::text_views(done@).push(piece@) == crate::cut::split_at_newlines(cs@.take(k as int)),
        decreases n - k,
    {
        let c = cs[k];
        let ghost prev = crate::cut::split_at_newlines(cs@.take(k as int));
        assert(cs@.take(k + 1).drop_last() =~= cs@.take(k as int));
        if c == '\n' {
            let ghost pd = done@;
            done.push(piece);
            piece = String::new();
            assert(crate::editor::text_views(done@) =~= crate::editor::text_views(pd).push(done@[done@.len() - 1]@));
            assert(crate::editor::text_views(done@).push(piece@) =~= prev.push(Seq::empty()));
        } else {
            push_char(&mut piece, c);
            assert(crate::editor::text_views(done@).push(piece@) =~= prev.update(prev.len() - 1, prev.last().push(c)));
        }
        k += 1;
    }
    let ghost pd = done@;
    done.push(piece);
    assert(cs@.take(n as int) =~= cs@);
    assert(crate::editor::text_views(done@) =~= crate::editor::text_views(pd).push(done@[done@.len() - 1]@));
    done
}

impl Editor {
    /// The contents that writing the current buffer puts in its file: each
    /// line but the last followed by the ending of the buffer's format; the
    /// last one too when it holds text and a newline is wanted at the end.
    pub fn file_text(&self) -> (r: String)
        requires
            self@.has_cur(),
        ensures
            r@ == self@.file_contents(),
    {
        proof {
            crate::editor::lemma_cur(self);
        }
        let buf = &self.buffers[self.current_buf];
        let ending = match buf.format {
            FormatType::Dos => "\r\n",
            FormatType::Mac => "\r",
            _ => "\n",
        };
        proof {
            reveal_strlit("\r\n");
            reveal_strlit("\r");
            reveal_strlit("\n");
        }
        assert(ending@ == line_ending(buf@.format));
        let no_newlines = self.flags.contains(EditorFlags::NO_NEWLINES);
        let n = buf.lines.len();
        let mut out = String::new();
        let mut i: usize = 0;
        while i < n
            invariant
                n == buf.lines@.len() == buf@.lines.len(),
                buf@ == self@.cur(),
                i <= n,
                ending@ == line_ending(buf@.format),
                no_newlines == self@.has_flag(EditorFlags::NO_NEWLINES),
                out@ == file_text_upto(buf@.lines, i as int, ending@, no_newlines),
            decreases n - i,
        {
            assert(buf.lines@[i as int]@ == buf@.lines[i as int]);
            append_str(&mut out, buf.lines[i].data.as_str());
            if i + 1 < n || (!crate::cut::text_is_empty(buf.lines[i].data.as_str()) && !no_newlines) {
                append_str(&mut out, ending);
            }
            i += 1;
        }
        out
    }

    /// Note that the current buffer was written to the file `name`: it is
    /// no longer modified, and a word says how many lines went out.
    pub fn note_written(&mut self, name: &str)
        requires
            old(self)@.has_cur(),
        ensures
            final(self)@ == old(self)@.after_written(name@),
    {
        let cb = self.current_buf;
        proof {
            crate::editor::lemma_cur(self);
        }
        self.buffers[cb].modified = false;
        self.buffers[cb].last_saved_index = self.buffers[cb].undo_index;
        assert(self@.buffers =~= old(self)@.buffers.update(
            cb as int,
            BufferView { modified: false, last_saved_index: old(self)@.cur().undo_index, ..old(self)@.cur() },
        ));
        let count = self.buffers[cb].lines.len();
        let tail = crate::utils::tail(name);
        let mut msg = String::new();
        append_str(&mut msg, "Wrote ");
        append_str(&mut msg, decimal_string(count).as_str());
        append_str(&mut msg, " lines (");
        append_str(&mut msg, tail);
        push_char(&mut msg, ')');
        assert(msg@ =~= "Wrote "@ + decimal(count as nat) + " lines ("@ + tail_text(name@) + seq![')']);
        self.statusline(MessageType::Info, msg.as_str());
    }

    /// Close the current buffer: the editor stops after its last buffer;
    /// otherwise the buffer goes and its neighbour becomes current.
    pub fn close_current_buffer(&mut self)
        requires
            old(self)@.has_cur(),
            old(self)@.sidebar_fits(),
        ensures
            final(self)@ == old(self)@.after_close(),
    {
        if self.buffers.len() <= 1 {
            self.running = false;
        } else {
            let ghost bs0 = self@.buffers;
            let cb = self.current_buf;
            let _gone = self.buffers.remove(cb);
            assert(self@.buffers =~= bs0.remove(cb as int));
            if self.current_buf >= self.buffers.len() {
                self.current_buf = self.buffers.len() - 1;
            }
            proof {
                crate::editor::lemma_cur(self);
                crate::editor::lemma_margin_bound(self@);
            }
            self.confirm_margin();
        }
    }

    /// Leave the current buffer, `response` being the answer to whether to
    /// save it when it was modified (any saving that the answer asked for
    /// having been done): an unmodified buffer, or one the answer says not
    /// to save, is closed; a cancel says so; a buffer still modified stays.
    pub fn do_exit(&mut self, response: AskResult)
        requires
            old(self)@.has_cur(),
            old(self)@.sidebar_fits(),
        ensures
            final(self)@ == old(self)@.after_exit(response),
    {
        let cb = self.current_buf;
        if !self.buffers[cb].modified {
            self.close_current_buffer();
        } else {
            match response {
                AskResult::No => self.close_current_buffer(),
                AskResult::Cancel => self.statusline(MessageType::Info, "Cancelled"),
                _ => {},
            }
        }
        self.refresh_needed = true;
    }

    /// Insert the file `name`, read as `content` (its text, or the words of
    /// the error that reading it gave), at the cursor.  An empty name means
    /// the question was cancelled.
    #[verifier::rlimit(40)]
    pub fn do_insertfile(&mut self, name: &str, content: Result<String, String>)
        requires
            name@.len() > 0 ==> match content {
                Ok(c) => old(self)@.can_insert_file(c@),
                Err(_) => true,
            },
        ensures
            final(self)@ == old(self)@.after_insert(name@, result_text(content)),
    {
        if crate::cut::text_is_empty(name) {
            self.statusline(MessageType::Info, "Cancelled");
            return;
        }
        match content {
            Err(e) => {
                let mut msg = String::new();
                append_str(&mut msg, "Error reading ");
                append_str(&mut msg, name);
                append_str(&mut msg, ": ");
                append_str(&mut msg, e.as_str());
                assert(msg@ =~= "Error reading "@ + name@ + ": "@ + e@);
                self.statusline(MessageType::Alert, msg.as_str());
            },
            Ok(c) => {
                let (norm, _format) = normalize_text(c.as_str());
                let ts = split_chars(&norm);
                let n = ts.len();
                let cb = self.current_buf;
                let ghost e0 = self@;
                proof {
                    crate::editor::lemma_cur(self);
                }
                let start = self.buffers[cb].current;
                proof {
                    lemma_split_nonempty(norm@);
                }
                self.buffers[cb].paste_lines(&ts);
                self.buffers[cb].renumber_from(start);
                self.buffers[cb].modified = true;
                proof {
                    let b = e0.cur();
                    let tv = crate::editor::text_views(ts@);
                    assert(tv == EditorView::insert_texts(c@));
                    assert(self@.buffers =~= e0.buffers.update(cb as int, BufferView {
                        lines: renumbered(
                            crate::cut::pasted_lines(b.lines, b.current as int, b.current_x as int, tv),
                            b.current as int,
                        ),
                        current: (if n == 1 {
                            b.current as int
                        } else {
                            b.current + n - 1
                        }) as usize,
                        current_x: (if n == 1 {
                            b.current_x + crate::textseq::bytes_len(tv[0])
                        } else {
                            crate::textseq::bytes_len(tv[n - 1]) as int
                        }) as usize,
                        modified: true,
                        ..b
                    }));
                    crate::editor::lemma_cur(self);
                    crate::editor::lemma_margin_bound(self@);
                }
                self.confirm_margin();
                self.refresh_needed = true;
                let mut msg = String::new();
                append_str(&mut msg, "Inserted ");
                append_str(&mut msg, decimal_string(n).as_str());
                append_str(&mut msg, " lines");
                assert(msg@ =~= "Inserted "@ + decimal(n as nat) + " lines"@);
                self.statusline(MessageType::Info, msg.as_str());
            },
        }
    }
}

} // verus!

verus! {

proof fn lemma_normalized_plain(s: Seq<char>)
    requires
        !s.contains('\r'),
    ensures
        normalized(s) == s,
    decreases s.len(),
{
    if s.len() > 0 {
        assert(s[0] != '\r');
        let t = s.skip(1);
        assert(!t.contains('\r')) by {
            if t.contains('\r') {
                let i = choose|i: int| 0 <= i < t.len() && t[i] == '\r';
                assert(s[i + 1] == '\r');
            }
        }
        lemma_normalized_plain(t);
        assert(seq![s[0]] + t =~= s);
    }
}

proof fn lemma_joined_push(xs: Seq<Seq<char>>, c: char)
    requires
        xs.len() >= 1,
    ensures
        crate::cut::joined(xs.update(xs.len() - 1, xs.last().push(c))) == crate::cut::joined(xs).push(c),
{
    let ys = xs.update(xs.len() - 1, xs.last().push(c));
    if xs.len() > 1 {
        assert(ys.drop_last() =~= xs.drop_last());
    }
}

proof fn lemma_joined_split(s: Seq<char>)
    ensures
        crate::cut::joined(crate::cut::split_at_newlines(s)) == s,
        crate::cut::split_at_newlines(s).len() >= 1,
        (crate::cut::split_at_newlines(s).last().len() == 0) == (s.len() == 0 || s.last() == '\n'),
    decreases s.len(),
{
    if s.len() > 0 {
        let r = crate::cut::split_at_newlines(s.drop_last());
        lemma_joined_split(s.drop_last());
        if s.last() == '\n' {
            assert(r.push(Seq::<char>::empty()).drop_last() =~= r);
            assert(crate::cut::joined(r) + seq!['\n'] + Seq::<char>::empty() =~= s);
        } else {
            lemma_joined_push(r, s.last());
            assert(s.drop_last().push(s.last()) =~= s);
        }
    }
}

/// The contents of all lines but the last of a Unix buffer are its texts
/// joined by line feeds, each line ending with one.
proof fn lemma_file_text_unix(ls: Seq<LineView>, k: int, nn: bool)
    requires
        1 <= k < ls.len(),
    ensures
        file_text_upto(ls, k, seq!['\n'], nn) == crate::cut::joined(crate::definitions::texts(ls).take(k)) + seq!['\n'],
    decreases k,
{
    let ts = crate::definitions::texts(ls);
    if k > 1 {
        lemma_file_text_unix(ls, k - 1, nn);
        assert(ts.take(k).drop_last() =~= ts.take(k - 1));
    } else {
        assert(file_text_upto(ls, 0, seq!['\n'], nn) =~= Seq::<char>::empty());
    }
}

/// Opening a file whose contents `c` hold no carriage return and writing
/// the buffer straight back gives exactly `c`, but for a line feed added
/// after a last line that has text when a newline is wanted at the end of
/// files.
pub proof fn law_open_then_write(e: EditorView, name: Seq<char>, c: Seq<char>)
    requires
        !c.contains('\r'),
        e.buffers.len() < usize::MAX,
    ensures
        e.after_open(name, Some(c)).file_contents() == (if !e.has_flag(EditorFlags::NO_NEWLINES)
            && c.len() > 0 && c.last() != '\n' {
            c + seq!['\n']
        } else {
            c
        }),
{
    let o = e.after_open(name, Some(c));
    lemma_normalized_plain(c);
    assert(!has_crlf(c)) by {
        if has_crlf(c) {
            let i = choose|i: int| 0 <= i < c.len() - 1 && c[i] == '\r' && #[trigger] c[i + 1] == '\n';
            assert(c.contains('\r')) by {
                assert(c[i] == '\r');
            }
        }
    }
    assert(format_of(c) == FormatType::Unix);
    assert(o.cur() == opened_buffer(name, Some(c)));
    let ls = lines_of(c);
    let parts = crate::cut::split_at_newlines(c);
    lemma_joined_split(c);
    assert(crate::definitions::texts(ls) =~= parts);
    let n = ls.len() as int;
    let nn = e.has_flag(EditorFlags::NO_NEWLINES);
    assert(o.has_flag(EditorFlags::NO_NEWLINES) == nn);
    assert(line_ending(FormatType::Unix) == seq!['\n']);
    if n > 1 {
        lemma_file_text_unix(ls, n - 1, nn);
        assert(parts.take(n) =~= parts);
        assert(parts.take(n - 1) =~= parts.drop_last());
        assert(crate::cut::joined(parts) == crate::cut::joined(parts.drop_last()) + seq!['\n'] + parts.last());
    } else {
        assert(file_text_upto(ls, 0, seq!['\n'], nn) =~= Seq::<char>::empty());
    }
    assert(ls[n - 1].data == parts.last());
}

} // verus!

verus! {

/// `u` with each line feed written as a carriage return and a line feed,
/// as a DOS file holds its line breaks.
pub open spec fn crlf_of(u: Seq<char>) -> Seq<char>
    decreases u.len(),
{
    if u.len() == 0 {
        u
    } else {
        crlf_of(u.drop_last()) + if u.last() == '\n' {
            seq!['\r', '\n']
        } else {
            seq![u.last()]
        }
    }
}

/// The texts `xs` joined by the line ending `e`.
pub open spec fn joined_by(xs: Seq<Seq<char>>, e: Seq<char>) -> Seq<char>
    decreases xs.len(),
{
    if xs.len() == 0 {
        Seq::empty()
    } else if xs.len() == 1 {
        xs[0]
    } else {
        joined_by(xs.drop_last(), e) + e + xs.last()
    }
}

proof fn lemma_normalized_concat(p: Seq<char>, q: Seq<char>)
    requires
        p.len() > 0 ==> p.last() != '\r',
    ensures
        normalized(p + q) == normalized(p) + normalized(q),
    decreases p.len(),
{
    if p.len() == 0 {
        assert(p + q =~= q);
        assert(normalized(p) =~= Seq::<char>::empty());
        assert(Seq::<char>::empty() + normalized(q) =~= normalized(q));
    } else if p[0] == '\r' && p.len() > 1 && p[1] == '\n' {
        assert((p + q).skip(2) =~= p.skip(2) + q);
        if p.len() > 2 {
            assert(p.skip(2).last() == p.last());
        }
        lemma_normalized_concat(p.skip(2), q);
        assert(seq!['\n'] + normalized(p.skip(2)) + normalized(q) =~= seq!['\n'] + (normalized(p.skip(2)) + normalized(q)));
    } else {
        assert(p[0] != '\r' || p.len() > 1);
        assert((p + q)[0] == p[0]);
        if p[0] == '\r' {
            assert(p.len() > 1);
            assert((p + q)[1] == p[1]);
        }
        assert((p + q).skip(1) =~= p.skip(1) + q);
        if p.len() > 1 {
            assert(p.skip(1).last() == p.last());
        }
        lemma_normalized_concat(p.skip(1), q);
        assert(seq![if p[0] == '\r' { '\n' } else { p[0] }] + normalized(p.skip(1)) + normalized(q)
            =~= seq![if p[0] == '\r' { '\n' } else { p[0] }] + (normalized(p.skip(1)) + normalized(q)));
    }
}

proof fn lemma_crlf_shape(u: Seq<char>)
    requires
        !u.contains('\r'),
    ensures
        normalized(crlf_of(u)) == u,
        crlf_of(u).len() > 0 ==> crlf_of(u).last() != '\r',
        u.contains('\n') ==> has_crlf(crlf_of(u)),
        crlf_of(u).contains('\r') ==> u.contains('\n'),
        (crlf_of(u).len() == 0 || crlf_of(u).last() == '\n') == (u.len() == 0 || u.last() == '\n'),
    decreases u.len(),
{
    if u.len() > 0 {
        let v = u.drop_last();
        assert(!v.contains('\r')) by {
            if v.contains('\r') {
                let j = choose|j: int| 0 <= j < v.len() && v[j] == '\r';
                assert(u[j] == '\r');
            }
        }
        lemma_crlf_shape(v);
        let tail: Seq<char> = if u.last() == '\n' { seq!['\r', '\n'] } else { seq![u.last()] };
        lemma_normalized_concat(crlf_of(v), tail);
        assert(u.last() != '\r') by {
            assert(u[u.len() - 1] == u.last());
        }
        if u.last() == '\n' {
            assert(normalized(tail) =~= seq!['\n']) by {
                assert(tail.skip(2) =~= Seq::<char>::empty());
                assert(normalized(tail.skip(2)) =~= Seq::<char>::empty());
            }
            let c = crlf_of(u);
            let k = crlf_of(v).len() as int;
            assert(c[k] == '\r' && c[k + 1] == '\n');
            assert(has_crlf(c));
        } else {
            assert(normalized(tail) =~= seq![u.last()]) by {
                assert(tail.skip(1) =~= Seq::<char>::empty());
                assert(normalized(tail.skip(1)) =~= Seq::<char>::empty());
            }
            assert(u.contains('\n') ==> v.contains('\n')) by {
                if u.contains('\n') {
                    let j = choose|j: int| 0 <= j < u.len() && u[j] == '\n';
                    assert(j < u.len() - 1);
                    assert(v[j] == '\n');
                }
            }
            if v.contains('\n') {
                let c0 = crlf_of(v);
                let i0 = choose|i: int| 0 <= i < c0.len() - 1 && c0[i] == '\r' && #[trigger] c0[i + 1] == '\n';
                assert(crlf_of(u)[i0] == '\r' && crlf_of(u)[i0 + 1] == '\n');
            }
            assert(crlf_of(u).contains('\r') ==> crlf_of(v).contains('\r')) by {
                if crlf_of(u).contains('\r') {
                    let j = choose|j: int| 0 <= j < crlf_of(u).len() && crlf_of(u)[j] == '\r';
                    assert(j < crlf_of(v).len());
                    assert(crlf_of(v)[j] == '\r');
                }
            }
            assert(v.contains('\n') ==> u.contains('\n')) by {
                if v.contains('\n') {
                    let j = choose|j: int| 0 <= j < v.len() && v[j] == '\n';
                    assert(u[j] == '\n');
                }
            }
        }
        assert(u =~= v.push(u.last()));
        assert(normalized(crlf_of(u)) =~= u);
        if u.last() == '\n' {
            assert(u.contains('\n')) by {
                assert(u[u.len() - 1] == '\n');
            }
        }
    } else {
        assert(!crlf_of(u).contains('\r'));
    }
}

proof fn lemma_joined_by_push(xs: Seq<Seq<char>>, e: Seq<char>, c: char)
    requires
        xs.len() >= 1,
    ensures
        joined_by(xs.update(xs.len() - 1, xs.last().push(c)), e) == joined_by(xs, e).push(c),
{
    let ys = xs.update(xs.len() - 1, xs.last().push(c));
    if xs.len() > 1 {
        assert(ys.drop_last() =~= xs.drop_last());
    }
}

proof fn lemma_joined_split_crlf(u: Seq<char>)
    ensures
        joined_by(crate::cut::split_at_newlines(u), seq!['\r', '\n']) == crlf_of(u),
    decreases u.len(),
{
    if u.len() > 0 {
        let r = crate::cut::split_at_newlines(u.drop_last());
        lemma_joined_split_crlf(u.drop_last());
        lemma_joined_split(u.drop_last());
        if u.last() == '\n' {
            assert(r.push(Seq::<char>::empty()).drop_last() =~= r);
            assert(joined_by(r, seq!['\r', '\n']) + seq!['\r', '\n'] + Seq::<char>::empty() =~= crlf_of(u));
        } else {
            lemma_joined_by_push(r, seq!['\r', '\n'], u.last());
        }
    }
}

proof fn lemma_file_text_ending(ls: Seq<LineView>, k: int, e: Seq<char>, nn: bool)
    requires
        1 <= k < ls.len(),
    ensures
        file_text_upto(ls, k, e, nn) == joined_by(crate::definitions::texts(ls).take(k), e) + e,
    decreases k,
{
    let ts = crate::definitions::texts(ls);
    if k > 1 {
        lemma_file_text_ending(ls, k - 1, e, nn);
        assert(ts.take(k).drop_last() =~= ts.take(k - 1));
    } else {
        assert(file_text_upto(ls, 0, e, nn) =~= Seq::<char>::empty());
    }
}

/// Opening a DOS file (its line breaks all carriage return and line feed,
/// at least one of them, no other carriage return) and writing the buffer
/// straight back gives exactly the same contents, but for a line break
/// added after a last line that has text when a newline is wanted at the
/// end of files.
pub proof fn law_open_then_write_dos(e: EditorView, name: Seq<char>, u: Seq<char>)
    requires
        !u.contains('\r'),
        u.contains('\n'),
        e.buffers.len() < usize::MAX,
    ensures
        e.after_open(name, Some(crlf_of(u))).file_contents() == (if !e.has_flag(EditorFlags::NO_NEWLINES)
            && u.last() != '\n' {
            crlf_of(u) + seq!['\r', '\n']
        } else {
            crlf_of(u)
        }),
{
    let c = crlf_of(u);
    lemma_crlf_shape(u);
    assert(format_of(c) == FormatType::Dos);
    let o = e.after_open(name, Some(c));
    assert(o.cur() == opened_buffer(name, Some(c)));
    let ls = lines_of(c);
    let parts = crate::cut::split_at_newlines(u);
    lemma_joined_split(u);
    lemma_joined_split_crlf(u);
    assert(crate::definitions::texts(ls) =~= parts);
    let n = ls.len() as int;
    let nn = e.has_flag(EditorFlags::NO_NEWLINES);
    let crlf = seq!['\r', '\n'];
    assert(line_ending(FormatType::Dos) == crlf);
    assert(u.len() > 0);
    if n > 1 {
        lemma_file_text_ending(ls, n - 1, crlf, nn);
        assert(parts.take(n) =~= parts);
        assert(parts.take(n - 1) =~= parts.drop_last());
    } else {
        assert(file_text_upto(ls, 0, crlf, nn) =~= Seq::<char>::empty());
    }
    assert(ls[n - 1].data == parts.last());
}

} // verus!

verus! {

/// `u` with each line feed written as a carriage return, as an old Mac file
/// holds its line breaks.
pub open spec fn cr_of(u: Seq<char>) -> Seq<char>
    decreases u.len(),
{
    if u.len() == 0 {
        u
    } else {
        cr_of(u.drop_last()) + if u.last() == '\n' {
            seq!['\r']
        } else {
            seq![u.last()]
        }
    }
}

proof fn lemma_cr_shape(u: Seq<char>)
    requires
        !u.contains('\r'),
    ensures
        normalized(cr_of(u)) == u,
        !cr_of(u).contains('\n'),
        u.contains('\n') ==> cr_of(u).contains('\r'),
        cr_of(u).len() == u.len(),
    decreases u.len(),
{
    if u.len() > 0 {
        let v = u.drop_last();
        assert(!v.contains('\r')) by {
            if v.contains('\r') {
                let j = choose|j: int| 0 <= j < v.len() && v[j] == '\r';
                assert(u[j] == '\r');
            }
        }
        lemma_cr_shape(v);
        let c = cr_of(u);
        let tail: Seq<char> = if u.last() == '\n' { seq!['\r'] } else { seq![u.last()] };
        assert(u.last() != '\r') by {
            assert(u[u.len() - 1] == u.last());
        }
        // the text before the last character does not end with a carriage
        // return followed by what comes next
        lemma_normalized_split_cr(cr_of(v), tail);
        if u.last() == '\n' {
            assert(normalized(tail) =~= seq!['\n']) by {
                assert(tail.skip(1) =~= Seq::<char>::empty());
                assert(normalized(tail.skip(1)) =~= Seq::<char>::empty());
            }
            assert(c[v.len() as int] == '\r');
        } else {
            assert(normalized(tail) =~= seq![u.last()]) by {
                assert(tail.skip(1) =~= Seq::<char>::empty());
                assert(normalized(tail.skip(1)) =~= Seq::<char>::empty());
            }
            if u.contains('\n') {
                let j = choose|j: int| 0 <= j < u.len() && u[j] == '\n';
                assert(j < u.len() - 1);
                assert(v[j] == '\n');
                let k = choose|k: int| 0 <= k < cr_of(v).len() && cr_of(v)[k] == '\r';
                assert(c[k] == '\r');
            }
        }
        assert(!c.contains('\n')) by {
            if c.contains('\n') {
                let j = choose|j: int| 0 <= j < c.len() && c[j] == '\n';
                if j < cr_of(v).len() {
                    assert(cr_of(v)[j] == '\n');
                }
            }
        }
        assert(u =~= v.push(u.last()));
        assert(normalized(c) =~= u);
    }
}

/// Normalizing a text without line feeds splits at any point.
proof fn lemma_normalized_split_cr(p: Seq<char>, q: Seq<char>)
    requires
        !p.contains('\n'),
        q.len() > 0 ==> q[0] != '\n',
    ensures
        normalized(p + q) == normalized(p) + normalized(q),
    decreases p.len(),
{
    if p.len() == 0 {
        assert(p + q =~= q);
        assert(normalized(p) =~= Seq::<char>::empty());
        assert(Seq::<char>::empty() + normalized(q) =~= normalized(q));
    } else {
        let r = p.skip(1);
        assert(!r.contains('\n')) by {
            if r.contains('\n') {
                let j = choose|j: int| 0 <= j < r.len() && r[j] == '\n';
                assert(p[j + 1] == '\n');
            }
        }
        assert((p + q)[0] == p[0]);
        if p.len() > 1 {
            assert((p + q)[1] == p[1]);
            assert(p[1] != '\n');
        } else if q.len() > 0 {
            assert((p + q)[1] == q[0]);
        }
        assert((p + q).skip(1) =~= r + q);
        lemma_normalized_split_cr(r, q);
        assert(seq![if p[0] == '\r' { '\n' } else { p[0] }] + normalized(r) + normalized(q)
            =~= seq![if p[0] == '\r' { '\n' } else { p[0] }] + (normalized(r) + normalized(q)));
    }
}

proof fn lemma_joined_split_cr(u: Seq<char>)
    ensures
        joined_by(crate::cut::split_at_newlines(u), seq!['\r']) == cr_of(u),
    decreases u.len(),
{
    if u.len() > 0 {
        let r = crate::cut::split_at_newlines(u.drop_last());
        lemma_joined_split_cr(u.drop_last());
        lemma_joined_split(u.drop_last());
        if u.last() == '\n' {
            assert(r.push(Seq::<char>::empty()).drop_last() =~= r);
            assert(joined_by(r, seq!['\r']) + seq!['\r'] + Seq::<char>::empty() =~= cr_of(u));
        } else {
            lemma_joined_by_push(r, seq!['\r'], u.last());
        }
    }
}

/// Opening an old Mac file (its line breaks all carriage returns, at least
/// one of them, no line feed) and writing the buffer straight back gives
/// exactly the same contents, but for a carriage return added after a last
/// line that has text when a newline is wanted at the end of files.
pub proof fn law_open_then_write_mac(e: EditorView, name: Seq<char>, u: Seq<char>)
    requires
        !u.contains('\r'),
        u.contains('\n'),
        e.buffers.len() < usize::MAX,
    ensures
        e.after_open(name, Some(cr_of(u))).file_contents() == (if !e.has_flag(EditorFlags::NO_NEWLINES)
            && u.last() != '\n' {
            cr_of(u) + seq!['\r']
        } else {
            cr_of(u)
        }),
{
    let c = cr_of(u);
    lemma_cr_shape(u);
    assert(!has_crlf(c)) by {
        if has_crlf(c) {
            let i = choose|i: int| 0 <= i < c.len() - 1 && c[i] == '\r' && #[trigger] c[i + 1] == '\n';
            assert(c.contains('\n')) by {
                assert(c[i + 1] == '\n');
            }
        }
    }
    assert(format_of(c) == FormatType::Mac);
    let o = e.after_open(name, Some(c));
    assert(o.cur() == opened_buffer(name, Some(c)));
    let ls = lines_of(c);
    let parts = crate::cut::split_at_newlines(u);
    lemma_joined_split(u);
    lemma_joined_split_cr(u);
    assert(crate::definitions::texts(ls) =~= parts);
    let n = ls.len() as int;
    let nn = e.has_flag(EditorFlags::NO_NEWLINES);
    let cr = seq!['\r'];
    assert(line_ending(FormatType::Mac) == cr);
    assert(u.len() > 0);
    if n > 1 {
        lemma_file_text_ending(ls, n - 1, cr, nn);
        assert(parts.take(n) =~= parts);
        assert(parts.take(n - 1) =~= parts.drop_last());
    } else {
        assert(file_text_upto(ls, 0, cr, nn) =~= Seq::<char>::empty());
    }
    assert(ls[n - 1].data == parts.last());
}

} // verus!
