//! The search and replace histories.
use vstd::prelude::*;

use crate::editor::{Editor, EditorView, text_views};
use crate::textseq::copy_text;

verus! {

/// The most entries a history keeps.
pub const MAX_HISTORY_ENTRIES: usize = 100;

/// `h` with `item` added: any earlier copy of it taken out, the item put
/// last, and the oldest entry dropped when there are too many.
pub open spec fn history_with(h: Seq<Seq<char>>, item: Seq<char>) -> Seq<Seq<char>> {
    if item.len() == 0 {
        h
    } else {
        let r = h.filter(|s: Seq<char>| s != item).push(item);
        if r.len() > MAX_HISTORY_ENTRIES {
            r.drop_first()
        } else {
            r
        }
    }
}

/// `h` with `item` added, as a vector of texts.
fn add_to_history(h: &mut Vec<String>, item: &str)
    ensures
        text_views(final(h)@) == history_with(text_views(old(h)@), item@),
{
    if crate::cut::text_is_empty(item) {
        return;
    }
    let ghost f = |s: Seq<char>| s != item@;
    let mut kept: Vec<String> = Vec::new();
    let mut i: usize = 0;
    while i < h.len()
        invariant
            i <= h@.len(),
            h@ == old(h)@,
            f == (|s: Seq<char>| s != item@),
            text_views(kept@) == text_views(h@).take(i as int).filter(f),
        decreases h@.len() - i,
    {
        let ghost prev = kept@;
        proof {
            assert(text_views(h@).take(i + 1) =~= text_views(h@).take(i as int).push(h@[i as int]@));
            text_views(h@).take(i as int).lemma_filter_push(h@[i as int]@, f);
        }
        if !crate::search::same_text(h[i].as_str(), item) {
            kept.push(copy_text(h[i].as_str()));
            assert(text_views(kept@) =~= text_views(prev).push(h@[i as int]@));
        }
        i += 1;
    }
    assert(text_views(h@).take(h@.len() as int) =~= text_views(h@));
    let ghost before = kept@;
    kept.push(copy_text(item));
    assert(text_views(kept@) =~= text_views(before).push(item@));
    if kept.len() > MAX_HISTORY_ENTRIES {
        let _oldest = kept.remove(0);
        assert(text_views(kept@) =~= text_views(before).push(item@).drop_first());
    }
    *h = kept;
}

impl Editor {
    /// Add a search string to the search history.
    pub fn add_to_search_history(&mut self, item: &str)
        ensures
            final(self)@ == (EditorView {
                search_history: history_with(old(self)@.search_history, item@),
                ..old(self)@
            }),
    {
        add_to_history(&mut self.search_history, item);
    }

    /// Add a replace string to the replace history.
    pub fn add_to_replace_history(&mut self, item: &str)
        ensures
            final(self)@ == (EditorView {
                replace_history: history_with(old(self)@.replace_history, item@),
                ..old(self)@
            }),
    {
        add_to_history(&mut self.replace_history, item);
    }
}

} // verus!

verus! {

/// Adding a non-empty item to a history within the cap leaves it within the
/// cap, with the item as the newest entry and no other copy of it.
pub proof fn law_history_add(h: Seq<Seq<char>>, item: Seq<char>)
    requires
        item.len() > 0,
        h.len() <= MAX_HISTORY_ENTRIES,
    ensures
        history_with(h, item).len() > 0,
        history_with(h, item).len() <= MAX_HISTORY_ENTRIES,
        history_with(h, item).last() == item,
        forall|i: int| 0 <= i < history_with(h, item).len() - 1 ==> #[trigger] history_with(h, item)[i] != item,
{
    let f = |s: Seq<char>| s != item;
    let kept = h.filter(f);
    h.lemma_filter_len(f);
    #[allow(deprecated)]
    h.filter_lemma(f);
    let r = kept.push(item);
    assert forall|i: int| 0 <= i < r.len() - 1 implies r[i] != item by {
        assert(f(kept[i]));
    }
    if r.len() > MAX_HISTORY_ENTRIES {
        assert forall|i: int| 0 <= i < r.drop_first().len() - 1 implies r.drop_first()[i] != item by {
            assert(r.drop_first()[i] == r[i + 1]);
        }
    }
}

} // verus!

verus! {

/// The search entries of a history file's lines: the non-empty lines before
/// the first empty one.
pub open spec fn search_part(ls: Seq<Seq<char>>) -> Seq<Seq<char>>
    decreases ls.len(),
{
    if ls.len() == 0 || ls[0].len() == 0 {
        Seq::empty()
    } else {
        seq![ls[0]] + search_part(ls.drop_first())
    }
}

/// The replace entries of a history file's lines: the non-empty lines after
/// the first empty one.
pub open spec fn replace_part(ls: Seq<Seq<char>>) -> Seq<Seq<char>>
    decreases ls.len(),
{
    if ls.len() == 0 {
        Seq::empty()
    } else if ls[0].len() == 0 {
        nonempty_lines(ls.drop_first())
    } else {
        replace_part(ls.drop_first())
    }
}

/// The non-empty lines of `ls`, in order.
pub open spec fn nonempty_lines(ls: Seq<Seq<char>>) -> Seq<Seq<char>>
    decreases ls.len(),
{
    if ls.len() == 0 {
        Seq::empty()
    } else {
        (if ls[0].len() > 0 { seq![ls[0]] } else { Seq::empty() }) + nonempty_lines(ls.drop_first())
    }
}

/// The last (at most) `MAX_HISTORY_ENTRIES` entries of `h`, each followed by
/// a line feed.
pub open spec fn history_block(h: Seq<Seq<char>>) -> Seq<char>
    decreases h.len(),
{
    let start = if h.len() > MAX_HISTORY_ENTRIES { h.len() - MAX_HISTORY_ENTRIES } else { 0 };
    lines_block(h.skip(start))
}

/// Each of `h` followed by a line feed.
pub open spec fn lines_block(h: Seq<Seq<char>>) -> Seq<char>
    decreases h.len(),
{
    if h.len() == 0 {
        Seq::empty()
    } else {
        lines_block(h.drop_last()) + h.last() + seq!['\n']
    }
}

impl Editor {
    /// Read the search and replace histories from the contents of the
    /// history file: the search entries, an empty line, the replace entries.
    pub fn load_history(&mut self, content: &str)
        ensures
            final(self)@ == (EditorView {
                search_history: search_part(crate::help::text_lines(content@)),
                replace_history: replace_part(crate::help::text_lines(content@)),
                ..old(self)@
            }),
    {
        let lines = crate::help::lines_of_text(content);
        let ghost ls = crate::help::text_lines(content@);
        let mut search: Vec<String> = Vec::new();
        let mut replace: Vec<String> = Vec::new();
        let mut in_replace = false;
        let mut i: usize = 0;
        assert(ls.skip(0) =~= ls);
        while i < lines.len()
            invariant
                text_views(lines@) == ls,
                i <= lines@.len(),
                !in_replace ==> search_part(ls) == text_views(search@) + search_part(ls.skip(i as int)),
                !in_replace ==> replace_part(ls) == replace_part(ls.skip(i as int)),
                !in_replace ==> replace@.len() == 0,
                in_replace ==> search_part(ls) == text_views(search@),
                in_replace ==> replace_part(ls) == text_views(replace@) + nonempty_lines(ls.skip(i as int)),
            decreases lines@.len() - i,
        {
            let ghost rest = ls.skip(i as int);
            assert(rest[0] == lines@[i as int]@);
            assert(rest.drop_first() =~= ls.skip(i + 1));
            if crate::cut::text_is_empty(lines[i].as_str()) {
                if !in_replace {
                    assert(search_part(rest) =~= Seq::<Seq<char>>::empty());
                    assert(text_views(search@) + Seq::<Seq<char>>::empty() =~= text_views(search@));
                    assert(text_views(replace@) =~= Seq::<Seq<char>>::empty());
                }
                in_replace = true;
                assert(nonempty_lines(rest) =~= nonempty_lines(ls.skip(i + 1)));
            } else if in_replace {
                let ghost before = text_views(replace@);
                replace.push(copy_text(lines[i].as_str()));
                assert(text_views(replace@) =~= before.push(rest[0]));
                assert(text_views(replace@) + nonempty_lines(ls.skip(i + 1)) =~= before + nonempty_lines(rest));
            } else {
                let ghost before = text_views(search@);
                search.push(copy_text(lines[i].as_str()));
                assert(text_views(search@) =~= before.push(rest[0]));
                assert(before + search_part(rest) =~= text_views(search@) + search_part(ls.skip(i + 1)));
            }
            i += 1;
        }
        proof {
            assert(ls.skip(lines@.len() as int) =~= Seq::<Seq<char>>::empty());
            if in_replace {
                assert(text_views(replace@) + Seq::<Seq<char>>::empty() =~= text_views(replace@));
                assert(nonempty_lines(Seq::<Seq<char>>::empty()) =~= Seq::<Seq<char>>::empty());
            } else {
                assert(text_views(search@) + Seq::<Seq<char>>::empty() =~= text_views(search@));
                assert(text_views(replace@) =~= Seq::<Seq<char>>::empty());
            }
            assert(text_views(search@) == search_part(ls));
            assert(text_views(replace@) == replace_part(ls));
        }
        self.search_history = search;
        self.replace_history = replace;
    }

    /// The contents of the history file: the last entries of the search
    /// history, an empty line, the last entries of the replace history.
    pub fn history_text(&self) -> (r: String)
        ensures
            r@ == history_block(self@.search_history) + seq!['\n'] + history_block(self@.replace_history),
    {
        let mut out = String::new();
        append_block(&mut out, &self.search_history);
        crate::textseq::push_char(&mut out, '\n');
        let ghost mid = out@;
        append_block(&mut out, &self.replace_history);
        out
    }
}

/// Append the last entries of `h`, each with a line feed, to `out`.
fn append_block(out: &mut String, h: &Vec<String>)
    ensures
        final(out)@ == old(out)@ + history_block(text_views(h@)),
{
    let n = h.len();
    let start = if n > MAX_HISTORY_ENTRIES { n - MAX_HISTORY_ENTRIES } else { 0 };
    let ghost hv = text_views(h@).skip(start as int);
    let ghost base = out@;
    let mut i = start;
    assert(hv.take(0) =~= Seq::<Seq<char>>::empty());
    while i < n
        invariant
            n == h@.len(),
            start <= i <= n,
            hv == text_views(h@).skip(start as int),
            out@ == base + lines_block(hv.take(i - start)),
        decreases n - i,
    {
        assert(hv.take(i - start + 1).drop_last() =~= hv.take(i - start));
        assert(hv.take(i - start + 1).last() == h@[i as int]@);
        crate::textseq::append_str(out, h[i].as_str());
        crate::textseq::push_char(out, '\n');
        assert(out@ =~= base + lines_block(hv.take(i - start + 1)));
        i += 1;
    }
    assert(hv.take(n - start) =~= hv);
}

} // verus!

verus! {

/// The entries of `h` that `history_block` writes: the last
/// `MAX_HISTORY_ENTRIES` of them.
pub open spec fn kept_entries(h: Seq<Seq<char>>) -> Seq<Seq<char>> {
    let start = if h.len() > MAX_HISTORY_ENTRIES { h.len() - MAX_HISTORY_ENTRIES } else { 0 };
    h.skip(start)
}

/// A history entry that reads back as itself from its own line: not empty,
/// with no line feed and not ending with a carriage return.
pub open spec fn entry_ok(t: Seq<char>) -> bool {
    t.len() > 0 && !t.contains('\n') && t.last() != '\r'
}

/// Appending text without a line feed extends the last of the lines.
proof fn lemma_split_append(s: Seq<char>, t: Seq<char>)
    requires
        !t.contains('\n'),
    ensures
        crate::cut::split_at_newlines(s).len() >= 1,
        crate::cut::split_at_newlines(s + t) == crate::cut::split_at_newlines(s).update(
            crate::cut::split_at_newlines(s).len() - 1,
            crate::cut::split_at_newlines(s).last() + t,
        ),
    decreases t.len(),
{
    let r = crate::cut::split_at_newlines(s);
    assert(r.len() >= 1) by {
        lemma_split_nonempty(s);
    }
    if t.len() == 0 {
        assert(s + t =~= s);
        assert(r.last() + t =~= r.last());
        assert(r.update(r.len() - 1, r.last()) =~= r);
    } else {
        let t0 = t.drop_last();
        assert(!t0.contains('\n')) by {
            if t0.contains('\n') {
                let j = choose|j: int| 0 <= j < t0.len() && t0[j] == '\n';
                assert(t[j] == '\n');
            }
        }
        lemma_split_append(s, t0);
        assert(t.last() != '\n') by {
            assert(t[t.len() - 1] == t.last());
        }
        assert((s + t).drop_last() =~= s + t0);
        assert((s + t).last() == t.last());
        assert(r.last() + t0 + seq![t.last()] =~= r.last() + t);
        assert((r.last() + t0).push(t.last()) =~= r.last() + t);
    }
}

proof fn lemma_split_nonempty(s: Seq<char>)
    ensures
        crate::cut::split_at_newlines(s).len() >= 1,
    decreases s.len(),
{
    if s.len() > 0 {
        lemma_split_nonempty(s.drop_last());
    }
}

/// Splitting parts joined by line feeds gives the parts back, when none
/// holds a line feed.
proof fn lemma_split_joined(ps: Seq<Seq<char>>)
    requires
        ps.len() >= 1,
        forall|i: int| 0 <= i < ps.len() ==> !(#[trigger] ps[i]).contains('\n'),
    ensures
        crate::cut::split_at_newlines(crate::cut::joined(ps)) == ps,
    decreases ps.len(),
{
    if ps.len() == 1 {
        lemma_split_append(Seq::empty(), ps[0]);
        assert(Seq::<char>::empty() + ps[0] =~= ps[0]);
        assert(Seq::<char>::empty() + ps[0] =~= ps[0]);
        assert(seq![Seq::<char>::empty()].update(0, Seq::<char>::empty() + ps[0]) =~= ps);
    } else {
        let q = ps.drop_last();
        lemma_split_joined(q);
        let a = crate::cut::joined(q) + seq!['\n'];
        assert(a.drop_last() =~= crate::cut::joined(q));
        assert(crate::cut::split_at_newlines(a) == q.push(Seq::<char>::empty()));
        lemma_split_append(a, ps.last());
        assert(Seq::<char>::empty() + ps.last() =~= ps.last());
        assert(q.push(Seq::<char>::empty()).update(q.len() as int, ps.last()) =~= ps);
    }
}

/// Joining one more part adds a line feed and the part.
proof fn lemma_joined_snoc(q: Seq<Seq<char>>, c: Seq<char>)
    requires
        q.len() >= 1,
    ensures
        crate::cut::joined(q.push(c)) == crate::cut::joined(q) + seq!['\n'] + c,
{
    assert(q.push(c).drop_last() =~= q);
}

/// Entries, each followed by a line feed, are the entries joined by line
/// feeds and a last line feed.
proof fn lemma_lines_block_joined(h: Seq<Seq<char>>)
    requires
        h.len() > 0,
    ensures
        lines_block(h) == crate::cut::joined(h) + seq!['\n'],
    decreases h.len(),
{
    if h.len() > 1 {
        lemma_lines_block_joined(h.drop_last());
        lemma_joined_snoc(h.drop_last(), h.last());
        assert(h.drop_last().push(h.last()) =~= h);
    } else {
        assert(lines_block(h.drop_last()) =~= Seq::<char>::empty());
        assert(crate::cut::joined(h) == h[0]);
        assert(Seq::<char>::empty() + h.last() + seq!['\n'] =~= h[0] + seq!['\n']);
    }
}

/// The parts that the contents of a history file consist of between line
/// feeds: the search entries, an empty part, the replace entries, and an
/// empty part after the last line feed.
pub open spec fn history_parts(a: Seq<Seq<char>>, b: Seq<Seq<char>>) -> Seq<Seq<char>> {
    (a.push(Seq::empty()) + b).push(Seq::empty())
}

/// The contents of a history file as parts between line feeds.
proof fn lemma_history_joined(a: Seq<Seq<char>>, b: Seq<Seq<char>>)
    ensures
        lines_block(a) + seq!['\n'] + lines_block(b) == crate::cut::joined(history_parts(a, b)),
    decreases b.len(),
{
    let e = Seq::<char>::empty();
    if b.len() == 0 {
        assert(a.push(e) + b =~= a.push(e));
        lemma_joined_snoc(a.push(e), e);
        if a.len() == 0 {
            assert(a.push(e) =~= seq![e]);
            assert(crate::cut::joined(seq![e]) == e);
            assert(lines_block(a) + seq!['\n'] + lines_block(b) =~= e + seq!['\n'] + e);
        } else {
            lemma_joined_snoc(a, e);
            lemma_lines_block_joined(a);
            assert(lines_block(a) + seq!['\n'] + lines_block(b) =~= crate::cut::joined(a) + seq!['\n'] + e + seq!['\n'] + e);
        }
    } else {
        let b0 = b.drop_last();
        let y = b.last();
        lemma_history_joined(a, b0);
        let q = a.push(e) + b0;
        assert(q.len() >= 1);
        lemma_joined_snoc(q, e);
        lemma_joined_snoc(q, y);
        assert(a.push(e) + b =~= q.push(y));
        lemma_joined_snoc(q.push(y), e);
        assert(lines_block(b) == lines_block(b0) + y + seq!['\n']);
        assert(lines_block(a) + seq!['\n'] + lines_block(b) =~= (crate::cut::joined(q) + seq!['\n'] + e) + y + seq!['\n']);
        assert(crate::cut::joined(history_parts(a, b)) =~= crate::cut::joined(q) + seq!['\n'] + y + seq!['\n'] + e);
    }
}

proof fn lemma_search_part(a: Seq<Seq<char>>, r: Seq<Seq<char>>)
    requires
        forall|i: int| 0 <= i < a.len() ==> (#[trigger] a[i]).len() > 0,
    ensures
        search_part(a + seq![Seq::<char>::empty()] + r) == a,
        replace_part(a + seq![Seq::<char>::empty()] + r) == nonempty_lines(r),
    decreases a.len(),
{
    let p = a + seq![Seq::<char>::empty()] + r;
    if a.len() == 0 {
        assert(p[0].len() == 0);
        assert(p.drop_first() =~= r);
    } else {
        assert(p.drop_first() =~= a.drop_first() + seq![Seq::<char>::empty()] + r);
        lemma_search_part(a.drop_first(), r);
        assert(seq![a[0]] + a.drop_first() =~= a);
    }
}

proof fn lemma_nonempty_lines(r: Seq<Seq<char>>)
    requires
        forall|i: int| 0 <= i < r.len() ==> (#[trigger] r[i]).len() > 0,
    ensures
        nonempty_lines(r) == r,
    decreases r.len(),
{
    if r.len() > 0 {
        lemma_nonempty_lines(r.drop_first());
        assert(seq![r[0]] + r.drop_first() =~= r);
    }
}

/// Loading the text that `history_text` writes gives back the last
/// `MAX_HISTORY_ENTRIES` entries of each history, when every entry is a
/// non-empty line with no line feed that does not end with a carriage
/// return.
pub proof fn law_history_round_trip(e: EditorView)
    requires
        forall|i: int| 0 <= i < e.search_history.len() ==> entry_ok(#[trigger] e.search_history[i]),
        forall|i: int| 0 <= i < e.replace_history.len() ==> entry_ok(#[trigger] e.replace_history[i]),
    ensures
        ({
            let text = history_block(e.search_history) + seq!['\n'] + history_block(e.replace_history);
            &&& search_part(crate::help::text_lines(text)) == kept_entries(e.search_history)
            &&& replace_part(crate::help::text_lines(text)) == kept_entries(e.replace_history)
        }),
{
    let a = kept_entries(e.search_history);
    let b = kept_entries(e.replace_history);
    assert(history_block(e.search_history) == lines_block(a));
    assert(history_block(e.replace_history) == lines_block(b));
    let text = lines_block(a) + seq!['\n'] + lines_block(b);
    let ps = history_parts(a, b);
    lemma_history_joined(a, b);
    assert forall|i: int| 0 <= i < ps.len() implies !(#[trigger] ps[i]).contains('\n') by {
        if i < a.len() {
            assert(ps[i] == a[i]);
            assert(entry_ok(a[i]));
        } else if a.len() < i < a.len() + 1 + b.len() {
            assert(ps[i] == b[i - a.len() - 1]);
            assert(entry_ok(b[i - a.len() - 1]));
        } else {
            assert(ps[i].len() == 0);
        }
    }
    lemma_split_joined(ps);
    let kept = a + seq![Seq::<char>::empty()] + b;
    assert(ps.drop_last() =~= kept);
    let tl = crate::help::text_lines(text);
    assert(tl =~= kept) by {
        assert forall|i: int| 0 <= i < kept.len() implies #[trigger] tl[i] == kept[i] by {
            if i < a.len() {
                assert(entry_ok(a[i]));
            } else if a.len() < i {
                assert(kept[i] == b[i - a.len() - 1]);
                assert(entry_ok(b[i - a.len() - 1]));
            }
        }
    }
    assert forall|i: int| 0 <= i < a.len() implies (#[trigger] a[i]).len() > 0 by {
        assert(entry_ok(a[i]));
    }
    assert forall|i: int| 0 <= i < b.len() implies (#[trigger] b[i]).len() > 0 by {
        assert(entry_ok(b[i]));
    }
    lemma_search_part(a, b);
    lemma_nonempty_lines(b);
}

} // verus!

verus! {

/// A position entry as plain values.
pub ghost struct PositionView {
    pub filename: Seq<char>,
    pub linenumber: usize,
    pub columnnumber: usize,
    pub anchors: Seq<char>,
}

impl View for crate::definitions::PositionEntry {
    type V = PositionView;

    open spec fn view(&self) -> PositionView {
        PositionView {
            filename: self.filename@,
            linenumber: self.linenumber,
            columnnumber: self.columnnumber,
            anchors: self.anchors@,
        }
    }
}

/// The views of a sequence of position entries.
pub open spec fn position_views(v: Seq<crate::definitions::PositionEntry>) -> Seq<PositionView> {
    Seq::new(v.len(), |i: int| v[i]@)
}

/// `s` split at its spaces into at most `n` fields (`splitn(n, ' ')`).
pub open spec fn space_fields(s: Seq<char>, n: nat) -> Seq<Seq<char>>
    decreases n,
{
    if n <= 1 {
        seq![s]
    } else {
        match crate::color::char_index(s, ' ', 0) {
            Some(i) => if 0 <= i < s.len() {
                seq![s.take(i)] + space_fields(s.skip(i + 1), (n - 1) as nat)
            } else {
                seq![s]
            },
            None => seq![s],
        }
    }
}

/// What `str::parse::<usize>` reads: an optional `+` and ASCII digits, of a
/// value that fits.
pub open spec fn usize_value(v: Seq<char>) -> Option<usize> {
    let body = if v.len() > 0 && v[0] == '+' { v.drop_first() } else { v };
    if body.len() > 0 && crate::utils::all_digits(body) && crate::utils::digits_value(body) <= usize::MAX {
        Some(crate::utils::digits_value(body) as usize)
    } else {
        None
    }
}

/// The position entry of a line of the position log: a file name, a line
/// and a column (1 when unreadable) and the anchors, separated by spaces.
pub open spec fn position_of(line: Seq<char>) -> Option<PositionView> {
    let f = space_fields(line, 4);
    if f.len() >= 3 {
        Some(
            PositionView {
                filename: f[0],
                linenumber: match usize_value(f[1]) {
                    Some(n) => n,
                    None => 1,
                },
                columnnumber: match usize_value(f[2]) {
                    Some(n) => n,
                    None => 1,
                },
                anchors: if f.len() > 3 { f[3] } else { Seq::empty() },
            },
        )
    } else {
        None
    }
}

/// The entries of the lines `ls` of a position log, skipping lines of fewer
/// than three fields.
pub open spec fn positions_of(ls: Seq<Seq<char>>) -> Seq<PositionView>
    decreases ls.len(),
{
    if ls.len() == 0 {
        Seq::empty()
    } else {
        positions_of(ls.drop_last()) + match position_of(ls.last()) {
            Some(p) => seq![p],
            None => Seq::empty(),
        }
    }
}

/// Read a number as `str::parse::<usize>` does.
fn parse_usize(v: &str) -> (r: Option<usize>)
    ensures
        r == usize_value(v@),
{
    let cs = chars_of_text(v);
    let n = cs.len();
    let start: usize = if n > 0 && cs[0] == '+' { 1 } else { 0 };
    let ghost body = if v@.len() > 0 && v@[0] == '+' { v@.drop_first() } else { v@ };
    assert(body =~= cs@.skip(start as int));
    if start == n {
        return None;
    }
    let mut acc: usize = 0;
    let mut i = start;
    assert(body.take(0).len() == 0);
    while i < n
        invariant
            cs@ == v@,
            n == cs@.len(),
            start <= i <= n,
            body == cs@.skip(start as int),
            body == (if v@.len() > 0 && v@[0] == '+' { v@.drop_first() } else { v@ }),
            forall|k: int| start <= k < i ==> crate::utils::is_digit(#[trigger] cs@[k]),
            acc == crate::utils::digits_value(body.take(i - start)),
        decreases n - i,
    {
        let c = cs[i];
        if !('0' <= c && c <= '9') {
            proof {
                assert(!crate::utils::is_digit(body[i - start]));
                assert(!crate::utils::all_digits(body));
            }
            return None;
        }
        let d = (c as u32 - 48) as usize;
        proof {
            assert(body.take(i - start + 1).drop_last() =~= body.take(i - start));
            assert(body.take(i - start + 1).last() == c);
        }
        let next = match acc.checked_mul(10) {
            Some(m) => m.checked_add(d),
            None => None,
        };
        match next {
            Some(v2) => {
                acc = v2;
            },
            None => {
                proof {
                    if crate::utils::all_digits(body) {
                        crate::utils::lemma_digits_value_grows(body, i - start + 1, body.len() as int);
                        assert(body.take(body.len() as int) =~= body);
                    }
                }
                return None;
            },
        }
        i += 1;
    }
    proof {
        assert(body.take(body.len() as int) =~= body);
        assert forall|k: int| 0 <= k < body.len() implies crate::utils::is_digit(#[trigger] body[k]) by {
            assert(body[k] == cs@[k + start]);
        }
    }
    Some(acc)
}

fn chars_of_text(s: &str) -> (r: Vec<char>)
    ensures
        r@ == s@,
{
    crate::textseq::chars_of(s)
}

/// `s` split at its spaces into at most `n` fields.
fn split_fields(s: &str, n: usize) -> (r: Vec<String>)
    ensures
        text_views(r@) == space_fields(s@, n as nat),
{
    let cs = chars_of_text(s);
    let len = cs.len();
    let mut out: Vec<String> = Vec::new();
    let mut pos: usize = 0;
    let mut left = n;
    assert(s@.skip(0) =~= s@);
    while left > 1
        invariant
            cs@ == s@,
            len == cs@.len(),
            pos <= len,
            space_fields(s@, n as nat) == text_views(out@) + space_fields(s@.skip(pos as int), left as nat),
        decreases left,
    {
        let ghost rest = s@.skip(pos as int);
        proof {
            crate::color::lemma_char_index(rest, ' ', 0);
            crate::color::lemma_char_index(cs@, ' ', pos as int);
            crate::color::lemma_shift_index(cs@, ' ', pos as int, 0);
        }
        match crate::color::find_char(&cs, ' ', pos) {
            None => {
                let last = crate::textseq::string_of(&cs, pos, len);
                assert(last@ =~= rest);
                let ghost prev = text_views(out@);
                out.push(last);
                assert(text_views(out@) =~= prev + space_fields(rest, left as nat));
                return out;
            },
            Some(i) => {
                let piece = crate::textseq::string_of(&cs, pos, i);
                assert(piece@ =~= rest.take(i - pos));
                assert(rest.skip(i - pos + 1) =~= s@.skip(i + 1));
                let ghost prev = text_views(out@);
                out.push(piece);
                assert(text_views(out@) =~= prev.push(rest.take(i - pos)));
                assert(text_views(out@) + space_fields(s@.skip(i + 1), (left - 1) as nat) =~= prev
                    + space_fields(rest, left as nat));
                pos = i + 1;
                left = left - 1;
            },
        }
    }
    let last = crate::textseq::string_of(&cs, pos, len);
    assert(last@ =~= s@.skip(pos as int));
    let ghost prev = text_views(out@);
    out.push(last);
    assert(text_views(out@) =~= prev + space_fields(s@.skip(pos as int), left as nat));
    out
}

impl Editor {
    /// The entries of the position log with the contents `content`, one a
    /// line: a file name, a line and a column, and the anchors.
    pub fn load_positionlog(&self, content: &str) -> (r: Vec<crate::definitions::PositionEntry>)
        ensures
            position_views(r@) == positions_of(crate::help::text_lines(content@)),
    {
        let lines = crate::help::lines_of_text(content);
        let ghost ls = crate::help::text_lines(content@);
        let mut out: Vec<crate::definitions::PositionEntry> = Vec::new();
        let mut i: usize = 0;
        assert(ls.take(0) =~= Seq::<Seq<char>>::empty());
        while i < lines.len()
            invariant
                text_views(lines@) == ls,
                i <= lines@.len(),
                position_views(out@) == positions_of(ls.take(i as int)),
            decreases lines@.len() - i,
        {
            assert(ls.take(i + 1).drop_last() =~= ls.take(i as int));
            assert(ls.take(i + 1).last() == lines@[i as int]@);
            let parts = split_fields(lines[i].as_str(), 4);
            let ghost prev = position_views(out@);
            if parts.len() >= 3 {
                let linenumber = match parse_usize(parts[1].as_str()) {
                    Some(v) => v,
                    None => 1,
                };
                let columnnumber = match parse_usize(parts[2].as_str()) {
                    Some(v) => v,
                    None => 1,
                };
                let anchors = if parts.len() > 3 { copy_text(parts[3].as_str()) } else { String::new() };
                out.push(crate::definitions::PositionEntry {
                    filename: copy_text(parts[0].as_str()),
                    linenumber,
                    columnnumber,
                    anchors,
                });
                assert(position_views(out@) =~= prev.push(position_of(lines@[i as int]@)->0));
            } else {
                assert(position_of(lines@[i as int]@) is None);
            }
            i += 1;
        }
        assert(ls.take(lines@.len() as int) =~= ls);
        out
    }
}

/// The position log line of an entry.
pub open spec fn position_line(p: PositionView) -> Seq<char> {
    p.filename + seq![' '] + crate::textseq::decimal(p.linenumber as nat) + seq![' '] + crate::textseq::decimal(
        p.columnnumber as nat,
    ) + seq![' '] + p.anchors + seq!['\n']
}

/// The log lines of the entries `ps`.
pub open spec fn position_block(ps: Seq<PositionView>) -> Seq<char>
    decreases ps.len(),
{
    if ps.len() == 0 {
        Seq::empty()
    } else {
        position_block(ps.drop_last()) + position_line(ps.last())
    }
}

impl Editor {
    /// The contents of the position log for `entries`: the last 200 of them,
    /// one a line.
    pub fn save_positionlog(&self, entries: &Vec<crate::definitions::PositionEntry>) -> (r: String)
        ensures
            r@ == position_block(position_views(entries@).skip(
                if entries@.len() > 200 { entries@.len() - 200 } else { 0 },
            )),
    {
        let n = entries.len();
        let start: usize = if n > 200 { n - 200 } else { 0 };
        let ghost pv = position_views(entries@).skip(start as int);
        let mut out = String::new();
        let mut i = start;
        assert(pv.take(0) =~= Seq::<PositionView>::empty());
        while i < n
            invariant
                n == entries@.len(),
                start <= i <= n,
                pv == position_views(entries@).skip(start as int),
                out@ == position_block(pv.take(i - start)),
            decreases n - i,
        {
            assert(pv.take(i - start + 1).drop_last() =~= pv.take(i - start));
            assert(pv.take(i - start + 1).last() == entries@[i as int]@);
            let e = &entries[i];
            let ghost before = out@;
            crate::textseq::append_str(&mut out, e.filename.as_str());
            crate::textseq::push_char(&mut out, ' ');
            crate::textseq::append_str(&mut out, crate::textseq::decimal_string(e.linenumber).as_str());
            crate::textseq::push_char(&mut out, ' ');
            crate::textseq::append_str(&mut out, crate::textseq::decimal_string(e.columnnumber).as_str());
            crate::textseq::push_char(&mut out, ' ');
            crate::textseq::append_str(&mut out, e.anchors.as_str());
            crate::textseq::push_char(&mut out, '\n');
            assert(out@ =~= before + position_line(e@));
            i += 1;
        }
        assert(pv.take(n - start) =~= pv);
        out
    }
}

} // verus!
