//! The file browser: how its entries are ordered, and how it answers keys.
use vstd::prelude::*;

use crate::chars::{lowercase, str_to_lowercase};
use crate::definitions::{KeyCode, KeyView};
use crate::editor::{Editor, EditorView};
use crate::textseq::{append_str, chars_of, copy_text, decimal, decimal_string, push_char};

verus! {

/// An entry of a directory listing.
pub struct BrowserEntry {
    pub name: String,
    pub path: String,
    pub is_dir: bool,
    pub size: u64,
}

/// An entry as plain values.
pub ghost struct EntryView {
    pub name: Seq<char>,
    pub path: Seq<char>,
    pub is_dir: bool,
    pub size: u64,
}

impl View for BrowserEntry {
    type V = EntryView;

    open spec fn view(&self) -> EntryView {
        EntryView { name: self.name@, path: self.path@, is_dir: self.is_dir, size: self.size }
    }
}

/// The views of a sequence of entries.
pub open spec fn entry_views(es: Seq<BrowserEntry>) -> Seq<EntryView> {
    Seq::new(es.len(), |i: int| es[i]@)
}

/// `a` comes no later than `b` in the order of their characters' code points.
pub open spec fn text_le(a: Seq<char>, b: Seq<char>) -> bool
    decreases a.len(),
{
    if a.len() == 0 {
        true
    } else if b.len() == 0 {
        false
    } else if a[0] != b[0] {
        a[0] < b[0]
    } else {
        text_le(a.skip(1), b.skip(1))
    }
}

/// The key by which entries are ordered: the lowercased name.
pub open spec fn entry_key(e: EntryView) -> Seq<char> {
    lowercase(e.name)
}

/// `x` put into `s` after every entry whose key is no greater than its own
/// (coming from the end).
pub open spec fn insert_by_name(s: Seq<EntryView>, x: EntryView) -> Seq<EntryView>
    decreases s.len(),
{
    if s.len() == 0 {
        seq![x]
    } else if text_le(entry_key(s.last()), entry_key(x)) {
        s.push(x)
    } else {
        insert_by_name(s.drop_last(), x).push(s.last())
    }
}

/// `s` in the order of the lowercased names, entries with equal keys kept in
/// their order (a stable sort).
pub open spec fn sorted_by_name(s: Seq<EntryView>) -> Seq<EntryView>
    decreases s.len(),
{
    if s.len() == 0 {
        s
    } else {
        insert_by_name(sorted_by_name(s.drop_last()), s.last())
    }
}

/// The entries of `found` that are not hidden (their name does not start
/// with a dot) and are (or are not, as `dirs` says) directories.
pub open spec fn visible_of_kind(found: Seq<EntryView>, dirs: bool) -> Seq<EntryView>
    decreases found.len(),
{
    if found.len() == 0 {
        found
    } else {
        let rest = visible_of_kind(found.drop_last(), dirs);
        let e = found.last();
        if !(e.name.len() > 0 && e.name[0] == '.') && e.is_dir == dirs {
            rest.push(e)
        } else {
            rest
        }
    }
}

/// The entry `..` for the parent directory, when there is one.
pub open spec fn parent_entry(parent: Option<Seq<char>>) -> Seq<EntryView> {
    match parent {
        Some(p) => seq![EntryView { name: seq!['.', '.'], path: p, is_dir: true, size: 0 }],
        None => Seq::empty(),
    }
}

/// The listing that the browser shows: the parent directory first (when
/// there is one), then the visible directories, then the visible files,
/// each group by name.
pub open spec fn arranged(parent: Option<Seq<char>>, found: Seq<EntryView>) -> Seq<EntryView> {
    parent_entry(parent) + sorted_by_name(visible_of_kind(found, true)) + sorted_by_name(
        visible_of_kind(found, false),
    )
}

/// Compare two texts by their characters' code points.
fn text_le_exec(a: &str, b: &str) -> (r: bool)
    ensures
        r == text_le(a@, b@),
{
    let ac = chars_of(a);
    let bc = chars_of(b);
    let mut i: usize = 0;
    assert(a@.skip(0) =~= a@);
    assert(b@.skip(0) =~= b@);
    while i < ac.len()
        invariant
            ac@ == a@,
            bc@ == b@,
            i <= ac@.len(),
            i <= bc@.len(),
            ac@.take(i as int) == bc@.take(i as int),
            text_le(a@, b@) == text_le(a@.skip(i as int), b@.skip(i as int)),
        decreases ac@.len() - i,
    {
        proof {
            lemma_text_le_step(a@, b@, i as int);
        }
        if i >= bc.len() {
            return false;
        }
        if ac[i] != bc[i] {
            return ac[i] < bc[i];
        }
        assert(ac@.take(i + 1) =~= ac@.take(i as int).push(ac@[i as int]));
        assert(bc@.take(i + 1) =~= bc@.take(i as int).push(bc@[i as int]));
        i += 1;
    }
    assert(a@.skip(i as int).len() == 0);
    true
}

proof fn lemma_text_le_step(a: Seq<char>, b: Seq<char>, i: int)
    requires
        0 <= i < a.len(),
        i <= b.len(),
    ensures
        text_le(a.skip(i), b.skip(i)) == (if i >= b.len() {
            false
        } else if a[i] != b[i] {
            a[i] < b[i]
        } else {
            text_le(a.skip(i + 1), b.skip(i + 1))
        }),
{
    assert(a.skip(i).skip(1) =~= a.skip(i + 1));
    if i < b.len() {
        assert(b.skip(i).skip(1) =~= b.skip(i + 1));
    }
}

/// Inserting into `s` where every entry from `j` on has a greater key and the
/// one before it does not.
proof fn lemma_insert_at(s: Seq<EntryView>, x: EntryView, j: int)
    requires
        0 <= j <= s.len(),
        forall|k: int| j <= k < s.len() ==> !text_le(#[trigger] entry_key(s[k]), entry_key(x)),
        j > 0 ==> text_le(entry_key(s[j - 1]), entry_key(x)),
    ensures
        insert_by_name(s, x) == s.take(j).push(x) + s.skip(j),
    decreases s.len(),
{
    if s.len() == 0 {
        assert(s.take(j).push(x) + s.skip(j) =~= seq![x]);
    } else if j == s.len() {
        assert(s.take(j).push(x) + s.skip(j) =~= s.push(x));
    } else {
        let k = s.len() - 1;
        assert(!text_le(entry_key(s[k]), entry_key(x)));
        let t = s.drop_last();
        assert forall|m: int| j <= m < t.len() implies !text_le(#[trigger] entry_key(t[m]), entry_key(x)) by {
            assert(t[m] == s[m]);
        }
        lemma_insert_at(t, x, j);
        assert(s.take(j).push(x) + s.skip(j) =~= (t.take(j).push(x) + t.skip(j)).push(s.last()));
    }
}

/// The entries of `v` ordered by their lowercased names, stably.
fn sort_by_name(v: Vec<BrowserEntry>) -> (r: Vec<BrowserEntry>)
    ensures
        entry_views(r@) == sorted_by_name(entry_views(v@)),
{
    let mut out: Vec<BrowserEntry> = Vec::new();
    let mut keys: Vec<String> = Vec::new();
    let mut rest = v;
    let ghost all = entry_views(rest@);
    let _count = rest.len();
    let mut taken: usize = 0;
    assert(all.take(0) =~= Seq::<EntryView>::empty());
    assert(all.skip(0) =~= all);
    while rest.len() > 0
        invariant
            taken + rest@.len() == all.len(),
            all.len() <= usize::MAX,
            entry_views(rest@) == all.skip(taken as int),
            entry_views(out@) == sorted_by_name(all.take(taken as int)),
            keys@.len() == out@.len(),
            forall|k: int| 0 <= k < out@.len() ==> #[trigger] keys@[k]@ == entry_key(out@[k]@),
        decreases rest@.len(),
    {
        let ghost rv = entry_views(rest@);
        let ghost ro = rest@;
        let x = rest.remove(0);
        assert(rv[0] == x@);
        assert forall|k: int| 0 <= k < rest@.len() implies #[trigger] entry_views(rest@)[k] == all.skip(taken + 1)[k] by {
            assert(rest@[k] == ro[k + 1]);
            assert(rv[k + 1] == all.skip(taken as int)[k + 1]);
        }
        assert(entry_views(rest@) =~= all.skip(taken + 1));
        let xk = str_to_lowercase(x.name.as_str());
        let ghost s = entry_views(out@);
        let mut j = out.len();
        while j > 0 && !text_le_exec(keys[j - 1].as_str(), xk.as_str())
            invariant
                j <= out@.len(),
                s == entry_views(out@),
                keys@.len() == out@.len(),
                forall|k: int| 0 <= k < out@.len() ==> #[trigger] keys@[k]@ == entry_key(out@[k]@),
                xk@ == entry_key(x@),
                forall|k: int| j <= k < s.len() ==> !text_le(#[trigger] entry_key(s[k]), entry_key(x@)),
            decreases j,
        {
            assert(keys@[j - 1]@ == entry_key(s[j - 1]));
            j -= 1;
        }
        proof {
            if j > 0 {
                assert(keys@[j - 1]@ == entry_key(s[j - 1]));
            }
            lemma_insert_at(s, x@, j as int);
            assert(all.take(taken + 1).drop_last() =~= all.take(taken as int));
            assert(all.take(taken + 1).last() == x@) by {
                assert(rv[0] == x@);
            }
        }
        let ghost ko = keys@;
        out.insert(j, x);
        keys.insert(j, xk);
        assert(entry_views(out@) =~= s.take(j as int).push(x@) + s.skip(j as int));
        assert forall|k: int| 0 <= k < out@.len() implies #[trigger] keys@[k]@ == entry_key(out@[k]@) by {
            if k < j {
                assert(keys@[k] == ko[k]);
            } else if k > j {
                assert(keys@[k] == ko[k - 1]);
            }
        }
        taken += 1;
    }
    assert(all.take(taken as int) =~= all);
    out
}

/// Arrange a directory listing for the browser: the parent directory
/// (when `parent` names one) as `..`, then the directories of `found`, then
/// its files, each group ordered by lowercased name; hidden entries (whose
/// name starts with a dot) are left out.
pub fn arrange_entries(parent: Option<String>, found: Vec<BrowserEntry>) -> (r: Vec<BrowserEntry>)
    ensures
        entry_views(r@) == arranged(crate::definitions::opt_text(parent), entry_views(found@)),
{
    let mut entries: Vec<BrowserEntry> = Vec::new();
    let ghost pv = crate::definitions::opt_text(parent);
    match parent {
        Some(p) => {
            let mut dots = String::new();
            push_char(&mut dots, '.');
            push_char(&mut dots, '.');
            assert(dots@ =~= seq!['.', '.']);
            entries.push(BrowserEntry { name: dots, path: p, is_dir: true, size: 0 });
            assert(entry_views(entries@) =~= parent_entry(pv));
        },
        None => {
            assert(entry_views(entries@) =~= parent_entry(pv));
        },
    }
    let ghost fv = entry_views(found@);
    let mut dirs: Vec<BrowserEntry> = Vec::new();
    let mut files: Vec<BrowserEntry> = Vec::new();
    let mut rest = found;
    let _count = rest.len();
    let mut taken: usize = 0;
    assert(fv.take(0) =~= Seq::<EntryView>::empty());
    assert(fv.skip(0) =~= fv);
    assert(visible_of_kind(fv.take(0), true) =~= Seq::<EntryView>::empty());
    assert(visible_of_kind(fv.take(0), false) =~= Seq::<EntryView>::empty());
    while rest.len() > 0
        invariant
            taken + rest@.len() == fv.len(),
            fv.len() <= usize::MAX,
            entry_views(rest@) == fv.skip(taken as int),
            entry_views(dirs@) == visible_of_kind(fv.take(taken as int), true),
            entry_views(files@) == visible_of_kind(fv.take(taken as int), false),
        decreases rest@.len(),
    {
        let ghost rv = entry_views(rest@);
        let ghost ro = rest@;
        let e = rest.remove(0);
        assert(rv[0] == e@);
        assert forall|k: int| 0 <= k < rest@.len() implies #[trigger] entry_views(rest@)[k] == fv.skip(taken + 1)[k] by {
            assert(rest@[k] == ro[k + 1]);
            assert(rv[k + 1] == fv.skip(taken as int)[k + 1]);
        }
        assert(entry_views(rest@) =~= fv.skip(taken + 1));
        let ghost pre = fv.take(taken as int);
        assert(fv.take(taken + 1) =~= pre.push(e@));
        assert(pre.push(e@).drop_last() =~= pre);
        let cs = chars_of(e.name.as_str());
        let hidden = cs.len() > 0 && cs[0] == '.';
        if !hidden {
            if e.is_dir {
                let ghost d0 = entry_views(dirs@);
                dirs.push(e);
                assert(entry_views(dirs@) =~= d0.push(dirs@[dirs@.len() - 1]@));
            } else {
                let ghost f0 = entry_views(files@);
                files.push(e);
                assert(entry_views(files@) =~= f0.push(files@[files@.len() - 1]@));
            }
        }
        taken += 1;
    }
    assert(fv.take(taken as int) =~= fv);
    let sd = sort_by_name(dirs);
    let sf = sort_by_name(files);
    let ghost h = entry_views(entries@);
    let ghost d = entry_views(sd@);
    let ghost f = entry_views(sf@);
    let mut sd = sd;
    let mut sf = sf;
    entries.append(&mut sd);
    entries.append(&mut sf);
    assert(entry_views(entries@) =~= h + d + f);
    entries
}

/// What a key does in the browser.
pub enum BrowserAction {
    /// Nothing more: the selection may have moved.
    Stay,
    /// The browser was left without a choice.
    Cancel,
    /// The selected directory is to be listed and browsed.
    Open(String),
    /// The selected file was chosen.
    Choose(String),
}

/// A browser action as plain values.
pub ghost enum BrowserActionView {
    Stay,
    Cancel,
    Open(Seq<char>),
    Choose(Seq<char>),
}

impl View for BrowserAction {
    type V = BrowserActionView;

    open spec fn view(&self) -> BrowserActionView {
        match self {
            BrowserAction::Stay => BrowserActionView::Stay,
            BrowserAction::Cancel => BrowserActionView::Cancel,
            BrowserAction::Open(p) => BrowserActionView::Open(p@),
            BrowserAction::Choose(p) => BrowserActionView::Choose(p@),
        }
    }
}

/// What the browser shows: a listing, the selected entry and the first one
/// on screen.
pub struct BrowserState {
    pub entries: Vec<BrowserEntry>,
    pub selected: usize,
    pub top: usize,
}

/// The selected entry and the first entry on screen after `key`, in a listing
/// of `n` entries shown `rows` at a time.
pub open spec fn browser_moved(key: KeyView, n: int, sel: int, top: int, rows: int) -> (int, int) {
    match key {
        KeyView::Up => if sel > 0 {
            let s = sel - 1;
            (s, if s < top { s } else { top })
        } else {
            (sel, top)
        },
        KeyView::Down => if sel + 1 < n {
            let s = sel + 1;
            (s, if s >= top + rows { s - rows + 1 } else { top })
        } else {
            (sel, top)
        },
        KeyView::PageUp => (
            if sel >= rows { sel - rows } else { 0 },
            if top >= rows { top - rows } else { 0 },
        ),
        KeyView::PageDown => {
            let last = if n >= 1 { n - 1 } else { 0 };
            let s = if sel + rows < last { sel + rows } else { last };
            (s, if s >= top + rows {
                if s >= rows - 1 { s - (rows - 1) } else { 0 }
            } else {
                top
            })
        },
        KeyView::Home => (0, 0),
        KeyView::End => {
            let s = if n >= 1 { n - 1 } else { 0 };
            (s, if s >= rows - 1 { s - (rows - 1) } else { 0 })
        },
        _ => (sel, top),
    }
}

/// What `key` asks of the browser over the listing `es` with `sel` selected.
pub open spec fn browser_action(key: KeyView, es: Seq<EntryView>, sel: int) -> BrowserActionView {
    match key {
        KeyView::Escape => BrowserActionView::Cancel,
        KeyView::Ctrl(c) => if c == 'c' {
            BrowserActionView::Cancel
        } else {
            BrowserActionView::Stay
        },
        KeyView::Enter => if 0 <= sel < es.len() {
            if es[sel].is_dir {
                BrowserActionView::Open(es[sel].path)
            } else {
                BrowserActionView::Choose(es[sel].path)
            }
        } else {
            BrowserActionView::Stay
        },
        _ => BrowserActionView::Stay,
    }
}

impl Editor {
    /// Answer a key in the file browser: leave it (Escape or ^C), open the
    /// selected directory or choose the selected file (Enter), or move the
    /// selection (arrows, page keys, Home, End), keeping it on screen.
    pub fn do_browser(&mut self, state: &mut BrowserState, key: &KeyCode) -> (r: BrowserAction)
        requires
            old(state).selected + old(self).editwinrows <= usize::MAX,
            old(state).top + old(self).editwinrows <= usize::MAX,
            key@ is PageDown || key@ is End ==> old(self).editwinrows > 0,
        ensures
            r@ == browser_action(key@, entry_views(old(state).entries@), old(state).selected as int),
            (r@ is Stay || r@ is Open) ==> final(self)@ == old(self)@,
            (r@ is Cancel || r@ is Choose) ==> final(self)@ == (EditorView {
                refresh_needed: true,
                ..old(self)@
            }),
            final(state).entries@ == old(state).entries@,
            r@ is Stay ==> (final(state).selected as int, final(state).top as int) == browser_moved(
                key@,
                old(state).entries@.len() as int,
                old(state).selected as int,
                old(state).top as int,
                old(self).editwinrows as int,
            ),
            !(r@ is Stay) ==> final(state).selected == old(state).selected && final(state).top
                == old(state).top,
    {
        let rows = self.editwinrows;
        let n = state.entries.len();
        let sel = state.selected;
        let top = state.top;
        match key {
            KeyCode::Escape => {
                self.refresh_needed = true;
                BrowserAction::Cancel
            },
            KeyCode::Ctrl(c) => {
                if *c == 'c' {
                    self.refresh_needed = true;
                    BrowserAction::Cancel
                } else {
                    BrowserAction::Stay
                }
            },
            KeyCode::Enter => {
                if sel < n {
                    let path = copy_text(state.entries[sel].path.as_str());
                    if state.entries[sel].is_dir {
                        BrowserAction::Open(path)
                    } else {
                        self.refresh_needed = true;
                        BrowserAction::Choose(path)
                    }
                } else {
                    BrowserAction::Stay
                }
            },
            KeyCode::Up => {
                if sel > 0 {
                    let s = sel - 1;
                    state.selected = s;
                    if s < top {
                        state.top = s;
                    }
                }
                BrowserAction::Stay
            },
            KeyCode::Down => {
                if n > 0 && sel < n - 1 {
                    let s = sel + 1;
                    state.selected = s;
                    if s >= top + rows {
                        state.top = s - rows + 1;
                    }
                }
                BrowserAction::Stay
            },
            KeyCode::PageUp => {
                state.selected = if sel >= rows { sel - rows } else { 0 };
                state.top = if top >= rows { top - rows } else { 0 };
                BrowserAction::Stay
            },
            KeyCode::PageDown => {
                let last = if n >= 1 { n - 1 } else { 0 };
                let s = if sel + rows < last { sel + rows } else { last };
                state.selected = s;
                if s >= top + rows {
                    state.top = if s >= rows - 1 { s - (rows - 1) } else { 0 };
                }
                BrowserAction::Stay
            },
            KeyCode::Home => {
                state.selected = 0;
                state.top = 0;
                BrowserAction::Stay
            },
            KeyCode::End => {
                let s = if n >= 1 { n - 1 } else { 0 };
                state.selected = s;
                state.top = if s >= rows - 1 { s - (rows - 1) } else { 0 };
                BrowserAction::Stay
            },
            _ => BrowserAction::Stay,
        }
    }
}

/// The line that the browser shows for an entry: `Dir  ` or five spaces,
/// then the name, cut to `cols` bytes.
pub open spec fn browser_row(e: EntryView, cols: int) -> Seq<char> {
    let full = (if e.is_dir { "Dir  "@ } else { "     "@ }) + e.name;
    if crate::textseq::bytes_len(full) > cols {
        full.take(crate::textseq::cidx(full, cols))
    } else {
        full
    }
}

/// The line for `e` in a browser `cols` columns wide.
pub fn browser_row_text(e: &BrowserEntry, cols: usize) -> (r: String)
    requires
        ({
            let full = (if e.is_dir { "Dir  "@ } else { "     "@ }) + e.name@;
            crate::textseq::bytes_len(full) > cols ==> crate::textseq::is_boundary(full, cols as int)
        }),
    ensures
        r@ == browser_row(e@, cols as int),
{
    let mut full = String::new();
    if e.is_dir {
        append_str(&mut full, "Dir  ");
    } else {
        append_str(&mut full, "     ");
    }
    append_str(&mut full, e.name.as_str());
    proof {
        reveal_strlit("Dir  ");
        reveal_strlit("     ");
        assert(full@ =~= (if e.is_dir { "Dir  "@ } else { "     "@ }) + e.name@);
    }
    let len = crate::textseq::byte_len(full.as_str());
    if len > cols {
        proof {
            crate::textseq::lemma_cidx(full@, 0);
            assert(crate::textseq::bpos(full@, 0) == 0);
        }
        crate::textseq::slice_text(full.as_str(), 0, cols)
    } else {
        full
    }
}

/// The status line of the browser for the selected entry: its name, with
/// `Directory: ` before it or its size in bytes after it; empty when
/// nothing is selected.
pub open spec fn browser_status(es: Seq<EntryView>, sel: int) -> Seq<char> {
    if 0 <= sel < es.len() {
        let e = es[sel];
        if e.is_dir {
            "Directory: "@ + e.name
        } else {
            e.name + " ("@ + decimal(e.size as nat) + " bytes)"@
        }
    } else {
        Seq::empty()
    }
}

/// The status line of the browser.
pub fn browser_status_text(state: &BrowserState) -> (r: String)
    ensures
        r@ == browser_status(entry_views(state.entries@), state.selected as int),
{
    let mut s = String::new();
    if state.selected < state.entries.len() {
        let e = &state.entries[state.selected];
        if e.is_dir {
            append_str(&mut s, "Directory: ");
            append_str(&mut s, e.name.as_str());
        } else {
            append_str(&mut s, e.name.as_str());
            append_str(&mut s, " (");
            append_str(&mut s, crate::textseq::decimal_string_u64(e.size).as_str());
            append_str(&mut s, " bytes)");
        }
    }
    s
}

} // verus!

verus! {

proof fn lemma_text_le_total(a: Seq<char>, b: Seq<char>)
    ensures
        text_le(a, b) || text_le(b, a),
    decreases a.len(),
{
    if a.len() > 0 && b.len() > 0 && a[0] == b[0] {
        lemma_text_le_total(a.skip(1), b.skip(1));
    }
}

proof fn lemma_text_le_trans(a: Seq<char>, b: Seq<char>, c: Seq<char>)
    requires
        text_le(a, b),
        text_le(b, c),
    ensures
        text_le(a, c),
    decreases a.len(),
{
    if a.len() > 0 && b.len() > 0 && c.len() > 0 && a[0] == b[0] && b[0] == c[0] {
        lemma_text_le_trans(a.skip(1), b.skip(1), c.skip(1));
    }
}

/// The entries of `s` come in the order of their lowercased names.
pub open spec fn in_name_order(s: Seq<EntryView>) -> bool {
    forall|i: int, j: int| 0 <= i < j < s.len() ==> text_le(entry_key(s[i]), entry_key(s[j]))
}

proof fn lemma_insert_by_name_sorted(s: Seq<EntryView>, x: EntryView)
    requires
        in_name_order(s),
    ensures
        in_name_order(insert_by_name(s, x)),
        insert_by_name(s, x).to_multiset() == s.to_multiset().insert(x),
    decreases s.len(),
{
    broadcast use vstd::multiset::group_multiset_axioms, vstd::seq_lib::group_to_multiset_ensures;

    if s.len() == 0 {
        assert(seq![x] =~= Seq::<EntryView>::empty().push(x));
    } else if text_le(entry_key(s.last()), entry_key(x)) {
        assert forall|i: int, j: int| 0 <= i < j < s.len() + 1 implies text_le(
            entry_key(#[trigger] s.push(x)[i]),
            entry_key(#[trigger] s.push(x)[j]),
        ) by {
            if j == s.len() && i < s.len() - 1 {
                lemma_text_le_trans(entry_key(s[i]), entry_key(s.last()), entry_key(x));
            }
        }
    } else {
        let t = s.drop_last();
        assert(in_name_order(t));
        lemma_insert_by_name_sorted(t, x);
        let u = insert_by_name(t, x);
        assert(s =~= t.push(s.last()));
        lemma_text_le_total(entry_key(s.last()), entry_key(x));
        assert forall|i: int, j: int| 0 <= i < j < u.len() + 1 implies text_le(
            entry_key(#[trigger] u.push(s.last())[i]),
            entry_key(#[trigger] u.push(s.last())[j]),
        ) by {
            if j == u.len() {
                assert(u.contains(u[i]));
                assert(u.to_multiset().count(u[i]) > 0);
                if u[i] != x {
                    assert(t.to_multiset().count(u[i]) > 0);
                    assert(t.contains(u[i]));
                    let k = choose|k: int| 0 <= k < t.len() && t[k] == u[i];
                    assert(s[k] == t[k]);
                }
            }
        }
    }
}

/// The browser's ordering of a group of entries puts them in the order of
/// their lowercased names, and keeps every entry.
pub proof fn law_sorted_by_name(s: Seq<EntryView>)
    ensures
        in_name_order(sorted_by_name(s)),
        sorted_by_name(s).to_multiset() == s.to_multiset(),
    decreases s.len(),
{
    broadcast use vstd::seq_lib::group_to_multiset_ensures;

    if s.len() > 0 {
        law_sorted_by_name(s.drop_last());
        lemma_insert_by_name_sorted(sorted_by_name(s.drop_last()), s.last());
        assert(s =~= s.drop_last().push(s.last()));
    }
}

} // verus!
