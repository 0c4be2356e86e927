//! Searching, replacing, and going to a line and column.
use vstd::prelude::*;

use crate::chars::{
    cols_ok, find_between, fit_count, lowercase, rfind_between, step_right, str_to_lowercase, wideness,
};
use crate::definitions::{BufferView, EditorFlags, LineView, MessageType};
use crate::editor::{Editor, EditorView};
use crate::movement::cols_to;
use crate::textseq::{
    bpos, byte_len, bytes_len, chars_of, cidx, copy_text, index_at, is_boundary, is_first_match,
    is_last_match, lemma_boundary, lemma_bpos_full, lemma_cidx, no_match, push_char,
};

verus! {

/// The text a search looks in: the line itself, or its lowercase form when
/// the search ignores case.
pub open spec fn hay(t: Seq<char>, case_sensitive: bool) -> Seq<char> {
    if case_sensitive {
        t
    } else {
        lowercase(t)
    }
}

/// Byte offset of the first match of `n` in `h` at a character index from `lo`
/// that ends by `hi`.
pub open spec fn first_hit(h: Seq<char>, n: Seq<char>, lo: int, hi: int) -> Option<int> {
    if exists|k: int| is_first_match(h, n, lo, hi, k) {
        Some(bpos(h, choose|k: int| is_first_match(h, n, lo, hi, k)) as int)
    } else {
        None
    }
}

/// Byte offset of the last match of `n` in `h` at a character index from `lo`
/// that ends by `hi`.
pub open spec fn last_hit(h: Seq<char>, n: Seq<char>, lo: int, hi: int) -> Option<int> {
    if exists|k: int| is_last_match(h, n, lo, hi, k) {
        Some(bpos(h, choose|k: int| is_last_match(h, n, lo, hi, k)) as int)
    } else {
        None
    }
}

/// The bound on where matches of `n` in `h` may end that leaves exactly the
/// matches starting before the character index `s > 0`, wherever they end.
pub open spec fn start_limit(h: Seq<char>, n: Seq<char>, s: int) -> int {
    if s - 1 + n.len() <= h.len() {
        s - 1 + n.len()
    } else {
        h.len() as int
    }
}

/// The boundary after the boundary `x` of `t`, or the end of `t`.
pub open spec fn next_boundary(t: Seq<char>, x: int) -> int {
    if x < bytes_len(t) {
        bpos(t, cidx(t, x) + 1) as int
    } else {
        bytes_len(t) as int
    }
}

/// The line that step `k` of a search from line `s` looks at, among `n` lines.
pub open spec fn search_line(s: int, k: int, n: int, backward: bool) -> int {
    if backward {
        (s - k + n) % n
    } else {
        (s + k) % n
    }
}

impl EditorView {
    /// The needle as the search compares it.
    pub open spec fn search_needle(self) -> Seq<char> {
        hay(self.last_search, self.has_flag(EditorFlags::CASE_SENSITIVE))
    }

    /// What step `k` of a plain search finds, as `(line, x)`.  Step 0 looks
    /// at the matches of the cursor line that start after the cursor (before
    /// it, backwards), steps 1 to `n - 1` at the other lines in turn, and
    /// step `n` at the rest of the cursor line: the matches that start before
    /// the cursor (from it on, backwards).
    pub open spec fn plain_step(self, k: int, backward: bool) -> Option<(int, int)> {
        let b = self.cur();
        let n = b.lines.len() as int;
        let s = b.current as int;
        let sx = b.current_x as int;
        let cs = self.has_flag(EditorFlags::CASE_SENSITIVE);
        let l = search_line(s, k, n, backward);
        let h = hay(b.lines[l].data, cs);
        let nd = self.search_needle();
        let found = if !backward {
            if k == 0 {
                let from = next_boundary(b.lines[s].data, sx);
                if from <= bytes_len(h) {
                    first_hit(h, nd, cidx(h, from), h.len() as int)
                } else {
                    None
                }
            } else if k < n {
                first_hit(h, nd, 0, h.len() as int)
            } else if sx > 0 {
                first_hit(h, nd, 0, start_limit(h, nd, cidx(h, sx)))
            } else {
                None
            }
        } else {
            if k == 0 {
                if sx > 0 {
                    last_hit(h, nd, 0, start_limit(h, nd, cidx(h, sx)))
                } else {
                    None
                }
            } else if k < n {
                last_hit(h, nd, 0, h.len() as int)
            } else {
                last_hit(h, nd, cidx(h, sx), h.len() as int)
            }
        };
        match found {
            Some(p) => Some((l, p)),
            None => None,
        }
    }

    /// What a plain search finds from step `k` on.
    pub open spec fn plain_scan(self, k: int, backward: bool) -> Option<(int, int)>
        decreases self.cur().lines.len() + 1 - k,
    {
        if k < 0 || k > self.cur().lines.len() {
            None
        } else {
            match self.plain_step(k, backward) {
                Some(r) => Some(r),
                None => self.plain_scan(k + 1, backward),
            }
        }
    }

    /// The slices that step `k` of a plain search takes are cut at character
    /// boundaries of the text it looks in.
    pub open spec fn plain_step_ok(self, k: int, backward: bool) -> bool {
        let b = self.cur();
        let n = b.lines.len() as int;
        let s = b.current as int;
        let sx = b.current_x as int;
        let h = hay(b.lines[s].data, self.has_flag(EditorFlags::CASE_SENSITIVE));
        if k == 0 {
            if backward {
                sx <= bytes_len(h) && is_boundary(h, sx)
            } else {
                let from = next_boundary(b.lines[s].data, sx);
                from <= bytes_len(h) ==> is_boundary(h, from)
            }
        } else if k == n {
            if backward {
                sx <= bytes_len(h) && is_boundary(h, sx)
            } else {
                sx > 0 ==> sx <= bytes_len(h) && is_boundary(h, sx)
            }
        } else {
            true
        }
    }

    /// A plain search can run: the cursor is in the text, and each slice it
    /// takes before it stops falls on a character boundary.
    pub open spec fn plain_search_ok(self, backward: bool) -> bool {
        let b = self.cur();
        let n = b.lines.len() as int;
        &&& self.has_cur()
        &&& b.cursor_ok()
        &&& b.lines.len() < usize::MAX
        &&& forall|i: int| 0 <= i < n ==> bytes_len(#[trigger] hay(b.lines[i].data, self.has_flag(EditorFlags::CASE_SENSITIVE))) <= usize::MAX
        &&& self.plain_step_ok(0, backward)
        &&& (forall|k: int| 0 <= k < n ==> #[trigger] self.plain_step(k, backward) is None)
            ==> self.plain_step_ok(n, backward)
    }
}

proof fn lemma_search_line(s: int, k: int, n: int, backward: bool, l: int)
    requires
        0 <= s < n,
        0 <= k <= n,
        backward ==> l == (if k <= s {
            s - k
        } else {
            s + (n - k)
        }),
        !backward ==> l == (if k < n - s {
            s + k
        } else {
            k - (n - s)
        }),
    ensures
        l == search_line(s, k, n, backward),
{
    if backward {
        if k <= s {
            vstd::arithmetic::div_mod::lemma_mod_add_multiples_vanish(s - k, n);
            vstd::arithmetic::div_mod::lemma_small_mod((s - k) as nat, n as nat);
        } else {
            vstd::arithmetic::div_mod::lemma_small_mod((s - k + n) as nat, n as nat);
        }
    } else {
        if k < n - s {
            vstd::arithmetic::div_mod::lemma_small_mod((s + k) as nat, n as nat);
        } else {
            vstd::arithmetic::div_mod::lemma_mod_sub_multiples_vanish(s + k, n);
            vstd::arithmetic::div_mod::lemma_small_mod((s + k - n) as nat, n as nat);
        }
    }
}

proof fn lemma_first_hit(h: Seq<char>, n: Seq<char>, lo: int, hi: int, r: Option<usize>)
    requires
        r matches Some(p) ==> crate::chars::first_match_at(h, n, lo, hi, p as int),
        r is None ==> no_match(h, n, lo, hi),
    ensures
        first_hit(h, n, lo, hi) == (match r {
            Some(p) => Some(p as int),
            None => None::<int>,
        }),
{
    match r {
        Some(p) => {
            let k = cidx(h, p as int);
            assert(is_first_match(h, n, lo, hi, k));
            let c = choose|j: int| is_first_match(h, n, lo, hi, j);
            assert(is_first_match(h, n, lo, hi, c));
            if c < k {
                assert(!crate::textseq::occurs_at(h, n, c));
            }
            if k < c {
                assert(!crate::textseq::occurs_at(h, n, k));
            }
            lemma_boundary(h, p as int);
        },
        None => {
            if exists|j: int| is_first_match(h, n, lo, hi, j) {
                let c = choose|j: int| is_first_match(h, n, lo, hi, j);
                assert(!crate::textseq::occurs_at(h, n, c));
            }
        },
    }
}

proof fn lemma_last_hit(h: Seq<char>, n: Seq<char>, lo: int, hi: int, r: Option<usize>)
    requires
        r matches Some(p) ==> crate::chars::last_match_at(h, n, lo, hi, p as int),
        r is None ==> no_match(h, n, lo, hi),
    ensures
        last_hit(h, n, lo, hi) == (match r {
            Some(p) => Some(p as int),
            None => None::<int>,
        }),
{
    match r {
        Some(p) => {
            let k = cidx(h, p as int);
            assert(is_last_match(h, n, lo, hi, k));
            let c = choose|j: int| is_last_match(h, n, lo, hi, j);
            assert(is_last_match(h, n, lo, hi, c));
            if c < k {
                assert(!crate::textseq::occurs_at(h, n, k));
            }
            if k < c {
                assert(!crate::textseq::occurs_at(h, n, c));
            }
            lemma_boundary(h, p as int);
        },
        None => {
            if exists|j: int| is_last_match(h, n, lo, hi, j) {
                let c = choose|j: int| is_last_match(h, n, lo, hi, j);
                assert(!crate::textseq::occurs_at(h, n, c));
            }
        },
    }
}

} // verus!

verus! {

/// The `start_limit` in `h` of the matches of `nd` that start before the
/// boundary `x > 0`.
fn limit_before(h: &Vec<char>, nd: &Vec<char>, x: usize) -> (r: usize)
    requires
        x > 0,
        is_boundary(h@, x as int),
        bytes_len(h@) <= usize::MAX,
    ensures
        r == start_limit(h@, nd@, cidx(h@, x as int)),
        r <= h@.len(),
{
    proof {
        lemma_boundary(h@, x as int);
    }
    let s = index_at(h, x).unwrap();
    assert(s > 0) by {
        if s == 0 {
            assert(bpos(h@, 0) == 0);
        }
    }
    let nl = nd.len();
    let hl = h.len();
    if nl <= hl - (s - 1) {
        s - 1 + nl
    } else {
        hl
    }
}

/// A found position as integers.
pub open spec fn opt_pair(r: Option<(usize, usize)>) -> Option<(int, int)> {
    match r {
        Some((l, p)) => Some((l as int, p as int)),
        None => None,
    }
}

impl Editor {
    /// What step `k` of a plain search for `nd` finds.
    #[verifier::rlimit(60)]
    fn plain_step(&self, k: usize, backward: bool, nd: &Vec<char>) -> (r: Option<(usize, usize)>)
        requires
            self@.plain_search_ok(backward),
            k <= self@.cur().lines.len(),
            self@.plain_step_ok(k as int, backward),
            nd@ == self@.search_needle(),
        ensures
            opt_pair(r) == self@.plain_step(k as int, backward),
    {
        let ghost e = self@;
        let cb = self.current_buf;
        proof {
            crate::editor::lemma_cur(self);
        }
        let n = self.buffers[cb].lines.len();
        let s = self.buffers[cb].current;
        let sx = self.buffers[cb].current_x;
        let cs = self.flags.contains(EditorFlags::CASE_SENSITIVE);
        let l = if backward {
            if k <= s {
                s - k
            } else {
                s + (n - k)
            }
        } else {
            if k < n - s {
                s + k
            } else {
                k - (n - s)
            }
        };
        proof {
            lemma_search_line(s as int, k as int, n as int, backward, l as int);
        }
        let h = if cs {
            copy_text(self.buffers[cb].lines[l].data.as_str())
        } else {
            str_to_lowercase(self.buffers[cb].lines[l].data.as_str())
        };
        let ghost hv = hay(e.cur().lines[l as int].data, cs);
        assert(h@ == hv);
        let _hb = byte_len(h.as_str());
        let hc = chars_of(h.as_str());
        let hl = hc.len();
        let found = if !backward {
            if k == 0 {
                let text = self.buffers[cb].lines[s].data.as_str();
                let ghost t = e.cur().lines[s as int].data;
                assert(text@ == t);
                let len = byte_len(text);
                let r = step_right(text, sx);
                proof {
                    if sx < len {
                        crate::text::lemma_right_boundary(t, sx as int, r as int);
                        lemma_bpos_full(t);
                        crate::textseq::lemma_bpos_mono(t, cidx(t, sx as int) + 1, t.len() as int);
                    }
                }
                let from = if r < len {
                    r
                } else {
                    len
                };
                assert(from as int == next_boundary(t, sx as int));
                if from <= byte_len(h.as_str()) {
                    let lo = index_at(&hc, from).unwrap();
                    let f = find_between(&hc, nd, lo, hl);
                    proof {
                        lemma_first_hit(hv, nd@, lo as int, hl as int, f);
                    }
                    f
                } else {
                    None
                }
            } else if k < n {
                let f = find_between(&hc, nd, 0, hl);
                proof {
                    lemma_first_hit(hv, nd@, 0, hl as int, f);
                }
                f
            } else if sx > 0 {
                let hi = limit_before(&hc, nd, sx);
                let f = find_between(&hc, nd, 0, hi);
                proof {
                    lemma_first_hit(hv, nd@, 0, hi as int, f);
                }
                f
            } else {
                None
            }
        } else {
            if k == 0 {
                if sx > 0 {
                    let hi = limit_before(&hc, nd, sx);
                    let f = rfind_between(&hc, nd, 0, hi);
                    proof {
                        lemma_last_hit(hv, nd@, 0, hi as int, f);
                    }
                    f
                } else {
                    None
                }
            } else if k < n {
                let f = rfind_between(&hc, nd, 0, hl);
                proof {
                    lemma_last_hit(hv, nd@, 0, hl as int, f);
                }
                f
            } else {
                let lo = index_at(&hc, sx).unwrap();
                let f = rfind_between(&hc, nd, lo, hl);
                proof {
                    lemma_last_hit(hv, nd@, lo as int, hl as int, f);
                }
                f
            }
        };
        match found {
            Some(p) => Some((l, p)),
            None => None,
        }
    }

    /// Plain text search for the last search string, from the cursor on
    /// (or back), wrapping around the buffer.
    fn search_plain(&self, backward: bool) -> (r: Option<(usize, usize)>)
        requires
            self@.plain_search_ok(backward),
        ensures
            opt_pair(r) == self@.plain_scan(0, backward),
    {
        let cs = self.flags.contains(EditorFlags::CASE_SENSITIVE);
        let needle = if cs {
            copy_text(self.last_search.as_str())
        } else {
            str_to_lowercase(self.last_search.as_str())
        };
        let nd = chars_of(needle.as_str());
        let cb = self.current_buf;
        let n = self.buffers[cb].lines.len();
        let mut k: usize = 0;
        while k <= n
            invariant
                self@.plain_search_ok(backward),
                n == self@.cur().lines.len(),
                k <= n + 1,
                nd@ == self@.search_needle(),
                self@.plain_scan(0, backward) == self@.plain_scan(k as int, backward),
                forall|j: int| 0 <= j < k ==> #[trigger] self@.plain_step(j, backward) is None,
            decreases n + 1 - k,
        {
            let r = self.plain_step(k, backward, &nd);
            if r.is_some() {
                return r;
            }
            k += 1;
        }
        None
    }
}

} // verus!

verus! {

#[verifier::external_type_specification]
#[verifier::external_body]
pub struct ExRegex(regex::Regex);

/// Whether `regex::Regex::new` accepts the pattern `p`.
pub uninterp spec fn regex_accepts(p: Seq<char>) -> bool;

/// The byte offsets where `regex::Regex::find` with the pattern `p` finds its
/// match in `h`.
pub uninterp spec fn regex_find(p: Seq<char>, h: Seq<char>) -> Option<(nat, nat)>;

/// A compiled regular expression, seen as the pattern it was compiled from.
pub struct Pattern {
    re: regex::Regex,
    source: Ghost<Seq<char>>,
}

impl View for Pattern {
    type V = Seq<char>;

    closed spec fn view(&self) -> Seq<char> {
        self.source@
    }
}

/// `regex::Regex::new`: a compiled pattern exactly when the crate accepts `p`.
#[verifier::external_body]
pub(crate) fn regex_new(p: &str) -> (r: Option<Pattern>)
    ensures
        r is Some == regex_accepts(p@),
        r matches Some(re) ==> re@ == p@,
{
    match regex::Regex::new(p) {
        Ok(re) => Some(Pattern { re, source: Ghost(p@) }),
        Err(_) => None,
    }
}

/// `regex::Regex::find`: the byte offsets of the start and end of the match
/// in `h`, which lie within `h`, the start first.
#[verifier::external_body]
fn regex_find_in(re: &Pattern, h: &str) -> (r: Option<(usize, usize)>)
    ensures
        r matches Some((a, b)) ==> regex_find(re@, h@) == Some((a as nat, b as nat)),
        r is None ==> regex_find(re@, h@) is None,
        r matches Some((a, b)) ==> a <= b <= bytes_len(h@),
{
    re.re.find(h).map(|m| (m.start(), m.end()))
}

/// The byte offsets of the start and end of each match that
/// `regex::Regex::find_iter` with the pattern `p` gives in `h`, in order.
pub uninterp spec fn regex_all_matches(p: Seq<char>, h: Seq<char>) -> Seq<(nat, nat)>;

/// `regex::Regex::is_match`: whether there is a match anywhere in `h`, which
/// the crate documents as exactly when `find` gives one.
#[verifier::external_body]
pub(crate) fn regex_is_match_in(re: &Pattern, h: &str) -> (r: bool)
    ensures
        r == regex_find(re@, h@) is Some,
{
    re.re.is_match(h)
}

/// `regex::Regex::find_iter`: the start and end byte offsets of each match
/// in `h`, in the order the iterator gives them; each match lies within `h`,
/// its start first.
#[verifier::external_body]
pub(crate) fn regex_find_all_in(re: &Pattern, h: &str) -> (r: Vec<(usize, usize)>)
    ensures
        r@.len() == regex_all_matches(re@, h@).len(),
        forall|i: int| 0 <= i < r@.len() ==> #[trigger] r@[i].0 as nat == regex_all_matches(re@, h@)[i].0
            && r@[i].1 as nat == regex_all_matches(re@, h@)[i].1,
        forall|i: int| 0 <= i < r@.len() ==> #[trigger] r@[i].0 <= r@[i].1 <= bytes_len(h@),
{
    re.re.find_iter(h).map(|m| (m.start(), m.end())).collect()
}

/// Where the last of the matches of the pattern `p` in `h` starts.
pub open spec fn last_match_start(p: Seq<char>, h: Seq<char>) -> Option<nat> {
    let ms = regex_all_matches(p, h);
    if ms.len() > 0 {
        Some(ms.last().0)
    } else {
        None
    }
}

/// The start of the last match of `re` in `h`.
fn last_start_in(re: &Pattern, h: &str) -> (r: Option<usize>)
    ensures
        opt_nat(r) == last_match_start(re@, h@),
        r matches Some(a) ==> a <= bytes_len(h@),
{
    let ms = regex_find_all_in(re, h);
    if ms.len() > 0 {
        Some(ms[ms.len() - 1].0)
    } else {
        None
    }
}

/// An optional offset as a natural number.
pub open spec fn opt_nat(r: Option<usize>) -> Option<nat> {
    match r {
        Some(a) => Some(a as nat),
        None => None,
    }
}

impl EditorView {
    /// The pattern a regular-expression search compiles: the search string,
    /// marked to ignore case unless the search is case sensitive.
    pub open spec fn regex_pattern(self) -> Seq<char> {
        if self.has_flag(EditorFlags::CASE_SENSITIVE) {
            self.last_search
        } else {
            "(?i)"@ + self.last_search
        }
    }

    /// What step `k` of a search for the pattern `p` finds: step 0 looks at
    /// the cursor line after the cursor (before it, backwards), and the steps
    /// up to `n - 1` at the other lines in turn.
    pub open spec fn regex_step(self, p: Seq<char>, k: int, backward: bool) -> Option<(int, int)> {
        let b = self.cur();
        let n = b.lines.len() as int;
        let s = b.current as int;
        let sx = b.current_x as int;
        let l = search_line(s, k, n, backward);
        let t = b.lines[l].data;
        let found = if !backward {
            if k == 0 {
                let from = next_boundary(b.lines[s].data, sx);
                match regex_find(p, t.skip(cidx(t, from))) {
                    Some((a, _)) => Some(from + a),
                    None => None,
                }
            } else {
                match regex_find(p, t) {
                    Some((a, _)) => Some(a as int),
                    None => None,
                }
            }
        } else {
            let h = if k == 0 {
                t.take(cidx(t, sx))
            } else {
                t
            };
            match last_match_start(p, h) {
                Some(a) => Some(a as int),
                None => None,
            }
        };
        match found {
            Some(x) => Some((l, x)),
            None => None,
        }
    }

    /// What a search for the pattern `p` finds from step `k` on.
    pub open spec fn regex_scan(self, p: Seq<char>, k: int, backward: bool) -> Option<(int, int)>
        decreases self.cur().lines.len() - k,
    {
        if k < 0 || k >= self.cur().lines.len() {
            None
        } else {
            match self.regex_step(p, k, backward) {
                Some(r) => Some(r),
                None => self.regex_scan(p, k + 1, backward),
            }
        }
    }
}

impl Editor {
    /// What step `k` of a search for the compiled pattern `re` finds.
    fn regex_step(&self, re: &Pattern, k: usize, backward: bool) -> (r: Option<(usize, usize)>)
        requires
            self@.has_cur(),
            self@.cur().cursor_ok(),
            k < self@.cur().lines.len(),
            self@.cur().lines_fit(),
        ensures
            opt_pair(r) == self@.regex_step(re@, k as int, backward),
    {
        let ghost e = self@;
        let cb = self.current_buf;
        proof {
            crate::editor::lemma_cur(self);
        }
        let n = self.buffers[cb].lines.len();
        let s = self.buffers[cb].current;
        let sx = self.buffers[cb].current_x;
        let l = if backward {
            if k <= s {
                s - k
            } else {
                s + (n - k)
            }
        } else {
            if k < n - s {
                s + k
            } else {
                k - (n - s)
            }
        };
        proof {
            lemma_search_line(s as int, k as int, n as int, backward, l as int);
        }
        let text = self.buffers[cb].lines[l].data.as_str();
        let ghost t = e.cur().lines[l as int].data;
        assert(text@ == t);
        let found = if !backward {
            if k == 0 {
                let len = byte_len(text);
                let r = step_right(text, sx);
                proof {
                    lemma_bpos_full(t);
                    if sx < len {
                        crate::text::lemma_right_boundary(t, sx as int, r as int);
                        crate::textseq::lemma_bpos_mono(t, cidx(t, sx as int) + 1, t.len() as int);
                        lemma_cidx(t, cidx(t, sx as int) + 1);
                    } else {
                        lemma_cidx(t, t.len() as int);
                    }
                }
                let from = if r < len {
                    r
                } else {
                    len
                };
                assert(from as int == next_boundary(t, sx as int));
                let rest = crate::chars::suffix_str(text, from);
                match regex_find_in(re, rest) {
                    Some((a, _b)) => {
                        proof {
                            lemma_boundary(t, from as int);
                            let k2 = cidx(t, from as int);
                            assert(t =~= t.take(k2) + t.skip(k2));
                            crate::textseq::lemma_bytes_len_concat(t.take(k2), t.skip(k2));
                        }
                        Some(from + a)
                    },
                    None => None,
                }
            } else {
                match regex_find_in(re, text) {
                    Some((a, _b)) => Some(a),
                    None => None,
                }
            }
        } else {
            if k == 0 {
                let before = crate::chars::prefix_str(text, sx);
                last_start_in(re, before)
            } else {
                last_start_in(re, text)
            }
        };
        match found {
            Some(x) => Some((l, x)),
            None => None,
        }
    }

    /// Search for the last search string as a regular expression, from the
    /// cursor on (or back), wrapping around the buffer; nothing when the
    /// pattern does not compile.
    fn search_regexp(&self, backward: bool) -> (r: Option<(usize, usize)>)
        requires
            self@.has_cur(),
            self@.cur().cursor_ok(),
            self@.cur().lines_fit(),
        ensures
            opt_pair(r) == (if regex_accepts(self@.regex_pattern()) {
                self@.regex_scan(self@.regex_pattern(), 0, backward)
            } else {
                None
            }),
    {
        let case_insensitive = !self.flags.contains(EditorFlags::CASE_SENSITIVE);
        let pattern = if case_insensitive {
            let mut p = String::new();
            push_chars_ignore_case(&mut p);
            crate::textseq::append_str(&mut p, self.last_search.as_str());
            p
        } else {
            copy_text(self.last_search.as_str())
        };
        proof {
            reveal_strlit("(?i)");
        }
        assert(pattern@ == self@.regex_pattern());
        let re = match regex_new(pattern.as_str()) {
            Some(re) => re,
            None => {
                return None;
            },
        };
        let cb = self.current_buf;
        let n = self.buffers[cb].lines.len();
        let mut k: usize = 0;
        while k < n
            invariant
                self@.has_cur(),
                self@.cur().cursor_ok(),
                self@.cur().lines_fit(),
                n == self@.cur().lines.len(),
                k <= n,
                re@ == self@.regex_pattern(),
                regex_accepts(self@.regex_pattern()),
                self@.regex_scan(re@, 0, backward) == self@.regex_scan(re@, k as int, backward),
            decreases n - k,
        {
            let r = self.regex_step(&re, k, backward);
            if r.is_some() {
                return r;
            }
            k += 1;
        }
        None
    }
}

/// Appends the flag that makes a pattern ignore case.
fn push_chars_ignore_case(p: &mut String)
    ensures
        final(p)@ == old(p)@ + seq!['(', '?', 'i', ')'],
{
    push_char(p, '(');
    push_char(p, '?');
    push_char(p, 'i');
    push_char(p, ')');
    assert(p@ =~= old(p)@ + seq!['(', '?', 'i', ')']);
}

} // verus!

verus! {

impl EditorView {
    /// Whether the next search goes backwards.
    pub open spec fn backward_search(self) -> bool {
        self.search_flags & EditorFlags::BACKWARDS_SEARCH == EditorFlags::BACKWARDS_SEARCH
    }

    /// Where a search for the last search string lands, as `(line, x)`.
    pub open spec fn search_found(self) -> Option<(int, int)> {
        let backward = self.backward_search();
        if self.has_flag(EditorFlags::USE_REGEXP) {
            if regex_accepts(self.regex_pattern()) {
                self.regex_scan(self.regex_pattern(), 0, backward)
            } else {
                None
            }
        } else {
            self.plain_scan(0, backward)
        }
    }

    /// What a search leaves: the cursor on the match, with the match's line
    /// brought to the middle of the window when it was out of view; or a
    /// complaint that there is no match.
    pub open spec fn after_looking(self) -> EditorView {
        match self.search_found() {
            Some((l, x)) => {
                let b = self.cur();
                let rows = self.editwinrows;
                self.with_cur(
                    BufferView {
                        current: l as usize,
                        current_x: x as usize,
                        placewewant: cols_to(b.lines[l].data, x, self.tabsize as int) as usize,
                        edittop: if l < b.edittop || l >= b.edittop + rows {
                            crate::text::sat_sub(l, (rows / 2) as int) as usize
                        } else {
                            b.edittop
                        },
                        ..b
                    },
                )
            },
            None => self.status(
                MessageType::Ahem,
                seq!['"'] + self.last_search + "\" not found"@,
            ),
        }
    }

    /// A search can run: the cursor is in the text, the lines can be shown,
    /// the window's bottom line has a number, and a plain search cuts its
    /// slices at character boundaries.
    pub open spec fn looking_ok(self) -> bool {
        let b = self.cur();
        &&& self.has_cur()
        &&& b.cursor_ok()
        &&& b.lines_fit()
        &&& b.lines.len() < usize::MAX
        &&& self.display_ok()
        &&& b.edittop + self.editwinrows <= usize::MAX
        &&& !self.has_flag(EditorFlags::USE_REGEXP) ==> self.plain_search_ok(self.backward_search())
    }
}

impl EditorView {
    /// What `search_ready` checks before a search: the cursor is in the
    /// text, the texts and their display widths fit, and, for a plain search,
    /// the slices of the cursor line that the first and the last step take
    /// fall on character boundaries.
    pub open spec fn search_checks(self) -> bool {
        let b = self.cur();
        let n = b.lines.len() as int;
        let backward = self.backward_search();
        &&& self.has_cur()
        &&& b.cursor_ok()
        &&& b.lines_fit()
        &&& b.lines.len() < usize::MAX
        &&& self.display_ok()
        &&& b.edittop + self.editwinrows <= usize::MAX
        &&& forall|i: int|
            0 <= i < n ==> bytes_len(
                #[trigger] hay(b.lines[i].data, self.has_flag(EditorFlags::CASE_SENSITIVE)),
            ) <= usize::MAX
        &&& !self.has_flag(EditorFlags::USE_REGEXP) ==> self.plain_step_ok(0, backward)
            && self.plain_step_ok(n, backward)
    }
}

/// What `search_ready` checks is enough for a search to run.
pub proof fn lemma_search_checks(e: EditorView)
    requires
        e.search_checks(),
    ensures
        e.looking_ok(),
{
}

proof fn lemma_plain_scan_line(e: EditorView, k: int, backward: bool)
    requires
        e.cur().lines.len() > 0,
    ensures
        e.plain_scan(k, backward) matches Some((l, x)) ==> 0 <= l < e.cur().lines.len() && 0 <= x,
    decreases e.cur().lines.len() + 1 - k,
{
    let n = e.cur().lines.len() as int;
    if 0 <= k <= n {
        let s = e.cur().current as int;
        if backward {
            vstd::arithmetic::div_mod::lemma_mod_bound(s - k + n, n);
        } else {
            vstd::arithmetic::div_mod::lemma_mod_bound(s + k, n);
        }
        lemma_plain_scan_line(e, k + 1, backward);
    }
}

proof fn lemma_regex_scan_line(e: EditorView, p: Seq<char>, k: int, backward: bool)
    requires
        e.cur().lines.len() > 0,
    ensures
        e.regex_scan(p, k, backward) matches Some((l, x)) ==> 0 <= l < e.cur().lines.len() && 0 <= x,
    decreases e.cur().lines.len() - k,
{
    let n = e.cur().lines.len() as int;
    if 0 <= k < n {
        let s = e.cur().current as int;
        if backward {
            vstd::arithmetic::div_mod::lemma_mod_bound(s - k + n, n);
        } else {
            vstd::arithmetic::div_mod::lemma_mod_bound(s + k, n);
        }
        lemma_regex_scan_line(e, p, k + 1, backward);
    }
}

impl Editor {
    /// Search for the last search string and put the cursor on the match.
    fn go_looking(&mut self)
        requires
            old(self)@.looking_ok(),
        ensures
            final(self)@ == old(self)@.after_looking(),
    {
        let backward = self.search_flags.contains(EditorFlags::BACKWARDS_SEARCH);
        let found = if self.flags.contains(EditorFlags::USE_REGEXP) {
            self.search_regexp(backward)
        } else {
            self.search_plain(backward)
        };
        proof {
            lemma_plain_scan_line(self@, 0, backward);
            lemma_regex_scan_line(self@, self@.regex_pattern(), 0, backward);
        }
        match found {
            Some((line, col)) => {
                let tabsize = self.tabsize;
                let editwinrows = self.editwinrows;
                let cb = self.current_buf;
                proof {
                    crate::editor::lemma_cur(self);
                    let t = self@.cur().lines[line as int].data;
                    crate::chars::lemma_fit_count_exists(t, col as int);
                    crate::editor::lemma_display_prefix(self@, line as int, fit_count(t, col as int));
                }
                let w = wideness(self.buffers[cb].lines[line].data.as_str(), col, tabsize);
                self.buffers[cb].current = line;
                self.buffers[cb].current_x = col;
                self.buffers[cb].placewewant = w;
                let top = self.buffers[cb].edittop;
                if line < top || line >= top + editwinrows {
                    self.buffers[cb].edittop = if line >= editwinrows / 2 {
                        line - editwinrows / 2
                    } else {
                        0
                    };
                }
                assert(self@.buffers =~= old(self)@.after_looking().buffers);
            },
            None => {
                let mut msg = String::new();
                push_char(&mut msg, '"');
                crate::textseq::append_str(&mut msg, self.last_search.as_str());
                crate::textseq::append_str(&mut msg, "\" not found");
                assert(msg@ =~= seq!['"'] + self@.last_search + "\" not found"@);
                self.statusline(MessageType::Ahem, msg.as_str());
            },
        }
    }
}

} // verus!

verus! {

impl EditorView {
    /// The editor about to search: with the new search string, when one was
    /// given, and searching in the direction asked for.
    pub open spec fn set_for_search(self, direction: crate::definitions::Direction, answer: Seq<char>) -> EditorView {
        let e1 = if answer.len() == 0 {
            self
        } else {
            EditorView { last_search: answer, ..self }
        };
        EditorView {
            search_flags: if direction is Backward {
                EditorFlags::BACKWARDS_SEARCH
            } else {
                0
            },
            ..e1
        }
    }

    /// What `do_search(direction, answer)` leaves.
    pub open spec fn after_search(self, direction: crate::definitions::Direction, answer: Seq<char>) -> EditorView {
        if answer.len() == 0 && self.last_search.len() == 0 {
            self.status(MessageType::Ahem, "Cancelled"@)
        } else {
            EditorView {
                refresh_needed: true,
                ..self.set_for_search(direction, answer).after_looking()
            }
        }
    }

    /// `do_search(direction, answer)` can run.
    pub open spec fn can_search(self, direction: crate::definitions::Direction, answer: Seq<char>) -> bool {
        (answer.len() == 0 && self.last_search.len() == 0) || self.set_for_search(
            direction,
            answer,
        ).looking_ok()
    }

    /// The editor about to search again, forwards or backwards.
    pub open spec fn set_for_again(self, backward: bool) -> EditorView {
        EditorView {
            search_flags: if backward {
                self.search_flags | EditorFlags::BACKWARDS_SEARCH
            } else {
                self.search_flags & !EditorFlags::BACKWARDS_SEARCH
            },
            ..self
        }
    }

    /// What searching again for the last search string leaves.
    pub open spec fn after_again(self, backward: bool) -> EditorView {
        if self.last_search.len() == 0 {
            self.status(MessageType::Ahem, "No current search pattern"@)
        } else {
            EditorView { refresh_needed: true, ..self.set_for_again(backward).after_looking() }
        }
    }

    /// Searching again can run.
    pub open spec fn can_search_again(self, backward: bool) -> bool {
        self.last_search.len() == 0 || self.set_for_again(backward).looking_ok()
    }
}

impl Editor {
    /// Search for `answer` (what the user typed at the search prompt), or
    /// again for the last search string when `answer` is empty.
    pub fn do_search(&mut self, direction: crate::definitions::Direction, answer: &str)
        requires
            old(self)@.can_search(direction, answer@),
        ensures
            final(self)@ == old(self)@.after_search(direction, answer@),
    {
        if text_empty(answer) {
            if text_empty(self.last_search.as_str()) {
                self.statusline(MessageType::Ahem, "Cancelled");
                return;
            }
        } else {
            self.last_search = copy_text(answer);
        }
        self.search_flags = match direction {
            crate::definitions::Direction::Backward => EditorFlags::from_bits(
                EditorFlags::BACKWARDS_SEARCH,
            ),
            crate::definitions::Direction::Forward => EditorFlags::empty(),
        };
        self.go_looking();
        self.refresh_needed = true;
    }

    /// Search forward again for the last search string.
    pub fn do_findnext(&mut self)
        requires
            old(self)@.can_search_again(false),
        ensures
            final(self)@ == old(self)@.after_again(false),
    {
        if text_empty(self.last_search.as_str()) {
            self.statusline(MessageType::Ahem, "No current search pattern");
            return;
        }
        self.search_flags.remove(EditorFlags::BACKWARDS_SEARCH);
        self.go_looking();
        self.refresh_needed = true;
    }

    /// Search backward again for the last search string.
    pub fn do_findprevious(&mut self)
        requires
            old(self)@.can_search_again(true),
        ensures
            final(self)@ == old(self)@.after_again(true),
    {
        if text_empty(self.last_search.as_str()) {
            self.statusline(MessageType::Ahem, "No current search pattern");
            return;
        }
        self.search_flags.insert(EditorFlags::BACKWARDS_SEARCH);
        self.go_looking();
        self.refresh_needed = true;
    }
}

/// Whether `s` is empty.
fn text_empty(s: &str) -> (r: bool)
    ensures
        r == (s@.len() == 0),
{
    crate::cut::text_is_empty(s)
}

} // verus!

verus! {

/// Whether the columns of `text` surely fit in a `usize`.
fn cols_bounded(text: &str, tabsize: usize) -> (r: bool)
    ensures
        r == (crate::chars::cols_bound(text@, tabsize as int) <= usize::MAX),
{
    let cs = chars_of(text);
    let n = cs.len();
    let mut total: usize = 0;
    let mut i: usize = 0;
    while i < n
        invariant
            cs@ == text@,
            n == cs@.len(),
            i <= n,
            total == crate::chars::cols_bound(cs@.take(i as int), tabsize as int),
        decreases n - i,
    {
        proof {
            crate::chars::lemma_cols_step(cs@, i as int, tabsize as int);
        }
        let w = if cs[i] == '\t' {
            tabsize
        } else {
            3
        };
        if total > usize::MAX - w {
            proof {
                crate::chars::lemma_cols_bound_prefix(cs@, i + 1, tabsize as int);
            }
            return false;
        }
        total = total + w;
        i += 1;
    }
    assert(cs@.take(n as int) =~= cs@);
    true
}

impl Editor {
    /// Whether slices at the character boundary `x` of the text a search
    /// looks in can be taken: `x` lies in `h` on a boundary.
    fn cut_ok(h: &Vec<char>, x: usize) -> (r: bool)
        requires
            bytes_len(h@) <= usize::MAX,
        ensures
            r == (x <= bytes_len(h@) && is_boundary(h@, x as int)),
    {
        let r = index_at(h, x);
        proof {
            if r is Some {
                lemma_boundary(h@, x as int);
            }
        }
        r.is_some()
    }

    /// Whether every line of the current buffer can be displayed, as
    /// `display_ok` asks of going to a line or moving by words.
    pub fn lines_displayable(&self) -> (r: bool)
        ensures
            r == (self@.has_cur() && self@.display_ok()),
    {
        let cb = self.current_buf;
        if cb >= self.buffers.len() {
            return false;
        }
        proof {
            crate::editor::lemma_cur(self);
        }
        let n = self.buffers[cb].lines.len();
        let mut i: usize = 0;
        while i < n
            invariant
                self@.has_cur(),
                cb == self.current_buf,
                n == self@.cur().lines.len(),
                i <= n,
                forall|j: int| 0 <= j < i ==> crate::chars::cols_ok(#[trigger] self@.cur().lines[j].data, self.tabsize as int),
            decreases n - i,
        {
            proof {
                crate::editor::lemma_cur(self);
            }
            let text = self.buffers[cb].lines[i].data.as_str();
            if !cols_bounded(text, self.tabsize) {
                return false;
            }
            if self.tabsize == 0 && crate::chars::text_has_char(text, '\t') {
                return false;
            }
            i += 1;
        }
        true
    }

    /// Whether a search for `needle` with the search flags `flags` can run
    /// (checked at run time, where the search ignores case, on the lowercase
    /// form of the text).
    pub fn search_ready(&self, needle: &str, flags: u64) -> (r: bool)
        ensures
            r == (EditorView { last_search: needle@, search_flags: flags, ..self@ }).search_checks(),
            r ==> (EditorView { last_search: needle@, search_flags: flags, ..self@ }).looking_ok(),
    {
        let ghost e = EditorView { last_search: needle@, search_flags: flags, ..self@ };
        let cb = self.current_buf;
        if cb >= self.buffers.len() {
            return false;
        }
        proof {
            crate::editor::lemma_cur(self);
        }
        let n = self.buffers[cb].lines.len();
        let s = self.buffers[cb].current;
        let sx = self.buffers[cb].current_x;
        if s >= n || n == usize::MAX {
            return false;
        }
        if self.buffers[cb].edittop > usize::MAX - self.editwinrows {
            return false;
        }
        let cs = self.flags.contains(EditorFlags::CASE_SENSITIVE);
        let mut i: usize = 0;
        while i < n
            invariant
                self@.has_cur(),
                cb == self.current_buf,
                n == self@.cur().lines.len(),
                e == (EditorView { last_search: needle@, search_flags: flags, ..self@ }),
                cs == e.has_flag(EditorFlags::CASE_SENSITIVE),
                i <= n,
                forall|j: int| 0 <= j < i ==> crate::chars::cols_ok(#[trigger] self@.cur().lines[j].data, self.tabsize as int),
                forall|j: int| 0 <= j < i ==> bytes_len(#[trigger] hay(self@.cur().lines[j].data, cs)) <= usize::MAX,
                forall|j: int| 0 <= j < i ==> bytes_len(#[trigger] self@.cur().lines[j].data) <= usize::MAX,
            decreases n - i,
        {
            proof {
                crate::editor::lemma_cur(self);
            }
            let text = self.buffers[cb].lines[i].data.as_str();
            let _tb = byte_len(text);
            if !cols_bounded(text, self.tabsize) {
                return false;
            }
            if self.tabsize == 0 && crate::chars::text_has_char(text, '\t') {
                return false;
            }
            let h = if cs {
                copy_text(text)
            } else {
                str_to_lowercase(text)
            };
            let _hb = byte_len(h.as_str());
            i += 1;
        }
        proof {
            crate::editor::lemma_cur(self);
        }
        let text = self.buffers[cb].lines[s].data.as_str();
        let tc = chars_of(text);
        let _tb = byte_len(text);
        if !Self::cut_ok(&tc, sx) {
            proof {
                let t = self@.cur().lines[s as int].data;
                assert(tc@ == t);
                if is_boundary(t, sx as int) {
                    lemma_boundary(t, sx as int);
                }
                assert(!self@.cur().cursor_ok());
            }
            return false;
        }
        if self.flags.contains(EditorFlags::USE_REGEXP) {
            return true;
        }
        let h = if cs {
            copy_text(text)
        } else {
            str_to_lowercase(text)
        };
        let _hb = byte_len(h.as_str());
        let hc = chars_of(h.as_str());
        let backward = flags & EditorFlags::BACKWARDS_SEARCH == EditorFlags::BACKWARDS_SEARCH;
        let len = byte_len(text);
        let r = step_right(text, sx);
        proof {
            let t = self@.cur().lines[s as int].data;
            if sx < len {
                crate::text::lemma_right_boundary(t, sx as int, r as int);
                lemma_bpos_full(t);
                crate::textseq::lemma_bpos_mono(t, cidx(t, sx as int) + 1, t.len() as int);
            }
        }
        let from = if r < len {
            r
        } else {
            len
        };
        let ok0 = if backward {
            Self::cut_ok(&hc, sx)
        } else {
            from > byte_len(h.as_str()) || Self::cut_ok(&hc, from)
        };
        let okn = if backward {
            Self::cut_ok(&hc, sx)
        } else {
            sx == 0 || Self::cut_ok(&hc, sx)
        };
        ok0 && okn
    }

    /// Search as `do_search` does when the search can run, and say whether it
    /// could: it can when there is nothing to search for (the search is then
    /// cancelled) or when the checks of `search_ready` pass.
    pub fn try_search(&mut self, direction: crate::definitions::Direction, answer: &str) -> (done: bool)
        ensures
            done == ((answer@.len() == 0 && old(self)@.last_search.len() == 0) || old(
                self,
            )@.set_for_search(direction, answer@).search_checks()),
            done ==> final(self)@ == old(self)@.after_search(direction, answer@),
            !done ==> final(self)@ == old(self)@,
    {
        if text_empty(answer) && text_empty(self.last_search.as_str()) {
            self.do_search(direction, answer);
            return true;
        }
        let flags = match direction {
            crate::definitions::Direction::Backward => EditorFlags::BACKWARDS_SEARCH,
            crate::definitions::Direction::Forward => 0,
        };
        let ready = if text_empty(answer) {
            self.search_ready(self.last_search.as_str(), flags)
        } else {
            self.search_ready(answer, flags)
        };
        proof {
            let f = old(self)@.set_for_search(direction, answer@);
            if answer@.len() == 0 {
                assert(f == EditorView { last_search: old(self)@.last_search, search_flags: flags, ..old(self)@ });
            } else {
                assert(f == EditorView { last_search: answer@, search_flags: flags, ..old(self)@ });
            }
        }
        if !ready {
            return false;
        }
        self.do_search(direction, answer);
        true
    }

    /// Search forward or backward again as `do_findnext` and
    /// `do_findprevious` do when the search can run, and say whether it
    /// could: it can when there is no last search (nothing is then done but
    /// a word) or when the checks of `search_ready` pass.
    pub fn try_search_again(&mut self, backward: bool) -> (done: bool)
        ensures
            done == (old(self)@.last_search.len() == 0 || old(self)@.set_for_again(backward).search_checks()),
            done ==> final(self)@ == old(self)@.after_again(backward),
            !done ==> final(self)@ == old(self)@,
    {
        if text_empty(self.last_search.as_str()) {
            if backward {
                self.do_findprevious();
            } else {
                self.do_findnext();
            }
            return true;
        }
        let flags = if backward {
            self.search_flags.bits | EditorFlags::BACKWARDS_SEARCH
        } else {
            self.search_flags.bits & !EditorFlags::BACKWARDS_SEARCH
        };
        let ready = self.search_ready(self.last_search.as_str(), flags);
        assert(old(self)@.set_for_again(backward) == EditorView { last_search: old(self)@.last_search, search_flags: flags, ..old(self)@ });
        if !ready {
            return false;
        }
        if backward {
            self.do_findprevious();
        } else {
            self.do_findnext();
        }
        true
    }
}

} // verus!

verus! {

/// The line index that "go to line" aims at for an entered number: the
/// number less one, and at least 0 (1 when nothing was entered).
pub open spec fn target_of(o: Option<isize>) -> int {
    match o {
        Some(v) => if v >= 1 {
            v - 1
        } else {
            0
        },
        None => 0,
    }
}

impl EditorView {
    /// What `do_gotolinecolumn(input)` leaves: the cursor on the line and
    /// column entered (the last line at most), centred in the window.
    pub open spec fn after_goto(self, input: Seq<char>) -> EditorView {
        if input.len() == 0 {
            self.status(MessageType::Info, "Cancelled"@)
        } else {
            let (lo, co) = crate::utils::line_column(input);
            let b = self.cur();
            let max_line = b.lines.len() - 1;
            let l = if target_of(lo) < max_line {
                target_of(lo)
            } else {
                max_line
            };
            let t = b.lines[l].data;
            let x = crate::chars::actual_x_from(t, target_of(co), self.tabsize as int, 0);
            EditorView {
                refresh_needed: true,
                ..self.with_cur(
                    BufferView {
                        current: l as usize,
                        current_x: x as usize,
                        placewewant: cols_to(t, x, self.tabsize as int) as usize,
                        edittop: crate::text::sat_sub(l, (self.editwinrows / 2) as int) as usize,
                        ..b
                    },
                )
            }
        }
    }
}

impl Editor {
    /// Go to the line and column in `input` (what the user typed at the
    /// prompt, as "line", "line,column", "line.column" or "line:column").
    pub fn do_gotolinecolumn(&mut self, input: &str)
        requires
            old(self)@.has_cur(),
            old(self)@.cur().lines.len() > 0,
            old(self)@.display_ok(),
        ensures
            final(self)@ == old(self)@.after_goto(input@),
    {
        if text_empty(input) {
            self.statusline(MessageType::Info, "Cancelled");
            return;
        }
        let (line_opt, col_opt) = crate::utils::parse_line_column(input);
        let target_line = match line_opt {
            Some(v) => if v >= 1 {
                (v - 1) as usize
            } else {
                0
            },
            None => 0,
        };
        let target_col = match col_opt {
            Some(v) => if v >= 1 {
                (v - 1) as usize
            } else {
                0
            },
            None => 0,
        };
        let tabsize = self.tabsize;
        let editwinrows = self.editwinrows;
        let cb = self.current_buf;
        proof {
            crate::editor::lemma_cur(self);
        }
        let max_line = self.buffers[cb].lines.len() - 1;
        let l = if target_line < max_line {
            target_line
        } else {
            max_line
        };
        proof {
            let t = self@.cur().lines[l as int].data;
            crate::editor::lemma_display_prefix(self@, l as int, t.len() as int);
            assert(t.take(t.len() as int) =~= t);
        }
        let x = crate::chars::actual_x(self.buffers[cb].lines[l].data.as_str(), target_col, tabsize);
        proof {
            let t = self@.cur().lines[l as int].data;
            crate::chars::lemma_fit_count_exists(t, x as int);
            crate::editor::lemma_display_prefix(self@, l as int, fit_count(t, x as int));
        }
        let w = wideness(self.buffers[cb].lines[l].data.as_str(), x, tabsize);
        self.buffers[cb].current = l;
        self.buffers[cb].current_x = x;
        self.buffers[cb].placewewant = w;
        self.buffers[cb].edittop = if l >= editwinrows / 2 {
            l - editwinrows / 2
        } else {
            0
        };
        self.refresh_needed = true;
        assert(self@.buffers =~= old(self)@.after_goto(input@).buffers);
    }
}

} // verus!

verus! {

/// `h` from the character index `k` on, with every match of `n` (taken left
/// to right, not overlapping) replaced by `r`.
pub open spec fn replaced_from(h: Seq<char>, n: Seq<char>, r: Seq<char>, k: int) -> Seq<char>
    decreases h.len() - k,
{
    if n.len() == 0 || k < 0 || k > h.len() {
        h.skip(k)
    } else if exists|j: int| is_first_match(h, n, k, h.len() as int, j) {
        let j = choose|j: int| is_first_match(h, n, k, h.len() as int, j);
        h.subrange(k, j) + r + replaced_from(h, n, r, j + n.len())
    } else {
        h.skip(k)
    }
}

/// The character indices from `k` on at which the successive matches of `n`
/// in `h` (taken left to right, not overlapping) start.
pub open spec fn match_starts(h: Seq<char>, n: Seq<char>, k: int) -> Seq<int>
    decreases h.len() - k,
{
    if n.len() == 0 || k < 0 || k > h.len() {
        Seq::empty()
    } else if exists|j: int| is_first_match(h, n, k, h.len() as int, j) {
        let j = choose|j: int| is_first_match(h, n, k, h.len() as int, j);
        seq![j] + match_starts(h, n, j + n.len())
    } else {
        Seq::empty()
    }
}

/// `t` rebuilt from the byte offset `last` on, with the `nb` bytes at each
/// of the offsets `bs` replaced by `r`.
pub open spec fn rebuilt(t: Seq<char>, bs: Seq<int>, nb: int, r: Seq<char>, last: int) -> Seq<char>
    decreases bs.len(),
{
    if bs.len() == 0 {
        t.skip(cidx(t, last))
    } else {
        t.subrange(cidx(t, last), cidx(t, bs[0])) + r + rebuilt(t, bs.drop_first(), nb, r, bs[0] + nb)
    }
}

/// Each slice that `rebuilt` takes lies in `t` between character boundaries.
pub open spec fn rebuilt_ok(t: Seq<char>, bs: Seq<int>, nb: int, last: int) -> bool
    decreases bs.len(),
{
    &&& is_boundary(t, last)
    &&& bs.len() > 0 ==> last <= bs[0] && is_boundary(t, bs[0]) && rebuilt_ok(
        t,
        bs.drop_first(),
        nb,
        bs[0] + nb,
    )
}

/// The byte offsets in `h` of the character indices `ks`.
pub open spec fn byte_offsets(h: Seq<char>, ks: Seq<int>) -> Seq<int> {
    Seq::new(ks.len(), |i: int| bpos(h, ks[i]) as int)
}

/// What a replacement makes of the line `t`: every match of `needle`
/// replaced by `rep`, matching case or not.
pub open spec fn replaced_line(t: Seq<char>, needle: Seq<char>, rep: Seq<char>, case_sensitive: bool) -> Seq<char> {
    if case_sensitive {
        replaced_from(t, needle, rep, 0)
    } else {
        let l = lowercase(t);
        rebuilt(
            t,
            byte_offsets(l, match_starts(l, lowercase(needle), 0)),
            bytes_len(needle) as int,
            rep,
            0,
        )
    }
}

/// Replacing in `t` ignoring case cuts the line at character boundaries.
pub open spec fn replace_ok(t: Seq<char>, needle: Seq<char>) -> bool {
    let l = lowercase(t);
    rebuilt_ok(t, byte_offsets(l, match_starts(l, lowercase(needle), 0)), bytes_len(needle) as int, 0)
}

} // verus!

verus! {

proof fn lemma_first_match_unique(h: Seq<char>, n: Seq<char>, lo: int, hi: int, j: int)
    requires
        is_first_match(h, n, lo, hi, j),
    ensures
        (choose|k: int| is_first_match(h, n, lo, hi, k)) == j,
{
    let c = choose|k: int| is_first_match(h, n, lo, hi, k);
    assert(is_first_match(h, n, lo, hi, c));
    if c < j {
        assert(!crate::textseq::occurs_at(h, n, c));
    }
    if j < c {
        assert(!crate::textseq::occurs_at(h, n, j));
    }
}

/// `h` with every match of the non-empty `n` replaced by `r` (what `str::replace` does).
fn replace_plain_text(h: &str, n: &str, r: &str) -> (out: String)
    requires
        n@.len() > 0,
    ensures
        out@ == replaced_from(h@, n@, r@, 0),
{
    let hc = chars_of(h);
    let nc = chars_of(n);
    let hl = hc.len();
    let mut out = String::new();
    let mut k: usize = 0;
    loop
        invariant
            hc@ == h@,
            nc@ == n@,
            n@.len() > 0,
            hl == hc@.len(),
            k <= hl,
            replaced_from(h@, n@, r@, 0) == out@ + replaced_from(h@, n@, r@, k as int),
        decreases hl - k,
    {
        match crate::textseq::first_match(&hc, &nc, k, hl) {
            Some(j) => {
                proof {
                    lemma_first_match_unique(h@, n@, k as int, hl as int, j as int);
                }
                let piece = crate::textseq::string_of(&hc, k, j);
                crate::textseq::append_str(&mut out, piece.as_str());
                crate::textseq::append_str(&mut out, r);
                assert(replaced_from(h@, n@, r@, k as int) == h@.subrange(k as int, j as int) + r@
                    + replaced_from(h@, n@, r@, j + n@.len()));
                assert(replaced_from(h@, n@, r@, 0) =~= out@ + replaced_from(h@, n@, r@, j + nc.len()));
                k = j + nc.len();
            },
            None => {
                proof {
                    if exists|j: int| is_first_match(h@, n@, k as int, hl as int, j) {
                        let j = choose|j: int| is_first_match(h@, n@, k as int, hl as int, j);
                        assert(!crate::textseq::occurs_at(h@, n@, j));
                    }
                }
                let rest = crate::textseq::string_of(&hc, k, hl);
                crate::textseq::append_str(&mut out, rest.as_str());
                assert(rest@ =~= h@.skip(k as int));
                assert(replaced_from(h@, n@, r@, 0) =~= out@);
                return out;
            },
        }
    }
}

/// The byte offsets in `l` where the successive matches of the non-empty `n` start.
fn match_offsets(l: &Vec<char>, n: &Vec<char>) -> (r: Vec<usize>)
    requires
        n@.len() > 0,
        bytes_len(l@) <= usize::MAX,
    ensures
        r@.len() == byte_offsets(l@, match_starts(l@, n@, 0)).len(),
        forall|i: int| 0 <= i < r@.len() ==> r@[i] as int == #[trigger] byte_offsets(l@, match_starts(l@, n@, 0))[i],
{
    let ll = l.len();
    let mut r: Vec<usize> = Vec::new();
    let mut k: usize = 0;
    let ghost all = match_starts(l@, n@, 0);
    loop
        invariant
            n@.len() > 0,
            bytes_len(l@) <= usize::MAX,
            ll == l@.len(),
            k <= ll,
            all == match_starts(l@, n@, 0),
            all == Seq::new(r@.len(), |i: int| all[i]) + match_starts(l@, n@, k as int),
            forall|i: int| 0 <= i < r@.len() ==> r@[i] as int == bpos(l@, #[trigger] all[i]),
        decreases ll - k,
    {
        match crate::textseq::first_match(l, n, k, ll) {
            Some(j) => {
                proof {
                    lemma_first_match_unique(l@, n@, k as int, ll as int, j as int);
                    assert(match_starts(l@, n@, k as int) == seq![j as int] + match_starts(l@, n@, j + n@.len()));
                }
                let ghost before = r@;
                let x = crate::textseq::offset_of(l, j);
                r.push(x);
                assert(all =~= Seq::new(r@.len(), |i: int| all[i]) + match_starts(l@, n@, j + n@.len()));
                k = j + n.len();
            },
            None => {
                proof {
                    if exists|j: int| is_first_match(l@, n@, k as int, ll as int, j) {
                        let j = choose|j: int| is_first_match(l@, n@, k as int, ll as int, j);
                        assert(!crate::textseq::occurs_at(l@, n@, j));
                    }
                    assert(match_starts(l@, n@, k as int) =~= Seq::<int>::empty());
                    assert(all.len() == r@.len());
                }
                return r;
            },
        }
    }
}

/// `t` with the `nb` bytes at each of the offsets `bs` replaced by `rep`.
fn rebuild(t: &str, bs: &Vec<usize>, nb: usize, rep: &str) -> (out: String)
    requires
        rebuilt_ok(t@, Seq::new(bs@.len(), |i: int| bs@[i] as int), nb as int, 0),
    ensures
        out@ == rebuilt(t@, Seq::new(bs@.len(), |i: int| bs@[i] as int), nb as int, rep@, 0),
{
    let ghost all = Seq::new(bs@.len(), |i: int| bs@[i] as int);
    let n = bs.len();
    let mut out = String::new();
    let mut last: usize = 0;
    let mut i: usize = 0;
    let _tl = byte_len(t);
    assert(all.skip(0) =~= all);
    while i < n
        invariant
            n == bs@.len() == all.len(),
            all == Seq::new(bs@.len(), |i: int| bs@[i] as int),
            i <= n,
            bytes_len(t@) <= usize::MAX,
            rebuilt_ok(t@, all.skip(i as int), nb as int, last as int),
            rebuilt(t@, all, nb as int, rep@, 0) == out@ + rebuilt(t@, all.skip(i as int), nb as int, rep@, last as int),
        decreases n - i,
    {
        let start = bs[i];
        let ghost rest = all.skip(i as int);
        assert(rest[0] == start as int);
        assert(rest.drop_first() =~= all.skip(i + 1));
        proof {
            reveal_with_fuel(rebuilt_ok, 2);
            lemma_boundary(t@, last as int);
            lemma_boundary(t@, start as int);
            if cidx(t@, start as int) < cidx(t@, last as int) {
                crate::textseq::lemma_bpos_mono(t@, cidx(t@, start as int), cidx(t@, last as int));
            }
            lemma_boundary(t@, start + nb);
        }
        let piece = crate::textseq::slice_text(t, last, start);
        crate::textseq::append_str(&mut out, piece.as_str());
        crate::textseq::append_str(&mut out, rep);
        assert(rebuilt(t@, all, nb as int, rep@, 0) =~= out@ + rebuilt(t@, all.skip(i + 1), nb as int, rep@, start + nb));
        last = start + nb;
        i += 1;
    }
    proof {
        lemma_boundary(t@, last as int);
        lemma_bpos_full(t@);
        lemma_cidx(t@, t@.len() as int);
    }
    let tl = byte_len(t);
    let tail_text = crate::textseq::slice_text(t, last, tl);
    crate::textseq::append_str(&mut out, tail_text.as_str());
    assert(all.skip(n as int).len() == 0);
    assert(tail_text@ =~= t@.skip(cidx(t@, last as int)));
    assert(rebuilt(t@, all, nb as int, rep@, 0) =~= out@);
    out
}

} // verus!

verus! {

/// What `regex::Regex::replace_all` with the pattern `p` makes of `h`, with
/// the replacement `r`.
pub uninterp spec fn regex_replace(p: Seq<char>, h: Seq<char>, r: Seq<char>) -> Seq<char>;

/// `regex::Regex::replace_all`: the text it returns.
#[verifier::external_body]
fn regex_replace_in(re: &Pattern, h: &str, r: &str) -> (out: String)
    ensures
        out@ == regex_replace(re@, h@, r@),
{
    re.re.replace_all(h, r).into_owned()
}

/// Whether two texts are the same.
pub fn same_text(a: &str, b: &str) -> (r: bool)
    ensures
        r == (a@ == b@),
{
    let ac = chars_of(a);
    let bc = chars_of(b);
    if ac.len() != bc.len() {
        return false;
    }
    let mut i: usize = 0;
    while i < ac.len()
        invariant
            ac@ == a@,
            bc@ == b@,
            ac@.len() == bc@.len(),
            i <= ac@.len(),
            forall|j: int| 0 <= j < i ==> ac@[j] == bc@[j],
        decreases ac@.len() - i,
    {
        if ac[i] != bc[i] {
            return false;
        }
        i += 1;
    }
    assert(ac@ =~= bc@);
    true
}

/// The pattern a regular-expression replacement of `needle` compiles.
pub open spec fn replace_pattern(needle: Seq<char>, case_sensitive: bool) -> Seq<char> {
    if case_sensitive {
        needle
    } else {
        "(?i)"@ + needle
    }
}

/// What a replacement of `needle` by `rep` makes of the line `t`: by a
/// regular expression (no change when it does not compile), or plainly.
pub open spec fn replacement_of(
    t: Seq<char>,
    needle: Seq<char>,
    rep: Seq<char>,
    case_sensitive: bool,
    use_regexp: bool,
) -> Seq<char> {
    if use_regexp {
        let p = replace_pattern(needle, case_sensitive);
        if regex_accepts(p) {
            regex_replace(p, t, rep)
        } else {
            t
        }
    } else {
        replaced_line(t, needle, rep, case_sensitive)
    }
}

/// What replacing `needle` by `rep` makes of `t`, with `re` compiled from
/// the pattern when the replacement goes by a regular expression.
fn replace_text(t: &str, needle: &str, rep: &str, cs: bool, use_re: bool, re: &Option<Pattern>) -> (r: String)
    requires
        needle@.len() > 0,
        use_re ==> (re is Some == regex_accepts(replace_pattern(needle@, cs))),
        use_re ==> (re matches Some(p) ==> p@ == replace_pattern(needle@, cs)),
        !use_re && !cs ==> replace_ok(t@, needle@),
    ensures
        r@ == replacement_of(t@, needle@, rep@, cs, use_re),
{
    if use_re {
        match re {
            Some(p) => regex_replace_in(p, t, rep),
            None => copy_text(t),
        }
    } else if cs {
        replace_plain_text(t, needle, rep)
    } else {
        let lower = str_to_lowercase(t);
        let lnd = str_to_lowercase(needle);
        let _lb = byte_len(lower.as_str());
        let lc = chars_of(lower.as_str());
        let nc = chars_of(lnd.as_str());
        let bs = if nc.len() > 0 {
            match_offsets(&lc, &nc)
        } else {
            Vec::new()
        };
        let ghost want = byte_offsets(lc@, match_starts(lc@, nc@, 0));
        assert(Seq::new(bs@.len(), |i: int| bs@[i] as int) =~= want);
        rebuild(t, &bs, byte_len(needle), rep)
    }
}

impl EditorView {
    /// What a replacement makes of the line `t`.
    pub open spec fn replace_result(self, t: Seq<char>, needle: Seq<char>, rep: Seq<char>) -> Seq<char> {
        replacement_of(
            t,
            needle,
            rep,
            self.has_flag(EditorFlags::CASE_SENSITIVE),
            self.has_flag(EditorFlags::USE_REGEXP),
        )
    }

    /// Number of lines among the first `k` that a replacement changes.
    pub open spec fn changed_lines(self, needle: Seq<char>, rep: Seq<char>, k: int) -> nat
        decreases k,
    {
        if k <= 0 {
            0
        } else {
            let t = self.cur().lines[k - 1].data;
            self.changed_lines(needle, rep, k - 1) + if self.replace_result(t, needle, rep) != t {
                1nat
            } else {
                0nat
            }
        }
    }

    /// The message a replacement shows for `count` changed lines.
    pub open spec fn replaced_message(count: nat) -> Seq<char> {
        "Replaced in "@ + crate::textseq::decimal(count) + (if count == 1 {
            " line"@
        } else {
            " lines"@
        })
    }

    /// What `do_replace(needle, rep)` leaves: every match in the buffer
    /// replaced, and a word on how many lines changed.
    pub open spec fn after_replace(self, needle: Seq<char>, rep: Seq<char>) -> EditorView {
        if needle.len() == 0 {
            self.status(MessageType::Info, "Cancelled"@)
        } else {
            let b = self.cur();
            let lines = Editor::replaced_lines(self, needle, rep);
            let count = self.changed_lines(needle, rep, b.lines.len() as int);
            let e2 = EditorView { last_search: needle, ..self }.with_cur(BufferView { lines, ..b });
            let e3 = if count > 0 {
                e2.with_cur(BufferView { modified: true, ..e2.cur() }).status(
                    MessageType::Info,
                    Self::replaced_message(count),
                )
            } else {
                e2.status(MessageType::Ahem, seq!['"'] + needle + "\" not found"@)
            };
            EditorView { refresh_needed: true, ..e3 }
        }
    }

    /// `do_replace(needle, rep)` can run: a replacement that ignores case
    /// cuts each line at character boundaries.
    pub open spec fn can_replace(self, needle: Seq<char>) -> bool {
        let b = self.cur();
        needle.len() == 0 || (self.has_cur() && (!self.has_flag(EditorFlags::USE_REGEXP)
            && !self.has_flag(EditorFlags::CASE_SENSITIVE) ==> forall|i: int|
            0 <= i < b.lines.len() ==> replace_ok(#[trigger] b.lines[i].data, needle)))
    }
}

} // verus!

verus! {

impl Editor {
    /// Replace the matches in line `i` of the current buffer; true when the line changed.
    fn replace_line(
        &mut self,
        i: usize,
        needle: &str,
        rep: &str,
        cs: bool,
        use_re: bool,
        re: &Option<Pattern>,
    ) -> (changed: bool)
        requires
            old(self)@.has_cur(),
            i < old(self)@.cur().lines.len(),
            needle@.len() > 0,
            use_re ==> (re is Some == regex_accepts(replace_pattern(needle@, cs))),
            use_re ==> (re matches Some(p) ==> p@ == replace_pattern(needle@, cs)),
            !use_re && !cs ==> replace_ok(old(self)@.cur().lines[i as int].data, needle@),
        ensures
            ({
                let b = old(self)@.cur();
                let t = b.lines[i as int].data;
                let nt = replacement_of(t, needle@, rep@, cs, use_re);
                &&& final(self)@ == old(self)@.with_cur(
                    BufferView { lines: b.lines.update(i as int, crate::text::with_text(b.lines[i as int], nt)), ..b },
                )
                &&& changed == (nt != t)
            }),
    {
        let cb = self.current_buf;
        proof {
            crate::editor::lemma_cur(self);
        }
        let new_data = replace_text(self.buffers[cb].lines[i].data.as_str(), needle, rep, cs, use_re, re);
        let ghost b = old(self)@.cur();
        if !same_text(new_data.as_str(), self.buffers[cb].lines[i].data.as_str()) {
            self.buffers[cb].set_text(i, new_data);
            assert(self@.buffers =~= old(self)@.buffers.update(cb as int, self@.cur()));
            true
        } else {
            assert(b.lines.update(i as int, crate::text::with_text(b.lines[i as int], new_data@)) =~= b.lines);
            assert(old(self)@.with_cur(b).buffers =~= old(self)@.buffers);
            false
        }
    }

    /// The lines of the current buffer with every match of `needle` replaced.
    pub open spec fn replaced_lines(e: EditorView, needle: Seq<char>, rep: Seq<char>) -> Seq<LineView> {
        let ls = e.cur().lines;
        Seq::new(
            ls.len(),
            |j: int| crate::text::with_text(ls[j], e.replace_result(ls[j].data, needle, rep)),
        )
    }

    /// Replace the matches of the non-empty `needle` in every line of the
    /// current buffer; the number of lines that changed.
    #[verifier::spinoff_prover]
    #[verifier::rlimit(40)]
    fn replace_all_lines(&mut self, needle: &str, replacement: &str) -> (count: usize)
        requires
            old(self)@.has_cur(),
            old(self)@.can_replace(needle@),
            needle@.len() > 0,
        ensures
            final(self)@ == old(self)@.with_cur(
                BufferView {
                    lines: Self::replaced_lines(old(self)@, needle@, replacement@),
                    ..old(self)@.cur()
                },
            ),
            count == old(self)@.changed_lines(needle@, replacement@, old(self)@.cur().lines.len() as int),
    {
        let ghost e1 = self@;
        let cs = self.flags.contains(EditorFlags::CASE_SENSITIVE);
        let use_re = self.flags.contains(EditorFlags::USE_REGEXP);
        let re = if use_re {
            let pattern = if cs {
                copy_text(needle)
            } else {
                let mut p = String::new();
                push_chars_ignore_case(&mut p);
                crate::textseq::append_str(&mut p, needle);
                p
            };
            proof {
                reveal_strlit("(?i)");
            }
            assert(pattern@ == replace_pattern(needle@, cs));
            regex_new(pattern.as_str())
        } else {
            None
        };
        let cb = self.current_buf;
        proof {
            crate::editor::lemma_cur(self);
        }
        let n = self.buffers[cb].lines.len();
        let ghost ls = e1.cur().lines;
        let mut count: usize = 0;
        let mut i: usize = 0;
        assert(Seq::new(
            n as nat,
            |j: int|
                if j < 0 {
                    crate::text::with_text(ls[j], e1.replace_result(ls[j].data, needle@, replacement@))
                } else {
                    ls[j]
                },
        ) =~= ls);
        assert(e1.buffers =~= e1.with_cur(BufferView { lines: ls, ..e1.cur() }).buffers);
        while i < n
            invariant
                e1.has_cur(),
                e1.can_replace(needle@),
                needle@.len() > 0,
                cb == self.current_buf == e1.current_buf,
                ls == e1.cur().lines,
                n == ls.len(),
                i <= n,
                count == e1.changed_lines(needle@, replacement@, i as int),
                count <= i,
                cs == e1.has_flag(EditorFlags::CASE_SENSITIVE),
                use_re == e1.has_flag(EditorFlags::USE_REGEXP),
                use_re ==> (re is Some == regex_accepts(replace_pattern(needle@, cs))),
                use_re ==> (re matches Some(p) ==> p@ == replace_pattern(needle@, cs)),
                self@ == e1.with_cur(
                    BufferView {
                        lines: Seq::new(
                            n as nat,
                            |j: int|
                                if j < i {
                                    crate::text::with_text(ls[j], e1.replace_result(ls[j].data, needle@, replacement@))
                                } else {
                                    ls[j]
                                },
                        ),
                        ..e1.cur()
                    },
                ),
            decreases n - i,
        {
            let ghost before = self@;
            let ghost bb = before.cur();
            assert(bb.lines[i as int] == ls[i as int]);
            let changed = self.replace_line(i, needle, replacement, cs, use_re, &re);
            let ghost nl = Seq::new(
                n as nat,
                |j: int|
                    if j < i + 1 {
                        crate::text::with_text(ls[j], e1.replace_result(ls[j].data, needle@, replacement@))
                    } else {
                        ls[j]
                    },
            );
            assert(self@.cur().lines =~= nl);
            assert(self@.cur() == BufferView { lines: nl, ..e1.cur() });
            assert(self@.buffers =~= e1.with_cur(BufferView { lines: nl, ..e1.cur() }).buffers);
            if changed {
                count = count + 1;
            }
            i += 1;
        }
        assert(self@.cur().lines =~= Self::replaced_lines(e1, needle@, replacement@));
        assert(self@.buffers =~= e1.with_cur(
            BufferView { lines: Self::replaced_lines(e1, needle@, replacement@), ..e1.cur() },
        ).buffers);
        count
    }

    /// Mark the buffer modified and say how many lines changed, or that
    /// `needle` was not found.
    fn report_replaced(&mut self, count: usize, needle: &str)
        requires
            old(self)@.has_cur(),
        ensures
            final(self)@ == (if count > 0 {
                old(self)@.with_cur(BufferView { modified: true, ..old(self)@.cur() }).status(
                    MessageType::Info,
                    EditorView::replaced_message(count as nat),
                )
            } else {
                old(self)@.status(MessageType::Ahem, seq!['"'] + needle@ + "\" not found"@)
            }),
    {
        if count > 0 {
            let cb = self.current_buf;
            self.buffers[cb].modified = true;
            assert(self@.buffers =~= old(self)@.buffers.update(
                cb as int,
                BufferView { modified: true, ..old(self)@.cur() },
            ));
            let mut msg = String::new();
            crate::textseq::append_str(&mut msg, "Replaced in ");
            let num = crate::textseq::decimal_string(count);
            crate::textseq::append_str(&mut msg, num.as_str());
            if count == 1 {
                crate::textseq::append_str(&mut msg, " line");
                assert(msg@ =~= "Replaced in "@ + crate::textseq::decimal(count as nat) + " line"@);
            } else {
                crate::textseq::append_str(&mut msg, " lines");
                assert(msg@ =~= "Replaced in "@ + crate::textseq::decimal(count as nat) + " lines"@);
            }
            self.statusline(MessageType::Info, msg.as_str());
        } else {
            let mut msg = String::new();
            push_char(&mut msg, '"');
            crate::textseq::append_str(&mut msg, needle);
            crate::textseq::append_str(&mut msg, "\" not found");
            assert(msg@ =~= seq!['"'] + needle@ + "\" not found"@);
            self.statusline(MessageType::Ahem, msg.as_str());
        }
    }

    /// Replace every match of `needle` in the buffer by `replacement` (what
    /// the user typed at the two prompts); an empty `needle` cancels.
    #[verifier::rlimit(80)]
    #[verifier::spinoff_prover]
    pub fn do_replace(&mut self, needle: &str, replacement: &str)
        requires
            old(self)@.can_replace(needle@),
        ensures
            final(self)@ == old(self)@.after_replace(needle@, replacement@),
    {
        if text_empty(needle) {
            self.statusline(MessageType::Info, "Cancelled");
            return;
        }
        self.last_search = copy_text(needle);
        let ghost e1 = self@;
        assert(e1 == EditorView { last_search: needle@, ..old(self)@ });
        let count = self.replace_all_lines(needle, replacement);
        assert(Self::replaced_lines(e1, needle@, replacement@) == Self::replaced_lines(old(self)@, needle@, replacement@));
        let ghost e2 = self@;
        assert(e2.has_cur());
        assert(e2 == EditorView { last_search: needle@, ..old(self)@ }.with_cur(
            BufferView { lines: Self::replaced_lines(old(self)@, needle@, replacement@), ..old(self)@.cur() },
        ));
        self.report_replaced(count, needle);
        self.refresh_needed = true;
        proof {
            lemma_changed_lines_same(e1, old(self)@, needle@, replacement@, e1.cur().lines.len() as int);
        }
    }
}

proof fn lemma_changed_lines_same(a: EditorView, b: EditorView, needle: Seq<char>, rep: Seq<char>, k: int)
    requires
        a.cur() == b.cur(),
        a.flags == b.flags,
    ensures
        a.changed_lines(needle, rep, k) == b.changed_lines(needle, rep, k),
    decreases k,
{
    if k > 0 {
        lemma_changed_lines_same(a, b, needle, rep, k - 1);
    }
}

} // verus!

verus! {

/// Whether the slices that `rebuild` takes lie in `t` between character boundaries.
fn rebuild_ok(t: &str, bs: &Vec<usize>, nb: usize) -> (r: bool)
    ensures
        r == rebuilt_ok(t@, Seq::new(bs@.len(), |i: int| bs@[i] as int), nb as int, 0),
{
    let ghost all = Seq::new(bs@.len(), |i: int| bs@[i] as int);
    let tc = chars_of(t);
    let _tl = byte_len(t);
    let n = bs.len();
    let mut last: usize = 0;
    let mut i: usize = 0;
    assert(all.skip(0) =~= all);
    while i < n
        invariant
            tc@ == t@,
            bytes_len(t@) <= usize::MAX,
            n == bs@.len() == all.len(),
            all == Seq::new(bs@.len(), |i: int| bs@[i] as int),
            i <= n,
            rebuilt_ok(t@, all, nb as int, 0) == rebuilt_ok(t@, all.skip(i as int), nb as int, last as int),
        decreases n - i,
    {
        let ghost rest = all.skip(i as int);
        assert(rest.drop_first() =~= all.skip(i + 1));
        let start = bs[i];
        if index_at(&tc, last).is_none() || last > start || index_at(&tc, start).is_none() {
            return false;
        }
        if start > usize::MAX - nb {
            proof {
                reveal_with_fuel(rebuilt_ok, 2);
                if rebuilt_ok(t@, rest, nb as int, last as int) {
                    lemma_boundary(t@, start + nb);
                }
            }
            return false;
        }
        last = start + nb;
        i += 1;
    }
    index_at(&tc, last).is_some()
}

impl Editor {
    /// Replace as `do_replace` does when the replacement can run, and say
    /// whether it could.
    pub fn try_replace(&mut self, needle: &str, replacement: &str) -> (done: bool)
        ensures
            done == old(self)@.can_replace(needle@),
            done ==> final(self)@ == old(self)@.after_replace(needle@, replacement@),
            !done ==> final(self)@ == old(self)@,
    {
        if text_empty(needle) {
            self.do_replace(needle, replacement);
            return true;
        }
        let cb = self.current_buf;
        if cb >= self.buffers.len() {
            return false;
        }
        proof {
            crate::editor::lemma_cur(self);
        }
        let cs = self.flags.contains(EditorFlags::CASE_SENSITIVE);
        let use_re = self.flags.contains(EditorFlags::USE_REGEXP);
        if !use_re && !cs {
            let n = self.buffers[cb].lines.len();
            let lnd = str_to_lowercase(needle);
            let nc = chars_of(lnd.as_str());
            let mut i: usize = 0;
            while i < n
                invariant
                    self@ == old(self)@,
                    self@.has_cur(),
                    cb == self.current_buf,
                    n == self@.cur().lines.len(),
                    i <= n,
                    nc@ == lowercase(needle@),
                    needle@.len() != 0,
                    !old(self)@.has_flag(EditorFlags::USE_REGEXP),
                    !old(self)@.has_flag(EditorFlags::CASE_SENSITIVE),
                    forall|j: int| 0 <= j < i ==> replace_ok(#[trigger] self@.cur().lines[j].data, needle@),
                decreases n - i,
            {
                proof {
                    crate::editor::lemma_cur(self);
                }
                let text = self.buffers[cb].lines[i].data.as_str();
                let lower = str_to_lowercase(text);
                let _lb = byte_len(lower.as_str());
                let lc = chars_of(lower.as_str());
                let bs = if nc.len() > 0 {
                    match_offsets(&lc, &nc)
                } else {
                    Vec::new()
                };
                let ghost want = byte_offsets(lc@, match_starts(lc@, nc@, 0));
                assert(Seq::new(bs@.len(), |k: int| bs@[k] as int) =~= want);
                let nb = byte_len(needle);
                if !rebuild_ok(text, &bs, nb) {
                    proof {
                        assert(text@ == self@.cur().lines[i as int].data);
                        assert(!replace_ok(self@.cur().lines[i as int].data, needle@));
                        assert(!old(self)@.can_replace(needle@));
                    }
                    return false;
                }
                i += 1;
            }
        }
        self.do_replace(needle, replacement);
        true
    }
}

/// Going to a line: the line number the user types counts from 1, so line
/// `v` of the buffer (when there is one) becomes the cursor line `v - 1`; a
/// larger number goes to the last line, and a number below 1, or none, to
/// the first.  The text is not changed.
pub proof fn law_goto_line(e: EditorView, input: Seq<char>)
    requires
        e.has_cur(),
        e.cur().lines.len() > 0,
        input.len() > 0,
    ensures
        ({
            let f = e.after_goto(input);
            let n = e.cur().lines.len();
            &&& f.cur().lines == e.cur().lines
            &&& match crate::utils::line_column(input).0 {
                Some(v) => if 1 <= v <= n {
                    f.cur().current == v - 1
                } else if v > n {
                    f.cur().current == n - 1
                } else {
                    f.cur().current == 0
                },
                None => f.cur().current == 0,
            }
        }),
{
}

impl EditorView {
    /// A match of the needle at character index `j` of the text that step
    /// `k` of a forward plain search looks in (the line `k` lines after the
    /// cursor line, wrapping around) lies after the cursor in reading order:
    /// on the cursor line it starts after the cursor (step 0) or, once the
    /// search has come round, before it (step `n`).
    pub open spec fn forward_match(self, k: int, j: int) -> bool {
        let b = self.cur();
        let n = b.lines.len() as int;
        let s = b.current as int;
        let sx = b.current_x as int;
        let h = hay(b.lines[search_line(s, k, n, false)].data, self.has_flag(EditorFlags::CASE_SENSITIVE));
        let nd = self.search_needle();
        &&& 0 <= k <= n
        &&& crate::textseq::occurs_at(h, nd, j)
        &&& if k == 0 {
            let from = next_boundary(b.lines[s].data, sx);
            from <= bytes_len(h) && j >= cidx(h, from)
        } else if k < n {
            true
        } else {
            sx > 0 && j < cidx(h, sx)
        }
    }
}

/// Where a match exists, a first one exists.
proof fn lemma_first_match_exists(h: Seq<char>, n: Seq<char>, lo: int, hi: int, j: int)
    requires
        lo <= j,
        j + n.len() <= hi,
        crate::textseq::occurs_at(h, n, j),
    ensures
        exists|k: int| is_first_match(h, n, lo, hi, k),
    decreases j - lo,
{
    if forall|i: int| lo <= i < j ==> !crate::textseq::occurs_at(h, n, i) {
        assert(is_first_match(h, n, lo, hi, j));
    } else {
        let i = choose|i: int| lo <= i < j && crate::textseq::occurs_at(h, n, i);
        lemma_first_match_exists(h, n, lo, hi, i);
    }
}

/// `first_hit` gives the first match: at a character index `k` where the
/// needle occurs, with no match from `lo` before it, or nothing when there
/// is no match at all.
proof fn lemma_first_hit_is_first(h: Seq<char>, n: Seq<char>, lo: int, hi: int)
    requires
        hi <= h.len(),
    ensures
        first_hit(h, n, lo, hi) matches Some(p) ==> ({
            let k = cidx(h, p);
            &&& lo <= k && k + n.len() <= hi && crate::textseq::occurs_at(h, n, k)
            &&& p == bpos(h, k)
            &&& forall|i: int| lo <= i && i + n.len() <= hi && crate::textseq::occurs_at(h, n, i) ==> k <= i
        }),
        first_hit(h, n, lo, hi) is None ==> forall|i: int|
            lo <= i && i + n.len() <= hi ==> !crate::textseq::occurs_at(h, n, i),
{
    if exists|k: int| is_first_match(h, n, lo, hi, k) {
        let k = choose|k: int| is_first_match(h, n, lo, hi, k);
        lemma_cidx(h, k);
    } else {
        assert forall|i: int| lo <= i && i + n.len() <= hi implies !crate::textseq::occurs_at(h, n, i) by {
            if crate::textseq::occurs_at(h, n, i) {
                lemma_first_match_exists(h, n, lo, hi, i);
            }
        }
    }
}

/// What a forward plain search finds from step `k` on is the first match
/// after the cursor, in reading order, among steps `k` and later.
proof fn lemma_forward_scan(e: EditorView, k: int)
    requires
        e.has_cur(),
        e.cur().lines.len() > 0,
        0 <= k,
    ensures
        e.plain_scan(k, false) matches Some((l, p)) ==> exists|kk: int|
            #![trigger e.forward_match(kk, cidx(hay(e.cur().lines[l].data, e.has_flag(EditorFlags::CASE_SENSITIVE)), p))]
            k <= kk && l == search_line(e.cur().current as int, kk, e.cur().lines.len() as int, false) && ({
                let h = hay(e.cur().lines[l].data, e.has_flag(EditorFlags::CASE_SENSITIVE));
                let j = cidx(h, p);
                &&& e.forward_match(kk, j)
                &&& p == bpos(h, j)
                &&& forall|k2: int, j2: int| k <= k2 && #[trigger] e.forward_match(k2, j2) ==> kk < k2 || (kk == k2 && j <= j2)
            }),
        e.plain_scan(k, false) is None ==> forall|k2: int, j2: int| k <= k2 ==> !#[trigger] e.forward_match(k2, j2),
    decreases e.cur().lines.len() + 1 - k,
{
    let b = e.cur();
    let n = b.lines.len() as int;
    let s = b.current as int;
    let sx = b.current_x as int;
    let cs = e.has_flag(EditorFlags::CASE_SENSITIVE);
    let nd = e.search_needle();
    if k > n {
    } else {
        lemma_forward_scan(e, k + 1);
        let l = search_line(s, k, n, false);
        let h = hay(b.lines[l].data, cs);
        if k == 0 {
            let from = next_boundary(b.lines[s].data, sx);
            if from <= bytes_len(h) {
                lemma_first_hit_is_first(h, nd, cidx(h, from), h.len() as int);
            }
        } else if k < n {
            lemma_first_hit_is_first(h, nd, 0, h.len() as int);
        } else if sx > 0 {
            lemma_first_hit_is_first(h, nd, 0, start_limit(h, nd, cidx(h, sx)));
        }
        assert(forall|j2: int| #[trigger] e.forward_match(k, j2) ==> crate::textseq::occurs_at(h, nd, j2));
        match e.plain_step(k, false) {
            Some((l1, p)) => {
                let j = cidx(h, p);
                assert(l1 == l);
                assert(e.forward_match(k, j));
                assert forall|k2: int, j2: int| k <= k2 && #[trigger] e.forward_match(k2, j2) implies k < k2 || (k == k2 && j <= j2) by {
                    if k2 == k {
                        assert(crate::textseq::occurs_at(h, nd, j2));
                    }
                }
            },
            None => {
                assert forall|j2: int| !#[trigger] e.forward_match(k, j2) by {
                    if e.forward_match(k, j2) {
                        assert(crate::textseq::occurs_at(h, nd, j2));
                    }
                }
            },
        }
    }
}

/// A forward plain search finds the first match after the cursor in reading
/// order: it goes through the lines from the cursor on, wrapping round to the
/// start of the buffer and back to the cursor line, and no match lies between
/// the cursor and the one found; it finds nothing only when there is no
/// match at all after the cursor.
pub proof fn law_forward_search_first(e: EditorView)
    requires
        e.has_cur(),
        e.cur().lines.len() > 0,
    ensures
        e.plain_scan(0, false) matches Some((l, p)) ==> exists|kk: int|
            #![trigger e.forward_match(kk, cidx(hay(e.cur().lines[l].data, e.has_flag(EditorFlags::CASE_SENSITIVE)), p))]
            l == search_line(e.cur().current as int, kk, e.cur().lines.len() as int, false) && ({
                let h = hay(e.cur().lines[l].data, e.has_flag(EditorFlags::CASE_SENSITIVE));
                let j = cidx(h, p);
                &&& e.forward_match(kk, j)
                &&& p == bpos(h, j)
                &&& forall|k2: int, j2: int| #[trigger] e.forward_match(k2, j2) ==> kk < k2 || (kk == k2 && j <= j2)
            }),
        e.plain_scan(0, false) is None ==> forall|k2: int, j2: int| !#[trigger] e.forward_match(k2, j2),
{
    lemma_forward_scan(e, 0);
    match e.plain_scan(0, false) {
        Some((l, p)) => {
            let h = hay(e.cur().lines[l].data, e.has_flag(EditorFlags::CASE_SENSITIVE));
            let kk = choose|kk: int| 0 <= kk && l == search_line(e.cur().current as int, kk, e.cur().lines.len() as int, false) && ({
                let j = cidx(h, p);
                &&& e.forward_match(kk, j)
                &&& p == bpos(h, j)
                &&& forall|k2: int, j2: int| 0 <= k2 && #[trigger] e.forward_match(k2, j2) ==> kk < k2 || (kk == k2 && j <= j2)
            });
            assert(e.forward_match(kk, cidx(h, p)));
        },
        None => {
            assert forall|k2: int, j2: int| !#[trigger] e.forward_match(k2, j2) by {
                if e.forward_match(k2, j2) {
                    assert(0 <= k2);
                }
            }
        },
    }
}

impl EditorView {
    /// A match of the needle at character index `j` of the text that step
    /// `k` of a backward plain search looks in (the line `k` lines before
    /// the cursor line, wrapping around) lies before the cursor in reading
    /// order: on the cursor line it starts before the cursor (step 0) or,
    /// once the search has come round, at or after it (step `n`).
    pub open spec fn backward_match(self, k: int, j: int) -> bool {
        let b = self.cur();
        let n = b.lines.len() as int;
        let s = b.current as int;
        let sx = b.current_x as int;
        let h = hay(b.lines[search_line(s, k, n, true)].data, self.has_flag(EditorFlags::CASE_SENSITIVE));
        let nd = self.search_needle();
        &&& 0 <= k <= n
        &&& crate::textseq::occurs_at(h, nd, j)
        &&& if k == 0 {
            sx > 0 && j < cidx(h, sx)
        } else if k < n {
            true
        } else {
            j >= cidx(h, sx)
        }
    }
}

/// Where a match exists, a last one exists.
proof fn lemma_last_match_exists(h: Seq<char>, n: Seq<char>, lo: int, hi: int, j: int)
    requires
        lo <= j,
        j + n.len() <= hi,
        crate::textseq::occurs_at(h, n, j),
    ensures
        exists|k: int| is_last_match(h, n, lo, hi, k),
    decreases hi - j,
{
    if forall|i: int| j < i && i + n.len() <= hi ==> !crate::textseq::occurs_at(h, n, i) {
        assert(is_last_match(h, n, lo, hi, j));
    } else {
        let i = choose|i: int| j < i && i + n.len() <= hi && crate::textseq::occurs_at(h, n, i);
        lemma_last_match_exists(h, n, lo, hi, i);
    }
}

/// `last_hit` gives the last match, or nothing when there is no match.
proof fn lemma_last_hit_is_last(h: Seq<char>, n: Seq<char>, lo: int, hi: int)
    requires
        hi <= h.len(),
    ensures
        last_hit(h, n, lo, hi) matches Some(p) ==> ({
            let k = cidx(h, p);
            &&& lo <= k && k + n.len() <= hi && crate::textseq::occurs_at(h, n, k)
            &&& p == bpos(h, k)
            &&& forall|i: int| lo <= i && i + n.len() <= hi && crate::textseq::occurs_at(h, n, i) ==> i <= k
        }),
        last_hit(h, n, lo, hi) is None ==> forall|i: int|
            lo <= i && i + n.len() <= hi ==> !crate::textseq::occurs_at(h, n, i),
{
    if exists|k: int| is_last_match(h, n, lo, hi, k) {
        let k = choose|k: int| is_last_match(h, n, lo, hi, k);
        lemma_cidx(h, k);
    } else {
        assert forall|i: int| lo <= i && i + n.len() <= hi implies !crate::textseq::occurs_at(h, n, i) by {
            if crate::textseq::occurs_at(h, n, i) {
                lemma_last_match_exists(h, n, lo, hi, i);
            }
        }
    }
}

/// What a backward plain search finds from step `k` on is the last match
/// before the cursor, in reading order, among steps `k` and later.
proof fn lemma_backward_scan(e: EditorView, k: int)
    requires
        e.has_cur(),
        e.cur().lines.len() > 0,
        0 <= k,
    ensures
        e.plain_scan(k, true) matches Some((l, p)) ==> exists|kk: int|
            #![trigger e.backward_match(kk, cidx(hay(e.cur().lines[l].data, e.has_flag(EditorFlags::CASE_SENSITIVE)), p))]
            k <= kk && l == search_line(e.cur().current as int, kk, e.cur().lines.len() as int, true) && ({
                let h = hay(e.cur().lines[l].data, e.has_flag(EditorFlags::CASE_SENSITIVE));
                let j = cidx(h, p);
                &&& e.backward_match(kk, j)
                &&& p == bpos(h, j)
                &&& forall|k2: int, j2: int| k <= k2 && #[trigger] e.backward_match(k2, j2) ==> kk < k2 || (kk == k2 && j2 <= j)
            }),
        e.plain_scan(k, true) is None ==> forall|k2: int, j2: int| k <= k2 ==> !#[trigger] e.backward_match(k2, j2),
    decreases e.cur().lines.len() + 1 - k,
{
    let b = e.cur();
    let n = b.lines.len() as int;
    let s = b.current as int;
    let sx = b.current_x as int;
    let cs = e.has_flag(EditorFlags::CASE_SENSITIVE);
    let nd = e.search_needle();
    if k > n {
    } else {
        lemma_backward_scan(e, k + 1);
        let l = search_line(s, k, n, true);
        let h = hay(b.lines[l].data, cs);
        if k == 0 {
            if sx > 0 {
                lemma_last_hit_is_last(h, nd, 0, start_limit(h, nd, cidx(h, sx)));
            }
        } else if k < n {
            lemma_last_hit_is_last(h, nd, 0, h.len() as int);
        } else {
            lemma_last_hit_is_last(h, nd, cidx(h, sx), h.len() as int);
        }
        assert(forall|j2: int| #[trigger] e.backward_match(k, j2) ==> crate::textseq::occurs_at(h, nd, j2));
        match e.plain_step(k, true) {
            Some((l1, p)) => {
                let j = cidx(h, p);
                assert(l1 == l);
                assert(e.backward_match(k, j));
                assert forall|k2: int, j2: int| k <= k2 && #[trigger] e.backward_match(k2, j2) implies k < k2 || (k == k2 && j2 <= j) by {
                    if k2 == k {
                        assert(crate::textseq::occurs_at(h, nd, j2));
                    }
                }
            },
            None => {
                assert forall|j2: int| !#[trigger] e.backward_match(k, j2) by {
                    if e.backward_match(k, j2) {
                        assert(crate::textseq::occurs_at(h, nd, j2));
                    }
                }
            },
        }
    }
}

/// A backward plain search finds the last match before the cursor in
/// reading order: it goes back through the lines from the cursor, wrapping
/// round to the end of the buffer and back to the cursor line, and no match
/// lies between the one found and the cursor; it finds nothing only when
/// there is no match at all.
pub proof fn law_backward_search_last(e: EditorView)
    requires
        e.has_cur(),
        e.cur().lines.len() > 0,
    ensures
        e.plain_scan(0, true) matches Some((l, p)) ==> exists|kk: int|
            #![trigger e.backward_match(kk, cidx(hay(e.cur().lines[l].data, e.has_flag(EditorFlags::CASE_SENSITIVE)), p))]
            l == search_line(e.cur().current as int, kk, e.cur().lines.len() as int, true) && ({
                let h = hay(e.cur().lines[l].data, e.has_flag(EditorFlags::CASE_SENSITIVE));
                let j = cidx(h, p);
                &&& e.backward_match(kk, j)
                &&& p == bpos(h, j)
                &&& forall|k2: int, j2: int| #[trigger] e.backward_match(k2, j2) ==> kk < k2 || (kk == k2 && j2 <= j)
            }),
        e.plain_scan(0, true) is None ==> forall|k2: int, j2: int| !#[trigger] e.backward_match(k2, j2),
{
    lemma_backward_scan(e, 0);
    match e.plain_scan(0, true) {
        Some((l, p)) => {
            let h = hay(e.cur().lines[l].data, e.has_flag(EditorFlags::CASE_SENSITIVE));
            let kk = choose|kk: int| 0 <= kk && l == search_line(e.cur().current as int, kk, e.cur().lines.len() as int, true) && ({
                let j = cidx(h, p);
                &&& e.backward_match(kk, j)
                &&& p == bpos(h, j)
                &&& forall|k2: int, j2: int| 0 <= k2 && #[trigger] e.backward_match(k2, j2) ==> kk < k2 || (kk == k2 && j2 <= j)
            });
            assert(e.backward_match(kk, cidx(h, p)));
        },
        None => {
            assert forall|k2: int, j2: int| !#[trigger] e.backward_match(k2, j2) by {
                if e.backward_match(k2, j2) {
                    assert(0 <= k2);
                }
            }
        },
    }
}

} // verus!
