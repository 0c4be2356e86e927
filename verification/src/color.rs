//! Syntax definitions: how the nanorc directives build them, which one a
//! buffer gets, and where a line is colored.
use vstd::prelude::*;

use crate::search::{Pattern, regex_accepts, regex_all_matches, regex_find};
use crate::textseq::{append_str, chars_of, concat_text, copy_text, string_of};

verus! {

/// A coloring rule: colors, boldness, and the pattern of what it colors
/// (with an end pattern for a rule that spans lines).
pub struct ColorRule {
    pub id: i16,
    pub fg: i16,
    pub bg: i16,
    pub bold: bool,
    pub start: Pattern,
    pub end: Option<Pattern>,
}

/// A coloring rule as plain values, each pattern by its text.
pub ghost struct RuleView {
    pub id: i16,
    pub fg: i16,
    pub bg: i16,
    pub bold: bool,
    pub start: Seq<char>,
    pub end: Option<Seq<char>>,
}

impl View for ColorRule {
    type V = RuleView;

    open spec fn view(&self) -> RuleView {
        RuleView {
            id: self.id,
            fg: self.fg,
            bg: self.bg,
            bold: self.bold,
            start: self.start@,
            end: match self.end {
                Some(p) => Some(p@),
                None => None,
            },
        }
    }
}

/// Syntax definition.
pub struct SyntaxDef {
    pub name: String,
    pub filename: Option<String>,
    pub lineno: usize,
    pub extensions: Vec<Pattern>,
    pub headers: Vec<Pattern>,
    pub magics: Vec<Pattern>,
    pub linter: Option<String>,
    pub formatter: Option<String>,
    pub tabstring: Option<String>,
    pub comment: Option<String>,
    pub colors: Vec<ColorRule>,
    pub multiscore: i16,
}

/// A syntax definition as plain values.
pub ghost struct SyntaxView {
    pub name: Seq<char>,
    pub filename: Option<Seq<char>>,
    pub lineno: usize,
    pub extensions: Seq<Seq<char>>,
    pub headers: Seq<Seq<char>>,
    pub magics: Seq<Seq<char>>,
    pub linter: Option<Seq<char>>,
    pub formatter: Option<Seq<char>>,
    pub tabstring: Option<Seq<char>>,
    pub comment: Option<Seq<char>>,
    pub colors: Seq<RuleView>,
    pub multiscore: i16,
}

/// The texts of a sequence of patterns.
pub open spec fn pattern_texts(ps: Seq<Pattern>) -> Seq<Seq<char>> {
    Seq::new(ps.len(), |i: int| ps[i]@)
}

/// The views of a sequence of rules.
pub open spec fn rule_views(rs: Seq<ColorRule>) -> Seq<RuleView> {
    Seq::new(rs.len(), |i: int| rs[i]@)
}

impl View for SyntaxDef {
    type V = SyntaxView;

    open spec fn view(&self) -> SyntaxView {
        SyntaxView {
            name: self.name@,
            filename: crate::definitions::opt_text(self.filename),
            lineno: self.lineno,
            extensions: pattern_texts(self.extensions@),
            headers: pattern_texts(self.headers@),
            magics: pattern_texts(self.magics@),
            linter: crate::definitions::opt_text(self.linter),
            formatter: crate::definitions::opt_text(self.formatter),
            tabstring: crate::definitions::opt_text(self.tabstring),
            comment: crate::definitions::opt_text(self.comment),
            colors: rule_views(self.colors@),
            multiscore: self.multiscore,
        }
    }
}

/// The views of a sequence of syntax definitions.
pub open spec fn syntax_views(ss: Seq<SyntaxDef>) -> Seq<SyntaxView> {
    Seq::new(ss.len(), |i: int| ss[i]@)
}

/// A new syntax definition named `name` with the given extension patterns.
pub open spec fn fresh_syntax(name: Seq<char>, exts: Seq<Seq<char>>) -> SyntaxView {
    SyntaxView {
        name,
        filename: None,
        lineno: 0,
        extensions: exts,
        headers: Seq::empty(),
        magics: Seq::empty(),
        linter: None,
        formatter: None,
        tabstring: None,
        comment: None,
        colors: Seq::empty(),
        multiscore: 0,
    }
}

// ---------------------------------------------------------------------------
// Pieces of directive arguments

/// Index of the first `c` in `s` from `i` on, if there is one.
pub open spec fn char_index(s: Seq<char>, c: char, i: int) -> Option<int>
    decreases s.len() - i,
{
    if i < 0 || i >= s.len() {
        None
    } else if s[i] == c {
        Some(i)
    } else {
        char_index(s, c, i + 1)
    }
}

/// The texts between pairs of double quotes in `s`, in order; the text after
/// a last, unpaired quote counts too.
pub open spec fn quoted_strings(s: Seq<char>) -> Seq<Seq<char>>
    decreases s.len(),
{
    match char_index(s, '"', 0) {
        None => Seq::empty(),
        Some(a) => {
            let rest = s.skip(a + 1);
            match char_index(rest, '"', 0) {
                None => seq![rest],
                Some(b) => if 0 <= a < s.len() && 0 <= b < rest.len() {
                    seq![rest.take(b)] + quoted_strings(rest.skip(b + 1))
                } else {
                    Seq::empty()
                },
            }
        },
    }
}

pub(crate) proof fn lemma_char_index(s: Seq<char>, c: char, i: int)
    requires
        0 <= i <= s.len(),
    ensures
        char_index(s, c, i) matches Some(k) ==> i <= k < s.len() && s[k] == c && forall|j: int|
            i <= j < k ==> s[j] != c,
        char_index(s, c, i) is None ==> forall|j: int| i <= j < s.len() ==> s[j] != c,
    decreases s.len() - i,
{
    if i < s.len() && s[i] != c {
        lemma_char_index(s, c, i + 1);
    }
}

/// Index of the first `c` in `cs` from `i` on.
pub(crate) fn find_char(cs: &Vec<char>, c: char, i: usize) -> (r: Option<usize>)
    requires
        i <= cs@.len(),
    ensures
        r == (match char_index(cs@, c, i as int) {
            Some(k) => Some(k as usize),
            None => None::<usize>,
        }),
        r matches Some(k) ==> i <= k < cs@.len(),
{
    let mut k = i;
    while k < cs.len()
        invariant
            i <= k <= cs@.len(),
            char_index(cs@, c, i as int) == char_index(cs@, c, k as int),
        decreases cs@.len() - k,
    {
        if cs[k] == c {
            return Some(k);
        }
        k += 1;
    }
    None
}

/// The texts between double quotes in `input`.
pub fn extract_quoted_strings(input: &str) -> (r: Vec<String>)
    ensures
        crate::editor::text_views(r@) == quoted_strings(input@),
{
    let cs = chars_of(input);
    let n = cs.len();
    let mut out: Vec<String> = Vec::new();
    let mut pos: usize = 0;
    assert(cs@.skip(0) =~= cs@);
    while pos <= n
        invariant
            cs@ == input@,
            n == cs@.len(),
            pos <= n,
            quoted_strings(input@) == crate::editor::text_views(out@) + quoted_strings(cs@.skip(pos as int)),
        decreases n + 1 - pos,
    {
        let ghost s = cs@.skip(pos as int);
        proof {
            lemma_char_index(s, '"', 0);
            lemma_char_index(cs@, '"', pos as int);
            lemma_shift_index(cs@, '"', pos as int, 0);
        }
        match find_char(&cs, '"', pos) {
            None => {
                assert(quoted_strings(s) =~= Seq::<Seq<char>>::empty());
                assert(crate::editor::text_views(out@) + Seq::<Seq<char>>::empty() =~= crate::editor::text_views(out@));
                return out;
            },
            Some(a) => {
                let ghost rest = s.skip(a - pos + 1);
                assert(rest =~= cs@.skip(a + 1));
                proof {
                    lemma_char_index(rest, '"', 0);
                    lemma_char_index(cs@, '"', a + 1);
                    lemma_shift_index(cs@, '"', a + 1, 0);
                }
                match find_char(&cs, '"', a + 1) {
                    None => {
                        let piece = string_of(&cs, a + 1, n);
                        assert(piece@ =~= rest);
                        let ghost prev = crate::editor::text_views(out@);
                        out.push(piece);
                        assert(crate::editor::text_views(out@) =~= prev.push(rest));
                        assert(quoted_strings(s) =~= seq![rest]);
                        assert(quoted_strings(input@) =~= crate::editor::text_views(out@));
                        return out;
                    },
                    Some(b) => {
                        let piece = string_of(&cs, a + 1, b);
                        assert(piece@ =~= rest.take(b - a - 1));
                        let ghost prev = crate::editor::text_views(out@);
                        out.push(piece);
                        assert(crate::editor::text_views(out@) =~= prev.push(rest.take(b - a - 1)));
                        assert(rest.skip(b - a - 1 + 1) =~= cs@.skip(b + 1));
                        assert(quoted_strings(s) =~= seq![rest.take(b - a - 1)] + quoted_strings(cs@.skip(b + 1)));
                        assert(quoted_strings(input@) =~= crate::editor::text_views(out@) + quoted_strings(cs@.skip(b + 1)));
                        pos = b + 1;
                    },
                }
            },
        }
    }
    out
}

/// Finding a character in a suffix is finding it in the whole from the
/// suffix's start.
pub(crate) proof fn lemma_shift_index(s: Seq<char>, c: char, p: int, i: int)
    requires
        0 <= p <= s.len(),
        0 <= i <= s.len() - p,
    ensures
        char_index(s.skip(p), c, i) == (match char_index(s, c, p + i) {
            Some(k) => Some(k - p),
            None => None::<int>,
        }),
    decreases s.len() - p - i,
{
    if i < s.len() - p {
        assert(s.skip(p)[i] == s[p + i]);
        if s[p + i] != c {
            lemma_shift_index(s, c, p, i + 1);
        }
    }
}

/// `s` begins with `p`.
pub open spec fn has_prefix(s: Seq<char>, p: Seq<char>) -> bool {
    s.len() >= p.len() && s.take(p.len() as int) == p
}

/// Whether `s` begins with `p`.
pub(crate) fn starts_with_text(s: &str, p: &str) -> (r: bool)
    ensures
        r == has_prefix(s@, p@),
{
    let sc = chars_of(s);
    let pc = chars_of(p);
    if pc.len() > sc.len() {
        return false;
    }
    let mut i: usize = 0;
    while i < pc.len()
        invariant
            sc@ == s@,
            pc@ == p@,
            pc@.len() <= sc@.len(),
            i <= pc@.len(),
            forall|j: int| 0 <= j < i ==> sc@[j] == pc@[j],
        decreases pc@.len() - i,
    {
        if sc[i] != pc[i] {
            assert(s@.take(p@.len() as int)[i as int] != p@[i as int]);
            return false;
        }
        i += 1;
    }
    assert(s@.take(p@.len() as int) =~= p@);
    true
}

/// The number of a basic color name, -1 for `normal`, an empty name or an
/// unknown one.
pub open spec fn base_color(n: Seq<char>) -> int {
    if n == "black"@ {
        0
    } else if n == "red"@ {
        1
    } else if n == "green"@ {
        2
    } else if n == "yellow"@ {
        3
    } else if n == "blue"@ {
        4
    } else if n == "magenta"@ {
        5
    } else if n == "cyan"@ {
        6
    } else if n == "white"@ {
        7
    } else {
        -1
    }
}

/// A color name, trimmed, with an optional `bright` or `bold` before it:
/// its number (8 more when bright) and whether it was bright.
pub open spec fn color_name(name: Seq<char>) -> (i16, bool) {
    let n = crate::utils::trim(name);
    let (bright, base) = if has_prefix(n, "bright"@) {
        (true, n.skip(6))
    } else if has_prefix(n, "bold"@) {
        (true, n.skip(4))
    } else {
        (false, n)
    };
    let v = base_color(base);
    ((if bright && v >= 0 { v + 8 } else { v }) as i16, bright)
}

/// Read a color name.
pub fn parse_color_name(name: &str) -> (r: (i16, bool))
    ensures
        r == color_name(name@),
{
    let n = crate::utils::trim_text(name);
    let cs = chars_of(n.as_str());
    let (bright, base) = if starts_with_text(n.as_str(), "bright") {
        proof {
            reveal_strlit("bright");
        }
        (true, string_of(&cs, 6, cs.len()))
    } else if starts_with_text(n.as_str(), "bold") {
        proof {
            reveal_strlit("bold");
        }
        (true, string_of(&cs, 4, cs.len()))
    } else {
        (false, copy_text(n.as_str()))
    };
    proof {
        assert(base@ =~= (if has_prefix(n@, "bright"@) {
            n@.skip(6)
        } else if has_prefix(n@, "bold"@) {
            n@.skip(4)
        } else {
            n@
        }));
    }
    let b = base.as_str();
    let v: i16 = if crate::rcfile::text_is(b, "black") {
        0
    } else if crate::rcfile::text_is(b, "red") {
        1
    } else if crate::rcfile::text_is(b, "green") {
        2
    } else if crate::rcfile::text_is(b, "yellow") {
        3
    } else if crate::rcfile::text_is(b, "blue") {
        4
    } else if crate::rcfile::text_is(b, "magenta") {
        5
    } else if crate::rcfile::text_is(b, "cyan") {
        6
    } else if crate::rcfile::text_is(b, "white") {
        7
    } else {
        -1
    };
    let val = if bright && v >= 0 { v + 8 } else { v };
    (val, bright)
}

/// The parts of a color spec `fg[,bg]`: the text before the first comma,
/// and the text between it and the next comma, if there is a comma.
pub open spec fn spec_parts(s: Seq<char>) -> (Seq<char>, Option<Seq<char>>) {
    match char_index(s, ',', 0) {
        None => (s, None),
        Some(a) => {
            let rest = s.skip(a + 1);
            (s.take(a), Some(match char_index(rest, ',', 0) {
                None => rest,
                Some(b) => rest.take(b),
            }))
        },
    }
}

/// The foreground and background colors of a color spec, and whether it is
/// bold (a bright foreground).
pub open spec fn color_spec(s: Seq<char>) -> (i16, i16, bool) {
    let (a, b) = spec_parts(s);
    let (fg, bright) = color_name(a);
    let bg = match b {
        Some(t) => color_name(t).0,
        None => -1i16,
    };
    (fg, bg, bright)
}

/// Read a color spec like `green`, `brightred,blue` or `bold,yellow`.
pub fn parse_color_spec(spec: &str) -> (r: (i16, i16, bool))
    ensures
        r == color_spec(spec@),
{
    let cs = chars_of(spec);
    let n = cs.len();
    proof {
        lemma_char_index(cs@, ',', 0);
    }
    match find_char(&cs, ',', 0) {
        None => {
            let (fg, bright) = parse_color_name(spec);
            (fg, -1, bright)
        },
        Some(a) => {
            let first = string_of(&cs, 0, a);
            assert(first@ =~= spec@.take(a as int));
            let (fg, bright) = parse_color_name(first.as_str());
            proof {
                lemma_shift_index(cs@, ',', a + 1, 0);
                lemma_char_index(cs@, ',', a + 1);
            }
            let second = match find_char(&cs, ',', a + 1) {
                None => string_of(&cs, a + 1, n),
                Some(b) => string_of(&cs, a + 1, b),
            };
            assert(second@ =~= spec_parts(spec@).1->0);
            let (bg, _) = parse_color_name(second.as_str());
            (fg, bg, bright)
        },
    }
}

/// Index of the first occurrence of `n` in `h`, if there is one.
pub open spec fn text_index(h: Seq<char>, n: Seq<char>) -> Option<int> {
    if exists|k: int| crate::textseq::is_first_match(h, n, 0, h.len() as int, k) {
        Some(choose|k: int| crate::textseq::is_first_match(h, n, 0, h.len() as int, k))
    } else {
        None
    }
}

proof fn lemma_first_match_unique(h: Seq<char>, n: Seq<char>, k: int)
    requires
        crate::textseq::is_first_match(h, n, 0, h.len() as int, k),
    ensures
        text_index(h, n) == Some(k),
{
    let j = choose|j: int| crate::textseq::is_first_match(h, n, 0, h.len() as int, j);
    assert(crate::textseq::is_first_match(h, n, 0, h.len() as int, j));
    if j < k {
        assert(!crate::textseq::occurs_at(h, n, j));
    } else if k < j {
        assert(!crate::textseq::occurs_at(h, n, k));
    }
}

/// The pattern after `key` (such as `start="`) in `s`, up to the next double
/// quote, with `(?i)` before it for a case-insensitive rule; `None` when
/// `key` or the closing quote is missing.
pub open spec fn keyed_pattern(s: Seq<char>, key: Seq<char>, ci: bool) -> Option<Seq<char>> {
    match text_index(s, key) {
        None => None,
        Some(p) => {
            let rest = s.skip(p + key.len());
            match char_index(rest, '"', 0) {
                None => None,
                Some(e) => Some((if ci { "(?i)"@ } else { Seq::empty() }) + rest.take(e)),
            }
        },
    }
}

/// The pattern text after `key` in `s`.
pub(crate) fn keyed_pattern_text(s: &str, key: &str, ci: bool) -> (r: Option<String>)
    ensures
        r matches Some(t) ==> keyed_pattern(s@, key@, ci) == Some(t@),
        r is None ==> keyed_pattern(s@, key@, ci) is None,
{
    let cs = chars_of(s);
    let kc = chars_of(key);
    let n = cs.len();
    match crate::textseq::first_match(&cs, &kc, 0, n) {
        None => {
            proof {
                if exists|k: int| crate::textseq::is_first_match(s@, key@, 0, s@.len() as int, k) {
                    let k = choose|k: int| crate::textseq::is_first_match(s@, key@, 0, s@.len() as int, k);
                    assert(!crate::textseq::occurs_at(s@, key@, k));
                }
            }
            None
        },
        Some(p) => {
            proof {
                lemma_first_match_unique(s@, key@, p as int);
            }
            let from = p + kc.len();
            let ghost rest = s@.skip(from as int);
            proof {
                lemma_shift_index(cs@, '"', from as int, 0);
                lemma_char_index(cs@, '"', from as int);
            }
            match find_char(&cs, '"', from) {
                None => None,
                Some(e) => {
                    let body = string_of(&cs, from, e);
                    assert(body@ =~= rest.take(e - from));
                    let mut t = String::new();
                    if ci {
                        append_str(&mut t, "(?i)");
                    }
                    append_str(&mut t, body.as_str());
                    proof {
                        reveal_strlit("(?i)");
                    }
                    assert(t@ =~= (if ci { "(?i)"@ } else { Seq::empty() }) + rest.take(e - from));
                    Some(t)
                },
            }
        },
    }
}

} // verus!

verus! {

/// One of the patterns `ps` finds a match in `h`.
pub open spec fn any_pattern_matches(ps: Seq<Seq<char>>, h: Seq<char>) -> bool {
    exists|j: int| 0 <= j < ps.len() && regex_find(#[trigger] ps[j], h) is Some
}

/// The first definition from index `i` on one of whose file-name patterns
/// matches `name`.
pub open spec fn by_extension(ss: Seq<SyntaxView>, name: Seq<char>, i: int) -> Option<int>
    decreases ss.len() - i,
{
    if i < 0 || i >= ss.len() {
        None
    } else if any_pattern_matches(ss[i].extensions, name) {
        Some(i)
    } else {
        by_extension(ss, name, i + 1)
    }
}

/// The first definition from index `i` on one of whose header patterns
/// matches `line`.
pub open spec fn by_header(ss: Seq<SyntaxView>, line: Seq<char>, i: int) -> Option<int>
    decreases ss.len() - i,
{
    if i < 0 || i >= ss.len() {
        None
    } else if any_pattern_matches(ss[i].headers, line) {
        Some(i)
    } else {
        by_header(ss, line, i + 1)
    }
}

/// The first definition from index `i` on named `default`.
pub open spec fn by_default_name(ss: Seq<SyntaxView>, i: int) -> Option<int>
    decreases ss.len() - i,
{
    if i < 0 || i >= ss.len() {
        None
    } else if ss[i].name == "default"@ {
        Some(i)
    } else {
        by_default_name(ss, i + 1)
    }
}

/// The syntax a buffer named `name` whose lines are `lines` gets: the first
/// matching its name, else the first matching its first line, else the one
/// named `default`.
pub open spec fn chosen_syntax(ss: Seq<SyntaxView>, name: Seq<char>, lines: Seq<crate::definitions::LineView>) -> Option<usize> {
    let c = match by_extension(ss, name, 0) {
        Some(i) => Some(i),
        None => match (if lines.len() > 0 { by_header(ss, lines[0].data, 0) } else { None }) {
            Some(i) => Some(i),
            None => by_default_name(ss, 0),
        },
    };
    match c {
        Some(i) => Some(i as usize),
        None => None,
    }
}

impl crate::editor::EditorView {
    /// What `find_and_apply_syntax` leaves: the current buffer given its
    /// syntax, unless syntax coloring is off or there is no definition.
    pub open spec fn with_syntax(self) -> crate::editor::EditorView {
        if self.has_flag(crate::definitions::EditorFlags::NO_SYNTAX) || self.syntaxes.len() == 0 {
            self
        } else {
            let b = self.cur();
            self.with_cur(
                crate::definitions::BufferView {
                    syntax: chosen_syntax(self.syntaxes, b.filename, b.lines),
                    ..b
                },
            )
        }
    }
}

/// Whether one of the patterns `ps` matches `h`.
fn any_matches(ps: &Vec<Pattern>, h: &str) -> (r: bool)
    ensures
        r == any_pattern_matches(pattern_texts(ps@), h@),
{
    let mut j: usize = 0;
    while j < ps.len()
        invariant
            j <= ps@.len(),
            forall|k: int| 0 <= k < j ==> !(regex_find(#[trigger] pattern_texts(ps@)[k], h@) is Some),
        decreases ps@.len() - j,
    {
        if crate::search::regex_is_match_in(&ps[j], h) {
            assert(regex_find(pattern_texts(ps@)[j as int], h@) is Some);
            return true;
        }
        j += 1;
    }
    false
}

/// The first definition one of whose file-name patterns matches `name`.
fn find_by_extension(ss: &Vec<SyntaxDef>, name: &str) -> (r: Option<usize>)
    ensures
        r == (match by_extension(syntax_views(ss@), name@, 0) {
            Some(i) => Some(i as usize),
            None => None::<usize>,
        }),
{
    let ghost sv = syntax_views(ss@);
    let mut i: usize = 0;
    while i < ss.len()
        invariant
            sv == syntax_views(ss@),
            i <= ss@.len(),
            by_extension(sv, name@, 0) == by_extension(sv, name@, i as int),
        decreases ss@.len() - i,
    {
        if any_matches(&ss[i].extensions, name) {
            return Some(i);
        }
        i += 1;
    }
    None
}

/// The first definition one of whose header patterns matches `line`.
fn find_by_header(ss: &Vec<SyntaxDef>, line: &str) -> (r: Option<usize>)
    ensures
        r == (match by_header(syntax_views(ss@), line@, 0) {
            Some(i) => Some(i as usize),
            None => None::<usize>,
        }),
{
    let ghost sv = syntax_views(ss@);
    let mut i: usize = 0;
    while i < ss.len()
        invariant
            sv == syntax_views(ss@),
            i <= ss@.len(),
            by_header(sv, line@, 0) == by_header(sv, line@, i as int),
        decreases ss@.len() - i,
    {
        if any_matches(&ss[i].headers, line) {
            return Some(i);
        }
        i += 1;
    }
    None
}

/// The first definition named `default`.
fn find_default(ss: &Vec<SyntaxDef>) -> (r: Option<usize>)
    ensures
        r == (match by_default_name(syntax_views(ss@), 0) {
            Some(i) => Some(i as usize),
            None => None::<usize>,
        }),
{
    let ghost sv = syntax_views(ss@);
    let mut i: usize = 0;
    while i < ss.len()
        invariant
            sv == syntax_views(ss@),
            i <= ss@.len(),
            by_default_name(sv, 0) == by_default_name(sv, i as int),
        decreases ss@.len() - i,
    {
        if crate::rcfile::text_is(ss[i].name.as_str(), "default") {
            return Some(i);
        }
        i += 1;
    }
    None
}

impl crate::editor::Editor {
    /// Give the current buffer the syntax definition that its file name, or
    /// else its first line, matches, or else the one named `default`.
    pub fn find_and_apply_syntax(&mut self)
        requires
            old(self)@.has_cur(),
        ensures
            final(self)@ == old(self)@.with_syntax(),
    {
        if self.flags.contains(crate::definitions::EditorFlags::NO_SYNTAX) || self.syntaxes.len() == 0 {
            return;
        }
        proof {
            crate::editor::lemma_cur(self);
        }
        let cb = self.current_buf;
        let ghost b = self@.cur();
        let mut chosen = find_by_extension(&self.syntaxes, self.buffers[cb].filename.as_str());
        if chosen.is_none() && self.buffers[cb].lines.len() > 0 {
            assert(self.buffers@[cb as int].lines@[0]@ == b.lines[0]);
            chosen = find_by_header(&self.syntaxes, self.buffers[cb].lines[0].data.as_str());
        }
        if chosen.is_none() {
            chosen = find_default(&self.syntaxes);
        }
        assert(chosen == chosen_syntax(self@.syntaxes, b.filename, b.lines));
        self.buffers[cb].syntax = chosen;
        assert(self@.buffers =~= old(self)@.buffers.update(
            cb as int,
            crate::definitions::BufferView { syntax: chosen, ..b },
        ));
    }
}

} // verus!

verus! {

/// Spans of a line as plain values: start and end byte offsets, and the
/// index of the rule.
pub open spec fn span_views(v: Seq<(usize, usize, usize)>) -> Seq<(int, int, int)> {
    Seq::new(v.len(), |i: int| (v[i].0 as int, v[i].1 as int, v[i].2 as int))
}

/// The spans that the matches of the pattern `p` in `h` give, for rule `k`.
pub open spec fn match_spans(p: Seq<char>, h: Seq<char>, k: int) -> Seq<(int, int, int)> {
    let m = regex_all_matches(p, h);
    Seq::new(m.len(), |j: int| (m[j].0 as int, m[j].1 as int, k))
}

/// The spans of the one-line rules among `rules`, rule by rule, each rule's
/// matches in order.
pub open spec fn rule_spans(rules: Seq<RuleView>, h: Seq<char>) -> Seq<(int, int, int)>
    decreases rules.len(),
{
    if rules.len() == 0 {
        Seq::empty()
    } else {
        let r = rules.last();
        rule_spans(rules.drop_last(), h) + if r.end is None {
            match_spans(r.start, h, rules.len() - 1)
        } else {
            Seq::empty()
        }
    }
}

/// `x` put into `s` after every span that starts no later than it (from the end).
pub open spec fn insert_span(s: Seq<(int, int, int)>, x: (int, int, int)) -> Seq<(int, int, int)>
    decreases s.len(),
{
    if s.len() == 0 {
        seq![x]
    } else if s.last().0 <= x.0 {
        s.push(x)
    } else {
        insert_span(s.drop_last(), x).push(s.last())
    }
}

/// `s` ordered by start, spans with equal starts kept in order (a stable sort).
pub open spec fn sort_spans(s: Seq<(int, int, int)>) -> Seq<(int, int, int)>
    decreases s.len(),
{
    if s.len() == 0 {
        s
    } else {
        insert_span(sort_spans(s.drop_last()), s.last())
    }
}

proof fn lemma_insert_span_at(s: Seq<(int, int, int)>, x: (int, int, int), j: int)
    requires
        0 <= j <= s.len(),
        forall|k: int| j <= k < s.len() ==> (#[trigger] s[k]).0 > x.0,
        j > 0 ==> s[j - 1].0 <= x.0,
    ensures
        insert_span(s, x) == s.take(j).push(x) + s.skip(j),
    decreases s.len(),
{
    if s.len() == 0 {
        assert(s.take(j).push(x) + s.skip(j) =~= seq![x]);
    } else if j == s.len() {
        assert(s.take(j).push(x) + s.skip(j) =~= s.push(x));
    } else {
        let t = s.drop_last();
        assert forall|m: int| j <= m < t.len() implies (#[trigger] t[m]).0 > x.0 by {
            assert(t[m] == s[m]);
        }
        lemma_insert_span_at(t, x, j);
        assert(s.take(j).push(x) + s.skip(j) =~= (t.take(j).push(x) + t.skip(j)).push(s.last()));
    }
}

impl crate::editor::Editor {
    /// Where the rules of syntax definition `syntax_idx` color the line
    /// `line_data`: a span (start and end byte offsets, rule index) for each
    /// match of each one-line rule, ordered by start, spans that start
    /// together in the order of their rules.
    pub fn color_line(&self, line_data: &str, syntax_idx: usize) -> (r: Vec<(usize, usize, usize)>)
        requires
            syntax_idx < self.syntaxes@.len(),
        ensures
            span_views(r@) == sort_spans(rule_spans(self@.syntaxes[syntax_idx as int].colors, line_data@)),
    {
        let syntax = &self.syntaxes[syntax_idx];
        let ghost rules = rule_views(syntax.colors@);
        assert(rules == self@.syntaxes[syntax_idx as int].colors);
        let mut raw: Vec<(usize, usize, usize)> = Vec::new();
        let n = syntax.colors.len();
        let mut k: usize = 0;
        assert(rules.take(0) =~= Seq::<RuleView>::empty());
        while k < n
            invariant
                n == syntax.colors@.len(),
                rules == rule_views(syntax.colors@),
                k <= n,
                span_views(raw@) == rule_spans(rules.take(k as int), line_data@),
            decreases n - k,
        {
            assert(rules.take(k + 1).drop_last() =~= rules.take(k as int));
            let rule = &syntax.colors[k];
            if rule.end.is_none() {
                let ms = crate::search::regex_find_all_in(&rule.start, line_data);
                let ghost base = span_views(raw@);
                let mut j: usize = 0;
                while j < ms.len()
                    invariant
                        j <= ms@.len(),
                        ms@.len() == regex_all_matches(rule.start@, line_data@).len(),
                        forall|i: int| 0 <= i < ms@.len() ==> #[trigger] ms@[i].0 as nat == regex_all_matches(rule.start@, line_data@)[i].0
                            && ms@[i].1 as nat == regex_all_matches(rule.start@, line_data@)[i].1,
                        span_views(raw@) == base + match_spans(rule.start@, line_data@, k as int).take(j as int),
                    decreases ms@.len() - j,
                {
                    let ghost prev = span_views(raw@);
                    let a = ms[j].0;
                    let b2 = ms[j].1;
                    assert(a as nat == regex_all_matches(rule.start@, line_data@)[j as int].0);
                    assert(b2 as nat == regex_all_matches(rule.start@, line_data@)[j as int].1);
                    raw.push((a, b2, k));
                    assert(span_views(raw@) =~= prev.push((a as int, b2 as int, k as int)));
                    assert(match_spans(rule.start@, line_data@, k as int)[j as int] == (a as int, b2 as int, k as int));
                    assert(span_views(raw@) =~= base + match_spans(rule.start@, line_data@, k as int).take(j + 1));
                    j += 1;
                }
                assert(match_spans(rule.start@, line_data@, k as int).take(ms@.len() as int) =~= match_spans(
                    rule.start@,
                    line_data@,
                    k as int,
                ));
                assert(rules[k as int].start == rule.start@);
            } else {
                assert(span_views(raw@) =~= rule_spans(rules.take(k + 1), line_data@));
            }
            k += 1;
        }
        assert(rules.take(n as int) =~= rules);
        let ghost all = span_views(raw@);
        let mut out: Vec<(usize, usize, usize)> = Vec::new();
        let m = raw.len();
        let mut i: usize = 0;
        assert(all.take(0) =~= Seq::<(int, int, int)>::empty());
        while i < m
            invariant
                m == raw@.len(),
                all == span_views(raw@),
                i <= m,
                span_views(out@) == sort_spans(all.take(i as int)),
            decreases m - i,
        {
            let x = raw[i];
            let ghost s = span_views(out@);
            let mut j = out.len();
            while j > 0 && out[j - 1].0 > x.0
                invariant
                    j <= out@.len(),
                    s == span_views(out@),
                    forall|q: int| j <= q < s.len() ==> (#[trigger] s[q]).0 > x.0,
                decreases j,
            {
                j -= 1;
            }
            proof {
                lemma_insert_span_at(s, all[i as int], j as int);
                assert(all.take(i + 1).drop_last() =~= all.take(i as int));
            }
            out.insert(j, x);
            assert(span_views(out@) =~= s.take(j as int).push(all[i as int]) + s.skip(j as int));
            i += 1;
        }
        assert(all.take(m as int) =~= all);
        out
    }
}

} // verus!

verus! {

impl crate::editor::Editor {
    /// Set up the interface colors: the colors are given when drawing, so
    /// this only notes that they are there.
    pub fn set_interface_colorpairs(&mut self)
        ensures
            final(self)@ == (crate::editor::EditorView { have_palette: true, ..old(self)@ }),
    {
        self.have_palette = true;
    }
}

} // verus!

verus! {

/// The spans of `s` start in order.
pub open spec fn spans_in_order(s: Seq<(int, int, int)>) -> bool {
    forall|i: int, j: int| 0 <= i < j < s.len() ==> s[i].0 <= s[j].0
}

proof fn lemma_insert_span_sorted(s: Seq<(int, int, int)>, x: (int, int, int))
    requires
        spans_in_order(s),
    ensures
        spans_in_order(insert_span(s, x)),
        insert_span(s, x).to_multiset() == s.to_multiset().insert(x),
    decreases s.len(),
{
    broadcast use vstd::multiset::group_multiset_axioms, vstd::seq_lib::group_to_multiset_ensures;

    if s.len() == 0 {
        assert(seq![x] =~= Seq::<(int, int, int)>::empty().push(x));
    } else if s.last().0 <= x.0 {
    } else {
        let t = s.drop_last();
        assert(spans_in_order(t));
        lemma_insert_span_sorted(t, x);
        let u = insert_span(t, x);
        assert(s =~= t.push(s.last()));
        assert forall|i: int, j: int| 0 <= i < j < u.len() + 1 implies u.push(s.last())[i].0 <= u.push(
            s.last(),
        )[j].0 by {
            if j == u.len() {
                assert(u.contains(u[i]));
                assert(u.to_multiset().count(u[i]) > 0);
                if u[i] != x {
                    assert(t.to_multiset().count(u[i]) > 0);
                    assert(t.contains(u[i]));
                    let k = choose|k: int| 0 <= k < t.len() && t[k] == u[i];
                    assert(s[k] == t[k]);
                }
            }
        }
    }
}

/// The spans that `color_line` gives start in order and are the spans of
/// the rules' matches, each as often as it was found.
pub proof fn law_spans_sorted(s: Seq<(int, int, int)>)
    ensures
        spans_in_order(sort_spans(s)),
        sort_spans(s).to_multiset() == s.to_multiset(),
    decreases s.len(),
{
    broadcast use vstd::seq_lib::group_to_multiset_ensures;

    if s.len() > 0 {
        law_spans_sorted(s.drop_last());
        lemma_insert_span_sorted(sort_spans(s.drop_last()), s.last());
        assert(s =~= s.drop_last().push(s.last()));
    }
}

} // verus!
