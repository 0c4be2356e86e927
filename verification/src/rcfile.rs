//! The nanorc configuration language: its lines, its options and its
//! syntax-coloring directives.
use vstd::prelude::*;

use crate::chars::{is_white_space, is_whitespace_exec};
use crate::color::{
    char_index, color_spec, extract_quoted_strings, find_char, fresh_syntax, has_prefix, keyed_pattern,
    keyed_pattern_text, lemma_char_index, lemma_shift_index, parse_color_spec, pattern_texts, quoted_strings,
    rule_views, starts_with_text, ColorRule, RuleView, SyntaxDef, SyntaxView,
};
use crate::search::{Pattern, regex_accepts, regex_new};
use crate::definitions::EditorFlags;
use crate::editor::{Editor, EditorView};
use crate::textseq::{append_str, chars_of, copy_text, string_of};
use crate::utils::{all_digits, digits_value, is_digit, trim, trim_text};

verus! {

/// Whether the texts `a` and `b` are the same.
pub fn text_is(a: &str, b: &str) -> (r: bool)
    ensures
        r == (a@ == b@),
{
    let ac = chars_of(a);
    let bc = chars_of(b);
    if ac.len() != bc.len() {
        return false;
    }
    let mut i: usize = 0;
    while i < ac.len()
        invariant
            ac@ == a@,
            bc@ == b@,
            ac@.len() == bc@.len(),
            i <= ac@.len(),
            forall|j: int| 0 <= j < i ==> ac@[j] == bc@[j],
        decreases ac@.len() - i,
    {
        if ac[i] != bc[i] {
            return false;
        }
        i += 1;
    }
    assert(a@ =~= b@);
    true
}

/// Index of the first White_Space character of `s` from `i` on, or its length.
pub open spec fn first_ws(s: Seq<char>, i: int) -> int
    decreases s.len() - i,
{
    if i < 0 || i >= s.len() {
        s.len() as int
    } else if is_white_space(s[i]) {
        i
    } else {
        first_ws(s, i + 1)
    }
}

/// `s` split at its first White_Space character into the word before it and
/// the rest after it, trimmed (`splitn(2, char::is_whitespace)`, then `trim`);
/// the rest is empty when there is no such character.
pub open spec fn split_word(s: Seq<char>) -> (Seq<char>, Seq<char>) {
    let k = first_ws(s, 0);
    if k < s.len() {
        (s.take(k), trim(s.skip(k + 1)))
    } else {
        (s, Seq::empty())
    }
}

/// Number of double quotes at the start of `s`.
pub open spec fn leading_quotes(s: Seq<char>) -> nat
    decreases s.len(),
{
    if s.len() > 0 && s[0] == '"' {
        1 + leading_quotes(s.drop_first())
    } else {
        0
    }
}

/// Number of double quotes at the end of `s`.
pub open spec fn trailing_quotes(s: Seq<char>) -> nat
    decreases s.len(),
{
    if s.len() > 0 && s.last() == '"' {
        1 + trailing_quotes(s.drop_last())
    } else {
        0
    }
}

/// `s` without double quotes at either end (`trim_matches('"')`).
pub open spec fn unquoted(s: Seq<char>) -> Seq<char> {
    if leading_quotes(s) >= s.len() {
        Seq::empty()
    } else {
        s.subrange(leading_quotes(s) as int, s.len() - trailing_quotes(s))
    }
}

proof fn lemma_leading_quotes(cs: Seq<char>, i: int)
    requires
        0 <= i <= cs.len(),
        forall|j: int| 0 <= j < i ==> #[trigger] cs[j] == '"',
    ensures
        leading_quotes(cs) == i + leading_quotes(cs.skip(i)),
    decreases i,
{
    if i == 0 {
        assert(cs.skip(0) =~= cs);
    } else {
        lemma_leading_quotes(cs, i - 1);
        assert(cs.skip(i - 1).drop_first() =~= cs.skip(i));
        assert(cs.skip(i - 1)[0] == cs[i - 1]);
    }
}

proof fn lemma_trailing_quotes(cs: Seq<char>, i: int)
    requires
        0 <= i <= cs.len(),
        forall|j: int| cs.len() - i <= j < cs.len() ==> #[trigger] cs[j] == '"',
    ensures
        trailing_quotes(cs) == i + trailing_quotes(cs.take(cs.len() - i)),
    decreases i,
{
    if i == 0 {
        assert(cs.take(cs.len() as int) =~= cs);
    } else {
        lemma_trailing_quotes(cs, i - 1);
        let t = cs.take(cs.len() - (i - 1));
        assert(t.drop_last() =~= cs.take(cs.len() - i));
        assert(t.last() == cs[cs.len() - i]);
    }
}

/// `s` without double quotes at either end.
pub fn strip_quotes(s: &str) -> (r: String)
    ensures
        r@ == unquoted(s@),
{
    let cs = chars_of(s);
    let n = cs.len();
    let mut a: usize = 0;
    while a < n && cs[a] == '"'
        invariant
            cs@ == s@,
            n == cs@.len(),
            a <= n,
            forall|j: int| 0 <= j < a ==> #[trigger] cs@[j] == '"',
        decreases n - a,
    {
        a += 1;
    }
    proof {
        lemma_leading_quotes(cs@, a as int);
        if a < n {
            assert(cs@.skip(a as int)[0] == cs@[a as int]);
        }
    }
    if a == n {
        return String::new();
    }
    let mut b: usize = 0;
    while b < n - a && cs[n - 1 - b] == '"'
        invariant
            cs@ == s@,
            n == cs@.len(),
            a < n,
            b <= n - a,
            forall|j: int| n - b <= j < n ==> #[trigger] cs@[j] == '"',
        decreases n - a - b,
    {
        b += 1;
    }
    proof {
        lemma_trailing_quotes(cs@, b as int);
        if b < n - a {
            assert(cs@.take(n - b).last() == cs@[n - 1 - b]);
        } else {
            assert(cs@.skip(a as int)[0] == cs@[a as int]);
        }
        assert(trailing_quotes(cs@) == b);
    }
    string_of(&cs, a, n - b)
}

/// The word before the first White_Space character of `s`, and the rest
/// after it, trimmed.
pub fn split_first_word(s: &str) -> (r: (String, String))
    ensures
        (r.0@, r.1@) == split_word(s@),
{
    let cs = chars_of(s);
    let n = cs.len();
    let mut k: usize = 0;
    while k < n && !is_whitespace_exec(cs[k])
        invariant
            cs@ == s@,
            n == cs@.len(),
            k <= n,
            first_ws(s@, 0) == first_ws(s@, k as int),
        decreases n - k,
    {
        k += 1;
    }
    let word = string_of(&cs, 0, k);
    assert(word@ =~= s@.take(k as int));
    if k < n {
        let rest = string_of(&cs, k + 1, n);
        assert(rest@ =~= s@.skip(k + 1));
        (word, trim_text(rest.as_str()))
    } else {
        assert(s@.take(k as int) =~= s@);
        (word, String::new())
    }
}

/// The tab size that the text `v` sets: a number from 1 to 8192, written as
/// `str::parse::<usize>` reads it (an optional `+`, then ASCII digits).
pub open spec fn tabsize_value(v: Seq<char>) -> Option<usize> {
    let body = if v.len() > 0 && v[0] == '+' { v.drop_first() } else { v };
    if body.len() > 0 && all_digits(body) && 1 <= digits_value(body) <= 8192 {
        Some(digits_value(body) as usize)
    } else {
        None
    }
}

/// Read a tab size.
fn parse_tabsize(v: &str) -> (r: Option<usize>)
    ensures
        r == tabsize_value(v@),
{
    let cs = chars_of(v);
    let n = cs.len();
    let start: usize = if n > 0 && cs[0] == '+' { 1 } else { 0 };
    let ghost body = if v@.len() > 0 && v@[0] == '+' { v@.drop_first() } else { v@ };
    assert(body =~= cs@.skip(start as int));
    if start == n {
        return None;
    }
    let mut acc: usize = 0;
    let mut i = start;
    assert(body.take(0).len() == 0);
    while i < n
        invariant
            cs@ == v@,
            n == cs@.len(),
            start <= i <= n,
            body == cs@.skip(start as int),
            body == (if v@.len() > 0 && v@[0] == '+' { v@.drop_first() } else { v@ }),
            acc <= 8192,
            forall|k: int| start <= k < i ==> is_digit(#[trigger] cs@[k]),
            acc == digits_value(body.take(i - start)),
        decreases n - i,
    {
        let c = cs[i];
        if !('0' <= c && c <= '9') {
            proof {
                assert(!is_digit(body[i - start]));
                assert(!all_digits(body));
            }
            return None;
        }
        let d = (c as u32 - 48) as usize;
        proof {
            assert(body.take(i - start + 1).drop_last() =~= body.take(i - start));
            assert(body.take(i - start + 1).last() == c);
        }
        acc = acc * 10 + d;
        i += 1;
        if acc > 8192 {
            proof {
                if all_digits(body) {
                    crate::utils::lemma_digits_value_grows(body, i - start, body.len() as int);
                    assert(body.take(body.len() as int) =~= body);
                    assert(digits_value(body) > 8192);
                }
            }
            return None;
        }
    }
    proof {
        assert(body.take(body.len() as int) =~= body);
        assert forall|k: int| 0 <= k < body.len() implies is_digit(#[trigger] body[k]) by {
            assert(body[k] == cs@[k + start]);
        }
    }
    if acc >= 1 {
        Some(acc)
    } else {
        None
    }
}

/// The options that `set` and `unset` know: `Some(Some(flag))` for one
/// that sets a flag, `Some(None)` for one that takes a value, `None` for an
/// unknown name.
pub open spec fn rc_option_spec(name: Seq<char>) -> Option<Option<u64>> {
    if name == "boldtext"@ {
        Some(Some(EditorFlags::BOLD_TEXT))
    } else if name == "casesensitive"@ {
        Some(Some(EditorFlags::CASE_SENSITIVE))
    } else if name == "constantshow"@ {
        Some(Some(EditorFlags::CONSTANT_SHOW))
    } else if name == "linenumbers"@ {
        Some(Some(EditorFlags::LINE_NUMBERS))
    } else if name == "mouse"@ {
        Some(Some(EditorFlags::USE_MOUSE))
    } else if name == "nohelp"@ {
        Some(Some(EditorFlags::NO_HELP))
    } else if name == "nonewlines"@ {
        Some(Some(EditorFlags::NO_NEWLINES))
    } else if name == "nowrap"@ {
        Some(Some(EditorFlags::NO_WRAP))
    } else if name == "preserve"@ {
        Some(Some(EditorFlags::PRESERVE))
    } else if name == "autoindent"@ {
        Some(Some(EditorFlags::AUTOINDENT))
    } else if name == "indicator"@ {
        Some(Some(EditorFlags::INDICATOR))
    } else if name == "jumpyscrolling"@ {
        Some(Some(EditorFlags::JUMPY_SCROLLING))
    } else if name == "smarthome"@ {
        Some(Some(EditorFlags::SMART_HOME))
    } else if name == "softwrap"@ {
        Some(Some(EditorFlags::SOFTWRAP))
    } else if name == "tabstospaces"@ {
        Some(Some(EditorFlags::TABS_TO_SPACES))
    } else if name == "trimblanks"@ {
        Some(Some(EditorFlags::TRIM_BLANKS))
    } else if name == "emptyline"@ {
        Some(Some(EditorFlags::EMPTY_LINE))
    } else if name == "locking"@ {
        Some(Some(EditorFlags::LOCKING))
    } else if name == "minibar"@ {
        Some(Some(EditorFlags::MINIBAR))
    } else if name == "stateflags"@ {
        Some(Some(EditorFlags::STATEFLAGS))
    } else if name == "zap"@ {
        Some(Some(EditorFlags::LET_THEM_ZAP))
    } else if name == "zero"@ {
        Some(Some(EditorFlags::ZERO))
    } else if name == "breaklonglines"@ {
        Some(Some(EditorFlags::BREAK_LONG_LINES))
    } else if name == "historylog"@ {
        Some(Some(EditorFlags::HISTORYLOG))
    } else if name == "positionlog"@ {
        Some(Some(EditorFlags::POSITIONLOG))
    } else if name == "showcursor"@ {
        Some(Some(EditorFlags::SHOW_CURSOR))
    } else if name == "afterends"@ {
        Some(Some(EditorFlags::AFTER_ENDS))
    } else if name == "atblanks"@ {
        Some(Some(EditorFlags::AT_BLANKS))
    } else if name == "bookstyle"@ {
        Some(Some(EditorFlags::BOOKSTYLE))
    } else if name == "colonparsing"@ {
        Some(Some(EditorFlags::COLON_PARSING))
    } else if name == "wordbounds"@ {
        Some(Some(EditorFlags::WORD_BOUNDS))
    } else if name == "rawsequences"@ {
        Some(Some(EditorFlags::RAW_SEQUENCES))
    } else if name == "modernbindings"@ {
        Some(Some(EditorFlags::MODERN_BINDINGS))
    } else if name == "tabsize"@ {
        Some(None)
    } else if name == "fill"@ {
        Some(None)
    } else if name == "wordchars"@ {
        Some(None)
    } else if name == "whitespace"@ {
        Some(None)
    } else if name == "matchbrackets"@ {
        Some(None)
    } else if name == "punct"@ {
        Some(None)
    } else if name == "quotestr"@ {
        Some(None)
    } else {
        None
    }
}

/// Look up an option name in the table of `set` and `unset`.
pub fn rc_option(name: &str) -> (r: Option<Option<u64>>)
    ensures
        r == rc_option_spec(name@),
{
    if text_is(name, "boldtext") {
        return Some(Some(EditorFlags::BOLD_TEXT));
    }
    if text_is(name, "casesensitive") {
        return Some(Some(EditorFlags::CASE_SENSITIVE));
    }
    if text_is(name, "constantshow") {
        return Some(Some(EditorFlags::CONSTANT_SHOW));
    }
    if text_is(name, "linenumbers") {
        return Some(Some(EditorFlags::LINE_NUMBERS));
    }
    if text_is(name, "mouse") {
        return Some(Some(EditorFlags::USE_MOUSE));
    }
    if text_is(name, "nohelp") {
        return Some(Some(EditorFlags::NO_HELP));
    }
    if text_is(name, "nonewlines") {
        return Some(Some(EditorFlags::NO_NEWLINES));
    }
    if text_is(name, "nowrap") {
        return Some(Some(EditorFlags::NO_WRAP));
    }
    if text_is(name, "preserve") {
        return Some(Some(EditorFlags::PRESERVE));
    }
    if text_is(name, "autoindent") {
        return Some(Some(EditorFlags::AUTOINDENT));
    }
    if text_is(name, "indicator") {
        return Some(Some(EditorFlags::INDICATOR));
    }
    if text_is(name, "jumpyscrolling") {
        return Some(Some(EditorFlags::JUMPY_SCROLLING));
    }
    if text_is(name, "smarthome") {
        return Some(Some(EditorFlags::SMART_HOME));
    }
    if text_is(name, "softwrap") {
        return Some(Some(EditorFlags::SOFTWRAP));
    }
    if text_is(name, "tabstospaces") {
        return Some(Some(EditorFlags::TABS_TO_SPACES));
    }
    if text_is(name, "trimblanks") {
        return Some(Some(EditorFlags::TRIM_BLANKS));
    }
    if text_is(name, "emptyline") {
        return Some(Some(EditorFlags::EMPTY_LINE));
    }
    if text_is(name, "locking") {
        return Some(Some(EditorFlags::LOCKING));
    }
    if text_is(name, "minibar") {
        return Some(Some(EditorFlags::MINIBAR));
    }
    if text_is(name, "stateflags") {
        return Some(Some(EditorFlags::STATEFLAGS));
    }
    if text_is(name, "zap") {
        return Some(Some(EditorFlags::LET_THEM_ZAP));
    }
    if text_is(name, "zero") {
        return Some(Some(EditorFlags::ZERO));
    }
    if text_is(name, "breaklonglines") {
        return Some(Some(EditorFlags::BREAK_LONG_LINES));
    }
    if text_is(name, "historylog") {
        return Some(Some(EditorFlags::HISTORYLOG));
    }
    if text_is(name, "positionlog") {
        return Some(Some(EditorFlags::POSITIONLOG));
    }
    if text_is(name, "showcursor") {
        return Some(Some(EditorFlags::SHOW_CURSOR));
    }
    if text_is(name, "afterends") {
        return Some(Some(EditorFlags::AFTER_ENDS));
    }
    if text_is(name, "atblanks") {
        return Some(Some(EditorFlags::AT_BLANKS));
    }
    if text_is(name, "bookstyle") {
        return Some(Some(EditorFlags::BOOKSTYLE));
    }
    if text_is(name, "colonparsing") {
        return Some(Some(EditorFlags::COLON_PARSING));
    }
    if text_is(name, "wordbounds") {
        return Some(Some(EditorFlags::WORD_BOUNDS));
    }
    if text_is(name, "rawsequences") {
        return Some(Some(EditorFlags::RAW_SEQUENCES));
    }
    if text_is(name, "modernbindings") {
        return Some(Some(EditorFlags::MODERN_BINDINGS));
    }
    if text_is(name, "tabsize") {
        return Some(None);
    }
    if text_is(name, "fill") {
        return Some(None);
    }
    if text_is(name, "wordchars") {
        return Some(None);
    }
    if text_is(name, "whitespace") {
        return Some(None);
    }
    if text_is(name, "matchbrackets") {
        return Some(None);
    }
    if text_is(name, "punct") {
        return Some(None);
    }
    if text_is(name, "quotestr") {
        return Some(None);
    }
    None
}

impl EditorView {
    /// What `set <arg>` does: set the named flag, or the tab size or the word
    /// characters; anything else is ignored.
    pub open spec fn after_set(self, arg: Seq<char>) -> EditorView {
        let (name, value) = split_word(arg);
        match rc_option_spec(name) {
            Some(Some(flag)) => EditorView { flags: self.flags | flag, ..self },
            Some(None) => if name == "tabsize"@ {
                match tabsize_value(value) {
                    Some(n) => EditorView { tabsize: n, ..self },
                    None => self,
                }
            } else if name == "wordchars"@ {
                EditorView { word_chars: Some(unquoted(value)), ..self }
            } else {
                self
            },
            None => self,
        }
    }

    /// What `unset <arg>` does: clear the named flag.
    pub open spec fn after_unset(self, arg: Seq<char>) -> EditorView {
        match rc_option_spec(trim(arg)) {
            Some(Some(flag)) => EditorView { flags: self.flags & !flag, ..self },
            _ => self,
        }
    }
}

impl Editor {
    /// Handle a `set option [value]` directive.
    pub fn parse_set_option(&mut self, argument: &str)
        ensures
            final(self)@ == old(self)@.after_set(argument@),
    {
        let (name, value) = split_first_word(argument);
        match rc_option(name.as_str()) {
            Some(Some(flag)) => {
                self.flags.insert(flag);
            },
            Some(None) => {
                if text_is(name.as_str(), "tabsize") {
                    match parse_tabsize(value.as_str()) {
                        Some(n) => {
                            self.tabsize = n;
                        },
                        None => {},
                    }
                } else if text_is(name.as_str(), "wordchars") {
                    self.word_chars = Some(strip_quotes(value.as_str()));
                }
            },
            None => {},
        }
    }

    /// Handle an `unset option` directive.
    pub fn parse_unset_option(&mut self, argument: &str)
        ensures
            final(self)@ == old(self)@.after_unset(argument@),
    {
        let name = trim_text(argument);
        match rc_option(name.as_str()) {
            Some(Some(flag)) => {
                self.flags.remove(flag);
            },
            _ => {},
        }
    }
}

} // verus!

verus! {

/// The patterns among `ts` that the regex crate accepts, in order.
pub open spec fn accepted_patterns(ts: Seq<Seq<char>>) -> Seq<Seq<char>>
    decreases ts.len(),
{
    if ts.len() == 0 {
        Seq::empty()
    } else {
        accepted_patterns(ts.drop_last()) + if regex_accepts(ts.last()) {
            seq![ts.last()]
        } else {
            Seq::empty()
        }
    }
}

/// `(?i)` before `t` for a case-insensitive rule.
pub open spec fn case_prefixed(t: Seq<char>, ci: bool) -> Seq<char> {
    (if ci { "(?i)"@ } else { Seq::empty() }) + t
}

/// The one-line rules that the quoted patterns `ts` give, those the regex
/// crate accepts, all with the same number and colors.
pub open spec fn color_rules(ts: Seq<Seq<char>>, ci: bool, id: i16, fg: i16, bg: i16, bold: bool) -> Seq<RuleView>
    decreases ts.len(),
{
    if ts.len() == 0 {
        Seq::empty()
    } else {
        let p = case_prefixed(ts.last(), ci);
        color_rules(ts.drop_last(), ci, id, fg, bg, bold) + if regex_accepts(p) {
            seq![RuleView { id, fg, bg, bold, start: p, end: None }]
        } else {
            Seq::empty()
        }
    }
}

/// The name of a `syntax` directive (quoted, or up to the first White_Space)
/// and what follows it, trimmed.
pub open spec fn syntax_name(arg: Seq<char>) -> (Seq<char>, Seq<char>) {
    if arg.len() > 0 && arg[0] == '"' {
        match char_index(arg.skip(1), '"', 0) {
            Some(e) => (arg.subrange(1, e + 1), trim(arg.skip(e + 2))),
            None => (arg.skip(1), Seq::empty()),
        }
    } else {
        let end = first_ws(arg, 0);
        (arg.take(end), trim(arg.skip(end)))
    }
}

/// A `syntax` directive can be read: a quoted name is closed.
pub open spec fn syntax_arg_ok(arg: Seq<char>) -> bool {
    arg.len() > 0 && arg[0] == '"' ==> char_index(arg.skip(1), '"', 0) is Some
}

/// The rules that a `color` (or, with `ci`, `icolor`) directive adds after
/// its color spec: one spanning lines for `start="…" end="…"`, else one for
/// each quoted pattern.
pub open spec fn directive_rules(pat: Seq<char>, ci: bool, id: i16, fg: i16, bg: i16, bold: bool) -> Seq<RuleView> {
    if has_prefix(pat, "start="@) {
        match keyed_pattern(pat, "start=\""@, ci) {
            Some(sp) => if regex_accepts(sp) {
                seq![
                    RuleView {
                        id,
                        fg,
                        bg,
                        bold,
                        start: sp,
                        end: match keyed_pattern(pat, "end=\""@, ci) {
                            Some(ep) => if regex_accepts(ep) {
                                Some(ep)
                            } else {
                                None
                            },
                            None => None,
                        },
                    },
                ]
            } else {
                Seq::empty()
            },
            None => Seq::empty(),
        }
    } else {
        color_rules(quoted_strings(pat), ci, id, fg, bg, bold)
    }
}

impl EditorView {
    /// The editor with the last syntax definition replaced by `s`.
    pub open spec fn with_last_syntax(self, s: SyntaxView) -> EditorView {
        EditorView { syntaxes: self.syntaxes.update(self.syntaxes.len() - 1, s), ..self }
    }

    /// What a `syntax` directive does: start a new definition.
    pub open spec fn after_syntax(self, arg: Seq<char>) -> EditorView {
        let (name, rest) = syntax_name(arg);
        EditorView {
            syntaxes: self.syntaxes.push(fresh_syntax(name, accepted_patterns(quoted_strings(rest)))),
            ..self
        }
    }

    /// What a `color` (`ci`: `icolor`) directive does: add its rules to the
    /// last definition, numbered by how many rules it had.
    pub open spec fn after_color(self, arg: Seq<char>, ci: bool) -> EditorView {
        if self.syntaxes.len() == 0 || first_ws(arg, 0) >= arg.len() {
            self
        } else {
            let (cspec, pat) = split_word(arg);
            let (fg, bg, bold) = color_spec(cspec);
            let last = self.syntaxes.last();
            let id = last.colors.len() as i16;
            self.with_last_syntax(
                SyntaxView { colors: last.colors + directive_rules(pat, ci, id, fg, bg, bold), ..last },
            )
        }
    }

    /// What a `header` directive does: add its accepted patterns to the last
    /// definition.
    pub open spec fn after_header(self, arg: Seq<char>) -> EditorView {
        if self.syntaxes.len() == 0 {
            self
        } else {
            let last = self.syntaxes.last();
            self.with_last_syntax(
                SyntaxView { headers: last.headers + accepted_patterns(quoted_strings(arg)), ..last },
            )
        }
    }
}

/// The line-level outcome of a nanorc line: nothing more, or a file to include.
pub open spec fn rc_include(line: Seq<char>) -> Option<Seq<char>> {
    let t = trim(line);
    if t.len() == 0 || t[0] == '#' {
        None
    } else {
        let (cmd, arg) = split_word(t);
        if cmd == "include"@ {
            Some(unquoted(trim(arg)))
        } else {
            None
        }
    }
}

impl EditorView {
    /// What a nanorc line does to the editor.
    pub open spec fn after_rc_line(self, line: Seq<char>) -> EditorView {
        let t = trim(line);
        if t.len() == 0 || t[0] == '#' {
            self
        } else {
            let (cmd, arg) = split_word(t);
            let n = self.syntaxes.len();
            if cmd == "set"@ {
                self.after_set(arg)
            } else if cmd == "unset"@ {
                self.after_unset(arg)
            } else if cmd == "syntax"@ {
                self.after_syntax(arg)
            } else if cmd == "color"@ {
                self.after_color(arg, false)
            } else if cmd == "icolor"@ {
                self.after_color(arg, true)
            } else if cmd == "header"@ {
                self.after_header(arg)
            } else if n == 0 {
                self
            } else if cmd == "comment"@ {
                self.with_last_syntax(SyntaxView { comment: Some(unquoted(trim(arg))), ..self.syntaxes.last() })
            } else if cmd == "linter"@ {
                self.with_last_syntax(SyntaxView { linter: Some(unquoted(arg)), ..self.syntaxes.last() })
            } else if cmd == "formatter"@ {
                self.with_last_syntax(SyntaxView { formatter: Some(unquoted(arg)), ..self.syntaxes.last() })
            } else if cmd == "tabgives"@ {
                self.with_last_syntax(SyntaxView { tabstring: Some(unquoted(arg)), ..self.syntaxes.last() })
            } else {
                self
            }
        }
    }

    /// What the nanorc lines `ls` do to the editor, one after the other.
    pub open spec fn after_rc_lines(self, ls: Seq<Seq<char>>) -> EditorView
        decreases ls.len(),
    {
        if ls.len() == 0 {
            self
        } else {
            self.after_rc_lines(ls.drop_last()).after_rc_line(ls.last())
        }
    }

    /// A nanorc line can be read: a `syntax` line's quoted name is closed.
    pub open spec fn rc_line_ok(line: Seq<char>) -> bool {
        let t = trim(line);
        let (cmd, arg) = split_word(t);
        t.len() > 0 && t[0] != '#' && cmd == "syntax"@ ==> syntax_arg_ok(arg)
    }
}

/// The patterns among `tokens` that the regex crate accepts, compiled.
fn compile_all(tokens: &Vec<String>) -> (r: Vec<Pattern>)
    ensures
        pattern_texts(r@) == accepted_patterns(crate::editor::text_views(tokens@)),
{
    let mut out: Vec<Pattern> = Vec::new();
    let mut i: usize = 0;
    let ghost ts = crate::editor::text_views(tokens@);
    assert(ts.take(0) =~= Seq::<Seq<char>>::empty());
    while i < tokens.len()
        invariant
            ts == crate::editor::text_views(tokens@),
            i <= tokens@.len(),
            pattern_texts(out@) == accepted_patterns(ts.take(i as int)),
        decreases tokens@.len() - i,
    {
        assert(ts.take(i + 1).drop_last() =~= ts.take(i as int));
        let ghost prev = pattern_texts(out@);
        match regex_new(tokens[i].as_str()) {
            Some(re) => {
                out.push(re);
                assert(pattern_texts(out@) =~= prev.push(ts[i as int]));
            },
            None => {},
        }
        i += 1;
    }
    assert(ts.take(tokens@.len() as int) =~= ts);
    out
}

/// The one-line rules of the quoted patterns `tokens`.
fn build_rules(tokens: &Vec<String>, ci: bool, id: i16, fg: i16, bg: i16, bold: bool) -> (r: Vec<ColorRule>)
    ensures
        rule_views(r@) == color_rules(crate::editor::text_views(tokens@), ci, id, fg, bg, bold),
{
    let mut out: Vec<ColorRule> = Vec::new();
    let mut i: usize = 0;
    let ghost ts = crate::editor::text_views(tokens@);
    assert(ts.take(0) =~= Seq::<Seq<char>>::empty());
    while i < tokens.len()
        invariant
            ts == crate::editor::text_views(tokens@),
            i <= tokens@.len(),
            rule_views(out@) == color_rules(ts.take(i as int), ci, id, fg, bg, bold),
        decreases tokens@.len() - i,
    {
        assert(ts.take(i + 1).drop_last() =~= ts.take(i as int));
        let ghost prev = rule_views(out@);
        let mut p = String::new();
        if ci {
            append_str(&mut p, "(?i)");
        }
        append_str(&mut p, tokens[i].as_str());
        proof {
            reveal_strlit("(?i)");
        }
        assert(p@ =~= case_prefixed(ts[i as int], ci));
        match regex_new(p.as_str()) {
            Some(re) => {
                out.push(ColorRule { id, fg, bg, bold, start: re, end: None });
                assert(rule_views(out@) =~= prev.push(RuleView { id, fg, bg, bold, start: p@, end: None }));
            },
            None => {},
        }
        i += 1;
    }
    assert(ts.take(tokens@.len() as int) =~= ts);
    out
}

/// The compiled pattern of `keyed_pattern(s, key, ci)`, when there is one
/// that the regex crate accepts.
pub open spec fn compiled_keyed(s: Seq<char>, key: Seq<char>, ci: bool) -> Option<Seq<char>> {
    match keyed_pattern(s, key, ci) {
        Some(p) => if regex_accepts(p) {
            Some(p)
        } else {
            None
        },
        None => None,
    }
}

/// The view of an optional pattern.
pub open spec fn opt_pattern(p: Option<Pattern>) -> Option<Seq<char>> {
    match p {
        Some(q) => Some(q@),
        None => None,
    }
}

/// The patterns of `start="…"` and `end="…"` in `input`, compiled (with
/// `(?i)` before them when `case_insensitive`); `None` for one that is
/// missing, unclosed, or that the regex crate refuses.
pub fn parse_start_end_pattern(input: &str, case_insensitive: bool) -> (r: (Option<Pattern>, Option<Pattern>))
    ensures
        opt_pattern(r.0) == compiled_keyed(input@, "start=\""@, case_insensitive),
        opt_pattern(r.1) == compiled_keyed(input@, "end=\""@, case_insensitive),
{
    let start = match keyed_pattern_text(input, "start=\"", case_insensitive) {
        Some(sp) => regex_new(sp.as_str()),
        None => None,
    };
    let end = match keyed_pattern_text(input, "end=\"", case_insensitive) {
        Some(ep) => regex_new(ep.as_str()),
        None => None,
    };
    (start, end)
}

/// The rules of a `color` directive's patterns.
fn parse_start_end_rules(pat: &str, ci: bool, id: i16, fg: i16, bg: i16, bold: bool) -> (r: Vec<ColorRule>)
    ensures
        rule_views(r@) == directive_rules(pat@, ci, id, fg, bg, bold),
{
    if starts_with_text(pat, "start=") {
        let mut out: Vec<ColorRule> = Vec::new();
        let (start, end) = parse_start_end_pattern(pat, ci);
        match start {
            Some(start) => {
                out.push(ColorRule { id, fg, bg, bold, start, end });
                assert(rule_views(out@) =~= directive_rules(pat@, ci, id, fg, bg, bold));
            },
            None => {
                assert(rule_views(out@) =~= directive_rules(pat@, ci, id, fg, bg, bold));
            },
        }
        out
    } else {
        let tokens = extract_quoted_strings(pat);
        build_rules(&tokens, ci, id, fg, bg, bold)
    }
}

impl Editor {
    /// Handle a `syntax name "ext"…` directive: start a new definition named
    /// `name` (which may be quoted), matching file names by the accepted
    /// extension patterns.
    pub fn parse_syntax_directive(&mut self, argument: &str)
        requires
            syntax_arg_ok(argument@),
        ensures
            final(self)@ == old(self)@.after_syntax(argument@),
    {
        let cs = chars_of(argument);
        let n = cs.len();
        let (name, rest) = if n > 0 && cs[0] == '"' {
            proof {
                lemma_shift_index(cs@, '"', 1, 0);
                lemma_char_index(cs@, '"', 1);
            }
            let e = find_char(&cs, '"', 1).unwrap();
            let name = string_of(&cs, 1, e);
            let rest = string_of(&cs, e + 1, n);
            assert(name@ =~= argument@.subrange(1, e as int));
            assert(rest@ =~= argument@.skip(e + 1));
            (name, trim_text(rest.as_str()))
        } else {
            let mut k: usize = 0;
            while k < n && !is_whitespace_exec(cs[k])
                invariant
                    cs@ == argument@,
                    n == cs@.len(),
                    k <= n,
                    first_ws(argument@, 0) == first_ws(argument@, k as int),
                decreases n - k,
            {
                k += 1;
            }
            let name = string_of(&cs, 0, k);
            let rest = string_of(&cs, k, n);
            assert(name@ =~= argument@.take(k as int));
            assert(rest@ =~= argument@.skip(k as int));
            (name, trim_text(rest.as_str()))
        };
        assert((name@, rest@) == syntax_name(argument@));
        let tokens = extract_quoted_strings(rest.as_str());
        let extensions = compile_all(&tokens);
        let syn = SyntaxDef {
            name,
            filename: None,
            lineno: 0,
            extensions,
            headers: Vec::new(),
            magics: Vec::new(),
            linter: None,
            formatter: None,
            tabstring: None,
            comment: None,
            colors: Vec::new(),
            multiscore: 0,
        };
        let ghost ss = self@.syntaxes;
        self.syntaxes.push(syn);
        assert(self@.syntaxes =~= old(self)@.after_syntax(argument@).syntaxes) by {
            assert(syn@.headers =~= Seq::<Seq<char>>::empty());
            assert(syn@.magics =~= Seq::<Seq<char>>::empty());
            assert(syn@.colors =~= Seq::<RuleView>::empty());
        }
    }

    /// Handle a `color fg[,bg] "regex"…` (or `start="…" end="…"`) directive;
    /// `case_insensitive` for `icolor`.
    pub fn parse_color_directive(&mut self, argument: &str, case_insensitive: bool)
        ensures
            final(self)@ == old(self)@.after_color(argument@, case_insensitive),
    {
        if self.syntaxes.len() == 0 {
            return;
        }
        let cs = chars_of(argument);
        let n = cs.len();
        let mut k: usize = 0;
        while k < n && !is_whitespace_exec(cs[k])
            invariant
                cs@ == argument@,
                n == cs@.len(),
                k <= n,
                first_ws(argument@, 0) == first_ws(argument@, k as int),
            decreases n - k,
        {
            k += 1;
        }
        if k >= n {
            return;
        }
        let (cspec, pat) = split_first_word(argument);
        let (fg, bg, bold) = parse_color_spec(cspec.as_str());
        let last = self.syntaxes.len() - 1;
        let id = self.syntaxes[last].colors.len() as i16;
        let mut rules = parse_start_end_rules(pat.as_str(), case_insensitive, id, fg, bg, bold);
        let ghost before = self.syntaxes@[last as int]@;
        let ghost added = rule_views(rules@);
        self.syntaxes[last].colors.append(&mut rules);
        assert(self.syntaxes@[last as int]@.colors =~= before.colors + added);
        assert(self@.syntaxes =~= old(self)@.after_color(argument@, case_insensitive).syntaxes);
    }

    /// Handle a `header "regex"…` directive.
    pub fn parse_header_directive(&mut self, argument: &str)
        ensures
            final(self)@ == old(self)@.after_header(argument@),
    {
        if self.syntaxes.len() == 0 {
            return;
        }
        let tokens = extract_quoted_strings(argument);
        let mut pats = compile_all(&tokens);
        let last = self.syntaxes.len() - 1;
        let ghost before = self.syntaxes@[last as int]@;
        self.syntaxes[last].headers.append(&mut pats);
        assert(self.syntaxes@[last as int]@.headers =~= before.headers + accepted_patterns(quoted_strings(argument@)));
        assert(self@.syntaxes =~= old(self)@.after_header(argument@).syntaxes);
    }

    /// Handle a `comment "text"` directive.
    pub fn parse_comment_directive(&mut self, argument: &str)
        ensures
            old(self)@.syntaxes.len() > 0 ==> final(self)@ == old(self)@.with_last_syntax(
                SyntaxView { comment: Some(unquoted(trim(argument@))), ..old(self)@.syntaxes.last() },
            ),
            old(self)@.syntaxes.len() == 0 ==> final(self)@ == old(self)@,
    {
        if self.syntaxes.len() == 0 {
            return;
        }
        let t = trim_text(argument);
        let c = strip_quotes(t.as_str());
        let last = self.syntaxes.len() - 1;
        self.syntaxes[last].comment = Some(c);
        assert(self@.syntaxes =~= old(self)@.syntaxes.update(
            last as int,
            SyntaxView { comment: Some(unquoted(trim(argument@))), ..old(self)@.syntaxes.last() },
        ));
    }

    /// Whether `parse_rc_line` can read `line`: every line can but a
    /// `syntax` line whose name opens a quote that is never closed.
    pub fn rc_line_readable(line: &str) -> (r: bool)
        ensures
            r == EditorView::rc_line_ok(line@),
    {
        let t = trim_text(line);
        let tc = chars_of(t.as_str());
        if tc.len() == 0 || tc[0] == '#' {
            return true;
        }
        let (cmd, arg) = split_first_word(t.as_str());
        if !text_is(cmd.as_str(), "syntax") {
            proof {
                reveal_strlit("syntax");
            }
            return true;
        }
        proof {
            reveal_strlit("syntax");
        }
        let ac = chars_of(arg.as_str());
        let n = ac.len();
        if n > 0 && ac[0] == '"' {
            proof {
                lemma_shift_index(ac@, '"', 1, 0);
            }
            find_char(&ac, '"', 1).is_some()
        } else {
            true
        }
    }

    /// Apply the nanorc lines `lines` from `from` on, one after the other,
    /// up to and including the first `include` line; the index after the
    /// last line applied, and the file that the `include` line names (quotes
    /// removed) for the caller to read and apply before going on.
    pub fn apply_rc_lines(&mut self, lines: &Vec<String>, from: usize) -> (r: (usize, Option<String>))
        requires
            from <= lines@.len(),
            forall|j: int| from <= j < lines@.len() ==> EditorView::rc_line_ok(#[trigger] lines@[j]@),
        ensures
            from <= r.0 <= lines@.len(),
            final(self)@ == old(self)@.after_rc_lines(crate::editor::text_views(lines@).subrange(from as int, r.0 as int)),
            forall|j: int| from <= j < r.0 - 1 ==> rc_include(#[trigger] lines@[j]@) is None,
            r.1 is None ==> r.0 == lines@.len() && (r.0 > from ==> rc_include(lines@[r.0 - 1]@) is None),
            r.1 is Some ==> r.0 > from && crate::definitions::opt_text(r.1) == rc_include(lines@[r.0 - 1]@),
    {
        let ghost tv = crate::editor::text_views(lines@);
        let mut i = from;
        assert(tv.subrange(from as int, from as int) =~= Seq::<Seq<char>>::empty());
        while i < lines.len()
            invariant
                from <= i <= lines@.len(),
                tv == crate::editor::text_views(lines@),
                forall|j: int| from <= j < lines@.len() ==> EditorView::rc_line_ok(#[trigger] lines@[j]@),
                self@ == old(self)@.after_rc_lines(tv.subrange(from as int, i as int)),
                forall|j: int| from <= j < i ==> rc_include(#[trigger] lines@[j]@) is None,
            decreases lines@.len() - i,
        {
            let ghost before = self@;
            let inc = self.parse_rc_line(lines[i].as_str());
            assert(tv.subrange(from as int, i + 1).drop_last() =~= tv.subrange(from as int, i as int));
            assert(tv.subrange(from as int, i + 1).last() == lines@[i as int]@);
            i += 1;
            if inc.is_some() {
                return (i, inc);
            }
        }
        (i, None)
    }

    /// Read a line of a nanorc file and apply it.  An `include` line is not
    /// read here: the file it names (quotes removed) is returned, for the
    /// caller to read and apply line by line.
    #[verifier::rlimit(40)]
    pub fn parse_rc_line(&mut self, line: &str) -> (r: Option<String>)
        requires
            EditorView::rc_line_ok(line@),
        ensures
            final(self)@ == old(self)@.after_rc_line(line@),
            crate::definitions::opt_text(r) == rc_include(line@),
    {
        let t = trim_text(line);
        let tc = chars_of(t.as_str());
        if tc.len() == 0 || tc[0] == '#' {
            return None;
        }
        let (cmd, arg) = split_first_word(t.as_str());
        let c = cmd.as_str();
        let a = arg.as_str();
        proof {
            reveal_strlit("include");
            reveal_strlit("set");
            reveal_strlit("unset");
            reveal_strlit("syntax");
            reveal_strlit("color");
            reveal_strlit("icolor");
            reveal_strlit("header");
            reveal_strlit("comment");
            reveal_strlit("linter");
            reveal_strlit("formatter");
            reveal_strlit("tabgives");
        }
        if text_is(c, "include") {
            proof {
                let i = "include"@;
                assert(i.len() == 7);
                assert(i != "set"@ && i != "unset"@ && i != "syntax"@ && i != "color"@);
                assert(i != "icolor"@ && i != "header"@ && i != "linter"@);
                assert(i != "formatter"@ && i != "tabgives"@);
                assert(i[0] != "comment"@[0]);
            }
            let at = trim_text(a);
            return Some(strip_quotes(at.as_str()));
        }
        if text_is(c, "set") {
            self.parse_set_option(a);
        } else if text_is(c, "unset") {
            self.parse_unset_option(a);
        } else if text_is(c, "syntax") {
            self.parse_syntax_directive(a);
        } else if text_is(c, "color") {
            self.parse_color_directive(a, false);
        } else if text_is(c, "icolor") {
            self.parse_color_directive(a, true);
        } else if text_is(c, "header") {
            self.parse_header_directive(a);
        } else if self.syntaxes.len() == 0 {
        } else if text_is(c, "comment") {
            self.parse_comment_directive(a);
        } else {
            let last = self.syntaxes.len() - 1;
            if text_is(c, "linter") {
                self.syntaxes[last].linter = Some(strip_quotes(a));
                assert(self@.syntaxes =~= old(self)@.after_rc_line(line@).syntaxes);
            } else if text_is(c, "formatter") {
                self.syntaxes[last].formatter = Some(strip_quotes(a));
                assert(self@.syntaxes =~= old(self)@.after_rc_line(line@).syntaxes);
            } else if text_is(c, "tabgives") {
                self.syntaxes[last].tabstring = Some(strip_quotes(a));
                assert(self@.syntaxes =~= old(self)@.after_rc_line(line@).syntaxes);
            }
        }
        None
    }
}

} // verus!

verus! {

/// The pattern `p` from index `a` on matches the text `t` from index `b` on,
/// `*` standing for any characters and `?` for any one character.
pub open spec fn glob_from(p: Seq<char>, t: Seq<char>, a: int, b: int) -> bool
    decreases p.len() - a, t.len() - b,
{
    if a < 0 || b < 0 || a >= p.len() {
        b >= t.len()
    } else if p[a] == '*' {
        glob_from(p, t, a + 1, b) || (b < t.len() && glob_from(p, t, a, b + 1))
    } else if b >= t.len() {
        false
    } else if p[a] == '?' || p[a] == t[b] {
        glob_from(p, t, a + 1, b + 1)
    } else {
        false
    }
}

fn glob_match_from(p: &Vec<char>, t: &Vec<char>, a: usize, b: usize) -> (r: bool)
    requires
        a <= p@.len(),
        b <= t@.len(),
    ensures
        r == glob_from(p@, t@, a as int, b as int),
    decreases p@.len() - a, t@.len() - b,
{
    if a >= p.len() {
        return b >= t.len();
    }
    if p[a] == '*' {
        if glob_match_from(p, t, a + 1, b) {
            return true;
        }
        if b < t.len() {
            return glob_match_from(p, t, a, b + 1);
        }
        return false;
    }
    if b >= t.len() {
        return false;
    }
    if p[a] == '?' || p[a] == t[b] {
        return glob_match_from(p, t, a + 1, b + 1);
    }
    false
}

/// Whether the file name `text` matches the glob `pattern` (`*` and `?`).
pub fn simple_glob_match(pattern: &str, text: &str) -> (r: bool)
    ensures
        r == glob_from(pattern@, text@, 0, 0),
{
    let pc = chars_of(pattern);
    let tc = chars_of(text);
    glob_match_from(&pc, &tc, 0, 0)
}

} // verus!

verus! {

proof fn lemma_no_ws_word(name: Seq<char>, i: int)
    requires
        0 <= i <= name.len(),
        forall|j: int| 0 <= j < name.len() ==> !is_white_space(#[trigger] name[j]),
    ensures
        first_ws(name, i) == name.len(),
    decreases name.len() - i,
{
    if i < name.len() {
        lemma_no_ws_word(name, i + 1);
    }
}

/// `set` and then `unset` of a flag option leaves that flag off and the
/// rest of the editor as it was.
pub proof fn law_set_then_unset(e: EditorView, name: Seq<char>)
    requires
        rc_option_spec(name) matches Some(Some(_)),
        forall|j: int| 0 <= j < name.len() ==> !is_white_space(#[trigger] name[j]),
    ensures
        ({
            let f = rc_option_spec(name)->0->0;
            e.after_set(name).after_unset(name) == EditorView { flags: e.flags & !f, ..e }
        }),
{
    let f = rc_option_spec(name)->0->0;
    lemma_no_ws_word(name, 0);
    assert(name.take(name.len() as int) =~= name);
    assert(split_word(name) == (name, Seq::<char>::empty()));
    if name.len() > 0 {
        assert(crate::utils::leading_ws(name) == 0);
        assert(crate::utils::trailing_ws(name) == 0);
    }
    assert(trim(name) =~= name);
    let a = e.flags;
    assert((a | f) & !f == a & !f) by (bit_vector);
}

} // verus!
