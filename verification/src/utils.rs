//! General utility functions: paths, numbers, horizontal scrolling.
use vstd::prelude::*;

use crate::chars::{is_white_space, is_whitespace_exec, unicode_alphabetic};
use crate::textseq::{
    bpos, byte_len, bytes_len, chars_of, cidx, is_boundary, lemma_bpos_full, lemma_bpos_mono,
    lemma_bpos_step, lemma_cidx, lemma_boundary, offset_of, string_of,
};

verus! {

/// Number of decimal digits of `n` (1 for 0).
pub open spec fn digits_spec(n: nat) -> nat
    decreases n,
{
    if n < 10 {
        1
    } else {
        1 + digits_spec(n / 10)
    }
}

pub open spec fn pow10(k: nat) -> nat
    decreases k,
{
    if k == 0 {
        1
    } else {
        10 * pow10((k - 1) as nat)
    }
}

proof fn lemma_digits_bound(n: nat, k: nat)
    requires
        n < pow10(k + 1),
    ensures
        digits_spec(n) <= k + 1,
    decreases k,
{
    if n >= 10 {
        if k == 0 {
            assert(pow10(1) == 10 * pow10(0));
        } else {
            assert(n / 10 < pow10(k)) by (nonlinear_arith)
                requires
                    n < pow10(k + 1),
                    pow10(k + 1) == 10 * pow10(k),
            ;
            lemma_digits_bound(n / 10, (k - 1) as nat);
        }
    }
}

/// A `usize` has at most 20 decimal digits.
pub proof fn lemma_digits_usize(n: usize)
    ensures
        digits_spec(n as nat) <= 20,
{
    reveal_with_fuel(pow10, 21);
    assert(pow10(20) == 100000000000000000000);
    lemma_digits_bound(n as nat, 19);
}

/// Return the number of decimal digits needed to represent the given number.
pub fn digits(n: usize) -> (r: usize)
    ensures
        r == digits_spec(n as nat),
        1 <= r <= 20,
{
    proof {
        reveal_with_fuel(pow10, 21);
        assert(pow10(20) == 100000000000000000000);
        lemma_digits_bound(n as nat, 19);
    }
    let mut k: usize = 1;
    let mut m = n;
    while m >= 10
        invariant
            digits_spec(n as nat) == k + digits_spec(m as nat) - 1,
            1 <= k,
            k + digits_spec(m as nat) <= 21,
        decreases m,
    {
        m = m / 10;
        k = k + 1;
    }
    k
}

// -- Trimming and number parsing ----------------------------------------------

/// Number of White_Space characters at the start of `cs`.
pub open spec fn leading_ws(cs: Seq<char>) -> nat
    decreases cs.len(),
{
    if cs.len() > 0 && is_white_space(cs[0]) {
        1 + leading_ws(cs.drop_first())
    } else {
        0
    }
}

/// Number of White_Space characters at the end of `cs`.
pub open spec fn trailing_ws(cs: Seq<char>) -> nat
    decreases cs.len(),
{
    if cs.len() > 0 && is_white_space(cs.last()) {
        1 + trailing_ws(cs.drop_last())
    } else {
        0
    }
}

/// `cs` without White_Space at either end (what `str::trim` leaves).
pub open spec fn trim(cs: Seq<char>) -> Seq<char> {
    if leading_ws(cs) >= cs.len() {
        Seq::empty()
    } else {
        cs.subrange(leading_ws(cs) as int, cs.len() - trailing_ws(cs))
    }
}

pub open spec fn is_digit(c: char) -> bool {
    '0' <= c && c <= '9'
}

/// The number that the ASCII digits `ds` spell.
pub open spec fn digits_value(ds: Seq<char>) -> int
    decreases ds.len(),
{
    if ds.len() == 0 {
        0
    } else {
        digits_value(ds.drop_last()) * 10 + ((ds.last() as u32) - 48)
    }
}

/// The digits after an optional sign.
pub open spec fn unsigned_part(cs: Seq<char>) -> Seq<char> {
    if cs.len() > 0 && (cs[0] == '-' || cs[0] == '+') {
        cs.drop_first()
    } else {
        cs
    }
}

pub open spec fn all_digits(ds: Seq<char>) -> bool {
    forall|i: int| 0 <= i < ds.len() ==> is_digit(#[trigger] ds[i])
}

/// What `str::parse::<isize>` accepts: an optional sign and one or more ASCII
/// digits, of a value that fits.
pub open spec fn parse_isize(cs: Seq<char>) -> Option<isize> {
    let body = unsigned_part(cs);
    let v = if cs.len() > 0 && cs[0] == '-' {
        -digits_value(body)
    } else {
        digits_value(body)
    };
    if body.len() == 0 || !all_digits(body) {
        None
    } else if isize::MIN <= v <= isize::MAX {
        Some(v as isize)
    } else {
        None
    }
}

} // verus!

verus! {

pub proof fn lemma_leading_ws(cs: Seq<char>, i: int)
    requires
        0 <= i <= cs.len(),
        forall|j: int| 0 <= j < i ==> is_white_space(#[trigger] cs[j]),
    ensures
        leading_ws(cs) == i + leading_ws(cs.skip(i)),
    decreases i,
{
    if i == 0 {
        assert(cs.skip(0) =~= cs);
    } else {
        lemma_leading_ws(cs, i - 1);
        assert(cs.skip(i - 1).drop_first() =~= cs.skip(i));
        assert(cs.skip(i - 1)[0] == cs[i - 1]);
    }
}

proof fn lemma_trailing_ws(cs: Seq<char>, i: int)
    requires
        0 <= i <= cs.len(),
        forall|j: int| cs.len() - i <= j < cs.len() ==> is_white_space(#[trigger] cs[j]),
    ensures
        trailing_ws(cs) == i + trailing_ws(cs.take(cs.len() - i)),
    decreases i,
{
    if i == 0 {
        assert(cs.take(cs.len() as int) =~= cs);
    } else {
        lemma_trailing_ws(cs, i - 1);
        let t = cs.take(cs.len() - (i - 1));
        assert(t.drop_last() =~= cs.take(cs.len() - i));
        assert(t.last() == cs[cs.len() - i]);
    }
}

/// `s` without White_Space at either end (`str::trim`).
pub fn trim_text(s: &str) -> (r: String)
    ensures
        r@ == trim(s@),
{
    let cs = chars_of(s);
    let n = cs.len();
    let mut a: usize = 0;
    while a < n && is_whitespace_exec(cs[a])
        invariant
            cs@ == s@,
            n == cs@.len(),
            a <= n,
            forall|j: int| 0 <= j < a ==> is_white_space(#[trigger] cs@[j]),
        decreases n - a,
    {
        a += 1;
    }
    proof {
        lemma_leading_ws(cs@, a as int);
        if a < n {
            assert(cs@.skip(a as int)[0] == cs@[a as int]);
        }
    }
    if a == n {
        return String::new();
    }
    let mut b: usize = 0;
    while b < n - a && is_whitespace_exec(cs[n - 1 - b])
        invariant
            cs@ == s@,
            n == cs@.len(),
            a < n,
            b <= n - a,
            forall|j: int| n - b <= j < n ==> is_white_space(#[trigger] cs@[j]),
        decreases n - a - b,
    {
        b += 1;
    }
    proof {
        lemma_trailing_ws(cs@, b as int);
        if b < n - a {
            assert(cs@.take(n - b).last() == cs@[n - 1 - b]);
        } else {
            assert(!is_white_space(cs@.skip(a as int)[0]));
            assert(cs@.skip(a as int)[0] == cs@[a as int]);
        }
        assert(trailing_ws(cs@) == b);
    }
    string_of(&cs, a, n - b)
}

proof fn lemma_digits_value_nonneg(ds: Seq<char>, i: int)
    requires
        0 <= i <= ds.len(),
        forall|k: int| 0 <= k < ds.len() ==> is_digit(#[trigger] ds[k]),
    ensures
        digits_value(ds.take(i)) >= 0,
    decreases i,
{
    if i > 0 {
        lemma_digits_value_nonneg(ds, i - 1);
        assert(ds.take(i).drop_last() =~= ds.take(i - 1));
        assert(ds.take(i).last() == ds[i - 1]);
    }
}

pub proof fn lemma_digits_value_grows(ds: Seq<char>, i: int, j: int)
    requires
        0 <= i <= j <= ds.len(),
        forall|k: int| 0 <= k < ds.len() ==> is_digit(#[trigger] ds[k]),
    ensures
        digits_value(ds.take(i)) <= digits_value(ds.take(j)),
    decreases j - i,
{
    if i < j {
        lemma_digits_value_grows(ds, i, j - 1);
        lemma_digits_value_nonneg(ds, j - 1);
        assert(ds.take(j).drop_last() =~= ds.take(j - 1));
        assert(ds.take(j).last() == ds[j - 1]);
    }
}

/// Parse a number from a string (`s.trim().parse::<isize>().ok()`).
pub fn parse_num(s: &str) -> (r: Option<isize>)
    ensures
        r == parse_isize(trim(s@)),
{
    let t = trim_text(s);
    let cs = chars_of(t.as_str());
    let n = cs.len();
    if n == 0 {
        return None;
    }
    let neg = cs[0] == '-';
    let start: usize = if cs[0] == '-' || cs[0] == '+' {
        1
    } else {
        0
    };
    let ghost body = if cs@[0] == '-' || cs@[0] == '+' {
        cs@.drop_first()
    } else {
        cs@
    };
    assert(body =~= cs@.skip(start as int));
    if start == n {
        return None;
    }
    let max_mag: u128 = (isize::MAX as u128) + 1;
    let mut acc: u128 = 0;
    let mut i = start;
    proof {
        assert(body.take(0).len() == 0);
    }
    while i < n
        invariant
            cs@ == trim(s@),
            n == cs@.len(),
            start <= i <= n,
            body == cs@.skip(start as int),
            n > 0,
            body == unsigned_part(cs@),
            neg == (cs@[0] == '-'),
            max_mag == isize::MAX + 1,
            acc <= max_mag,
            forall|k: int| start <= k < i ==> is_digit(#[trigger] cs@[k]),
            acc == digits_value(body.take(i - start)),
        decreases n - i,
    {
        let c = cs[i];
        if !('0' <= c && c <= '9') {
            proof {
                assert(!is_digit(body[i - start]));
                assert(exists|k: int| 0 <= k < body.len() && !is_digit(#[trigger] body[k]));
            }
            return None;
        }
        let d = (c as u32 - 48) as u128;
        proof {
            assert(body.take(i - start + 1).drop_last() =~= body.take(i - start));
            assert(body.take(i - start + 1).last() == c);
        }
        acc = acc * 10 + d;
        i += 1;
        if acc > max_mag {
            proof {
                if all_digits(body) {
                    lemma_digits_value_grows(body, i - start, body.len() as int);
                    assert(body.take(body.len() as int) =~= body);
                    assert(digits_value(body) > isize::MAX + 1);
                    assert(-digits_value(body) < isize::MIN);
                } else {
                    let k = choose|k: int| 0 <= k < body.len() && !is_digit(#[trigger] body[k]);
                    assert(exists|k: int| 0 <= k < body.len() && !is_digit(#[trigger] body[k]));
                }
            }
            return None;
        }
    }
    proof {
        assert(body.take(body.len() as int) =~= body);
        assert forall|k: int| 0 <= k < body.len() implies is_digit(#[trigger] body[k]) by {
            assert(body[k] == cs@[k + start]);
        }
    }
    if neg {
        if acc == max_mag {
            Some(isize::MIN)
        } else {
            Some(-(acc as isize))
        }
    } else if acc > isize::MAX as u128 {
        None
    } else {
        Some(acc as isize)
    }
}

} // verus!

verus! {

pub open spec fn is_sep(c: char) -> bool {
    c == ',' || c == '.' || c == ':'
}

/// Index of the first separator (`,`, `.` or `:`) of `t` at or after `k`, or `t.len()`.
pub open spec fn sep_from(t: Seq<char>, k: int) -> int
    decreases t.len() - k,
{
    if k < 0 || k >= t.len() {
        t.len() as int
    } else if is_sep(t[k]) {
        k
    } else {
        sep_from(t, k + 1)
    }
}

/// What `parse_num` gives for a text.
pub open spec fn num_of(cs: Seq<char>) -> Option<isize> {
    parse_isize(trim(cs))
}

/// What `parse_line_column` gives for a text.
pub open spec fn line_column(s: Seq<char>) -> (Option<isize>, Option<isize>) {
    let t = trim(s);
    let k = sep_from(t, 0);
    if k < t.len() {
        (
            if k == 0 {
                None
            } else {
                num_of(t.take(k))
            },
            if k + 1 == t.len() {
                None
            } else {
                num_of(t.skip(k + 1))
            },
        )
    } else {
        (num_of(t), None)
    }
}

/// Parse "line,column" or "line:column" or "line.column" from a string.
pub fn parse_line_column(s: &str) -> (r: (Option<isize>, Option<isize>))
    ensures
        r == line_column(s@),
{
    let t = trim_text(s);
    let cs = chars_of(t.as_str());
    let n = cs.len();
    let mut k: usize = 0;
    while k < n && !(cs[k] == ',' || cs[k] == '.' || cs[k] == ':')
        invariant
            cs@ == trim(s@),
            n == cs@.len(),
            k <= n,
            sep_from(cs@, 0) == sep_from(cs@, k as int),
        decreases n - k,
    {
        k += 1;
    }
    if k < n {
        let line = if k == 0 {
            None
        } else {
            let part = string_of(&cs, 0, k);
            assert(part@ =~= cs@.take(k as int));
            parse_num(part.as_str())
        };
        let col = if k + 1 == n {
            None
        } else {
            let part = string_of(&cs, k + 1, n);
            assert(part@ =~= cs@.skip(k + 1));
            parse_num(part.as_str())
        };
        (line, col)
    } else {
        (parse_num(t.as_str()), None)
    }
}

/// Return the column number of the first character displayed in the edit
/// window when the cursor is at the given column (horizontal scrolling).
pub fn get_page_start(column: usize, editwincols: usize) -> (r: usize)
    requires
        column == 0 || column + 2 <= usize::MAX,
        column == 0 || column + 2 < editwincols || editwincols >= 2,
    ensures
        r == (if column == 0 || column + 2 < editwincols {
            0
        } else if editwincols > 8 {
            column - 6 - (column - 6) % (editwincols - 8)
        } else if column >= editwincols - 2 {
            column - (editwincols - 2)
        } else {
            0
        }),
{
    if column == 0 || column + 2 < editwincols {
        0
    } else if editwincols > 8 {
        column - 6 - (column - 6) % (editwincols - 8)
    } else if column >= editwincols - 2 {
        column - (editwincols - 2)
    } else {
        0
    }
}

/// Whether the word of `length` bytes at byte `position` of `text` is not
/// glued to a letter on either side.
pub fn is_separate_word(text: &str, position: usize, length: usize) -> (r: bool)
    requires
        position == 0 || is_boundary(text@, position as int),
        position + length <= usize::MAX,
        position + length >= bytes_len(text@) || is_boundary(text@, position + length),
    ensures
        r == ((position == 0 || !unicode_alphabetic(text@[cidx(text@, position as int) - 1])) && (
        position + length >= bytes_len(text@) || !unicode_alphabetic(
            text@[cidx(text@, position + length)],
        ))),
{
    let len = byte_len(text);
    let cs = chars_of(text);
    let before_ok = if position == 0 {
        true
    } else {
        let k = crate::textseq::index_at(&cs, position).unwrap();
        proof {
            lemma_bpos_full(cs@);
            if k == 0 {
                assert(bpos(cs@, 0) == 0);
            }
        }
        !crate::chars::is_alpha_char(cs[k - 1])
    };
    let after_ok = if position + length >= len {
        true
    } else {
        let k = crate::textseq::index_at(&cs, position + length).unwrap();
        proof {
            lemma_bpos_full(cs@);
            if k == cs@.len() {
                assert(bpos(cs@, k as int) == bytes_len(cs@));
            }
        }
        !crate::chars::is_alpha_char(cs[k])
    };
    before_ok && after_ok
}

/// What the home directory expands a leading `~` of `path` into.
pub open spec fn tilde_expansion(path: Seq<char>, home: Option<Seq<char>>) -> Seq<char> {
    let tilde = path == seq!['~'] || (path.len() >= 2 && path[0] == '~' && path[1] == '/');
    match home {
        Some(h) => if tilde {
            if path == seq!['~'] {
                h
            } else {
                h + path.drop_first()
            }
        } else {
            path
        },
        None => path,
    }
}

/// Expand a path that starts with `~/` (or is `~`) with the given home directory.
pub fn expand_tilde(path: &str, home: &Option<String>) -> (r: String)
    ensures
        r@ == tilde_expansion(path@, opt_view(*home)),
{
    let cs = chars_of(path);
    let is_tilde = cs.len() == 1 && cs[0] == '~';
    let tilde = is_tilde || (cs.len() >= 2 && cs[0] == '~' && cs[1] == '/');
    proof {
        if is_tilde {
            assert(path@ =~= seq!['~']);
        }
        if path@ =~= seq!['~'] {
            assert(cs@[0] == '~');
        }
    }
    match home {
        Some(h) => {
            if tilde {
                if is_tilde {
                    return crate::textseq::copy_text(h.as_str());
                }
                let rest = string_of(&cs, 1, cs.len());
                assert(rest@ =~= path@.drop_first());
                crate::textseq::concat_text(h.as_str(), rest.as_str())
            } else {
                crate::textseq::copy_text(path)
            }
        },
        None => crate::textseq::copy_text(path),
    }
}

pub open spec fn opt_view(s: Option<String>) -> Option<Seq<char>> {
    match s {
        Some(t) => Some(t@),
        None => None,
    }
}

/// The user's home directory (`dirs::home_dir`), which depends on the
/// environment: nothing is stated of it.
#[verifier::external_body]
fn home_dir_text() -> (r: Option<String>) {
    dirs::home_dir().map(|p| p.to_string_lossy().into_owned())
}

/// Get the user's home directory.
pub fn get_homedir() -> (r: Option<String>) {
    home_dir_text()
}

/// Expand a path that starts with `~/` (or is `~`) to the user's home directory.
pub fn real_dir_from_tilde(path: &str) -> (r: String)
    ensures
        exists|home: Option<Seq<char>>| r@ == tilde_expansion(path@, home),
{
    let home = get_homedir();
    expand_tilde(path, &home)
}

} // verus!

verus! {

/// Start of the path component that ends at `e`.
pub open spec fn comp_start(cs: Seq<char>, e: int) -> int
    decreases e,
{
    if e <= 0 || e > cs.len() {
        0
    } else if cs[e - 1] == '/' {
        e
    } else {
        comp_start(cs, e - 1)
    }
}

/// The bounds of the last path component of `cs[..e]`, leaving out empty and
/// `.` components; none when there is none or when it is `..`.
pub open spec fn file_name_span(cs: Seq<char>, e: int) -> Option<(int, int)>
    decreases e,
{
    if e <= 0 || e > cs.len() {
        None
    } else if cs[e - 1] == '/' {
        file_name_span(cs, e - 1)
    } else {
        let b = comp_start(cs, e);
        if e - b == 1 && cs[b] == '.' {
            file_name_span(cs, b)
        } else if e - b == 2 && cs[b] == '.' && cs[b + 1] == '.' {
            None
        } else {
            Some((b, e))
        }
    }
}

proof fn lemma_comp_start(cs: Seq<char>, e: int)
    requires
        0 < e <= cs.len(),
        cs[e - 1] != '/',
    ensures
        0 <= comp_start(cs, e) < e,
    decreases e,
{
    assert(comp_start(cs, e) == comp_start(cs, e - 1));
    if e > 1 && cs[e - 2] != '/' {
        lemma_comp_start(cs, e - 1);
    }
}

/// The filename part of `path` (the whole path when it has none).
pub open spec fn tail_text(path: Seq<char>) -> Seq<char> {
    match file_name_span(path, path.len() as int) {
        Some((b, e)) => path.subrange(b, e),
        None => path,
    }
}

/// Return the filename part of the given path (the whole path when it has none).
pub fn tail(path: &str) -> (r: &str)
    ensures
        r@ == (match file_name_span(path@, path@.len() as int) {
            Some((b, e)) => path@.subrange(b, e),
            None => path@,
        }),
{
    let _n = byte_len(path);
    let cs = chars_of(path);
    let mut e = cs.len();
    loop
        invariant
            cs@ == path@,
            bytes_len(path@) <= usize::MAX,
            e <= cs@.len(),
            file_name_span(cs@, cs@.len() as int) == file_name_span(cs@, e as int),
        decreases e,
    {
        if e == 0 {
            return path;
        }
        if cs[e - 1] == '/' {
            e -= 1;
        } else {
            proof {
                lemma_comp_start(cs@, e as int);
            }
            let mut b = e - 1;
            while b > 0 && cs[b - 1] != '/'
                invariant
                    cs@ == path@,
                    0 <= b < e <= cs@.len(),
                    cs@[e - 1] != '/',
                    comp_start(cs@, e as int) == comp_start(cs@, b as int + 1),
                    cs@[b as int] != '/',
                decreases b,
            {
                b -= 1;
            }
            proof {
                if b > 0 {
                    assert(comp_start(cs@, b as int + 1) == comp_start(cs@, b as int));
                } else {
                    assert(comp_start(cs@, 1) == comp_start(cs@, 0));
                }
            }
            if e - b == 1 && cs[b] == '.' {
                e = b;
            } else if e - b == 2 && cs[b] == '.' && cs[b + 1] == '.' {
                return path;
            } else {
                return crate::chars::sub_str(path, &cs, b, e);
            }
        }
    }
}

} // verus!
