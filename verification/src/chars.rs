//! Character classification, display widths and byte stepping in a line.
use vstd::prelude::*;

use crate::textseq::{
    bpos, byte_len, bytes_len, char_len, chars_of, cidx, is_boundary, is_first_match, is_last_match,
    lemma_boundary, no_match,
    lemma_bpos_full, lemma_bpos_mono, lemma_bpos_step, lemma_char_len_bounds, lemma_cidx, len_utf8,
};

verus! {

// ---------------------------------------------------------------------------
// Names for what std and unicode-width compute from Unicode tables.

/// What `char::is_alphanumeric` returns for `c`.
pub uninterp spec fn unicode_alphanumeric(c: char) -> bool;

/// What `char::is_alphabetic` returns for `c`.
pub uninterp spec fn unicode_alphabetic(c: char) -> bool;

/// The column width that unicode-width's table gives a character from U+00A0 on.
pub uninterp spec fn unicode_width(c: char) -> usize;

/// What `str::to_lowercase` returns for a text.
pub uninterp spec fn lowercase(s: Seq<char>) -> Seq<char>;

/// `char::is_alphanumeric`.
#[verifier::external_body]
fn std_is_alphanumeric(c: char) -> (r: bool)
    ensures
        r == unicode_alphanumeric(c),
{
    c.is_alphanumeric()
}

/// `char::is_alphabetic`.
#[verifier::external_body]
fn std_is_alphabetic(c: char) -> (r: bool)
    ensures
        r == unicode_alphabetic(c),
{
    c.is_alphabetic()
}

/// `unicode_width::UnicodeWidthChar::width`: `None` exactly for the control codes
/// U+0000..U+001F and U+007F..U+009F, 1 for the rest of ASCII, and from U+00A0 on
/// the table's width, which is at most 3.
#[verifier::external_body]
pub(crate) fn table_width(c: char) -> (r: Option<usize>)
    ensures
        r == (if is_control(c) {
            None
        } else if (c as u32) < 0x7f {
            Some(1usize)
        } else {
            Some(unicode_width(c))
        }),
        r matches Some(w) ==> w <= 3,
{
    unicode_width::UnicodeWidthChar::width(c)
}

/// `str::to_lowercase`.
#[verifier::external_body]
pub(crate) fn str_to_lowercase(s: &str) -> (r: String)
    ensures
        r@ == lowercase(s@),
{
    s.to_lowercase()
}

// ---------------------------------------------------------------------------
// Classification

/// General category Cc (what `char::is_control` tests).
pub open spec fn is_control(c: char) -> bool {
    (c as u32) < 0x20 || (0x7f <= (c as u32) && (c as u32) < 0xa0)
}

/// The White_Space property (what `char::is_whitespace` tests).
pub open spec fn is_white_space(c: char) -> bool {
    let v = c as u32;
    (0x09 <= v && v <= 0x0d) || v == 0x20 || v == 0x85 || v == 0xa0 || v == 0x1680 || (0x2000
        <= v && v <= 0x200a) || v == 0x2028 || v == 0x2029 || v == 0x202f || v == 0x205f || v
        == 0x3000
}

/// ASCII punctuation (what `char::is_ascii_punctuation` tests).
pub open spec fn is_ascii_punct(c: char) -> bool {
    let v = c as u32;
    (0x21 <= v && v <= 0x2f) || (0x3a <= v && v <= 0x40) || (0x5b <= v && v <= 0x60) || (0x7b
        <= v && v <= 0x7e)
}

pub open spec fn is_blank(c: char) -> bool {
    c == ' ' || c == '\t'
}

pub open spec fn is_punct(c: char) -> bool {
    is_ascii_punct(c) || (!unicode_alphanumeric(c) && !is_white_space(c) && !is_control(c))
}

pub open spec fn is_word(c: char, allow_punct: bool, word_chars: Option<Seq<char>>) -> bool {
    &&& c != '\0'
    &&& {
        ||| unicode_alphanumeric(c)
        ||| (allow_punct && is_punct(c))
        ||| (word_chars matches Some(wc) && wc.len() > 0 && wc.contains(c))
    }
}

pub(crate) fn is_control_exec(c: char) -> (r: bool)
    ensures
        r == is_control(c),
{
    let v = c as u32;
    v < 0x20 || (0x7f <= v && v < 0xa0)
}

pub(crate) fn is_whitespace_exec(c: char) -> (r: bool)
    ensures
        r == is_white_space(c),
{
    let v = c as u32;
    (0x09 <= v && v <= 0x0d) || v == 0x20 || v == 0x85 || v == 0xa0 || v == 0x1680 || (0x2000
        <= v && v <= 0x200a) || v == 0x2028 || v == 0x2029 || v == 0x202f || v == 0x205f || v
        == 0x3000
}

/// Return true when the given character is alphanumeric.
pub fn is_alnum_char(c: char) -> (r: bool)
    ensures
        r == unicode_alphanumeric(c),
{
    std_is_alphanumeric(c)
}

/// Return true when the given character is alphabetic.
pub fn is_alpha_char(c: char) -> (r: bool)
    ensures
        r == unicode_alphabetic(c),
{
    std_is_alphabetic(c)
}

/// Return true when the given character is a blank (space or tab).
pub fn is_blank_char(c: char) -> (r: bool)
    ensures
        r == is_blank(c),
{
    c == ' ' || c == '\t'
}

/// Return true when the given character is a control character.
pub fn is_cntrl_char(c: char) -> (r: bool)
    ensures
        r == is_control(c),
{
    is_control_exec(c)
}

/// Return true when the given character is punctuation.
pub fn is_punct_char(c: char) -> (r: bool)
    ensures
        r == is_punct(c),
{
    let v = c as u32;
    let ascii_punct = (0x21 <= v && v <= 0x2f) || (0x3a <= v && v <= 0x40) || (0x5b <= v && v
        <= 0x60) || (0x7b <= v && v <= 0x7e);
    ascii_punct || (!std_is_alphanumeric(c) && !is_whitespace_exec(c) && !is_control_exec(c))
}

/// Whether `c` is one of the characters of `s`.
pub(crate) fn text_has_char(s: &str, c: char) -> (r: bool)
    ensures
        r == s@.contains(c),
{
    let cs = chars_of(s);
    let mut i: usize = 0;
    while i < cs.len()
        invariant
            cs@ == s@,
            i <= cs@.len(),
            forall|j: int| 0 <= j < i ==> cs@[j] != c,
        decreases cs@.len() - i,
    {
        if cs[i] == c {
            return true;
        }
        i += 1;
    }
    false
}

/// Return true when the given character is word-forming: alphanumeric, or
/// punctuation when that is allowed, or one of `word_chars`.
pub fn is_word_char(c: char, allow_punct: bool, word_chars: &Option<String>) -> (r: bool)
    ensures
        r == is_word(
            c,
            allow_punct,
            match word_chars {
                Some(w) => Some(w@),
                None => None,
            },
        ),
{
    if c == '\0' {
        return false;
    }
    if is_alnum_char(c) {
        return true;
    }
    if allow_punct && is_punct_char(c) {
        return true;
    }
    match word_chars {
        Some(wc) => {
            if byte_len(wc.as_str()) != 0 {
                return text_has_char(wc.as_str(), c);
            }
            proof {
                if wc@.len() > 0 {
                    assert(bytes_len(wc@) > 0) by {
                        lemma_char_len_bounds(wc@[0]);
                    }
                }
            }
            false
        },
        None => false,
    }
}

/// The low byte of `c` (`c as u8`).
pub open spec fn low_byte(c: char) -> u32 {
    ((c as u32) % 256) as u32
}

pub open spec fn control_rep_spec(c: char) -> char {
    if low_byte(c) == 0x7f {
        '?'
    } else if low_byte(c) < 0x20 {
        (low_byte(c) + 64) as char
    } else {
        c
    }
}

/// Return the visible representation of a control character.
pub fn control_rep(c: char) -> (r: char)
    ensures
        r == control_rep_spec(c),
{
    let byte = (c as u32) % 256;
    if byte == 0x7f {
        '?'
    } else if byte < 0x20 {
        let b = (byte + 64) as u8;
        b as char
    } else {
        c
    }
}

/// Return the visible representation of a control character in data context.
pub fn control_mbrep(c: char, is_data: bool) -> (r: char)
    ensures
        r == (if c == '\n' && is_data {
            '@'
        } else if is_control(c) {
            control_rep_spec(c)
        } else {
            c
        }),
{
    if c == '\n' && is_data {
        '@'
    } else if is_control_exec(c) {
        control_rep(c)
    } else {
        c
    }
}

// ---------------------------------------------------------------------------
// Display widths

/// What unicode-width answers for `c`, with 1 for a control code.
pub open spec fn width_or_one(c: char) -> nat {
    if is_control(c) || (c as u32) < 0x7f {
        1
    } else {
        unicode_width(c) as nat
    }
}

/// Columns that `c` occupies when it starts at `column`.
pub open spec fn char_cols(c: char, column: int, tabsize: int) -> int {
    if c == '\t' {
        tabsize - column % tabsize
    } else if is_control(c) {
        2
    } else {
        width_or_one(c) as int
    }
}

/// Column reached after displaying `cs` from column 0.
pub open spec fn cols(cs: Seq<char>, tabsize: int) -> int
    decreases cs.len(),
{
    if cs.len() == 0 {
        0
    } else {
        let w = cols(cs.drop_last(), tabsize);
        w + char_cols(cs.last(), w, tabsize)
    }
}

/// An upper bound of the columns of `cs`: a tab takes at most `tabsize`
/// columns and any other character at most 3.
pub open spec fn cols_bound(cs: Seq<char>, tabsize: int) -> int
    decreases cs.len(),
{
    if cs.len() == 0 {
        0
    } else {
        cols_bound(cs.drop_last(), tabsize) + (if cs.last() == '\t' {
            tabsize
        } else {
            3
        })
    }
}

/// Displaying `cs` neither divides by a zero tab size nor overflows a `usize`.
pub open spec fn cols_ok(cs: Seq<char>, tabsize: int) -> bool {
    &&& (tabsize > 0 || !cs.contains('\t'))
    &&& cols_bound(cs, tabsize) <= usize::MAX
}

pub proof fn lemma_cols_step(cs: Seq<char>, k: int, tabsize: int)
    requires
        0 <= k < cs.len(),
    ensures
        cols(cs.take(k + 1), tabsize) == cols(cs.take(k), tabsize) + char_cols(
            cs[k],
            cols(cs.take(k), tabsize),
            tabsize,
        ),
        cols_bound(cs.take(k + 1), tabsize) == cols_bound(cs.take(k), tabsize) + (if cs[k]
            == '\t' {
            tabsize
        } else {
            3
        }),
{
    assert(cs.take(k + 1).drop_last() =~= cs.take(k));
}

pub proof fn lemma_cols_bound_prefix(cs: Seq<char>, k: int, tabsize: int)
    requires
        0 <= k <= cs.len(),
        tabsize >= 0,
    ensures
        cols_bound(cs.take(k), tabsize) <= cols_bound(cs, tabsize),
    decreases cs.len() - k,
{
    if k < cs.len() {
        lemma_cols_step(cs, k, tabsize);
        lemma_cols_bound_prefix(cs, k + 1, tabsize);
    } else {
        assert(cs.take(k) =~= cs);
    }
}

} // verus!

verus! {

/// Return true when the given character occupies two cells on screen.
pub fn is_doublewidth(c: char) -> (r: bool)
    ensures
        r == (width_or_one(c) == 2),
{
    match table_width(c) {
        Some(w) => w == 2,
        None => false,
    }
}

/// Return true when the given character occupies zero cells on screen.
pub fn is_zerowidth(c: char) -> (r: bool)
    ensures
        r == (width_or_one(c) == 0),
{
    match table_width(c) {
        Some(w) => w == 0,
        None => false,
    }
}

/// Return the display width of a character at `column`, accounting for tabs.
pub fn char_width(c: char, column: usize, tabsize: usize) -> (r: usize)
    requires
        c == '\t' ==> tabsize > 0,
    ensures
        r == char_cols(c, column as int, tabsize as int),
        r <= (if c == '\t' {
            tabsize as int
        } else {
            3
        }),
{
    if c == '\t' {
        tabsize - (column % tabsize)
    } else if is_control_exec(c) {
        2
    } else {
        match table_width(c) {
            Some(w) => w,
            None => 1,
        }
    }
}

/// Advance over a character, returning its display width and adding it to `column`.
pub fn advance_over(c: char, column: &mut usize, tabsize: usize) -> (r: usize)
    requires
        c == '\t' ==> tabsize > 0,
        *old(column) + (if c == '\t' {
            tabsize as int
        } else {
            3
        }) <= usize::MAX,
    ensures
        r == char_cols(c, *old(column) as int, tabsize as int),
        *final(column) == *old(column) + r,
{
    let w = char_width(c, *column, tabsize);
    *column = *column + w;
    w
}

/// `n` is the number of leading characters of `cs` that fit in `max` bytes.
pub open spec fn is_fit_count(cs: Seq<char>, max: int, n: int) -> bool {
    0 <= n <= cs.len() && bpos(cs, n) <= max && (n < cs.len() ==> bpos(cs, n + 1) > max)
}

/// Number of leading characters of `cs` that fit in `max` bytes.
pub open spec fn fit_count(cs: Seq<char>, max: int) -> int {
    choose|n: int| is_fit_count(cs, max, n)
}

pub proof fn lemma_fit_count_unique(cs: Seq<char>, max: int, n: int)
    requires
        is_fit_count(cs, max, n),
    ensures
        fit_count(cs, max) == n,
{
    let m = fit_count(cs, max);
    assert(is_fit_count(cs, max, m));
    if m < n {
        lemma_bpos_mono(cs, m + 1, n);
    } else if n < m {
        lemma_bpos_mono(cs, n + 1, m);
    }
}

proof fn lemma_fit_exists_from(cs: Seq<char>, max: int, k: int)
    requires
        0 <= k <= cs.len(),
        bpos(cs, k) <= max,
    ensures
        exists|n: int| is_fit_count(cs, max, n),
    decreases cs.len() - k,
{
    if k == cs.len() {
        assert(is_fit_count(cs, max, k));
    } else if bpos(cs, k + 1) > max {
        assert(is_fit_count(cs, max, k));
    } else {
        lemma_fit_exists_from(cs, max, k + 1);
    }
}

pub proof fn lemma_fit_count_exists(cs: Seq<char>, max: int)
    requires
        max >= 0,
    ensures
        is_fit_count(cs, max, fit_count(cs, max)),
{
    lemma_bpos_full(cs);
    lemma_fit_exists_from(cs, max, 0);
}

/// At a boundary, the characters that fit are those before it.
pub proof fn lemma_fit_count_boundary(cs: Seq<char>, x: int)
    requires
        is_boundary(cs, x),
    ensures
        fit_count(cs, x) == cidx(cs, x),
{
    lemma_boundary(cs, x);
    let k = cidx(cs, x);
    if k < cs.len() {
        lemma_bpos_step(cs, k);
        lemma_char_len_bounds(cs[k]);
    }
    lemma_fit_count_unique(cs, x, k);
}

/// Return the display width of the characters of `text` that fit in `max_bytes` bytes.
pub fn wideness(text: &str, max_bytes: usize, tabsize: usize) -> (r: usize)
    requires
        cols_ok(text@.take(fit_count(text@, max_bytes as int)), tabsize as int),
    ensures
        r == cols(text@.take(fit_count(text@, max_bytes as int)), tabsize as int),
{
    let _total = byte_len(text);
    let cs = chars_of(text);
    let ghost n = fit_count(text@, max_bytes as int);
    let mut width: usize = 0;
    let mut bytes: usize = 0;
    let mut i: usize = 0;
    let mut done = false;
    proof {
        lemma_bpos_full(cs@);
        assert(cs@.take(0) =~= Seq::<char>::empty());
        lemma_fit_count_exists(cs@, max_bytes as int);
    }
    while i < cs.len() && !done
        invariant
            cs@ == text@,
            bytes_len(cs@) <= usize::MAX,
            i <= cs@.len(),
            bytes == bpos(cs@, i as int),
            bytes <= max_bytes,
            width == cols(cs@.take(i as int), tabsize as int),
            width <= cols_bound(cs@.take(i as int), tabsize as int),
            cols_ok(cs@.take(n), tabsize as int),
            i <= n,
            n == fit_count(text@, max_bytes as int),
            is_fit_count(cs@, max_bytes as int, n),
            done ==> i < cs@.len() && bpos(cs@, i + 1) > max_bytes,
        decreases cs@.len() - i, (if done { 0int } else { 1int }),
    {
        proof {
            lemma_bpos_step(cs@, i as int);
            lemma_bpos_mono(cs@, i + 1, cs@.len() as int);
            lemma_bpos_full(cs@);
        }
        let clen = len_utf8(cs[i]);
        if bytes + clen > max_bytes {
            done = true;
        } else {
            proof {
                if n < i + 1 {
                    lemma_bpos_mono(cs@, n + 1, i + 1);
                }
                lemma_cols_step(cs@, i as int, tabsize as int);
                assert(cs@.take(n).take(i + 1) =~= cs@.take(i + 1));
                lemma_cols_bound_prefix(cs@.take(n), i + 1, tabsize as int);
                if cs@[i as int] == '\t' {
                    assert(cs@.take(n)[i as int] == '\t');
                }
            }
            let w = char_width(cs[i], width, tabsize);
            width = width + w;
            bytes = bytes + clen;
            i += 1;
        }
    }
    proof {
        lemma_fit_count_unique(cs@, max_bytes as int, i as int);
    }
    width
}

} // verus!

verus! {

/// Displaying more characters never takes fewer columns.
pub proof fn lemma_cols_prefix_mono(cs: Seq<char>, a: int, b: int, tabsize: int)
    requires
        0 <= a <= b <= cs.len(),
        tabsize >= 1,
    ensures
        cols(cs.take(a), tabsize) <= cols(cs.take(b), tabsize),
    decreases b - a,
{
    if a < b {
        lemma_cols_prefix_mono(cs, a, b - 1, tabsize);
        assert(cs.take(b).drop_last() =~= cs.take(b - 1));
        let w = cols(cs.take(b - 1), tabsize);
        lemma_cols_nonneg(cs.take(b - 1), tabsize);
        assert(char_cols(cs.take(b).last(), w, tabsize) >= 0);
    }
}

/// No text takes a negative number of columns.
proof fn lemma_cols_nonneg(cs: Seq<char>, tabsize: int)
    requires
        tabsize >= 1,
    ensures
        cols(cs, tabsize) >= 0,
    decreases cs.len(),
{
    if cs.len() > 0 {
        lemma_cols_nonneg(cs.drop_last(), tabsize);
    }
}

/// More bytes never fit fewer characters.
proof fn lemma_fit_count_mono(cs: Seq<char>, m: int, m2: int)
    requires
        0 <= m <= m2,
    ensures
        fit_count(cs, m) <= fit_count(cs, m2),
{
    lemma_fit_count_exists(cs, m);
    lemma_fit_count_exists(cs, m2);
    let n1 = fit_count(cs, m);
    let n2 = fit_count(cs, m2);
    if n1 > n2 {
        lemma_bpos_mono(cs, n2 + 1, n1);
    }
}

/// The columns that `wideness` gives grow with the byte limit, and with a
/// limit past the text they are the columns of the whole text, what
/// `breadth` gives.
pub proof fn law_wideness_grows(t: Seq<char>, m: int, m2: int, tabsize: int)
    requires
        0 <= m <= m2,
        tabsize >= 1,
    ensures
        cols(t.take(fit_count(t, m)), tabsize) <= cols(t.take(fit_count(t, m2)), tabsize),
        m >= bytes_len(t) ==> cols(t.take(fit_count(t, m)), tabsize) == cols(t, tabsize),
{
    lemma_fit_count_exists(t, m);
    lemma_fit_count_exists(t, m2);
    lemma_fit_count_mono(t, m, m2);
    lemma_cols_prefix_mono(t, fit_count(t, m), fit_count(t, m2), tabsize);
    if m >= bytes_len(t) {
        lemma_bpos_full(t);
        lemma_fit_count_unique(t, m, t.len() as int);
        assert(t.take(t.len() as int) =~= t);
    }
}

/// Return the total display width of a string.
pub fn breadth(text: &str, tabsize: usize) -> (r: usize)
    requires
        cols_ok(text@, tabsize as int),
    ensures
        r == cols(text@, tabsize as int),
{
    let cs = chars_of(text);
    let mut width: usize = 0;
    let mut i: usize = 0;
    proof {
        assert(cs@.take(0) =~= Seq::<char>::empty());
    }
    while i < cs.len()
        invariant
            cs@ == text@,
            i <= cs@.len(),
            width == cols(cs@.take(i as int), tabsize as int),
            width <= cols_bound(cs@.take(i as int), tabsize as int),
            cols_ok(cs@, tabsize as int),
        decreases cs@.len() - i,
    {
        proof {
            lemma_cols_step(cs@, i as int, tabsize as int);
            lemma_cols_bound_prefix(cs@, i + 1, tabsize as int);
        }
        let w = char_width(cs[i], width, tabsize);
        width = width + w;
        i += 1;
    }
    proof {
        assert(cs@.take(i as int) =~= cs@);
    }
    width
}

/// Byte index that `actual_x` gives, scanning from the character with index `k`.
pub open spec fn actual_x_from(cs: Seq<char>, column: int, tabsize: int, k: int) -> int
    decreases cs.len() - k,
{
    if k < 0 || k >= cs.len() {
        bytes_len(cs) as int
    } else if cols(cs.take(k + 1), tabsize) > column {
        bpos(cs, k) as int
    } else {
        actual_x_from(cs, column, tabsize, k + 1)
    }
}

/// Return the byte index in text of the character that will not overshoot
/// the given column: the start of the first character whose end lies past
/// `column`, or the end of the text.
pub fn actual_x(text: &str, column: usize, tabsize: usize) -> (r: usize)
    requires
        cols_ok(text@, tabsize as int),
    ensures
        r == actual_x_from(text@, column as int, tabsize as int, 0),
{
    let _total = byte_len(text);
    let cs = chars_of(text);
    let mut width: usize = 0;
    let mut byte_pos: usize = 0;
    let mut i: usize = 0;
    proof {
        assert(cs@.take(0) =~= Seq::<char>::empty());
        lemma_bpos_full(cs@);
    }
    while i < cs.len()
        invariant
            cs@ == text@,
            bytes_len(cs@) <= usize::MAX,
            i <= cs@.len(),
            byte_pos == bpos(cs@, i as int),
            width == cols(cs@.take(i as int), tabsize as int),
            width <= cols_bound(cs@.take(i as int), tabsize as int),
            cols_ok(cs@, tabsize as int),
            actual_x_from(cs@, column as int, tabsize as int, 0) == actual_x_from(
                cs@,
                column as int,
                tabsize as int,
                i as int,
            ),
        decreases cs@.len() - i,
    {
        proof {
            lemma_cols_step(cs@, i as int, tabsize as int);
            lemma_cols_bound_prefix(cs@, i + 1, tabsize as int);
            lemma_bpos_step(cs@, i as int);
            lemma_bpos_mono(cs@, i + 1, cs@.len() as int);
            lemma_bpos_full(cs@);
        }
        let w = char_width(cs[i], width, tabsize);
        width = width + w;
        if width > column {
            return byte_pos;
        }
        byte_pos = byte_pos + len_utf8(cs[i]);
        i += 1;
    }
    proof {
        lemma_bpos_full(cs@);
    }
    byte_pos
}

/// Return true when the string is empty or consists only of blanks (and carriage returns).
pub fn white_string(s: &str) -> (r: bool)
    ensures
        r == (forall|i: int| 0 <= i < s@.len() ==> is_blank(#[trigger] s@[i]) || s@[i] == '\r'),
{
    let cs = chars_of(s);
    let mut i: usize = 0;
    while i < cs.len()
        invariant
            cs@ == s@,
            i <= cs@.len(),
            forall|j: int| 0 <= j < i ==> is_blank(#[trigger] cs@[j]) || cs@[j] == '\r',
        decreases cs@.len() - i,
    {
        let c = cs[i];
        if !(c == ' ' || c == '\t' || c == '\r') {
            return false;
        }
        i += 1;
    }
    true
}

/// Number of blanks at the start of `cs`.
pub open spec fn leading_blanks(cs: Seq<char>) -> nat
    decreases cs.len(),
{
    if cs.len() > 0 && is_blank(cs[0]) {
        1 + leading_blanks(cs.drop_first())
    } else {
        0
    }
}

proof fn lemma_leading_blanks(cs: Seq<char>, i: int)
    requires
        0 <= i <= cs.len(),
        forall|j: int| 0 <= j < i ==> is_blank(#[trigger] cs[j]),
    ensures
        leading_blanks(cs) == i + leading_blanks(cs.skip(i)),
        bpos(cs, i) == i,
    decreases i,
{
    if i == 0 {
        assert(cs.skip(0) =~= cs);
        lemma_bpos_full(cs);
    } else {
        lemma_leading_blanks(cs, i - 1);
        assert(cs.skip(i - 1).drop_first() =~= cs.skip(i));
        assert(cs.skip(i - 1)[0] == cs[i - 1]);
        lemma_bpos_step(cs, i - 1);
    }
}

/// Number of leading blanks of `s`, with its characters.
fn count_leading_blanks(s: &str) -> (r: (Vec<char>, usize))
    ensures
        r.0@ == s@,
        r.1 == leading_blanks(s@),
        r.1 <= s@.len(),
        bpos(s@, r.1 as int) == r.1,
        forall|j: int| 0 <= j < r.1 ==> is_blank(#[trigger] s@[j]),
{
    let cs = chars_of(s);
    let mut i: usize = 0;
    while i < cs.len() && (cs[i] == ' ' || cs[i] == '\t')
        invariant
            cs@ == s@,
            i <= cs@.len(),
            forall|j: int| 0 <= j < i ==> is_blank(#[trigger] cs@[j]),
        decreases cs@.len() - i,
    {
        i += 1;
    }
    proof {
        lemma_leading_blanks(cs@, i as int);
        if i < cs@.len() {
            assert(cs@.skip(i as int)[0] == cs@[i as int]);
        } else {
            assert(cs@.skip(i as int).len() == 0);
        }
    }
    (cs, i)
}

/// The part of `s` from the boundary `x` on.
pub fn suffix_str(s: &str, x: usize) -> (r: &str)
    requires
        is_boundary(s@, x as int),
    ensures
        r@ == s@.skip(cidx(s@, x as int)),
{
    broadcast use vstd::utf8::encode_utf8_decode_utf8;

    proof {
        lemma_boundary(s@, x as int);
        let k = cidx(s@, x as int);
        crate::textseq::lemma_utf8_boundary(s@, k);
    }
    let (_a, b) = s.split_at(x);
    proof {
        let k = cidx(s@, x as int);
        assert(s@ =~= s@.take(k) + s@.skip(k));
        crate::textseq::lemma_encode_concat(s@.take(k), s@.skip(k));
        crate::textseq::lemma_encode_len(s@.take(k));
        crate::textseq::lemma_encode_len(s@);
        assert(vstd::utf8::encode_utf8(b@) =~= vstd::utf8::encode_utf8(s@.skip(k)));
        assert(vstd::utf8::decode_utf8(vstd::utf8::encode_utf8(b@)) == b@);
        assert(vstd::utf8::decode_utf8(vstd::utf8::encode_utf8(s@.skip(k))) == s@.skip(k));
    }
    b
}

/// Strip leading blanks from a string.
pub fn strip_leading_blanks(s: &str) -> (r: &str)
    ensures
        r@ == s@.skip(leading_blanks(s@) as int),
{
    let (_cs, n) = count_leading_blanks(s);
    proof {
        lemma_cidx(s@, n as int);
    }
    suffix_str(s, n)
}

/// Return the length of the indentation on the given line.
pub fn indent_length(line: &str) -> (r: usize)
    ensures
        r == leading_blanks(line@),
        bpos(line@, r as int) == r,
        forall|j: int| 0 <= j < r ==> is_blank(#[trigger] line@[j]),
        r <= line@.len(),
{
    let (_cs, n) = count_leading_blanks(line);
    n
}

} // verus!

verus! {

/// The boundary of `t` after the boundary `x`.
pub open spec fn next_pos(t: Seq<char>, x: int) -> int {
    bpos(t, cidx(t, x) + 1) as int
}

/// The boundary of `t` before the boundary `x`.
pub open spec fn prev_pos(t: Seq<char>, x: int) -> int {
    bpos(t, cidx(t, x) - 1) as int
}

/// A boundary `a` with `bpos(t, k) <= a < bpos(t, k + 1)` is that of character `k`.
proof fn lemma_boundary_index(t: Seq<char>, a: int, k: int)
    requires
        is_boundary(t, a),
        0 <= k < t.len(),
        bpos(t, k) <= a < bpos(t, k + 1),
    ensures
        cidx(t, a) == k,
{
    lemma_boundary(t, a);
    let ka = cidx(t, a);
    if ka < k {
        lemma_bpos_mono(t, ka, k);
    } else if ka > k {
        lemma_bpos_mono(t, k + 1, ka);
    }
}

/// Stepping right from a boundary before the end and then left gives it
/// back, and stepping left from a boundary after the start and then right
/// gives it back.
pub proof fn law_step_left_right(t: Seq<char>, x: int)
    requires
        is_boundary(t, x),
    ensures
        x < bytes_len(t) ==> is_boundary(t, next_pos(t, x)) && prev_pos(t, next_pos(t, x)) == x,
        x > 0 ==> is_boundary(t, prev_pos(t, x)) && next_pos(t, prev_pos(t, x)) == x,
{
    lemma_boundary(t, x);
    lemma_bpos_full(t);
    let k = cidx(t, x);
    if x < bytes_len(t) {
        assert(k < t.len());
        lemma_cidx(t, k + 1);
    }
    if x > 0 {
        assert(k > 0);
        lemma_cidx(t, k - 1);
    }
}

/// Step left by one character in the string, returning the new byte position:
/// the last boundary before `pos` (0 when `pos` is 0).
pub fn step_left(text: &str, pos: usize) -> (r: usize)
    ensures
        pos == 0 ==> r == 0,
        pos > 0 ==> is_boundary(text@, r as int) && r < pos && (cidx(text@, r as int)
            < text@.len() ==> bpos(text@, cidx(text@, r as int) + 1) >= pos),
        pos > 0 && is_boundary(text@, pos as int) ==> r == prev_pos(text@, pos as int),
{
    if pos == 0 {
        return 0;
    }
    let _n = byte_len(text);
    let cs = chars_of(text);
    let mut acc: usize = 0;
    let mut k: usize = 0;
    proof {
        lemma_bpos_full(cs@);
    }
    while k < cs.len() && len_utf8(cs[k]) < pos - acc
        invariant
            cs@ == text@,
            bytes_len(cs@) <= usize::MAX,
            k <= cs@.len(),
            acc == bpos(cs@, k as int),
            acc < pos,
        decreases cs@.len() - k,
    {
        proof {
            lemma_bpos_step(cs@, k as int);
            lemma_bpos_mono(cs@, k + 1, cs@.len() as int);
            lemma_bpos_full(cs@);
        }
        acc = acc + len_utf8(cs[k]);
        k += 1;
    }
    proof {
        lemma_cidx(cs@, k as int);
        if k < cs@.len() {
            lemma_bpos_step(cs@, k as int);
        }
        if is_boundary(cs@, pos as int) {
            lemma_boundary(cs@, pos as int);
            lemma_bpos_full(cs@);
            assert(k < cs@.len());
            lemma_bpos_step(cs@, k as int);
            if pos < bpos(cs@, k + 1) {
                lemma_boundary_index(cs@, pos as int, k as int);
                assert(false);
            }
            assert(pos == bpos(cs@, k + 1));
            lemma_cidx(cs@, k + 1);
        }
    }
    acc
}

/// Step right by one character in the string, returning the new byte position:
/// the first boundary after `pos`, or the end of the text.
pub fn step_right(text: &str, pos: usize) -> (r: usize)
    ensures
        pos >= bytes_len(text@) ==> r == bytes_len(text@),
        pos < bytes_len(text@) ==> is_boundary(text@, r as int) && r > pos && (cidx(
            text@,
            r as int,
        ) > 0 ==> bpos(text@, cidx(text@, r as int) - 1) <= pos),
        pos < bytes_len(text@) && is_boundary(text@, pos as int) ==> r == next_pos(text@, pos as int),
{
    let len = byte_len(text);
    if pos >= len {
        return len;
    }
    let cs = chars_of(text);
    let mut acc: usize = 0;
    let mut k: usize = 0;
    proof {
        lemma_bpos_full(cs@);
    }
    let cl = cs.len();
    while acc <= pos
        invariant
            cl == cs@.len(),
            cs@ == text@,
            bytes_len(cs@) == len,
            pos < len,
            k <= cs@.len(),
            acc == bpos(cs@, k as int),
            k > 0 ==> bpos(cs@, k - 1) <= pos,
        decreases cs@.len() - k,
    {
        proof {
            if k == cs@.len() {
                lemma_bpos_full(cs@);
            }
            lemma_bpos_step(cs@, k as int);
            lemma_bpos_mono(cs@, k + 1, cs@.len() as int);
            lemma_bpos_full(cs@);
        }
        acc = acc + len_utf8(cs[k]);
        k += 1;
    }
    proof {
        lemma_cidx(cs@, k as int);
        if is_boundary(cs@, pos as int) {
            lemma_boundary_index(cs@, pos as int, k - 1);
        }
    }
    acc
}

/// The first match of `n` in `h` at or after the boundary `from`, as a byte offset.
pub open spec fn first_match_at(h: Seq<char>, n: Seq<char>, lo: int, hi: int, p: int) -> bool {
    is_boundary(h, p) && is_first_match(h, n, lo, hi, cidx(h, p))
}

pub open spec fn last_match_at(h: Seq<char>, n: Seq<char>, lo: int, hi: int, p: int) -> bool {
    is_boundary(h, p) && is_last_match(h, n, lo, hi, cidx(h, p))
}

/// Byte offset of the first occurrence of `n` in `h` between the character indices `lo` and `hi`.
pub(crate) fn find_between(h: &Vec<char>, n: &Vec<char>, lo: usize, hi: usize) -> (r: Option<
    usize,
>)
    requires
        hi <= h@.len(),
        bytes_len(h@) <= usize::MAX,
    ensures
        r matches Some(p) ==> first_match_at(h@, n@, lo as int, hi as int, p as int),
        r is None ==> no_match(h@, n@, lo as int, hi as int),
{
    match crate::textseq::first_match(h, n, lo, hi) {
        Some(k) => {
            let p = crate::textseq::offset_of(h, k);
            proof {
                lemma_cidx(h@, k as int);
            }
            Some(p)
        },
        None => None,
    }
}

/// Byte offset of the last occurrence of `n` in `h` between the character indices `lo` and `hi`.
pub(crate) fn rfind_between(h: &Vec<char>, n: &Vec<char>, lo: usize, hi: usize) -> (r: Option<
    usize,
>)
    requires
        hi <= h@.len(),
        bytes_len(h@) <= usize::MAX,
    ensures
        r matches Some(p) ==> last_match_at(h@, n@, lo as int, hi as int, p as int),
        r is None ==> no_match(h@, n@, lo as int, hi as int),
{
    match crate::textseq::last_match(h, n, lo, hi) {
        Some(k) => {
            let p = crate::textseq::offset_of(h, k);
            proof {
                lemma_cidx(h@, k as int);
            }
            Some(p)
        },
        None => None,
    }
}

/// Case-insensitive search for needle in haystack: the first match in the
/// lowercased haystack of the lowercased needle, as a byte offset into the
/// lowercased haystack.
pub fn strcasestr(haystack: &str, needle: &str) -> (r: Option<usize>)
    ensures
        r matches Some(p) ==> first_match_at(
            lowercase(haystack@),
            lowercase(needle@),
            0,
            lowercase(haystack@).len() as int,
            p as int,
        ),
        r is None ==> no_match(
            lowercase(haystack@),
            lowercase(needle@),
            0,
            lowercase(haystack@).len() as int,
        ),
{
    let hl = str_to_lowercase(haystack);
    let nl = str_to_lowercase(needle);
    let _b = byte_len(hl.as_str());
    let h = chars_of(hl.as_str());
    let n = chars_of(nl.as_str());
    find_between(&h, &n, 0, h.len())
}

/// The end of the prefix that the reverse searches look at.
pub open spec fn prefix_end(h: Seq<char>, from: int) -> int {
    if from < bytes_len(h) {
        from
    } else {
        bytes_len(h) as int
    }
}

/// Reverse search for needle in haystack, before byte position `from`: the
/// last occurrence that lies wholly in `haystack[..from]`.
pub fn revstrstr(haystack: &str, needle: &str, from: usize) -> (r: Option<usize>)
    requires
        is_boundary(haystack@, prefix_end(haystack@, from as int)),
    ensures
        r matches Some(p) ==> last_match_at(
            haystack@,
            needle@,
            0,
            cidx(haystack@, prefix_end(haystack@, from as int)),
            p as int,
        ),
        r is None ==> no_match(
            haystack@,
            needle@,
            0,
            cidx(haystack@, prefix_end(haystack@, from as int)),
        ),
{
    let len = byte_len(haystack);
    let end = if from < len {
        from
    } else {
        len
    };
    let (h, k) = crate::textseq::locate(haystack, end);
    let k = k.unwrap();
    let n = chars_of(needle);
    rfind_between(&h, &n, 0, k)
}

/// Reverse case-insensitive search: the last match of the lowercased needle in
/// the lowercased `haystack[..from]`, as a byte offset into the latter.
pub fn rev_strcasestr(haystack: &str, needle: &str, from: usize) -> (r: Option<usize>)
    requires
        is_boundary(haystack@, prefix_end(haystack@, from as int)),
    ensures
        ({
            let lh = lowercase(
                haystack@.take(cidx(haystack@, prefix_end(haystack@, from as int))),
            );
            &&& r matches Some(p) ==> last_match_at(lh, lowercase(needle@), 0, lh.len() as int, p as int)
            &&& r is None ==> no_match(lh, lowercase(needle@), 0, lh.len() as int)
        }),
{
    let len = byte_len(haystack);
    let end = if from < len {
        from
    } else {
        len
    };
    proof {
        crate::textseq::lemma_bpos_full(haystack@);
        lemma_cidx(haystack@, 0);
    }
    let prefix = crate::textseq::slice_text(haystack, 0, end);
    proof {
        assert(prefix@ =~= haystack@.take(cidx(haystack@, end as int)));
    }
    let hl = str_to_lowercase(prefix.as_str());
    let nl = str_to_lowercase(needle);
    let _b = byte_len(hl.as_str());
    let h = chars_of(hl.as_str());
    let n = chars_of(nl.as_str());
    rfind_between(&h, &n, 0, h.len())
}

} // verus!

verus! {

/// The part of `s` before the boundary `x`.
pub fn prefix_str(s: &str, x: usize) -> (r: &str)
    requires
        is_boundary(s@, x as int),
    ensures
        r@ == s@.take(cidx(s@, x as int)),
{
    broadcast use vstd::utf8::encode_utf8_decode_utf8;

    proof {
        lemma_boundary(s@, x as int);
        let k = cidx(s@, x as int);
        crate::textseq::lemma_utf8_boundary(s@, k);
    }
    let (a, _b) = s.split_at(x);
    proof {
        let k = cidx(s@, x as int);
        assert(s@ =~= s@.take(k) + s@.skip(k));
        crate::textseq::lemma_encode_concat(s@.take(k), s@.skip(k));
        crate::textseq::lemma_encode_len(s@.take(k));
        assert(vstd::utf8::encode_utf8(a@) =~= vstd::utf8::encode_utf8(s@.take(k)));
        assert(vstd::utf8::decode_utf8(vstd::utf8::encode_utf8(a@)) == a@);
        assert(vstd::utf8::decode_utf8(vstd::utf8::encode_utf8(s@.take(k))) == s@.take(k));
    }
    a
}

/// The part of `s` between the character indices `a` and `b`.
pub fn sub_str<'a>(s: &'a str, cs: &Vec<char>, a: usize, b: usize) -> (r: &'a str)
    requires
        cs@ == s@,
        a <= b <= s@.len(),
        bytes_len(s@) <= usize::MAX,
    ensures
        r@ == s@.subrange(a as int, b as int),
{
    let xb = crate::textseq::offset_of(cs, b);
    proof {
        lemma_cidx(s@, b as int);
    }
    let p = prefix_str(s, xb);
    proof {
        assert(s@.take(b as int).take(a as int) =~= s@.take(a as int));
        lemma_bpos_mono(s@, a as int, b as int);
        lemma_bpos_mono(s@, b as int, s@.len() as int);
        lemma_bpos_full(s@);
    }
    let xa = crate::textseq::offset_of(cs, a);
    proof {
        assert(bpos(p@, a as int) == bpos(s@, a as int));
        lemma_cidx(p@, a as int);
    }
    let r = suffix_str(p, xa);
    assert(r@ =~= s@.subrange(a as int, b as int));
    r
}

} // verus!

verus! {

/// `k` is the index of the last character that starts before `pos`.
pub open spec fn is_left_index(cs: Seq<char>, pos: int, k: int) -> bool {
    0 <= k <= cs.len() && bpos(cs, k) < pos && (k < cs.len() ==> bpos(cs, k + 1) >= pos)
}

/// Index of the boundary that `step_left` reaches from `pos > 0`.
pub open spec fn left_index(cs: Seq<char>, pos: int) -> int {
    choose|k: int| is_left_index(cs, pos, k)
}

/// `k` is the index of the first boundary after `pos`.
pub open spec fn is_right_index(cs: Seq<char>, pos: int, k: int) -> bool {
    0 <= k <= cs.len() && bpos(cs, k) > pos && (k > 0 ==> bpos(cs, k - 1) <= pos)
}

/// Index of the boundary that `step_right` reaches from `pos` before the end.
pub open spec fn right_index(cs: Seq<char>, pos: int) -> int {
    choose|k: int| is_right_index(cs, pos, k)
}

pub proof fn lemma_left_index(cs: Seq<char>, pos: int, k: int)
    requires
        is_left_index(cs, pos, k),
    ensures
        left_index(cs, pos) == k,
{
    let j = left_index(cs, pos);
    assert(is_left_index(cs, pos, j));
    if j < k {
        lemma_bpos_mono(cs, j + 1, k);
    } else if k < j {
        lemma_bpos_mono(cs, k + 1, j);
    }
}

pub proof fn lemma_right_index(cs: Seq<char>, pos: int, k: int)
    requires
        is_right_index(cs, pos, k),
    ensures
        right_index(cs, pos) == k,
{
    let j = right_index(cs, pos);
    assert(is_right_index(cs, pos, j));
    if j < k {
        lemma_bpos_mono(cs, j, k - 1);
    } else if k < j {
        lemma_bpos_mono(cs, k, j - 1);
    }
}

/// `step_left` from `pos > 0`, as a character index.
pub fn step_left_index(text: &str, cs: &Vec<char>, pos: usize) -> (k: usize)
    requires
        cs@ == text@,
        pos > 0,
    ensures
        k == left_index(text@, pos as int),
        is_left_index(text@, pos as int, k as int),
{
    let x = step_left(text, pos);
    let _n = byte_len(text);
    let k = crate::textseq::index_at(cs, x).unwrap();
    proof {
        lemma_left_index(text@, pos as int, k as int);
    }
    k
}

/// `step_right` from `pos` before the end, as a character index.
pub fn step_right_index(text: &str, cs: &Vec<char>, pos: usize) -> (k: usize)
    requires
        cs@ == text@,
        pos < bytes_len(text@),
    ensures
        k == right_index(text@, pos as int),
        is_right_index(text@, pos as int, k as int),
{
    let x = step_right(text, pos);
    let _n = byte_len(text);
    let k = crate::textseq::index_at(cs, x).unwrap();
    proof {
        lemma_right_index(text@, pos as int, k as int);
    }
    k
}

} // verus!
