//! Byte positions in UTF-8 text, seen through the characters of the text.
//!
//! Lines are held as `String`s, whose view is their sequence of `char`s, while
//! the cursor and every other position in a line is a byte offset into the
//! UTF-8 encoding of that line.  This module relates the two.
use vstd::prelude::*;
use vstd::utf8::*;

verus! {

/// Number of bytes in the UTF-8 encoding of `c`.
pub open spec fn char_len(c: char) -> nat {
    let v = c as u32;
    if v < 0x80 {
        1
    } else if v < 0x800 {
        2
    } else if v < 0x10000 {
        3
    } else {
        4
    }
}

/// Number of bytes in the UTF-8 encoding of `cs`.
pub open spec fn bytes_len(cs: Seq<char>) -> nat
    decreases cs.len(),
{
    if cs.len() == 0 {
        0
    } else {
        char_len(cs[0]) + bytes_len(cs.drop_first())
    }
}

/// A text has no bytes exactly when it has no characters.
pub proof fn lemma_bytes_len_zero(cs: Seq<char>)
    ensures
        (bytes_len(cs) == 0) == (cs.len() == 0),
{
}

/// Byte offset at which the character with index `k` of `cs` starts.
pub open spec fn bpos(cs: Seq<char>, k: int) -> nat {
    bytes_len(cs.take(k))
}

/// `x` is the byte offset of a character of `cs`, or the length of `cs` in bytes.
pub open spec fn is_boundary(cs: Seq<char>, x: int) -> bool {
    exists|k: int| 0 <= k <= cs.len() && #[trigger] bpos(cs, k) == x
}

/// Index of the character that starts at byte offset `x` (or `cs.len()` at the end).
pub open spec fn cidx(cs: Seq<char>, x: int) -> int {
    choose|k: int| 0 <= k <= cs.len() && #[trigger] bpos(cs, k) == x
}

pub proof fn lemma_char_len_bounds(c: char)
    ensures
        1 <= char_len(c) <= 4,
{
}

pub proof fn lemma_bytes_len_push(cs: Seq<char>, c: char)
    ensures
        bytes_len(cs.push(c)) == bytes_len(cs) + char_len(c),
    decreases cs.len(),
{
    if cs.len() > 0 {
        assert(cs.push(c).drop_first() =~= cs.drop_first().push(c));
        lemma_bytes_len_push(cs.drop_first(), c);
        assert(cs.push(c)[0] == cs[0]);
    } else {
        assert(cs.push(c).drop_first() =~= Seq::<char>::empty());
        assert(bytes_len(Seq::<char>::empty()) == 0);
    }
}

pub proof fn lemma_bytes_len_concat(a: Seq<char>, b: Seq<char>)
    ensures
        bytes_len(a + b) == bytes_len(a) + bytes_len(b),
    decreases a.len(),
{
    if a.len() == 0 {
        assert(a + b =~= b);
    } else {
        assert((a + b).drop_first() =~= a.drop_first() + b);
        assert((a + b)[0] == a[0]);
        lemma_bytes_len_concat(a.drop_first(), b);
    }
}

/// The offset of the character after index `k` is the offset of `k` plus its length.
pub proof fn lemma_bpos_step(cs: Seq<char>, k: int)
    requires
        0 <= k < cs.len(),
    ensures
        bpos(cs, k + 1) == bpos(cs, k) + char_len(cs[k]),
{
    assert(cs.take(k + 1) =~= cs.take(k).push(cs[k]));
    lemma_bytes_len_push(cs.take(k), cs[k]);
}

/// Offsets grow strictly with the character index.
pub proof fn lemma_bpos_mono(cs: Seq<char>, i: int, j: int)
    requires
        0 <= i <= j <= cs.len(),
    ensures
        bpos(cs, i) + (j - i) <= bpos(cs, j),
    decreases j - i,
{
    if i < j {
        lemma_bpos_mono(cs, i, j - 1);
        lemma_bpos_step(cs, j - 1);
    }
}

pub proof fn lemma_bpos_full(cs: Seq<char>)
    ensures
        bpos(cs, cs.len() as int) == bytes_len(cs),
        bpos(cs, 0) == 0,
{
    assert(cs.take(cs.len() as int) =~= cs);
    assert(cs.take(0) =~= Seq::<char>::empty());
}

/// A boundary has exactly one character index, `cidx`.
pub proof fn lemma_cidx(cs: Seq<char>, k: int)
    requires
        0 <= k <= cs.len(),
    ensures
        is_boundary(cs, bpos(cs, k) as int),
        cidx(cs, bpos(cs, k) as int) == k,
{
    let x = bpos(cs, k) as int;
    assert(bpos(cs, k) == x);
    let j = cidx(cs, x);
    if j < k {
        lemma_bpos_mono(cs, j, k);
    } else if k < j {
        lemma_bpos_mono(cs, k, j);
    }
}

/// What a boundary's index gives back.
pub proof fn lemma_boundary(cs: Seq<char>, x: int)
    requires
        is_boundary(cs, x),
    ensures
        0 <= cidx(cs, x) <= cs.len(),
        bpos(cs, cidx(cs, x)) == x,
        0 <= x <= bytes_len(cs),
{
    let k = cidx(cs, x);
    lemma_bpos_mono(cs, k, cs.len() as int);
    lemma_bpos_full(cs);
}

/// Offsets in `a + b` are offsets in `a`, then offsets in `b` shifted by the length of `a`.
pub proof fn lemma_bpos_concat(a: Seq<char>, b: Seq<char>, k: int)
    requires
        0 <= k <= a.len() + b.len(),
    ensures
        k <= a.len() ==> bpos(a + b, k) == bpos(a, k),
        k >= a.len() ==> bpos(a + b, k) == bytes_len(a) + bpos(b, k - a.len()),
{
    if k <= a.len() {
        assert((a + b).take(k) =~= a.take(k));
        if k == a.len() {
            assert(a.take(k) =~= a);
            assert(b.take(0) =~= Seq::<char>::empty());
            assert(bytes_len(Seq::<char>::empty()) == 0);
        }
    } else {
        assert((a + b).take(k) =~= a + b.take(k - a.len()));
        lemma_bytes_len_concat(a, b.take(k - a.len()));
    }
}

/// The UTF-8 encoding has `bytes_len` bytes.
pub proof fn lemma_encode_len(cs: Seq<char>)
    ensures
        encode_utf8(cs).len() == bytes_len(cs),
    decreases cs.len(),
{
    if cs.len() > 0 {
        lemma_encode_len(cs.drop_first());
        char_is_scalar(cs[0]);
    }
}

pub proof fn lemma_encode_concat(a: Seq<char>, b: Seq<char>)
    ensures
        encode_utf8(a + b) == encode_utf8(a) + encode_utf8(b),
    decreases a.len(),
{
    if a.len() == 0 {
        assert(a + b =~= b);
        assert(encode_utf8(a) =~= Seq::<u8>::empty());
        assert(encode_utf8(a) + encode_utf8(b) =~= encode_utf8(b));
    } else {
        assert((a + b).drop_first() =~= a.drop_first() + b);
        assert((a + b)[0] == a[0]);
        lemma_encode_concat(a.drop_first(), b);
        let e0 = encode_scalar(a[0] as u32);
        assert(encode_utf8(a + b) =~= e0 + encode_utf8(a.drop_first() + b));
        assert(e0 + (encode_utf8(a.drop_first()) + encode_utf8(b)) =~= (e0 + encode_utf8(
            a.drop_first(),
        )) + encode_utf8(b));
    }
}

/// Every character offset is a boundary of the UTF-8 encoding as `str` sees it.
pub proof fn lemma_utf8_boundary(cs: Seq<char>, k: int)
    requires
        0 <= k <= cs.len(),
    ensures
        is_char_boundary(encode_utf8(cs), bpos(cs, k) as int),
    decreases k,
{
    broadcast use encode_utf8_valid_utf8;

    if k == 0 {
        assert(cs.take(0) =~= Seq::<char>::empty());
    } else {
        let bytes = encode_utf8(cs);
        encode_utf8_first_scalar(cs);
        assert(pop_first_scalar(bytes) =~= encode_utf8(cs.drop_first()));
        char_is_scalar(cs[0]);
        let rest = cs.drop_first();
        lemma_utf8_boundary(rest, k - 1);
        assert(cs.take(k) =~= seq![cs[0]] + rest.take(k - 1));
        lemma_bytes_len_concat(seq![cs[0]], rest.take(k - 1));
        assert(seq![cs[0]].drop_first() =~= Seq::<char>::empty());
        assert(bytes_len(Seq::<char>::empty()) == 0);
        lemma_encode_len(cs);
        lemma_bpos_mono(cs, k, cs.len() as int);
        lemma_bpos_full(cs);
    }
}

/// Number of bytes in the UTF-8 encoding of `c`.
pub fn len_utf8(c: char) -> (n: usize)
    ensures
        n == char_len(c),
{
    let v = c as u32;
    if v < 0x80 {
        1
    } else if v < 0x800 {
        2
    } else if v < 0x10000 {
        3
    } else {
        4
    }
}

/// Length of `s` in bytes (`str::len`): the length of its UTF-8 encoding,
/// which, the text being in memory, is at most `isize::MAX` (no object in
/// Rust is larger).
#[verifier::external_body]
pub fn byte_len(s: &str) -> (n: usize)
    ensures
        n == bytes_len(s@),
        n <= isize::MAX,
{
    s.len()
}

/// The characters of `s`, in order.
pub fn chars_of(s: &str) -> (v: Vec<char>)
    ensures
        v@ == s@,
{
    let mut v: Vec<char> = Vec::new();
    for c in it: s.chars()
        invariant
            v@ == it.seq().take(it.index()),
    {
        v.push(c);
    }
    v
}

/// Appends `c` to `s` (`String::push`).
#[verifier::external_body]
pub fn push_char(s: &mut String, c: char)
    ensures
        final(s)@ == old(s)@.push(c),
{
    s.push(c)
}

/// The text made of `cs[lo..hi]`.
pub fn string_of(cs: &Vec<char>, lo: usize, hi: usize) -> (r: String)
    requires
        lo <= hi <= cs@.len(),
    ensures
        r@ == cs@.subrange(lo as int, hi as int),
{
    let mut r = String::new();
    let mut i = lo;
    while i < hi
        invariant
            lo <= i <= hi <= cs@.len(),
            r@ == cs@.subrange(lo as int, i as int),
        decreases hi - i,
    {
        push_char(&mut r, cs[i]);
        i += 1;
        assert(r@ =~= cs@.subrange(lo as int, i as int));
    }
    r
}

/// Appends the characters of `t` to `s`.
pub fn append_str(s: &mut String, t: &str)
    ensures
        final(s)@ == old(s)@ + t@,
{
    let ghost s0 = s@;
    for c in it: t.chars()
        invariant
            s@ == s0 + it.seq().take(it.index()),
    {
        push_char(s, c);
        assert(s@ =~= s0 + it.seq().take(it.index() + 1));
    }
}

} // verus!

verus! {

/// `n` occurs in `h` starting at character index `k`.
pub open spec fn occurs_at(h: Seq<char>, n: Seq<char>, k: int) -> bool {
    0 <= k && k + n.len() <= h.len() && h.subrange(k, k + n.len()) == n
}

/// `k` is the first index in `lo..` at which `n` occurs in `h[..hi]`.
pub open spec fn is_first_match(h: Seq<char>, n: Seq<char>, lo: int, hi: int, k: int) -> bool {
    &&& lo <= k
    &&& k + n.len() <= hi
    &&& occurs_at(h, n, k)
    &&& forall|j: int| lo <= j < k ==> !occurs_at(h, n, j)
}

/// `k` is the last index in `lo..` at which `n` occurs in `h[..hi]`.
pub open spec fn is_last_match(h: Seq<char>, n: Seq<char>, lo: int, hi: int, k: int) -> bool {
    &&& lo <= k
    &&& k + n.len() <= hi
    &&& occurs_at(h, n, k)
    &&& forall|j: int| k < j && j + n.len() <= hi ==> !occurs_at(h, n, j)
}

/// `n` does not occur in `h[lo..hi]`.
pub open spec fn no_match(h: Seq<char>, n: Seq<char>, lo: int, hi: int) -> bool {
    forall|j: int| lo <= j && j + n.len() <= hi ==> !occurs_at(h, n, j)
}

/// Whether `n` occurs in `h` at index `k` (`k + n.len() <= h.len()`).
pub fn matches_at(h: &Vec<char>, n: &Vec<char>, k: usize) -> (r: bool)
    requires
        k + n@.len() <= h@.len(),
    ensures
        r == occurs_at(h@, n@, k as int),
{
    let hl = h.len();
    let mut i: usize = 0;
    while i < n.len()
        invariant
            hl == h@.len(),
            k + n@.len() <= h@.len(),
            0 <= i <= n@.len(),
            forall|j: int| 0 <= j < i ==> h@[k + j] == n@[j],
        decreases n@.len() - i,
    {
        if h[k + i] != n[i] {
            assert(h@.subrange(k as int, k + n@.len())[i as int] != n@[i as int]);
            return false;
        }
        i += 1;
    }
    assert(h@.subrange(k as int, k + n@.len()) =~= n@);
    true
}

/// First index in `lo..` at which `n` occurs in `h[..hi]`.
pub fn first_match(h: &Vec<char>, n: &Vec<char>, lo: usize, hi: usize) -> (r: Option<usize>)
    requires
        hi <= h@.len(),
    ensures
        r matches Some(k) ==> is_first_match(h@, n@, lo as int, hi as int, k as int),
        r is None ==> no_match(h@, n@, lo as int, hi as int),
{
    if n.len() > hi {
        return None;
    }
    let last = hi - n.len();
    let mut k = lo;
    while k <= last
        invariant
            hi <= h@.len(),
            last + n@.len() == hi,
            lo <= k,
            forall|j: int| lo <= j < k ==> !occurs_at(h@, n@, j),
        decreases last + 1 - k,
    {
        if matches_at(h, n, k) {
            return Some(k);
        }
        if k == last {
            return None;
        }
        k += 1;
    }
    None
}

/// Last index in `lo..` at which `n` occurs in `h[..hi]`.
pub fn last_match(h: &Vec<char>, n: &Vec<char>, lo: usize, hi: usize) -> (r: Option<usize>)
    requires
        hi <= h@.len(),
    ensures
        r matches Some(k) ==> is_last_match(h@, n@, lo as int, hi as int, k as int),
        r is None ==> no_match(h@, n@, lo as int, hi as int),
{
    if n.len() > hi {
        return None;
    }
    let mut k = hi - n.len();
    if k < lo {
        return None;
    }
    loop
        invariant
            hi <= h@.len(),
            n@.len() <= hi,
            lo <= k <= hi - n@.len(),
            forall|j: int| k < j && j + n@.len() <= hi ==> !occurs_at(h@, n@, j),
        decreases k,
    {
        if matches_at(h, n, k) {
            return Some(k);
        }
        if k == lo {
            return None;
        }
        k -= 1;
    }
}

/// Byte offset of the character with index `k` of `cs`.
pub fn offset_of(cs: &Vec<char>, k: usize) -> (x: usize)
    requires
        k <= cs@.len(),
        bytes_len(cs@) <= usize::MAX,
    ensures
        x == bpos(cs@, k as int),
{
    let mut x: usize = 0;
    let mut i: usize = 0;
    proof {
        lemma_bpos_full(cs@);
    }
    while i < k
        invariant
            i <= k <= cs@.len(),
            bytes_len(cs@) <= usize::MAX,
            x == bpos(cs@, i as int),
        decreases k - i,
    {
        proof {
            lemma_bpos_step(cs@, i as int);
            lemma_bpos_mono(cs@, i + 1, cs@.len() as int);
            lemma_bpos_full(cs@);
        }
        x = x + len_utf8(cs[i]);
        i += 1;
    }
    x
}

/// Index of the character that starts at byte offset `x`, if `x` is a boundary.
pub fn index_at(cs: &Vec<char>, x: usize) -> (r: Option<usize>)
    requires
        bytes_len(cs@) <= usize::MAX,
    ensures
        r matches Some(k) ==> k <= cs@.len() && bpos(cs@, k as int) == x && cidx(cs@, x as int)
            == k && is_boundary(cs@, x as int),
        r is None ==> !is_boundary(cs@, x as int),
{
    let mut acc: usize = 0;
    let mut k: usize = 0;
    proof {
        lemma_bpos_full(cs@);
    }
    while acc < x && k < cs.len()
        invariant
            k <= cs@.len(),
            bytes_len(cs@) <= usize::MAX,
            acc == bpos(cs@, k as int),
            k > 0 ==> bpos(cs@, k - 1) < x,
        decreases cs@.len() - k,
    {
        proof {
            lemma_bpos_step(cs@, k as int);
            lemma_bpos_mono(cs@, k + 1, cs@.len() as int);
            lemma_bpos_full(cs@);
        }
        acc = acc + len_utf8(cs[k]);
        k += 1;
    }
    if acc == x {
        proof {
            lemma_cidx(cs@, k as int);
        }
        Some(k)
    } else {
        proof {
            if is_boundary(cs@, x as int) {
                let j = cidx(cs@, x as int);
                if j < k {
                    if j < k - 1 {
                        lemma_bpos_mono(cs@, j, k - 1);
                    }
                } else if j > k {
                    lemma_bpos_mono(cs@, k as int, j);
                } else {
                }
            }
        }
        None
    }
}

/// Byte offset of the boundary `x` of `s`, as a character index, with the characters of `s`.
pub fn locate(s: &str, x: usize) -> (r: (Vec<char>, Option<usize>))
    ensures
        r.0@ == s@,
        bytes_len(s@) <= usize::MAX,
        r.1 matches Some(k) ==> k <= s@.len() && bpos(s@, k as int) == x && cidx(s@, x as int)
            == k && is_boundary(s@, x as int),
        r.1 is None ==> !is_boundary(s@, x as int),
{
    let _n = byte_len(s);
    let cs = chars_of(s);
    let k = index_at(&cs, x);
    (cs, k)
}

/// The characters of `s` between the boundaries `a` and `b`.
pub fn slice_text(s: &str, a: usize, b: usize) -> (r: String)
    requires
        is_boundary(s@, a as int),
        is_boundary(s@, b as int),
        a <= b,
    ensures
        r@ == s@.subrange(cidx(s@, a as int), cidx(s@, b as int)),
{
    let (cs, ka) = locate(s, a);
    let kb = index_at(&cs, b);
    let ka = ka.unwrap();
    let kb = kb.unwrap();
    proof {
        if kb < ka {
            lemma_bpos_mono(s@, kb as int, ka as int);
        }
    }
    string_of(&cs, ka, kb)
}

/// `s` with the characters between the boundaries `a` and `b` replaced by `ins`.
pub fn splice_text(s: &str, a: usize, b: usize, ins: &str) -> (r: String)
    requires
        is_boundary(s@, a as int),
        is_boundary(s@, b as int),
        a <= b,
    ensures
        r@ == s@.take(cidx(s@, a as int)) + ins@ + s@.skip(cidx(s@, b as int)),
{
    let (cs, ka) = locate(s, a);
    let kb = index_at(&cs, b);
    let ka = ka.unwrap();
    let kb = kb.unwrap();
    proof {
        if kb < ka {
            lemma_bpos_mono(s@, kb as int, ka as int);
        }
    }
    let mut r = string_of(&cs, 0, ka);
    append_str(&mut r, ins);
    let tail = string_of(&cs, kb, cs.len());
    append_str(&mut r, tail.as_str());
    assert(cs@.subrange(0, ka as int) =~= s@.take(ka as int));
    assert(cs@.subrange(kb as int, cs@.len() as int) =~= s@.skip(kb as int));
    r
}

/// The two texts `a` and `b` one after the other.
pub fn concat_text(a: &str, b: &str) -> (r: String)
    ensures
        r@ == a@ + b@,
{
    let mut r = String::new();
    append_str(&mut r, a);
    append_str(&mut r, b);
    assert(r@ =~= a@ + b@);
    r
}

/// A copy of `s`.
pub fn copy_text(s: &str) -> (r: String)
    ensures
        r@ == s@,
{
    let mut r = String::new();
    append_str(&mut r, s);
    assert(r@ =~= s@);
    r
}

} // verus!

verus! {

/// The decimal digit for `d < 10`.
pub open spec fn digit_char(d: nat) -> char {
    ((48 + d) as u32) as char
}

/// Decimal representation of `n`, without leading zeros.
pub open spec fn decimal(n: nat) -> Seq<char>
    decreases n,
{
    if n < 10 {
        seq![digit_char(n)]
    } else {
        decimal(n / 10).push(digit_char(n % 10))
    }
}

/// The decimal representation of `n`.
pub fn decimal_string(n: usize) -> (r: String)
    ensures
        r@ == decimal(n as nat),
    decreases n,
{
    let d = (n % 10) as u8;
    let c = (d + 48) as char;
    proof {
        assert(c == digit_char((n % 10) as nat)) by {
            assert((d + 48) as u32 == (48 + (n % 10) as nat) as u32);
        }
    }
    if n < 10 {
        let mut s = String::new();
        push_char(&mut s, c);
        assert(s@ =~= seq![c]);
        s
    } else {
        let mut s = decimal_string(n / 10);
        push_char(&mut s, c);
        s
    }
}

/// The decimal representation of the 64-bit `n`.
pub fn decimal_string_u64(n: u64) -> (r: String)
    ensures
        r@ == decimal(n as nat),
    decreases n,
{
    let d = (n % 10) as u8;
    let c = (d + 48) as char;
    proof {
        assert(c == digit_char((n % 10) as nat)) by {
            assert((d + 48) as u32 == (48 + (n % 10) as nat) as u32);
        }
    }
    if n < 10 {
        let mut s = String::new();
        push_char(&mut s, c);
        assert(s@ =~= seq![c]);
        s
    } else {
        let mut s = decimal_string_u64(n / 10);
        push_char(&mut s, c);
        s
    }
}

} // verus!

