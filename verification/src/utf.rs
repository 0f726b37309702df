//! Character-level measures shared by every module: UTF-8 and UTF-16 widths,
//! byte offsets of characters, white space, and small string builders.
//!
//! Text is held in `String`s whose view is the sequence of their characters.
//! A byte offset into such a text is the UTF-8 length of a prefix of that
//! sequence, so every offset the library hands out is spoken of through
//! `byte_len` of a prefix.

use vstd::prelude::*;
use vstd::string::StringSliceAdditionalSpecFns;
use vstd::utf8::*;

verus! {

/// Bytes in the UTF-8 encoding of `c`.
pub open spec fn utf8_width(c: char) -> nat {
    if (c as u32) < 0x80 {
        1
    } else if (c as u32) < 0x800 {
        2
    } else if (c as u32) < 0x10000 {
        3
    } else {
        4
    }
}

/// UTF-16 code units of `c`: two for a character outside the BMP.
pub open spec fn utf16_width(c: char) -> nat {
    if (c as u32) < 0x10000 {
        1
    } else {
        2
    }
}

/// UTF-8 length of a character sequence.
pub open spec fn byte_len(cs: Seq<char>) -> nat
    decreases cs.len(),
{
    if cs.len() == 0 {
        0
    } else {
        byte_len(cs.drop_last()) + utf8_width(cs.last())
    }
}

/// UTF-16 length of a character sequence.
pub open spec fn utf16_count(cs: Seq<char>) -> nat
    decreases cs.len(),
{
    if cs.len() == 0 {
        0
    } else {
        utf16_count(cs.drop_last()) + utf16_width(cs.last())
    }
}

/// Byte offset at which character `i` of `cs` starts.
pub open spec fn boff(cs: Seq<char>, i: int) -> nat {
    byte_len(cs.take(i))
}

/// The characters of `cs` lying in the byte range `[lo, hi)`: those whose
/// first byte is in that range.
pub open spec fn chars_in_bytes(cs: Seq<char>, lo: int, hi: int) -> Seq<char>
    decreases cs.len(),
{
    if cs.len() == 0 {
        Seq::empty()
    } else {
        let n = (cs.len() - 1) as int;
        let p = chars_in_bytes(cs.drop_last(), lo, hi);
        if lo <= boff(cs, n) < hi {
            p.push(cs.last())
        } else {
            p
        }
    }
}

/// The White_Space property of the Unicode Character Database, which is what
/// `char::is_whitespace` and `str::trim` go by.
pub open spec fn is_white(c: char) -> bool {
    let u = c as u32;
    (0x9 <= u && u <= 0xD) || u == 0x20 || u == 0x85 || u == 0xA0 || u == 0x1680 || (0x2000 <= u
        && u <= 0x200A) || u == 0x2028 || u == 0x2029 || u == 0x202F || u == 0x205F || u == 0x3000
}

/// Every character of `cs` is white space (so `trim` leaves nothing).
pub open spec fn all_white(cs: Seq<char>) -> bool {
    forall|i: int| 0 <= i < cs.len() ==> is_white(#[trigger] cs[i])
}

/// Number of leading white-space characters of `cs`.
pub open spec fn lead_white(cs: Seq<char>) -> nat
    decreases cs.len(),
{
    if cs.len() == 0 {
        0
    } else if is_white(cs[0]) {
        1 + lead_white(cs.drop_first())
    } else {
        0
    }
}

/// Number of trailing white-space characters of `cs`.
pub open spec fn trail_white(cs: Seq<char>) -> nat
    decreases cs.len(),
{
    if cs.len() == 0 {
        0
    } else if is_white(cs.last()) {
        1 + trail_white(cs.drop_last())
    } else {
        0
    }
}

/// `cs` with white space removed from both ends, as `str::trim` does.
pub open spec fn trimmed(cs: Seq<char>) -> Seq<char> {
    let a = lead_white(cs) as int;
    let rest = cs.skip(a);
    rest.take(rest.len() - trail_white(rest))
}

pub proof fn lemma_byte_len_concat(a: Seq<char>, b: Seq<char>)
    ensures
        byte_len(a + b) == byte_len(a) + byte_len(b),
        utf16_count(a + b) == utf16_count(a) + utf16_count(b),
    decreases b.len(),
{
    if b.len() == 0 {
        assert(a + b =~= a);
    } else {
        assert((a + b).drop_last() =~= a + b.drop_last());
        assert((a + b).last() == b.last());
        lemma_byte_len_concat(a, b.drop_last());
    }
}

pub proof fn lemma_take_step(cs: Seq<char>, i: int)
    requires
        0 <= i < cs.len(),
    ensures
        byte_len(cs.take(i + 1)) == byte_len(cs.take(i)) + utf8_width(cs[i]),
        utf16_count(cs.take(i + 1)) == utf16_count(cs.take(i)) + utf16_width(cs[i]),
{
    assert(cs.take(i + 1).drop_last() =~= cs.take(i));
}

pub proof fn lemma_prefix_le(cs: Seq<char>, i: int, j: int)
    requires
        0 <= i <= j <= cs.len(),
    ensures
        byte_len(cs.take(i)) <= byte_len(cs.take(j)),
        utf16_count(cs.take(i)) <= utf16_count(cs.take(j)),
        byte_len(cs.take(j)) <= byte_len(cs),
        byte_len(cs.take(j)) - byte_len(cs.take(i)) >= j - i,
{
    assert(cs.take(j) =~= cs.take(i) + cs.subrange(i, j));
    lemma_byte_len_concat(cs.take(i), cs.subrange(i, j));
    lemma_byte_len_ge_len(cs.subrange(i, j));
    assert(cs =~= cs.take(j) + cs.skip(j));
    lemma_byte_len_concat(cs.take(j), cs.skip(j));
}

pub proof fn lemma_byte_len_ge_len(cs: Seq<char>)
    ensures
        byte_len(cs) >= cs.len(),
        utf16_count(cs) <= byte_len(cs),
        utf16_count(cs) >= cs.len(),
    decreases cs.len(),
{
    if cs.len() > 0 {
        lemma_byte_len_ge_len(cs.drop_last());
    }
}

/// Character offsets map to byte offsets strictly monotonically.
pub proof fn lemma_boff_strict(cs: Seq<char>, i: int, j: int)
    requires
        0 <= i < j <= cs.len(),
    ensures
        boff(cs, i) < boff(cs, j),
        boff(cs, i) + utf8_width(cs[i]) <= boff(cs, j),
{
    lemma_take_step(cs, i);
    lemma_prefix_le(cs, i + 1, j);
}

/// No character starts at or after the end of the text.
pub proof fn lemma_chars_in_bytes_none(cs: Seq<char>, lo: int, hi: int)
    requires
        byte_len(cs) <= lo,
    ensures
        chars_in_bytes(cs, lo, hi) == Seq::<char>::empty(),
    decreases cs.len(),
{
    if cs.len() > 0 {
        let n = (cs.len() - 1) as int;
        assert(cs.take(n) =~= cs.drop_last());
        lemma_chars_in_bytes_none(cs.drop_last(), lo, hi);
    }
}

/// Appending text leaves the characters of a byte range of the front alone.
pub proof fn lemma_chars_in_bytes_prefix(a: Seq<char>, c: Seq<char>, lo: int, hi: int)
    requires
        hi <= byte_len(a),
    ensures
        chars_in_bytes(a + c, lo, hi) == chars_in_bytes(a, lo, hi),
    decreases c.len(),
{
    if c.len() == 0 {
        assert(a + c =~= a);
    } else {
        let n = (a.len() + c.len() - 1) as int;
        assert((a + c).drop_last() =~= a + c.drop_last());
        assert((a + c).take(n) =~= a + c.drop_last());
        lemma_byte_len_concat(a, c.drop_last());
        lemma_chars_in_bytes_prefix(a, c.drop_last(), lo, hi);
    }
}

/// The characters in the byte range of an appended piece are that piece.
pub proof fn lemma_chars_in_bytes_suffix(a: Seq<char>, c: Seq<char>, h: int)
    requires
        byte_len(a + c) <= h,
    ensures
        chars_in_bytes(a + c, byte_len(a) as int, h) == c,
    decreases c.len(),
{
    lemma_byte_len_concat(a, c);
    if c.len() == 0 {
        assert(a + c =~= a);
        lemma_chars_in_bytes_none(a, byte_len(a) as int, h);
    } else {
        let n = (a.len() + c.len() - 1) as int;
        assert((a + c).drop_last() =~= a + c.drop_last());
        assert((a + c).take(n) =~= a + c.drop_last());
        assert((a + c).last() == c.last());
        lemma_byte_len_concat(a, c.drop_last());
        assert(c.drop_last().push(c.last()) =~= c);
        assert(c =~= c.drop_last() + seq![c.last()]);
        lemma_byte_len_concat(c.drop_last(), seq![c.last()]);
        assert(seq![c.last()].drop_last() =~= Seq::<char>::empty());
        lemma_chars_in_bytes_suffix(a, c.drop_last(), h);
    }
}

pub proof fn lemma_single(c: char)
    ensures
        byte_len(seq![c]) == utf8_width(c),
        utf16_count(seq![c]) == utf16_width(c),
{
    assert(seq![c].drop_last() =~= Seq::<char>::empty());
    assert(byte_len(Seq::<char>::empty()) == 0);
    assert(utf16_count(Seq::<char>::empty()) == 0);
}

/// The UTF-8 encoding that `str` reports has exactly `byte_len` bytes.
pub proof fn lemma_encode_len(cs: Seq<char>)
    ensures
        encode_utf8(cs).len() == byte_len(cs),
    decreases cs.len(),
{
    if cs.len() > 0 {
        let c = cs[0];
        char_is_scalar(c);
        lemma_encode_len(cs.drop_first());
        assert(cs =~= seq![c] + cs.drop_first());
        lemma_byte_len_concat(seq![c], cs.drop_first());
        lemma_single(c);
    }
}

pub proof fn lemma_chars_in_bytes_all(cs: Seq<char>)
    ensures
        chars_in_bytes(cs, 0, byte_len(cs) as int) == cs,
    decreases cs.len(),
{
    if cs.len() > 0 {
        let n = (cs.len() - 1) as int;
        lemma_chars_in_bytes_all(cs.drop_last());
        assert(cs.take(n) =~= cs.drop_last());
        assert(cs.drop_last().push(cs.last()) =~= cs);
        lemma_prefix_le(cs, n, n);
        lemma_byte_len_ge_len(cs);
        assert(boff(cs, n) < byte_len(cs)) by {
            assert(cs.take(n + 1) =~= cs);
            lemma_take_step(cs, n);
        }
        lemma_chars_in_bytes_mono(cs.drop_last(), 0, byte_len(cs.drop_last()) as int, byte_len(cs) as int);
    }
}

/// Widening the upper end past the whole text changes nothing.
pub proof fn lemma_chars_in_bytes_mono(cs: Seq<char>, lo: int, hi: int, hi2: int)
    requires
        hi >= byte_len(cs),
        hi2 >= byte_len(cs),
    ensures
        chars_in_bytes(cs, lo, hi) == chars_in_bytes(cs, lo, hi2),
    decreases cs.len(),
{
    if cs.len() > 0 {
        let n = (cs.len() - 1) as int;
        assert(cs.take(n) =~= cs.drop_last());
        assert(cs.take(n + 1) =~= cs);
        lemma_take_step(cs, n);
        lemma_chars_in_bytes_mono(cs.drop_last(), lo, hi, hi2);
    }
}

/// Bytes in the UTF-8 encoding of `c`.
pub fn char_len_utf8(c: char) -> (n: usize)
    ensures
        n == utf8_width(c),
{
    let u = c as u32;
    if u < 0x80 {
        1
    } else if u < 0x800 {
        2
    } else if u < 0x10000 {
        3
    } else {
        4
    }
}

/// UTF-16 code units of `c`.
pub fn char_len_utf16(c: char) -> (n: usize)
    ensures
        n == utf16_width(c),
{
    if (c as u32) < 0x10000 {
        1
    } else {
        2
    }
}

/// Whether `c` is white space in the sense of `char::is_whitespace`.
pub fn is_white_char(c: char) -> (b: bool)
    ensures
        b == is_white(c),
{
    let u = c as u32;
    (0x9 <= u && u <= 0xD) || u == 0x20 || u == 0x85 || u == 0xA0 || u == 0x1680 || (0x2000 <= u
        && u <= 0x200A) || u == 0x2028 || u == 0x2029 || u == 0x202F || u == 0x205F || u == 0x3000
}

/// Byte length of `s` (what `str::len` returns).
pub fn str_len(s: &str) -> (n: usize)
    ensures
        n == byte_len(s@),
{
    let n = s.as_bytes().len();
    proof {
        lemma_encode_len(s@);
    }
    n
}

/// The characters of `s`, in order.
pub fn chars_of(s: &str) -> (r: Vec<char>)
    ensures
        r@ == s@,
{
    let mut out: Vec<char> = Vec::new();
    for c in it: s.chars()
        invariant
            out@ == it.seq().take(it.index() as int),
    {
        out.push(c);
    }
    out
}

/// Collects characters into a `String` through std's `FromIterator<&char>`
/// for `String`; the string holds exactly those characters, in order.
#[verifier::external_body]
pub(crate) fn string_of(cs: &[char]) -> (s: String)
    ensures
        s@ == cs@,
{
    cs.iter().collect()
}

/// Length of `s` in UTF-16 code units, the unit textlint measures in because
/// its rules run on JavaScript strings.
pub fn utf16_len(s: &str) -> (n: usize)
    ensures
        n == utf16_count(s@),
{
    let cs = chars_of(s);
    let total = str_len(s);
    let mut n: usize = 0;
    let mut i: usize = 0;
    while i < cs.len()
        invariant
            cs@ == s@,
            total == byte_len(s@),
            i <= cs.len(),
            n == utf16_count(cs@.take(i as int)),
        decreases cs.len() - i,
    {
        proof {
            lemma_take_step(cs@, i as int);
            lemma_byte_len_ge_len(cs@.take(i + 1));
            lemma_prefix_le(cs@, i + 1, i + 1);
        }
        n = n + char_len_utf16(cs[i]);
        i = i + 1;
    }
    proof {
        assert(cs@.take(i as int) =~= cs@);
    }
    n
}

/// Whether every character of `cs[lo..hi]` is white space.
pub fn all_white_in(cs: &Vec<char>, lo: usize, hi: usize) -> (b: bool)
    requires
        lo <= hi <= cs.len(),
    ensures
        b == all_white(cs@.subrange(lo as int, hi as int)),
{
    let mut i = lo;
    while i < hi
        invariant
            lo <= i <= hi <= cs.len(),
            forall|k: int| lo <= k < i ==> is_white(#[trigger] cs@[k]),
        decreases hi - i,
    {
        if !is_white_char(cs[i]) {
            assert(cs@.subrange(lo as int, hi as int)[i - lo] == cs@[i as int]);
            return false;
        }
        i = i + 1;
    }
    assert forall|k: int| 0 <= k < cs@.subrange(lo as int, hi as int).len() implies is_white(
        #[trigger] cs@.subrange(lo as int, hi as int)[k],
    ) by {
        assert(cs@.subrange(lo as int, hi as int)[k] == cs@[lo + k]);
    }
    true
}

/// `a` followed by `b`.
pub fn concat_str(a: &str, b: &str) -> (r: String)
    ensures
        r@ == a@ + b@,
{
    let mut v = chars_of(a);
    let w = chars_of(b);
    let mut i: usize = 0;
    while i < w.len()
        invariant
            w@ == b@,
            i <= w.len(),
            v@ == a@ + w@.take(i as int),
        decreases w.len() - i,
    {
        v.push(w[i]);
        i = i + 1;
        assert(v@ =~= a@ + w@.take(i as int));
    }
    assert(w@.take(i as int) =~= w@);
    string_of(v.as_slice())
}

/// Whether two strings hold the same characters.
pub fn str_eq(a: &str, b: &str) -> (r: bool)
    ensures
        r == (a@ == b@),
{
    let x = chars_of(a);
    let y = chars_of(b);
    seq_eq(&x, &y)
}

/// Whether two character vectors are equal.
pub fn seq_eq(x: &Vec<char>, y: &Vec<char>) -> (r: bool)
    ensures
        r == (x@ == y@),
{
    if x.len() != y.len() {
        return false;
    }
    let mut i: usize = 0;
    while i < x.len()
        invariant
            x.len() == y.len(),
            i <= x.len(),
            forall|k: int| 0 <= k < i ==> x@[k] == y@[k],
        decreases x.len() - i,
    {
        if x[i] != y[i] {
            return false;
        }
        i = i + 1;
    }
    assert(x@ =~= y@);
    true
}

/// The byte offset of every character of `cs`, plus the total length at the end.
pub fn byte_offsets(cs: &Vec<char>) -> (r: Vec<usize>)
    requires
        byte_len(cs@) <= usize::MAX,
    ensures
        r@.len() == cs@.len() + 1,
        forall|k: int| 0 <= k <= cs@.len() ==> #[trigger] r@[k] == boff(cs@, k),
        r@[cs@.len() as int] == byte_len(cs@),
{
    let mut r: Vec<usize> = Vec::new();
    let mut pos: usize = 0;
    let mut i: usize = 0;
    while i < cs.len()
        invariant
            byte_len(cs@) <= usize::MAX,
            i <= cs.len(),
            r@.len() == i,
            pos == boff(cs@, i as int),
            forall|k: int| 0 <= k < i ==> #[trigger] r@[k] == boff(cs@, k),
        decreases cs.len() - i,
    {
        r.push(pos);
        proof {
            lemma_take_step(cs@, i as int);
            lemma_prefix_le(cs@, i + 1, i + 1);
        }
        pos = pos + char_len_utf8(cs[i]);
        i = i + 1;
    }
    r.push(pos);
    assert(cs@.take(cs@.len() as int) =~= cs@);
    r
}

/// If the first `k` characters are white space and the next is not (or there
/// is none), `k` is the length of the leading white space.
pub proof fn lemma_lead_white(cs: Seq<char>, k: int)
    requires
        0 <= k <= cs.len(),
        forall|i: int| 0 <= i < k ==> is_white(#[trigger] cs[i]),
        k == cs.len() || !is_white(cs[k]),
    ensures
        lead_white(cs) == k,
    decreases cs.len(),
{
    if cs.len() > 0 && k > 0 {
        assert forall|i: int| 0 <= i < k - 1 implies is_white(#[trigger] cs.drop_first()[i]) by {
            assert(cs.drop_first()[i] == cs[i + 1]);
        }
        lemma_lead_white(cs.drop_first(), k - 1);
    }
}

/// Mirror of `lemma_lead_white` for trailing white space.
pub proof fn lemma_trail_white(cs: Seq<char>, k: int)
    requires
        0 <= k <= cs.len(),
        forall|i: int| cs.len() - k <= i < cs.len() ==> is_white(#[trigger] cs[i]),
        k == cs.len() || !is_white(cs[cs.len() - 1 - k]),
    ensures
        trail_white(cs) == k,
    decreases cs.len(),
{
    if cs.len() > 0 && k > 0 {
        assert forall|i: int| cs.drop_last().len() - (k - 1) <= i < cs.drop_last().len() implies is_white(
            #[trigger] cs.drop_last()[i],
        ) by {
            assert(cs.drop_last()[i] == cs[i]);
        }
        lemma_trail_white(cs.drop_last(), k - 1);
    }
}

/// Number of leading white-space characters of `cs[lo..hi]`.
pub fn lead_white_in(cs: &Vec<char>, lo: usize, hi: usize) -> (k: usize)
    requires
        lo <= hi <= cs.len(),
    ensures
        k == lead_white(cs@.subrange(lo as int, hi as int)),
        lo + k <= hi,
{
    let ghost sub = cs@.subrange(lo as int, hi as int);
    let mut k: usize = 0;
    while lo + k < hi && is_white_char(cs[lo + k])
        invariant
            lo <= hi <= cs.len(),
            lo + k <= hi,
            sub == cs@.subrange(lo as int, hi as int),
            forall|i: int| 0 <= i < k ==> is_white(#[trigger] sub[i]),
        decreases hi - lo - k,
    {
        assert(sub[k as int] == cs@[lo + k]);
        k = k + 1;
    }
    proof {
        if lo + k < hi {
            assert(sub[k as int] == cs@[lo + k]);
        }
        lemma_lead_white(sub, k as int);
    }
    k
}

/// Number of trailing white-space characters of `cs[lo..hi]`.
pub fn trail_white_in(cs: &Vec<char>, lo: usize, hi: usize) -> (k: usize)
    requires
        lo <= hi <= cs.len(),
    ensures
        k == trail_white(cs@.subrange(lo as int, hi as int)),
        lo + k <= hi,
{
    let ghost sub = cs@.subrange(lo as int, hi as int);
    let mut k: usize = 0;
    while lo + k < hi && is_white_char(cs[hi - 1 - k])
        invariant
            lo <= hi <= cs.len(),
            lo + k <= hi,
            sub == cs@.subrange(lo as int, hi as int),
            forall|i: int| sub.len() - k <= i < sub.len() ==> is_white(#[trigger] sub[i]),
        decreases hi - lo - k,
    {
        assert(sub[sub.len() - 1 - k] == cs@[hi - 1 - k]);
        k = k + 1;
    }
    proof {
        if lo + k < hi {
            assert(sub[sub.len() - 1 - k] == cs@[hi - 1 - k]);
        }
        lemma_trail_white(sub, k as int);
    }
    k
}

/// The decimal digit `d` (0..=15 gives the upper-case hex digits too).
pub open spec fn digit_char(d: nat) -> char {
    if d == 0 {
        '0'
    } else if d == 1 {
        '1'
    } else if d == 2 {
        '2'
    } else if d == 3 {
        '3'
    } else if d == 4 {
        '4'
    } else if d == 5 {
        '5'
    } else if d == 6 {
        '6'
    } else if d == 7 {
        '7'
    } else if d == 8 {
        '8'
    } else if d == 9 {
        '9'
    } else if d == 10 {
        'A'
    } else if d == 11 {
        'B'
    } else if d == 12 {
        'C'
    } else if d == 13 {
        'D'
    } else if d == 14 {
        'E'
    } else {
        'F'
    }
}

/// The digits of `n` in base `base` (10 or 16), most significant first.
pub open spec fn digits(n: nat, base: nat) -> Seq<char>
    decreases n,
{
    if base < 2 || n < base {
        seq![digit_char(n)]
    } else {
        proof {
            assert(n / base < n) by (nonlinear_arith)
                requires
                    base >= 2,
                    n >= base,
            ;
        }
        digits(n / base, base).push(digit_char(n % base))
    }
}

/// The number a string of decimal digits spells, most significant first.
pub open spec fn decimal_value(s: Seq<char>) -> int
    decreases s.len(),
{
    if s.len() == 0 {
        0
    } else {
        decimal_value(s.drop_last()) * 10 + (s.last() as int - '0' as int)
    }
}

/// `digits(n, 10)` is the decimal numeral of `n`: only the digits 0 to 9,
/// spelling `n`, with no leading zero (the numeral of 0 is "0").
pub proof fn lemma_decimal(n: nat)
    ensures
        digits(n, 10).len() > 0,
        forall|i: int| 0 <= i < digits(n, 10).len() ==> '0' <= #[trigger] digits(n, 10)[i] <= '9',
        decimal_value(digits(n, 10)) == n,
        digits(n, 10)[0] == '0' ==> n == 0,
    decreases n,
{
    if n < 10 {
        assert(digits(n, 10) == seq![digit_char(n)]);
        assert(digits(n, 10).drop_last() =~= Seq::<char>::empty());
        assert((digit_char(n) as int) == '0' as int + n);
        assert(decimal_value(Seq::<char>::empty()) == 0);
        assert(digits(n, 10).last() == digit_char(n));
        assert(decimal_value(digits(n, 10)) == decimal_value(digits(n, 10).drop_last()) * 10 + (digit_char(n) as int
            - '0' as int));
    } else {
        lemma_decimal(n / 10);
        let d = n % 10;
        let front = digits(n / 10, 10);
        assert(digits(n, 10) == front.push(digit_char(d)));
        assert(digits(n, 10).drop_last() =~= front);
        assert((digit_char(d) as int) == '0' as int + d);
        assert(n == (n / 10) * 10 + n % 10) by (nonlinear_arith);
        assert(decimal_value(digits(n, 10)) == decimal_value(front) * 10 + (digit_char(d) as int - '0' as int));
        assert forall|i: int| 0 <= i < digits(n, 10).len() implies '0' <= #[trigger] digits(n, 10)[i] <= '9' by {
            if i < front.len() {
                assert(digits(n, 10)[i] == front[i]);
            }
        }
        assert(digits(n, 10)[0] == front[0]);
    }
}

/// `s` left-padded with '0' to at least `w` characters.
pub open spec fn zero_pad(s: Seq<char>, w: nat) -> Seq<char> {
    if s.len() >= w {
        s
    } else {
        Seq::new((w - s.len()) as nat, |i: int| '0') + s
    }
}

fn digit(d: u32) -> (c: char)
    requires
        d < 16,
    ensures
        c == digit_char(d as nat),
{
    if d == 0 {
        '0'
    } else if d == 1 {
        '1'
    } else if d == 2 {
        '2'
    } else if d == 3 {
        '3'
    } else if d == 4 {
        '4'
    } else if d == 5 {
        '5'
    } else if d == 6 {
        '6'
    } else if d == 7 {
        '7'
    } else if d == 8 {
        '8'
    } else if d == 9 {
        '9'
    } else if d == 10 {
        'A'
    } else if d == 11 {
        'B'
    } else if d == 12 {
        'C'
    } else if d == 13 {
        'D'
    } else if d == 14 {
        'E'
    } else {
        'F'
    }
}

fn digits_of(n: u64, base: u64) -> (r: Vec<char>)
    requires
        base == 10 || base == 16,
    ensures
        r@ == digits(n as nat, base as nat),
    decreases n,
{
    if n < base {
        let mut v: Vec<char> = Vec::new();
        v.push(digit(n as u32));
        v
    } else {
        let mut v = digits_of(n / base, base);
        v.push(digit((n % base) as u32));
        v
    }
}

/// `n` written in decimal.
pub fn decimal(n: u64) -> (s: String)
    ensures
        s@ == digits(n as nat, 10),
{
    let v = digits_of(n, 10);
    string_of(v.as_slice())
}

/// `n` in upper-case hexadecimal, at least four digits.
pub fn hex4(n: u64) -> (s: String)
    ensures
        s@ == zero_pad(digits(n as nat, 16), 4),
{
    let v = digits_of(n, 16);
    let mut out: Vec<char> = Vec::new();
    let mut k: usize = v.len();
    while k < 4
        invariant
            v.len() <= k <= 4 || (k == v.len() && k >= 4),
            out@ == Seq::new((k - v.len()) as nat, |i: int| '0'),
        decreases 4 - k,
    {
        out.push('0');
        k = k + 1;
        assert(out@ =~= Seq::new((k - v.len()) as nat, |i: int| '0'));
    }
    let mut t: usize = 0;
    let ghost pad = out@;
    while t < v.len()
        invariant
            t <= v.len(),
            out@ == pad + v@.take(t as int),
        decreases v.len() - t,
    {
        out.push(v[t]);
        t = t + 1;
        assert(out@ =~= pad + v@.take(t as int));
    }
    assert(v@.take(t as int) =~= v@);
    proof {
        if v@.len() >= 4 {
            assert(pad =~= Seq::<char>::empty());
            assert(out@ =~= v@);
        }
    }
    string_of(out.as_slice())
}

/// The one-character string of `c`.
pub fn char_string(c: char) -> (s: String)
    ensures
        s@ == seq![c],
{
    let mut v: Vec<char> = Vec::new();
    v.push(c);
    string_of(v.as_slice())
}

/// `a`, `b` and `c` in a row.
pub fn concat3(a: &str, b: &str, c: &str) -> (r: String)
    ensures
        r@ == a@ + b@ + c@,
{
    let ab = concat_str(a, b);
    concat_str(ab.as_str(), c)
}

/// The characters `chars_in_bytes` picks out run from byte `lo` onwards and
/// end inside the text.
pub proof fn lemma_chars_in_bytes_bound(cs: Seq<char>, lo: int, hi: int)
    ensures
        chars_in_bytes(cs, lo, hi).len() > 0 ==> lo + byte_len(chars_in_bytes(cs, lo, hi)) <= byte_len(cs),
        byte_len(chars_in_bytes(cs, lo, hi)) <= byte_len(cs),
    decreases cs.len(),
{
    if cs.len() > 0 {
        let n = (cs.len() - 1) as int;
        let d = cs.drop_last();
        lemma_chars_in_bytes_bound(d, lo, hi);
        assert(cs.take(n) =~= d);
        let p = chars_in_bytes(d, lo, hi);
        if lo <= boff(cs, n) < hi {
            let q = p.push(cs.last());
            assert(q.drop_last() =~= p);
        }
    }
}

/// The prefix of `cs` of byte length at most the whole.
pub proof fn lemma_take_bytes(cs: Seq<char>, j: int)
    requires
        0 <= j <= cs.len(),
    ensures
        byte_len(cs.take(j)) <= byte_len(cs),
        j < cs.len() ==> byte_len(cs.take(j)) + utf8_width(cs[j]) <= byte_len(cs),
{
    lemma_prefix_le(cs, j, j);
    if j < cs.len() {
        lemma_take_step(cs, j);
        lemma_prefix_le(cs, j + 1, j + 1);
    }
}

} // verus!
