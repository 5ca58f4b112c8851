//! Byte-level views of the `str` operations that the parsers rely on:
//! Unicode-whitespace trimming and splitting, line splitting, and the
//! integer parsing of `FromStr` / `from_str_radix`.
use vstd::prelude::*;
use vstd::utf8::*;

use crate::strings::at_char_start;

verus! {

/// The decimal digits of `n`.
pub open spec fn decimal(n: nat) -> Seq<u8>
    decreases n,
{
    if n < 10 {
        seq![(0x30 + n) as u8]
    } else {
        decimal(n / 10).push((0x30 + n % 10) as u8)
    }
}

/// The decimal text of a signed integer (`to_string`).
pub open spec fn signed_decimal(i: int) -> Seq<u8> {
    if i < 0 {
        seq![0x2du8] + decimal((-i) as nat)
    } else {
        decimal(i as nat)
    }
}

pub proof fn lemma_decimal_ascii(n: nat)
    ensures
        forall|k: int| 0 <= k < decimal(n).len() ==> #[trigger] decimal(n)[k] < 0x80,
        decimal(n).len() >= 1,
    decreases n,
{
    if n >= 10 {
        lemma_decimal_ascii(n / 10);
    }
}

/// The decimal digits of `n`, as bytes.
pub(crate) fn decimal_exec(n: u64) -> (r: Vec<u8>)
    ensures
        r@ == decimal(n as nat),
    decreases n,
{
    if n < 10 {
        let r = vec![(0x30 + n) as u8];
        assert(r@ =~= decimal(n as nat));
        r
    } else {
        let mut r = decimal_exec(n / 10);
        r.push((0x30 + n % 10) as u8);
        r
    }
}

/// The decimal text of a signed integer, as bytes.
pub(crate) fn signed_decimal_exec(i: i64) -> (r: Vec<u8>)
    ensures
        r@ == signed_decimal(i as int),
{
    if i < 0 {
        let mag = (0 - (i as i128)) as u64;
        let digits = decimal_exec(mag);
        let mut r = vec![0x2du8];
        let mut k: usize = 0;
        while k < digits.len()
            invariant
                0 <= k <= digits@.len(),
                r@ == seq![0x2du8] + digits@.subrange(0, k as int),
            decreases digits@.len() - k,
        {
            r.push(digits[k]);
            k = k + 1;
            assert(r@ =~= seq![0x2du8] + digits@.subrange(0, k as int));
        }
        assert(digits@.subrange(0, digits@.len() as int) =~= digits@);
        r
    } else {
        decimal_exec(i as u64)
    }
}

/// A one-byte whitespace character (`\t`, `\n`, VT, FF, `\r`, space).
pub open spec fn ws1(a: u8) -> bool {
    (0x09 <= a <= 0x0d) || a == 0x20
}

/// U+0085 or U+00A0, encoded in UTF-8.
pub open spec fn ws2(a: u8, b: u8) -> bool {
    a == 0xc2 && (b == 0x85 || b == 0xa0)
}

/// U+1680, U+2000..=U+200A, U+2028, U+2029, U+202F, U+205F or U+3000, in UTF-8.
pub open spec fn ws3(a: u8, b: u8, c: u8) -> bool {
    ||| (a == 0xe1 && b == 0x9a && c == 0x80)
    ||| (a == 0xe2 && b == 0x80 && ((0x80 <= c <= 0x8a) || c == 0xa8 || c == 0xa9 || c == 0xaf))
    ||| (a == 0xe2 && b == 0x81 && c == 0x9f)
    ||| (a == 0xe3 && b == 0x80 && c == 0x80)
}

/// The byte length of the whitespace character (`char::is_whitespace`) whose
/// UTF-8 encoding starts at `i` and ends by `e`, or 0 when none does.
pub open spec fn ws_len_at(s: Seq<u8>, e: int, i: int) -> int {
    if 0 <= i && i + 1 <= e && e <= s.len() && ws1(s[i]) {
        1
    } else if 0 <= i && i + 2 <= e && e <= s.len() && ws2(s[i], s[i + 1]) {
        2
    } else if 0 <= i && i + 3 <= e && e <= s.len() && ws3(s[i], s[i + 1], s[i + 2]) {
        3
    } else {
        0
    }
}

/// The byte length of the whitespace character whose encoding ends just
/// before `j` and starts at or after `lo`, or 0 when none does.
pub open spec fn ws_len_before(s: Seq<u8>, lo: int, j: int) -> int {
    if 0 <= lo && lo <= j - 1 && j <= s.len() && ws1(s[j - 1]) {
        1
    } else if 0 <= lo && lo <= j - 2 && j <= s.len() && ws2(s[j - 2], s[j - 1]) {
        2
    } else if 0 <= lo && lo <= j - 3 && j <= s.len() && ws3(s[j - 3], s[j - 2], s[j - 1]) {
        3
    } else {
        0
    }
}

/// The first position at or after `i` (below `e`) where no whitespace
/// character starts.
pub open spec fn skip_ws(s: Seq<u8>, e: int, i: int) -> int
    decreases e - i,
{
    if ws_len_at(s, e, i) > 0 {
        skip_ws(s, e, i + ws_len_at(s, e, i))
    } else {
        i
    }
}

/// Walking back from `j`, the first position (not below `lo`) before which no
/// whitespace character ends.
pub open spec fn skip_ws_back(s: Seq<u8>, lo: int, j: int) -> int
    decreases j - lo,
{
    if ws_len_before(s, lo, j) > 0 {
        skip_ws_back(s, lo, j - ws_len_before(s, lo, j))
    } else {
        j
    }
}

/// `str::trim` of `s[lo..hi]`, as the bounds of the trimmed part.
pub open spec fn trim(s: Seq<u8>, lo: int, hi: int) -> (int, int) {
    let a = skip_ws(s, hi, lo);
    (a, skip_ws_back(s, a, hi))
}

/// The end of the token starting at `i`: the first position at or after `i`
/// where a whitespace character starts, or `e`.
pub open spec fn token_end(s: Seq<u8>, e: int, i: int) -> int
    decreases e - i,
{
    if i >= e || ws_len_at(s, e, i) > 0 {
        i
    } else {
        token_end(s, e, i + 1)
    }
}

/// The next item of `str::split_whitespace` over `s[i..e]`, as its bounds.
pub open spec fn next_token(s: Seq<u8>, e: int, i: int) -> Option<(int, int)> {
    let a = skip_ws(s, e, i);
    if a >= e {
        None
    } else {
        Some((a, token_end(s, e, a)))
    }
}

/// The first index in `i..e` holding byte `b`, or `e`.
pub open spec fn find_byte(s: Seq<u8>, e: int, b: u8, i: int) -> int
    decreases e - i,
{
    if i >= e {
        e
    } else if 0 <= i < s.len() && s[i] == b {
        i
    } else {
        find_byte(s, e, b, i + 1)
    }
}

/// The last index in `lo..j` holding byte `b`, if any.
pub open spec fn rfind_byte(s: Seq<u8>, lo: int, b: u8, j: int) -> Option<int>
    decreases j - lo,
{
    if j <= lo {
        None
    } else if 0 <= j - 1 < s.len() && s[j - 1] == b {
        Some(j - 1)
    } else {
        rfind_byte(s, lo, b, j - 1)
    }
}

/// The line of `str::lines` starting at `p` (with `p < e`): the end of its
/// content (without `\n`, and without a `\r` that precedes that `\n`) and
/// where the next line starts.
pub open spec fn line_at(s: Seq<u8>, e: int, p: int) -> (int, int) {
    let q = find_byte(s, e, 0x0a, p);
    if q >= e {
        (e, e)
    } else if q > p && s[q - 1] == 0x0d {
        (q - 1, q + 1)
    } else {
        (q, q + 1)
    }
}

/// `s[lo..hi]` starts with `pat`.
pub open spec fn has_prefix(s: Seq<u8>, lo: int, hi: int, pat: Seq<u8>) -> bool {
    hi - lo >= pat.len() && s.subrange(lo, lo + pat.len()) == pat
}

pub(crate) fn line_at_exec(s: &[u8], e: usize, p: usize) -> (r: (usize, usize))
    requires
        p < e <= s@.len(),
    ensures
        (r.0 as int, r.1 as int) == line_at(s@, e as int, p as int),
        p <= r.0 < r.1 <= e || (r.0 == e && r.1 == e),
        p < r.1,
        forall|k: int| p <= k < r.0 ==> s@[k] != 0x0a,
        r.0 < e ==> (s@[r.0 as int] == 0x0a || s@[r.0 as int] == 0x0d) && s@[r.1 - 1] == 0x0a,
{
    let q = find_byte_exec(s, e, 0x0a, p);
    if q >= e {
        (e, e)
    } else if q > p && s[q - 1] == 0x0d {
        (q - 1, q + 1)
    } else {
        (q, q + 1)
    }
}

pub(crate) fn has_prefix_exec(s: &[u8], lo: usize, hi: usize, pat: &[u8]) -> (r: bool)
    requires
        lo <= hi <= s@.len(),
    ensures
        r == has_prefix(s@, lo as int, hi as int, pat@),
{
    if hi - lo < pat.len() {
        return false;
    }
    let mut k: usize = 0;
    while k < pat.len()
        invariant
            lo + pat@.len() <= hi <= s@.len(),
            0 <= k <= pat@.len(),
            forall|m: int| 0 <= m < k ==> s@[lo + m] == pat@[m],
        decreases pat@.len() - k,
    {
        if s[lo + k] != pat[k] {
            assert(s@.subrange(lo as int, lo + pat@.len())[k as int] != pat@[k as int]);
            return false;
        }
        k = k + 1;
    }
    assert(s@.subrange(lo as int, lo + pat@.len()) =~= pat@);
    true
}

/// A whitespace character found at a character start spans whole characters:
/// skipping whitespace from a character start lands on a character start.
pub proof fn lemma_skip_ws_char_start(s: Seq<u8>, e: int, i: int)
    requires
        valid_utf8(s),
        0 <= i,
        e <= s.len(),
        at_char_start(s, i),
    ensures
        at_char_start(s, skip_ws(s, e, i)),
    decreases e - i,
{
    let w = ws_len_at(s, e, i);
    if w > 0 {
        crate::strings::lemma_next_char_start(s, i, w);
        lemma_skip_ws_char_start(s, e, i + w);
    }
}

/// Skipping whitespace backwards from a character start lands on one.
pub proof fn lemma_skip_ws_back_char_start(s: Seq<u8>, lo: int, j: int)
    requires
        j <= s.len(),
        at_char_start(s, j),
    ensures
        at_char_start(s, skip_ws_back(s, lo, j)),
    decreases j - lo,
{
    let w = ws_len_before(s, lo, j);
    if w > 0 {
        assert(at_char_start(s, j - w));
        lemma_skip_ws_back_char_start(s, lo, j - w);
    }
}

pub proof fn lemma_skip_ws_back_bounds(s: Seq<u8>, lo: int, j: int)
    requires
        lo <= j,
    ensures
        lo <= skip_ws_back(s, lo, j) <= j,
    decreases j - lo,
{
    let w = ws_len_before(s, lo, j);
    if w > 0 {
        lemma_skip_ws_back_bounds(s, lo, j - w);
    }
}

/// The end of a token is a character start.
pub proof fn lemma_token_end_char_start(s: Seq<u8>, e: int, i: int)
    requires
        0 <= i <= e <= s.len(),
        at_char_start(s, e),
    ensures
        token_end(s, e, i) == e || ws_len_at(s, e, token_end(s, e, i)) > 0,
        at_char_start(s, token_end(s, e, i)),
    decreases e - i,
{
    if !(i >= e || ws_len_at(s, e, i) > 0) {
        lemma_token_end_char_start(s, e, i + 1);
    }
}

/// At most two decimal digits (after an optional sign) make a value below 100
/// in magnitude.
pub proof fn lemma_two_digits(s: Seq<u8>)
    requires
        s.len() == 2,
        parse_int(s, 10, -0x8000_0000, 0x7fff_ffff) is Some,
    ensures
        -99 <= parse_int(s, 10, -0x8000_0000, 0x7fff_ffff).unwrap() <= 99,
{
    reveal_with_fuel(digits_value, 3);
    let st: int = if s[0] == 0x2b || s[0] == 0x2d { 1 } else { 0 };
    assert(digit_value(s[1], 10) is Some);
    if st == 0 {
        assert(digit_value(s[0], 10) is Some);
    }
}

pub(crate) fn ws_len_at_exec(s: &[u8], e: usize, i: usize) -> (r: usize)
    requires
        e <= s@.len(),
    ensures
        r as int == ws_len_at(s@, e as int, i as int),
        r <= 3,
{
    if i < e && (s[i] == 0x20 || (0x09 <= s[i] && s[i] <= 0x0d)) {
        1
    } else if i < e && e - i >= 2 && s[i] == 0xc2 && (s[i + 1] == 0x85 || s[i + 1] == 0xa0) {
        2
    } else if i < e && e - i >= 3 && ((s[i] == 0xe1 && s[i + 1] == 0x9a && s[i + 2] == 0x80) || (
    s[i] == 0xe2 && s[i + 1] == 0x80 && ((0x80 <= s[i + 2] && s[i + 2] <= 0x8a) || s[i + 2]
        == 0xa8 || s[i + 2] == 0xa9 || s[i + 2] == 0xaf)) || (s[i] == 0xe2 && s[i + 1] == 0x81
        && s[i + 2] == 0x9f) || (s[i] == 0xe3 && s[i + 1] == 0x80 && s[i + 2] == 0x80)) {
        3
    } else {
        0
    }
}

pub(crate) fn ws_len_before_exec(s: &[u8], lo: usize, j: usize) -> (r: usize)
    requires
        j <= s@.len(),
    ensures
        r as int == ws_len_before(s@, lo as int, j as int),
        r <= 3,
{
    if lo < j && (s[j - 1] == 0x20 || (0x09 <= s[j - 1] && s[j - 1] <= 0x0d)) {
        1
    } else if lo < j && j - lo >= 2 && s[j - 2] == 0xc2 && (s[j - 1] == 0x85 || s[j - 1] == 0xa0) {
        2
    } else if lo < j && j - lo >= 3 && ((s[j - 3] == 0xe1 && s[j - 2] == 0x9a && s[j - 1] == 0x80)
        || (s[j - 3] == 0xe2 && s[j - 2] == 0x80 && ((0x80 <= s[j - 1] && s[j - 1] <= 0x8a) || s[j
        - 1] == 0xa8 || s[j - 1] == 0xa9 || s[j - 1] == 0xaf)) || (s[j - 3] == 0xe2 && s[j - 2]
        == 0x81 && s[j - 1] == 0x9f) || (s[j - 3] == 0xe3 && s[j - 2] == 0x80 && s[j - 1] == 0x80)) {
        3
    } else {
        0
    }
}

pub(crate) fn skip_ws_exec(s: &[u8], e: usize, i: usize) -> (r: usize)
    requires
        i <= e <= s@.len(),
    ensures
        r as int == skip_ws(s@, e as int, i as int),
        i <= r <= e,
{
    let mut k = i;
    while k < e
        invariant
            i <= k <= e <= s@.len(),
            skip_ws(s@, e as int, k as int) == skip_ws(s@, e as int, i as int),
        decreases e - k,
    {
        let w = ws_len_at_exec(s, e, k);
        if w == 0 {
            return k;
        }
        k = k + w;
    }
    k
}

pub(crate) fn skip_ws_back_exec(s: &[u8], lo: usize, j: usize) -> (r: usize)
    requires
        lo <= j <= s@.len(),
    ensures
        r as int == skip_ws_back(s@, lo as int, j as int),
        lo <= r <= j,
{
    let mut k = j;
    while k > lo
        invariant
            lo <= k <= j <= s@.len(),
            skip_ws_back(s@, lo as int, k as int) == skip_ws_back(s@, lo as int, j as int),
        decreases k - lo,
    {
        let w = ws_len_before_exec(s, lo, k);
        if w == 0 {
            return k;
        }
        k = k - w;
    }
    k
}

/// `str::trim` of `s[lo..hi]`.
pub(crate) fn trim_exec(s: &[u8], lo: usize, hi: usize) -> (r: (usize, usize))
    requires
        lo <= hi <= s@.len(),
    ensures
        (r.0 as int, r.1 as int) == trim(s@, lo as int, hi as int),
        lo <= r.0 <= r.1 <= hi,
{
    let a = skip_ws_exec(s, hi, lo);
    let b = skip_ws_back_exec(s, a, hi);
    (a, b)
}

pub(crate) fn token_end_exec(s: &[u8], e: usize, i: usize) -> (r: usize)
    requires
        i <= e <= s@.len(),
    ensures
        r as int == token_end(s@, e as int, i as int),
        i <= r <= e,
{
    let mut k = i;
    while k < e
        invariant
            i <= k <= e <= s@.len(),
            token_end(s@, e as int, k as int) == token_end(s@, e as int, i as int),
        decreases e - k,
    {
        if ws_len_at_exec(s, e, k) > 0 {
            return k;
        }
        k = k + 1;
    }
    k
}

pub proof fn lemma_skip_ws_stops(s: Seq<u8>, e: int, i: int)
    ensures
        ws_len_at(s, e, skip_ws(s, e, i)) == 0,
        i <= skip_ws(s, e, i),
    decreases e - i,
{
    if ws_len_at(s, e, i) > 0 {
        lemma_skip_ws_stops(s, e, i + ws_len_at(s, e, i));
    }
}

pub proof fn lemma_token_end_bounds(s: Seq<u8>, e: int, i: int)
    ensures
        i <= token_end(s, e, i),
        i <= e ==> token_end(s, e, i) <= e,
    decreases e - i,
{
    if !(i >= e || ws_len_at(s, e, i) > 0) {
        lemma_token_end_bounds(s, e, i + 1);
    }
}

/// The next `split_whitespace` item of `s[i..e]`.
pub(crate) fn next_token_exec(s: &[u8], e: usize, i: usize) -> (r: Option<(usize, usize)>)
    requires
        i <= e <= s@.len(),
    ensures
        r matches Some(t) ==> next_token(s@, e as int, i as int) == Some((t.0 as int, t.1 as int)) && i <= t.0 < t.1 <= e,
        r is None ==> next_token(s@, e as int, i as int) is None,
{
    let a = skip_ws_exec(s, e, i);
    if a >= e {
        None
    } else {
        let b = token_end_exec(s, e, a);
        proof {
            lemma_skip_ws_stops(s@, e as int, i as int);
            lemma_token_end_bounds(s@, e as int, a + 1);
        }
        Some((a, b))
    }
}

pub(crate) fn find_byte_exec(s: &[u8], e: usize, b: u8, i: usize) -> (r: usize)
    requires
        i <= e <= s@.len(),
    ensures
        r as int == find_byte(s@, e as int, b, i as int),
        i <= r <= e,
        r < e ==> s@[r as int] == b,
        forall|k: int| i <= k < r ==> s@[k] != b,
{
    let mut k = i;
    while k < e
        invariant
            i <= k <= e <= s@.len(),
            find_byte(s@, e as int, b, k as int) == find_byte(s@, e as int, b, i as int),
            forall|m: int| i <= m < k ==> s@[m] != b,
        decreases e - k,
    {
        if s[k] == b {
            return k;
        }
        k = k + 1;
    }
    k
}

pub(crate) fn rfind_byte_exec(s: &[u8], lo: usize, b: u8, j: usize) -> (r: Option<usize>)
    requires
        lo <= j <= s@.len(),
    ensures
        r matches Some(k) ==> rfind_byte(s@, lo as int, b, j as int) == Some(k as int) && lo <= k < j && s@[k as int] == b,
        r is None ==> rfind_byte(s@, lo as int, b, j as int) is None,
{
    let mut k = j;
    while k > lo
        invariant
            lo <= k <= j <= s@.len(),
            rfind_byte(s@, lo as int, b, k as int) == rfind_byte(s@, lo as int, b, j as int),
        decreases k - lo,
    {
        if s[k - 1] == b {
            return Some(k - 1);
        }
        k = k - 1;
    }
    None
}

/// The value of the digit byte `c` in `radix` (at most 10).
pub open spec fn digit_value(c: u8, radix: int) -> Option<int> {
    if 0x30 <= c && (c as int) < 0x30 + radix {
        Some(c - 0x30)
    } else {
        None
    }
}

pub open spec fn all_digits(s: Seq<u8>, lo: int, hi: int, radix: int) -> bool {
    forall|k: int| lo <= k < hi ==> #[trigger] digit_value(s[k], radix) is Some
}

/// The value of the digit string `s[lo..hi]` in `radix`.
pub open spec fn digits_value(s: Seq<u8>, lo: int, hi: int, radix: int) -> int
    decreases hi - lo,
{
    if hi <= lo {
        0
    } else {
        digits_value(s, lo, hi - 1, radix) * radix + digit_value(s[hi - 1], radix).unwrap()
    }
}

/// `FromStr` / `from_str_radix` for an integer type with bounds
/// `min..=max` (`min < 0` for signed types): an optional sign (`-` only for
/// signed types), then at least one digit, nothing else, and in range.
pub open spec fn parse_int(s: Seq<u8>, radix: int, min: int, max: int) -> Option<int> {
    if s.len() == 0 {
        None
    } else {
        let neg = s[0] == 0x2d && min < 0;
        let start: int = if s[0] == 0x2b || neg {
            1
        } else {
            0
        };
        if start >= s.len() || (s[0] == 0x2d && s.len() == 1) {
            None
        } else if !all_digits(s, start, s.len() as int, radix) {
            None
        } else {
            let v = digits_value(s, start, s.len() as int, radix);
            let r = if neg {
                -v
            } else {
                v
            };
            if min <= r <= max {
                Some(r)
            } else {
                None
            }
        }
    }
}

pub proof fn lemma_digits_value_nonneg(s: Seq<u8>, lo: int, hi: int, radix: int)
    requires
        all_digits(s, lo, hi, radix),
        radix >= 1,
    ensures
        digits_value(s, lo, hi, radix) >= 0,
    decreases hi - lo,
{
    if hi > lo {
        lemma_digits_value_nonneg(s, lo, hi - 1, radix);
        assert(digit_value(s[hi - 1], radix) is Some);
        assert(digits_value(s, lo, hi - 1, radix) * radix >= 0) by (nonlinear_arith)
            requires
                digits_value(s, lo, hi - 1, radix) >= 0,
                radix >= 1,
        ;
    }
}

pub proof fn lemma_digits_value_mono(s: Seq<u8>, lo: int, mid: int, hi: int, radix: int)
    requires
        lo <= mid <= hi,
        all_digits(s, lo, hi, radix),
        radix >= 1,
    ensures
        digits_value(s, lo, mid, radix) <= digits_value(s, lo, hi, radix),
    decreases hi - mid,
{
    if hi > mid {
        lemma_digits_value_mono(s, lo, mid, hi - 1, radix);
        lemma_digits_value_nonneg(s, lo, hi - 1, radix);
        assert(digit_value(s[hi - 1], radix) is Some);
        let v = digits_value(s, lo, hi - 1, radix);
        assert(v * radix >= v) by (nonlinear_arith)
            requires
                v >= 0,
                radix >= 1,
        ;
    }
}

fn digit_exec(c: u8, radix: u8) -> (r: Option<u8>)
    requires
        1 <= radix <= 10,
    ensures
        r matches Some(d) ==> digit_value(c, radix as int) == Some(d as int) && d < radix,
        r is None ==> digit_value(c, radix as int) is None,
{
    if 0x30 <= c && c < 0x30 + radix {
        Some(c - 0x30)
    } else {
        None
    }
}

/// Parse `s[lo..hi]` as an integer in `radix` within `min..=max`, as `FromStr`
/// or `from_str_radix` would.
pub(crate) fn parse_int_exec(s: &[u8], lo: usize, hi: usize, radix: u8, min: i64, max: u64) -> (r:
    Option<i128>)
    requires
        lo <= hi <= s@.len(),
        1 <= radix <= 10,
        min <= 0,
    ensures
        r matches Some(v) ==> parse_int(s@.subrange(lo as int, hi as int), radix as int, min as int, max as int) == Some(v as int),
        r is None ==> parse_int(s@.subrange(lo as int, hi as int), radix as int, min as int, max as int) is None,
{
    let ghost t = s@.subrange(lo as int, hi as int);
    if lo == hi {
        return None;
    }
    let first = s[lo];
    let neg = first == 0x2d && min < 0;
    let start = if first == 0x2b || neg {
        lo + 1
    } else {
        lo
    };
    if start >= hi || (first == 0x2d && hi - lo == 1) {
        return None;
    }
    // The largest magnitude any accepted value can have.
    let limit: u128 = if neg {
        (0 - (min as i128)) as u128
    } else {
        max as u128
    };
    let mut mag: u128 = 0;
    let mut k = start;
    let ghost st: int = start - lo;
    while k < hi
        invariant
            lo < start <= k <= hi || (lo == start && start <= k <= hi),
            start < hi,
            hi <= s@.len(),
            t == s@.subrange(lo as int, hi as int),
            st == start - lo,
            1 <= radix <= 10,
            limit <= 0x1_0000_0000_0000_0000u128,
            all_digits(t, st, k - lo, radix as int),
            mag as int == digits_value(t, st, k - lo, radix as int),
            mag <= limit,
            t.len() == hi - lo,
            t[0] == first,
            neg == (first == 0x2d && min < 0),
            st == (if first == 0x2b || neg { 1int } else { 0int }),
            limit as int == (if neg { -(min as int) } else { max as int }),
            st < t.len(),
            !(first == 0x2d && t.len() == 1),
        decreases hi - k,
    {
        match digit_exec(s[k], radix) {
            Some(d) => {
                assert(t[k - lo] == s@[k as int]);
                assert(digits_value(t, st, k - lo + 1, radix as int) == mag * (radix as int) + d);
                assert(mag * (radix as u128) <= 0xa_0000_0000_0000_0000u128) by (nonlinear_arith)
                    requires
                        mag <= 0x1_0000_0000_0000_0000u128,
                        radix <= 10,
                ;
                let next = mag * (radix as u128) + (d as u128);
                if next > limit {
                    // Once the magnitude passes the bound it can only grow.
                    proof {
                        assert(t.len() == hi - lo);
                        if all_digits(t, st, t.len() as int, radix as int) {
                            lemma_digits_value_mono(t, st, k - lo + 1, t.len() as int, radix as int);
                            assert(digits_value(t, st, t.len() as int, radix as int) > limit);
                        }
                    }
                    return None;
                }
                mag = next;
            },
            None => {
                assert(t[k - lo] == s@[k as int]);
                assert(!all_digits(t, st, t.len() as int, radix as int));
                return None;
            },
        }
        k = k + 1;
    }
    assert(k - lo == t.len());
    if neg {
        Some(0 - (mag as i128))
    } else {
        Some(mag as i128)
    }
}


// --- Scanning a text embedded in a larger one. ---

/// `u` sits in `t` at offset `o`.
pub open spec fn embeds(t: Seq<u8>, u: Seq<u8>, o: int) -> bool {
    &&& 0 <= o
    &&& o + u.len() <= t.len()
    &&& forall|k: int| 0 <= k < u.len() ==> t[o + k] == #[trigger] u[k]
}

/// Within an embedded text, a range reads the same at its offset.
pub proof fn lemma_subrange_shift(t: Seq<u8>, u: Seq<u8>, o: int, a: int, b: int)
    requires
        embeds(t, u, o),
        0 <= a <= b <= u.len(),
    ensures
        t.subrange(a + o, b + o) == u.subrange(a, b),
{
    assert forall|k: int| 0 <= k < b - a implies #[trigger] t.subrange(a + o, b + o)[k] == u.subrange(a, b)[k] by {
        assert(t[o + (a + k)] == u[a + k]);
    }
    assert(t.subrange(a + o, b + o) =~= u.subrange(a, b));
}

pub proof fn lemma_find_byte_shift(t: Seq<u8>, u: Seq<u8>, o: int, e: int, b: u8, i: int)
    requires
        embeds(t, u, o),
        0 <= i,
        e <= u.len(),
    ensures
        find_byte(t, e + o, b, i + o) == find_byte(u, e, b, i) + o,
        i <= e ==> i <= find_byte(u, e, b, i) <= e,
    decreases e - i,
{
    if i < e {
        assert(t[o + i] == u[i]);
        if u[i] != b {
            lemma_find_byte_shift(t, u, o, e, b, i + 1);
        }
    }
}

pub proof fn lemma_ws_len_at_shift(t: Seq<u8>, u: Seq<u8>, o: int, e: int, i: int)
    requires
        embeds(t, u, o),
        0 <= i,
        e <= u.len(),
    ensures
        ws_len_at(t, e + o, i + o) == ws_len_at(u, e, i),
        ws_len_at(u, e, i) > 0 ==> i + ws_len_at(u, e, i) <= e,
{
    if i < e {
        assert(t[o + i] == u[i]);
    }
    if i + 1 < e {
        assert(t[o + (i + 1)] == u[i + 1]);
    }
    if i + 2 < e {
        assert(t[o + (i + 2)] == u[i + 2]);
    }
}

pub proof fn lemma_ws_len_before_shift(t: Seq<u8>, u: Seq<u8>, o: int, lo: int, j: int)
    requires
        embeds(t, u, o),
        0 <= lo,
        j <= u.len(),
    ensures
        ws_len_before(t, lo + o, j + o) == ws_len_before(u, lo, j),
        ws_len_before(u, lo, j) > 0 ==> lo <= j - ws_len_before(u, lo, j),
{
    if lo <= j - 1 {
        assert(t[o + (j - 1)] == u[j - 1]);
    }
    if lo <= j - 2 {
        assert(t[o + (j - 2)] == u[j - 2]);
    }
    if lo <= j - 3 {
        assert(t[o + (j - 3)] == u[j - 3]);
    }
}

pub proof fn lemma_skip_ws_shift(t: Seq<u8>, u: Seq<u8>, o: int, e: int, i: int)
    requires
        embeds(t, u, o),
        0 <= i <= e <= u.len(),
    ensures
        skip_ws(t, e + o, i + o) == skip_ws(u, e, i) + o,
        i <= skip_ws(u, e, i) <= e,
    decreases e - i,
{
    lemma_ws_len_at_shift(t, u, o, e, i);
    let w = ws_len_at(u, e, i);
    if w > 0 {
        lemma_skip_ws_shift(t, u, o, e, i + w);
    }
}

pub proof fn lemma_skip_ws_back_shift(t: Seq<u8>, u: Seq<u8>, o: int, lo: int, j: int)
    requires
        embeds(t, u, o),
        0 <= lo <= j <= u.len(),
    ensures
        skip_ws_back(t, lo + o, j + o) == skip_ws_back(u, lo, j) + o,
        lo <= skip_ws_back(u, lo, j) <= j,
    decreases j - lo,
{
    lemma_ws_len_before_shift(t, u, o, lo, j);
    let w = ws_len_before(u, lo, j);
    if w > 0 {
        lemma_skip_ws_back_shift(t, u, o, lo, j - w);
    }
}

pub proof fn lemma_trim_shift(t: Seq<u8>, u: Seq<u8>, o: int, lo: int, hi: int)
    requires
        embeds(t, u, o),
        0 <= lo <= hi <= u.len(),
    ensures
        trim(t, lo + o, hi + o) == (trim(u, lo, hi).0 + o, trim(u, lo, hi).1 + o),
        lo <= trim(u, lo, hi).0 <= trim(u, lo, hi).1 <= hi,
{
    lemma_skip_ws_shift(t, u, o, hi, lo);
    let a = skip_ws(u, hi, lo);
    lemma_skip_ws_back_shift(t, u, o, a, hi);
}

pub proof fn lemma_token_end_shift(t: Seq<u8>, u: Seq<u8>, o: int, e: int, i: int)
    requires
        embeds(t, u, o),
        0 <= i <= e <= u.len(),
    ensures
        token_end(t, e + o, i + o) == token_end(u, e, i) + o,
        i <= token_end(u, e, i) <= e,
    decreases e - i,
{
    lemma_ws_len_at_shift(t, u, o, e, i);
    if i < e && ws_len_at(u, e, i) == 0 {
        lemma_token_end_shift(t, u, o, e, i + 1);
    }
}

pub proof fn lemma_next_token_shift(t: Seq<u8>, u: Seq<u8>, o: int, e: int, i: int)
    requires
        embeds(t, u, o),
        0 <= i <= e <= u.len(),
    ensures
        next_token(t, e + o, i + o) == match next_token(u, e, i) {
            None => None,
            Some((x, y)) => Some((x + o, y + o)),
        },
        next_token(u, e, i) matches Some((x, y)) ==> i <= x <= y <= e,
{
    lemma_skip_ws_shift(t, u, o, e, i);
    let a = skip_ws(u, e, i);
    if a < e {
        lemma_token_end_shift(t, u, o, e, a);
    }
}

pub proof fn lemma_line_at_shift(t: Seq<u8>, u: Seq<u8>, o: int, e: int, p: int)
    requires
        embeds(t, u, o),
        0 <= p,
        e <= u.len(),
    ensures
        line_at(t, e + o, p + o) == (line_at(u, e, p).0 + o, line_at(u, e, p).1 + o),
{
    lemma_find_byte_shift(t, u, o, e, 0x0a, p);
    let q = find_byte(u, e, 0x0a, p);
    if q < e && q > p {
        assert(t[o + (q - 1)] == u[q - 1]);
    }
}

/// Where the search stops before its end, it found the byte.
pub proof fn lemma_find_byte_hit(s: Seq<u8>, e: int, b: u8, i: int)
    requires
        0 <= i,
        e <= s.len(),
        find_byte(s, e, b, i) < e,
    ensures
        i <= find_byte(s, e, b, i),
        s[find_byte(s, e, b, i)] == b,
    decreases e - i,
{
    if i < e && s[i] != b {
        lemma_find_byte_hit(s, e, b, i + 1);
    }
}

/// A byte `b` at `k` bounds where the search for it from `i` stops.
pub proof fn lemma_find_byte_before(s: Seq<u8>, e: int, b: u8, i: int, k: int)
    requires
        0 <= i <= k < e <= s.len(),
        s[k] == b,
    ensures
        find_byte(s, e, b, i) <= k,
    decreases k - i,
{
    if s[i] != b {
        lemma_find_byte_before(s, e, b, i + 1, k);
    }
}

/// A search that stops before its end stops there for any later end too.
pub proof fn lemma_find_byte_extend(s: Seq<u8>, e1: int, e2: int, b: u8, i: int)
    requires
        find_byte(s, e1, b, i) < e1 <= e2,
    ensures
        find_byte(s, e2, b, i) == find_byte(s, e1, b, i),
    decreases e1 - i,
{
    if i < e1 && !(0 <= i < s.len() && s[i] == b) {
        lemma_find_byte_extend(s, e1, e2, b, i + 1);
    }
}

} // verus!
