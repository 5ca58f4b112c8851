//! Byte-level text handling: UTF-8 conversion at the edges, ASCII helpers.
use vstd::prelude::*;
use vstd::utf8::*;
use vstd::string::StringSliceAdditionalSpecFns;
use vstd::string::StringExecFns;

use crate::text::{decimal, decimal_exec, lemma_decimal_ascii};

verus! {

broadcast use vstd::utf8::group_utf8_lib;

/// `String::from_utf8`: succeeds exactly when the bytes are well-formed UTF-8,
/// and the resulting `String` holds exactly those bytes.
#[verifier::external_body]
pub(crate) fn string_from_utf8(v: Vec<u8>) -> (r: Option<String>)
    ensures
        r is Some <==> valid_utf8(v@),
        r matches Some(s) ==> encode_utf8(s@) == v@,
{
    String::from_utf8(v).ok()
}

/// The text of the `Utf8Error` that `std::str::from_utf8` reports for `b`.
pub uninterp spec fn utf8_error_text(b: Seq<u8>) -> Seq<char>;

/// `std::str::from_utf8(b)`: `None` when the bytes are well-formed UTF-8,
/// else the text (`to_string`) of the error it reports.
#[verifier::external_body]
pub(crate) fn utf8_error(b: &[u8]) -> (r: Option<String>)
    ensures
        r is None <==> valid_utf8(b@),
        r matches Some(m) ==> m@ == utf8_error_text(b@),
{
    match std::str::from_utf8(b) {
        Ok(_) => None,
        Err(e) => Some(e.to_string()),
    }
}

/// What `format!("{:?}", s)` gives for a string: std's quoted and escaped
/// rendering of it.
pub uninterp spec fn debug_text(s: Seq<char>) -> Seq<char>;

/// `format!("{:?}", s)` for a string slice.
#[verifier::external_body]
pub(crate) fn str_debug(s: &str) -> (r: String)
    ensures
        r@ == debug_text(s@),
{
    format!("{:?}", s)
}

/// What `format!("{:?}", c)` gives for a character: std's quoted and escaped
/// rendering of it.
pub uninterp spec fn char_debug_text(c: char) -> Seq<char>;

/// `format!("{:?}", c)` for a character.
#[verifier::external_body]
pub(crate) fn char_debug(c: char) -> (r: String)
    ensures
        r@ == char_debug_text(c),
{
    format!("{:?}", c)
}

/// The bytes that `String::from_utf8_lossy` yields for `b`: a name for std's
/// replacement of every ill-formed sequence by U+FFFD.
pub uninterp spec fn lossy_utf8(b: Seq<u8>) -> Seq<u8>;

/// `String::from_utf8_lossy`, as the UTF-8 bytes of the text it returns.
/// Its result is always well-formed UTF-8, and well-formed input comes back
/// unchanged (std borrows it as is).
#[verifier::external_body]
pub(crate) fn from_utf8_lossy_bytes(b: &[u8]) -> (r: Vec<u8>)
    ensures
        r@ == lossy_utf8(b@),
        valid_utf8(r@),
        valid_utf8(b@) ==> r@ == b@,
{
    String::from_utf8_lossy(b).into_owned().into_bytes()
}

/// All bytes are 7-bit ASCII.
pub open spec fn all_ascii(s: Seq<u8>) -> bool {
    forall|i: int| 0 <= i < s.len() ==> #[trigger] s[i] < 0x80
}

/// A byte string of ASCII characters is well-formed UTF-8.
pub proof fn lemma_ascii_valid_utf8(s: Seq<u8>)
    requires
        all_ascii(s),
    ensures
        valid_utf8(s),
{
    assert(s.subrange(0, 0) =~= Seq::<u8>::empty());
    assert(valid_utf8(Seq::<u8>::empty()));
    partial_valid_utf8_extend_ascii_block(s, 0, s.len() as int);
    assert(s.subrange(0, s.len() as int) =~= s);
}

/// Turn ASCII bytes into a `String` holding them.
pub(crate) fn ascii_to_string(v: Vec<u8>) -> (r: String)
    requires
        all_ascii(v@),
    ensures
        encode_utf8(r@) == v@,
{
    proof {
        lemma_ascii_valid_utf8(v@);
    }
    let ghost bytes = v@;
    match string_from_utf8(v) {
        Some(s) => s,
        None => {
            assert(false);
            String::new()
        },
    }
}

/// `i` is the end of `s` or holds a byte that starts a character.
pub open spec fn at_char_start(s: Seq<u8>, i: int) -> bool {
    i == s.len() || (0 <= i < s.len() && !is_continuation_byte(s[i]))
}

proof fn lemma_char_start_boundary(s: Seq<u8>, i: int)
    requires
        valid_utf8(s),
        at_char_start(s, i),
    ensures
        is_char_boundary(s, i),
{
    if i == s.len() {
        is_char_boundary_start_end_of_seq(s);
    } else {
        is_char_boundary_iff_not_is_continuation_byte(s, i);
    }
}

/// Position 0 always starts a character (or ends an empty string).
pub proof fn lemma_char_start_zero(s: Seq<u8>)
    requires
        valid_utf8(s),
    ensures
        at_char_start(s, 0),
{
    if s.len() > 0 {
        assert(valid_first_scalar(s));
    }
}

/// Cutting well-formed UTF-8 at two character starts leaves well-formed UTF-8.
pub proof fn lemma_valid_cut(s: Seq<u8>, i: int, j: int)
    requires
        valid_utf8(s),
        0 <= i <= j <= s.len(),
        at_char_start(s, i),
        at_char_start(s, j),
    ensures
        valid_utf8(s.subrange(i, j)),
{
    lemma_char_start_boundary(s, i);
    valid_utf8_split(s, i);
    let t = s.subrange(i, s.len() as int);
    assert(at_char_start(t, j - i)) by {
        if j < s.len() {
            assert(t[j - i] == s[j]);
        }
    }
    lemma_char_start_boundary(t, j - i);
    valid_utf8_split(t, j - i);
    assert(t.subrange(0, j - i) =~= s.subrange(i, j));
}

/// After a character that starts with an ASCII byte, `C2` or `E1..=E3` and has
/// the width that its first byte announces, the next byte starts a character.
pub proof fn lemma_next_char_start(s: Seq<u8>, k: int, w: int)
    requires
        valid_utf8(s),
        at_char_start(s, k),
        0 <= k,
        k + w <= s.len(),
        (w == 1 && s[k] < 0x80) || (w == 2 && s[k] == 0xc2) || (w == 3 && 0xe1 <= s[k] <= 0xe3),
    ensures
        at_char_start(s, k + w),
{
    lemma_char_start_boundary(s, k);
    valid_utf8_split(s, k);
    let t = s.subrange(k, s.len() as int);
    assert(t[0] == s[k]);
    assert(length_of_first_scalar(t) == w);
    assert(valid_utf8(pop_first_scalar(t)));
    let u = pop_first_scalar(t);
    if k + w < s.len() {
        assert(u[0] == s[k + w]);
        assert(valid_first_scalar(u));
    }
}

/// Copy `s[lo..hi]`, which is well-formed UTF-8, into a `String`.
pub(crate) fn string_of(s: &[u8], lo: usize, hi: usize) -> (r: String)
    requires
        lo <= hi <= s@.len(),
        valid_utf8(s@.subrange(lo as int, hi as int)),
    ensures
        encode_utf8(r@) == s@.subrange(lo as int, hi as int),
{
    let mut v: Vec<u8> = Vec::new();
    let mut k = lo;
    while k < hi
        invariant
            lo <= k <= hi <= s@.len(),
            v@ == s@.subrange(lo as int, k as int),
        decreases hi - k,
    {
        v.push(s[k]);
        k = k + 1;
        assert(v@ =~= s@.subrange(lo as int, k as int));
    }
    match string_from_utf8(v) {
        Some(r) => r,
        None => {
            assert(false);
            String::new()
        },
    }
}

/// The decimal digits of `n`, as text.
pub open spec fn decimal_text(n: nat) -> Seq<char> {
    decode_utf8(decimal(n))
}

/// `n.to_string()` for a count.
pub(crate) fn decimal_string(n: u64) -> (r: String)
    ensures
        r@ == decimal_text(n as nat),
{
    let v = decimal_exec(n);
    proof {
        lemma_decimal_ascii(n as nat);
    }
    let r = ascii_to_string(v);
    proof {
        encode_utf8_decode_utf8(r@);
    }
    r
}

/// `a` followed by `b`.
pub(crate) fn join(a: String, b: &str) -> (r: String)
    ensures
        r@ == a@ + b@,
{
    let mut a = a;
    a.append(b);
    a
}

/// A fixed diagnostic message.
pub(crate) fn text(s: &str) -> (r: String)
    ensures
        r@ == s@,
{
    s.to_owned()
}


/// Append the UTF-8 bytes of `s` to `out`.
pub(crate) fn push_text(out: &mut Vec<u8>, s: &str)
    ensures
        final(out)@ == old(out)@ + s.spec_bytes(),
{
    let b = s.as_bytes();
    let ghost start = out@;
    let mut k: usize = 0;
    while k < b.len()
        invariant
            0 <= k <= b@.len(),
            out@ == start + b@.subrange(0, k as int),
        decreases b@.len() - k,
    {
        out.push(b[k]);
        k = k + 1;
        assert(out@ =~= start + b@.subrange(0, k as int));
    }
    assert(b@.subrange(0, b@.len() as int) =~= b@);
}

/// The text whose UTF-8 bytes are `v`.
pub(crate) fn utf8_string(v: Vec<u8>) -> (r: String)
    requires
        valid_utf8(v@),
    ensures
        encode_utf8(r@) == v@,
{
    match string_from_utf8(v) {
        Some(s) => s,
        None => {
            assert(false);
            String::new()
        },
    }
}

} // verus!
