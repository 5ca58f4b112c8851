use vstd::prelude::*;

use crate::error::{GitError, GitErrorModel};
use crate::strings::{
    all_ascii, ascii_to_string, char_debug, char_debug_text, debug_text, decimal_string,
    decimal_text, join, str_debug, string_of, text,
};
use vstd::utf8::*;
use vstd::string::StringSliceAdditionalSpecFns;

verus! {

/// The value of an ASCII hex digit (either case), as `hex` decodes it.
pub open spec fn hex_digit_value(c: u8) -> Option<u8> {
    if 0x30 <= c <= 0x39 {
        Some((c - 0x30) as u8)
    } else if 0x61 <= c <= 0x66 {
        Some((c - 0x61 + 10) as u8)
    } else if 0x41 <= c <= 0x46 {
        Some((c - 0x41 + 10) as u8)
    } else {
        None
    }
}

pub open spec fn is_hex_digit(c: u8) -> bool {
    hex_digit_value(c) is Some
}

/// Exactly 40 hex digits: the text form of an object name.
pub open spec fn is_hash_text(s: Seq<u8>) -> bool {
    s.len() == 40 && forall|i: int| 0 <= i < 40 ==> #[trigger] is_hex_digit(s[i])
}

/// The bytes that a string of hex digit pairs stands for.
pub open spec fn hex_decode(s: Seq<u8>) -> Seq<u8> {
    Seq::new(
        s.len() / 2,
        |i: int|
            (hex_digit_value(s[2 * i]).unwrap() * 16 + hex_digit_value(s[2 * i + 1]).unwrap()) as u8,
    )
}

/// The lowercase ASCII hex digit for a value below 16.
pub open spec fn hex_char(v: int) -> u8 {
    if v < 10 {
        (0x30 + v) as u8
    } else {
        (0x61 + v - 10) as u8
    }
}

/// The lowercase hex text of a byte string: two digits per byte, high nibble first.
pub open spec fn hex_encode(b: Seq<u8>) -> Seq<u8> {
    Seq::new(
        2 * b.len(),
        |i: int|
            if i % 2 == 0 {
                hex_char(b[i / 2] as int / 16)
            } else {
                hex_char(b[i / 2] as int % 16)
            },
    )
}
/// A lowercase hex digit.
pub open spec fn is_lower_hex_digit(c: u8) -> bool {
    (0x30 <= c <= 0x39) || (0x61 <= c <= 0x66)
}

/// Lowercase hex digits throughout.
pub open spec fn is_lower_hex(s: Seq<u8>) -> bool {
    forall|i: int| 0 <= i < s.len() ==> #[trigger] is_lower_hex_digit(s[i])
}

proof fn lemma_hex_char_value(v: int)
    requires
        0 <= v < 16,
    ensures
        hex_digit_value(hex_char(v)) == Some(v as u8),
        is_lower_hex_digit(hex_char(v)),
{
}

proof fn lemma_value_hex_char(c: u8)
    requires
        is_lower_hex_digit(c),
    ensures
        hex_char(hex_digit_value(c).unwrap() as int) == c,
        hex_digit_value(c).unwrap() < 16,
{
}

/// Hex text of 20 bytes is 40 lowercase hex digits that decode back to them.
pub proof fn lemma_hex_encode_decode(b: Seq<u8>)
    requires
        b.len() == 20,
    ensures
        is_hash_text(hex_encode(b)),
        is_lower_hex(hex_encode(b)),
        hex_decode(hex_encode(b)) == b,
{
    let e = hex_encode(b);
    assert forall|i: int| 0 <= i < e.len() implies is_lower_hex_digit(e[i]) && is_hex_digit(e[i]) by {
        if i % 2 == 0 {
            lemma_hex_char_value(b[i / 2] as int / 16);
        } else {
            lemma_hex_char_value(b[i / 2] as int % 16);
        }
    }
    assert forall|i: int| 0 <= i < 20 implies #[trigger] hex_decode(e)[i] == b[i] by {
        assert(e[2 * i] == hex_char(b[i] as int / 16));
        assert(e[2 * i + 1] == hex_char(b[i] as int % 16));
        lemma_hex_char_value(b[i] as int / 16);
        lemma_hex_char_value(b[i] as int % 16);
    }
    assert(hex_decode(e) =~= b);
}

/// Lowercase hex text decodes to bytes whose hex text it is.
pub proof fn lemma_hex_decode_encode(s: Seq<u8>)
    requires
        s.len() == 40,
        is_lower_hex(s),
    ensures
        hex_encode(hex_decode(s)) == s,
{
    let d = hex_decode(s);
    assert forall|i: int| 0 <= i < 40 implies #[trigger] hex_encode(d)[i] == s[i] by {
        let j = i / 2;
        lemma_value_hex_char(s[2 * j]);
        lemma_value_hex_char(s[2 * j + 1]);
        let hi = hex_digit_value(s[2 * j]).unwrap() as int;
        let lo = hex_digit_value(s[2 * j + 1]).unwrap() as int;
        assert(d[j] == hi * 16 + lo);
        assert((hi * 16 + lo) / 16 == hi);
        assert((hi * 16 + lo) % 16 == lo);
    }
    assert(hex_encode(d) =~= s);
}

fn hex_value(c: u8) -> (r: Option<u8>)
    ensures
        r == hex_digit_value(c),
{
    if 0x30 <= c && c <= 0x39 {
        Some(c - 0x30)
    } else if 0x61 <= c && c <= 0x66 {
        Some(c - 0x61 + 10)
    } else if 0x41 <= c && c <= 0x46 {
        Some(c - 0x41 + 10)
    } else {
        None
    }
}

fn hex_digit(v: u8) -> (r: u8)
    requires
        v < 16,
    ensures
        r == hex_char(v as int),
        r < 0x80,
{
    if v < 10 {
        0x30 + v
    } else {
        0x61 + v - 10
    }
}

/// A SHA-1 object name.
#[derive(Clone, Copy, Debug, Hash, Eq)]
pub struct GitHash(pub [u8; 20]);

impl PartialEq for GitHash {
    fn eq(&self, other: &GitHash) -> (r: bool) {
        let mut i: usize = 0;
        while i < 20
            invariant
                0 <= i <= 20,
                forall|j: int| 0 <= j < i ==> self.0@[j] == other.0@[j],
            decreases 20 - i,
        {
            if self.0[i] != other.0[i] {
                return false;
            }
            i = i + 1;
        }
        assert(self.0@ =~= other.0@);
        true
    }
}

impl vstd::std_specs::cmp::PartialEqSpecImpl for GitHash {
    open spec fn obeys_eq_spec() -> bool {
        true
    }

    open spec fn eq_spec(&self, other: &GitHash) -> bool {
        self.0@ == other.0@
    }
}

/// The object whose 20 raw name bytes are `s`.
pub open spec fn hash_of_bytes(s: Seq<u8>) -> GitHash {
    GitHash(choose|a: [u8; 20]| a@ == s)
}

/// A name is the object of its own bytes.
pub proof fn lemma_hash_of_bytes(h: GitHash)
    ensures
        hash_of_bytes(h.0@) == h,
{
    assert(exists|a: [u8; 20]| #[trigger] a@ == h.0@) by {
        assert(h.0@ == h.0@);
    }
    let a = choose|a: [u8; 20]| #[trigger] a@ == h.0@;
    vstd::array::axiom_array_ext_equal(a, h.0);
}

/// Two hashes are the same value exactly when their bytes are.
pub proof fn lemma_hash_eq(a: GitHash, b: GitHash)
    ensures
        (a == b) <==> (a.0@ == b.0@),
{
    if a.0@ == b.0@ {
        vstd::array::axiom_array_ext_equal(a.0, b.0);
    }
}

/// The position of the first byte of `t` from `i` on that is no hex digit
/// (the length of `t` if there is none).
pub open spec fn first_non_hex(t: Seq<u8>, i: int) -> int
    decreases t.len() - i,
{
    if i < 0 || i >= t.len() {
        t.len() as int
    } else if !is_hex_digit(t[i]) {
        i
    } else {
        first_non_hex(t, i + 1)
    }
}

/// What `from_hex` says of a text `t` that is not 40 hex digits: a wrong
/// length is reported with the length; otherwise the first character that is
/// no hex digit and its position, as the `hex` crate words it; in both cases
/// the text itself follows, quoted.
pub open spec fn hex_error_message(t: Seq<u8>) -> Seq<char> {
    let shown = debug_text(decode_utf8(t));
    if t.len() != 40 {
        "expected 40 hex chars, got "@ + decimal_text(t.len()) + ": "@ + shown
    } else {
        let k = first_non_hex(t, 0);
        "Invalid character "@ + char_debug_text(t[k] as char) + " at position "@ + decimal_text(
            k as nat,
        ) + ": "@ + shown
    }
}

/// The error of `from_hex` for the text `s[lo..hi]`, which is well-formed
/// UTF-8 but not 40 hex digits.
pub(crate) fn hex_error(s: &[u8], lo: usize, hi: usize) -> (e: GitError)
    requires
        lo <= hi <= s@.len(),
        valid_utf8(s@.subrange(lo as int, hi as int)),
        !is_hash_text(s@.subrange(lo as int, hi as int)),
    ensures
        e.model() == GitErrorModel::InvalidHash(hex_error_message(s@.subrange(lo as int, hi as int))),
{
    let ghost t = s@.subrange(lo as int, hi as int);
    let shown_text = string_of(s, lo, hi);
    proof {
        encode_utf8_decode_utf8(shown_text@);
    }
    let shown = str_debug(shown_text.as_str());
    if hi - lo != 40 {
        let m = join(text("expected 40 hex chars, got "), decimal_string((hi - lo) as u64).as_str());
        let m = join(m, ": ");
        return GitError::InvalidHash(join(m, shown.as_str()));
    }
    let mut k: usize = lo;
    while k < hi
        invariant
            t == s@.subrange(lo as int, hi as int),
            hi - lo == 40,
            lo <= k <= hi <= s@.len(),
            !is_hash_text(t),
            forall|j: int| 0 <= j < k - lo ==> #[trigger] is_hex_digit(t[j]),
            first_non_hex(t, 0) == first_non_hex(t, k - lo),
            shown@ == debug_text(decode_utf8(t)),
        decreases hi - k,
    {
        assert(t[k - lo] == s@[k as int]);
        if hex_value(s[k]).is_none() {
            let m = join(text("Invalid character "), char_debug(s[k] as char).as_str());
            let m = join(m, " at position ");
            let m = join(m, decimal_string((k - lo) as u64).as_str());
            let m = join(m, ": ");
            return GitError::InvalidHash(join(m, shown.as_str()));
        }
        k = k + 1;
    }
    assert(false);
    GitError::InvalidHash(shown)
}

impl GitHash {
    /// Build a hash from exactly 20 raw bytes.
    pub fn from_bytes(b: &[u8]) -> (r: Result<GitHash, GitError>)
        ensures
            r is Ok <==> b@.len() == 20,
            r matches Ok(h) ==> h.0@ == b@,
            r matches Err(e) ==> e.model() == GitErrorModel::InvalidHash(
                "expected 20 bytes, got "@ + decimal_text(b@.len()),
            ),
    {
        if b.len() != 20 {
            let msg = join(text("expected 20 bytes, got "), decimal_string(b.len() as u64).as_str());
            return Err(GitError::InvalidHash(msg));
        }
        let mut arr = [0u8; 20];
        let mut i: usize = 0;
        while i < 20
            invariant
                b@.len() == 20,
                0 <= i <= 20,
                forall|j: int| 0 <= j < i ==> arr@[j] == b@[j],
            decreases 20 - i,
        {
            arr[i] = b[i];
            i = i + 1;
        }
        assert(arr@ =~= b@);
        Ok(GitHash(arr))
    }

    /// Parse 40 hex digits (either case) into a hash.
    pub fn from_hex(s: &str) -> (r: Result<GitHash, GitError>)
        ensures
            r is Ok <==> is_hash_text(s.spec_bytes()),
            r matches Ok(h) ==> h.0@ == hex_decode(s.spec_bytes()),
            r matches Err(e) ==> e.model() == GitErrorModel::InvalidHash(hex_error_message(s.spec_bytes())),
    {
        let b = s.as_bytes();
        assert(b@.subrange(0, b@.len() as int) =~= b@);
        proof {
            encode_utf8_valid_utf8(s@);
        }
        match GitHash::parse_hex(b, 0, b.len()) {
            Some(h) => Ok(h),
            None => Err(hex_error(b, 0, b.len())),
        }
    }

    /// Parse the hex digits `s[lo..hi]` into a hash, if they are 40 of them.
    pub(crate) fn parse_hex(s: &[u8], lo: usize, hi: usize) -> (r: Option<GitHash>)
        requires
            lo <= hi <= s@.len(),
        ensures
            r is Some <==> is_hash_text(s@.subrange(lo as int, hi as int)),
            r matches Some(h) ==> h.0@ == hex_decode(s@.subrange(lo as int, hi as int)),
    {
        let ghost t = s@.subrange(lo as int, hi as int);
        if hi - lo != 40 {
            return None;
        }
        let mut arr = [0u8; 20];
        let mut i: usize = 0;
        while i < 20
            invariant
                t == s@.subrange(lo as int, hi as int),
                hi - lo == 40,
                hi <= s@.len(),
                0 <= i <= 20,
                forall|j: int| 0 <= j < 2 * i ==> #[trigger] is_hex_digit(t[j]),
                forall|j: int| 0 <= j < i ==> arr@[j] == hex_decode(t)[j],
            decreases 20 - i,
        {
            let h = hex_value(s[lo + 2 * i]);
            let l = hex_value(s[lo + 2 * i + 1]);
            assert(t[2 * i as int] == s@[lo + 2 * i]);
            assert(t[2 * i + 1] == s@[lo + 2 * i + 1]);
            match (h, l) {
                (Some(h), Some(l)) => {
                    arr[i] = h * 16 + l;
                },
                _ => {
                    assert(!is_hex_digit(t[2 * i as int]) || !is_hex_digit(t[2 * i + 1]));
                    return None;
                },
            }
            i = i + 1;
        }
        assert(arr@ =~= hex_decode(t));
        Some(GitHash(arr))
    }

    /// The 40-digit lowercase hex text.
    pub fn to_hex(&self) -> (r: String)
        ensures
            encode_utf8(r@) == hex_encode(self.0@),
    {
        let mut v: Vec<u8> = Vec::new();
        let mut i: usize = 0;
        while i < 20
            invariant
                0 <= i <= 20,
                v@.len() == 2 * i,
                forall|j: int| 0 <= j < 2 * i ==> v@[j] == #[trigger] hex_encode(self.0@)[j],
                all_ascii(v@),
            decreases 20 - i,
        {
            let b = self.0[i];
            v.push(hex_digit(b / 16));
            v.push(hex_digit(b % 16));
            i = i + 1;
        }
        assert(v@ =~= hex_encode(self.0@));
        ascii_to_string(v)
    }

    /// The loose-object path of this hash: the first two hex digits (the
    /// directory) and the remaining 38 (the file name).
    pub fn object_path(&self) -> (r: (String, String))
        ensures
            encode_utf8(r.0@) == hex_encode(self.0@).subrange(0, 2),
            encode_utf8(r.1@) == hex_encode(self.0@).subrange(2, 40),
    {
        let mut dir: Vec<u8> = Vec::new();
        let mut file: Vec<u8> = Vec::new();
        let ghost hex = hex_encode(self.0@);
        let mut i: usize = 0;
        while i < 20
            invariant
                0 <= i <= 20,
                hex == hex_encode(self.0@),
                i == 0 ==> dir@.len() == 0 && file@.len() == 0,
                i >= 1 ==> dir@ == hex.subrange(0, 2) && file@ == hex.subrange(2, 2 * i as int),
                all_ascii(dir@),
                all_ascii(file@),
            decreases 20 - i,
        {
            let b = self.0[i];
            let hi = hex_digit(b / 16);
            let lo = hex_digit(b % 16);
            if i == 0 {
                dir.push(hi);
                dir.push(lo);
                assert(dir@ =~= hex.subrange(0, 2));
                assert(file@ =~= hex.subrange(2, 2));
            } else {
                file.push(hi);
                file.push(lo);
                assert(file@ =~= hex.subrange(2, 2 * (i + 1)));
            }
            i = i + 1;
        }
        (ascii_to_string(dir), ascii_to_string(file))
    }

    /// The 20 raw bytes.
    pub fn as_bytes(&self) -> (r: &[u8; 20])
        ensures
            r@ == self.0@,
    {
        &self.0
    }
}


/// An ASCII letter folded to lowercase; other bytes unchanged.
pub open spec fn ascii_lower(c: u8) -> u8 {
    if 0x41 <= c <= 0x5a {
        (c + 32) as u8
    } else {
        c
    }
}

/// Text folded to ASCII lowercase (`to_ascii_lowercase`).
pub open spec fn ascii_lowercase(s: Seq<u8>) -> Seq<u8> {
    s.map_values(|c: u8| ascii_lower(c))
}

proof fn lemma_any_hex_char(c: u8)
    requires
        is_hex_digit(c),
    ensures
        hex_char(hex_digit_value(c).unwrap() as int) == ascii_lower(c),
        hex_digit_value(c).unwrap() < 16,
{
}

/// The text form of names round-trips both ways: the hex text of any name is
/// 40 lowercase hex digits that read back as the same name; and a name read
/// from 40 hex digits (either case) prints as that text in lowercase.
pub proof fn law_hex_roundtrip(h: GitHash, t: Seq<u8>)
    ensures
        is_hash_text(hex_encode(h.0@)),
        is_lower_hex(hex_encode(h.0@)),
        hash_of_bytes(hex_decode(hex_encode(h.0@))) == h,
        is_hash_text(t) ==> hex_encode(hex_decode(t)) == ascii_lowercase(t),
{
    lemma_hex_encode_decode(h.0@);
    lemma_hash_of_bytes(h);
    if is_hash_text(t) {
        let d = hex_decode(t);
        assert forall|i: int| 0 <= i < 40 implies #[trigger] hex_encode(d)[i] == ascii_lowercase(t)[i] by {
            let j = i / 2;
            assert(is_hex_digit(t[2 * j]));
            assert(is_hex_digit(t[2 * j + 1]));
            lemma_any_hex_char(t[2 * j]);
            lemma_any_hex_char(t[2 * j + 1]);
            let hi = hex_digit_value(t[2 * j]).unwrap() as int;
            let lo = hex_digit_value(t[2 * j + 1]).unwrap() as int;
            assert(d[j] == hi * 16 + lo);
            assert((hi * 16 + lo) / 16 == hi);
            assert((hi * 16 + lo) % 16 == lo);
        }
        assert(hex_encode(d) =~= ascii_lowercase(t));
    }
}

} // verus!
