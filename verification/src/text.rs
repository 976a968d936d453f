//! Text conversions: C character arrays to Rust strings, decimal numbers,
//! and character-level string building.

use vstd::prelude::*;
use vstd::utf8::*;

verus! {

/// What `String::from_utf8_lossy` makes of a byte sequence: the bytes decoded
/// as UTF-8, with each invalid sequence replaced by U+FFFD.
pub uninterp spec fn utf8_lossy(bytes: Seq<u8>) -> Seq<char>;

/// Calls `String::from_utf8_lossy` and takes the owned result.
///
/// Claims: the result is a function of the bytes alone, and on valid UTF-8 it
/// is exactly the decoded text (the standard library documents that valid
/// input is returned unchanged). How invalid sequences are replaced is left
/// to the name `utf8_lossy`.
#[verifier::external_body]
fn from_utf8_lossy(bytes: &[u8]) -> (s: String)
    ensures
        s@ == utf8_lossy(bytes@),
        valid_utf8(bytes@) ==> s@ == decode_utf8(bytes@),
{
    String::from_utf8_lossy(bytes).into_owned()
}

/// Calls `String::push`: appends one character.
#[verifier::external_body]
pub(crate) fn push_char(s: &mut String, c: char)
    ensures
        final(s)@ == old(s)@.push(c),
{
    s.push(c)
}

/// The bytes of a C `char` array whose elements are all non-negative.
pub open spec fn i8_bytes(arr: Seq<i8>) -> Seq<u8> {
    Seq::new(arr.len(), |i: int| arr[i] as u8)
}

/// Every element of a C `char` array is non-negative (a 7-bit character).
pub open spec fn all_non_negative(arr: Seq<i8>) -> bool {
    forall|i: int| 0 <= i < arr.len() ==> arr[i] >= 0
}

/// The characters that a 7-bit C `char` array stands for, one per element.
pub open spec fn i8_chars(arr: Seq<i8>) -> Seq<char> {
    Seq::new(arr.len(), |i: int| (arr[i] as u8) as char)
}

/// Decodes a byte array as UTF-8, replacing invalid sequences.
pub fn u8_array_to_string(arr: &[u8]) -> (s: String)
    ensures
        s@ == utf8_lossy(arr@),
        valid_utf8(arr@) ==> s@ == decode_utf8(arr@),
{
    from_utf8_lossy(arr)
}

/// Converts a C `char` array to a string: every element is read as a byte
/// (elements must be non-negative) and the bytes are decoded as UTF-8.
/// Being 7-bit, the bytes decode one character each.
pub fn i8_array_to_string(arr: &[i8]) -> (s: String)
    requires
        all_non_negative(arr@),
    ensures
        s@ == utf8_lossy(i8_bytes(arr@)),
        s@ == i8_chars(arr@),
{
    let mut bytes: Vec<u8> = Vec::new();
    let mut i: usize = 0;
    while i < arr.len()
        invariant
            i <= arr.len(),
            bytes@ == i8_bytes(arr@.take(i as int)),
            all_non_negative(arr@),
        decreases arr.len() - i,
    {
        let x: i8 = arr[i];
        bytes.push(x as u8);
        i = i + 1;
        assert(bytes@ =~= i8_bytes(arr@.take(i as int)));
    }
    assert(arr@.take(arr.len() as int) =~= arr@);
    proof {
        lemma_ascii_bytes_decode(arr@);
    }
    u8_array_to_string(bytes.as_slice())
}

/// Non-negative C `char`s are ASCII, so their bytes are valid UTF-8 that
/// decodes to one character per byte.
proof fn lemma_ascii_bytes_decode(arr: Seq<i8>)
    requires
        all_non_negative(arr),
    ensures
        valid_utf8(i8_bytes(arr)),
        decode_utf8(i8_bytes(arr)) == i8_chars(arr),
{
    let cs = i8_chars(arr);
    assert(is_ascii_chars(cs)) by {
        assert forall|i| 0 <= i < cs.len() implies '\0' <= #[trigger] cs[i] <= '\u{7f}' by {
            let b: u8 = arr[i] as u8;
            assert(b < 128);
        }
    }
    is_ascii_chars_encode_utf8(cs);
    assert(encode_utf8(cs) =~= i8_bytes(arr)) by {
        assert forall|i| 0 <= i < cs.len() implies encode_utf8(cs)[i] == i8_bytes(arr)[i] by {
            assert(cs[i] as u8 == encode_utf8(cs)[i]);
        }
    }
    encode_utf8_valid_utf8(cs);
    encode_utf8_decode_utf8(cs);
}

/// The ASCII digit for `d < 10`.
pub open spec fn digit_char(d: nat) -> char {
    ((48 + d) as u8) as char
}

/// The decimal representation of `n`, most significant digit first, with no
/// leading zeros (zero itself is `"0"`).
pub open spec fn decimal_digits(n: nat) -> Seq<char>
    decreases n,
{
    if n < 10 {
        seq![digit_char(n)]
    } else {
        decimal_digits(n / 10).push(digit_char(n % 10))
    }
}

/// Writes `n` in decimal.
pub fn decimal_string(n: u32) -> (s: String)
    ensures
        s@ == decimal_digits(n as nat),
    decreases n,
{
    let d: u8 = (n % 10) as u8;
    let c: char = (48u8 + d) as char;
    if n < 10 {
        let mut s = String::new();
        push_char(&mut s, c);
        s
    } else {
        let mut s = decimal_string(n / 10);
        push_char(&mut s, c);
        s
    }
}

/// The characters of a string slice, in order.
pub fn chars_of(s: &str) -> (v: Vec<char>)
    ensures
        v@ == s@,
{
    broadcast use vstd::string::group_string_axioms, vstd::string::next_postcondition;

    let mut it = s.chars();
    let mut v: Vec<char> = Vec::new();
    loop
        invariant
            vstd::std_specs::iter::IteratorSpec::obeys_prophetic_iter_laws(&it),
            v@ + vstd::std_specs::iter::IteratorSpec::remaining(&it) == s@,
        ensures
            v@ == s@,
        decreases s@.len() - v@.len(),
    {
        match it.next() {
            Some(c) => {
                v.push(c);
            },
            None => {
                break;
            },
        }
    }
    v
}

/// A string holding the given characters.
pub fn string_from_chars(cs: &[char]) -> (s: String)
    ensures
        s@ == cs@,
{
    let mut s = String::new();
    let mut i: usize = 0;
    while i < cs.len()
        invariant
            i <= cs.len(),
            s@ == cs@.take(i as int),
        decreases cs.len() - i,
    {
        push_char(&mut s, cs[i]);
        i = i + 1;
        assert(s@ =~= cs@.take(i as int));
    }
    assert(cs@.take(cs.len() as int) =~= cs@);
    s
}

} // verus!
