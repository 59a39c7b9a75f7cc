//! ASCII text: building `String`s from ASCII bytes, and the correspondence
//! between such strings' characters and their UTF-8 bytes.

use vstd::prelude::*;

verus! {

/// The characters of an ASCII byte string.
pub open spec fn ascii_chars(bytes: Seq<u8>) -> Seq<char> {
    bytes.map_values(|b: u8| b as char)
}

/// Every byte of `bytes` is ASCII.
pub open spec fn all_ascii(bytes: Seq<u8>) -> bool {
    forall|i: int| 0 <= i < bytes.len() ==> #[trigger] bytes[i] < 128
}

/// `String::push` appends one character, as the standard library documents.
pub assume_specification[ String::push ](s: &mut String, ch: char)
    ensures
        final(s)@ == old(s)@.push(ch),
;

/// The UTF-8 bytes of an ASCII string are the ASCII bytes themselves.
pub proof fn lemma_ascii_utf8(bytes: Seq<u8>)
    requires
        all_ascii(bytes),
    ensures
        vstd::utf8::encode_utf8(ascii_chars(bytes)) == bytes,
        vstd::utf8::is_ascii_chars(ascii_chars(bytes)),
{
    let c = ascii_chars(bytes);
    assert(vstd::utf8::is_ascii_chars(c)) by {
        assert forall|i: int| 0 <= i < c.len() implies '\0' <= #[trigger] c[i] <= '\u{7f}' by {
            assert(bytes[i] < 128);
        }
    }
    vstd::utf8::is_ascii_chars_encode_utf8(c);
    let e = vstd::utf8::encode_utf8(c);
    assert forall|i: int| 0 <= i < bytes.len() implies e[i] == bytes[i] by {
        assert(c[i] as u8 == e[i]);
        assert(bytes[i] < 128);
        assert(c[i] == bytes[i] as char);
    }
    assert(e =~= bytes);
}

/// A `String` holding the ASCII bytes `bytes`.
pub fn string_from_ascii(bytes: &[u8]) -> (s: String)
    requires
        all_ascii(bytes@),
    ensures
        s@ == ascii_chars(bytes@),
        vstd::utf8::encode_utf8(s@) == bytes@,
{
    let mut s = String::new();
    let mut i: usize = 0;
    while i < bytes.len()
        invariant
            i <= bytes@.len(),
            s@ == ascii_chars(bytes@.take(i as int)),
        decreases bytes@.len() - i,
    {
        let b = bytes[i];
        s.push(b as char);
        i = i + 1;
        assert(ascii_chars(bytes@.take(i as int)) =~= ascii_chars(bytes@.take(i - 1)).push(
            b as char,
        ));
    }
    assert(bytes@.take(i as int) =~= bytes@);
    proof {
        lemma_ascii_utf8(bytes@);
    }
    s
}

} // verus!
