//! Byte offsets and character positions.
//!
//! A cursor into a text counts bytes, and the grammar counts characters.
//! The two meet where the cursor stands at the first byte of a character or
//! at the end of the text: the byte offset of a character is the number of
//! bytes that the characters before it take in UTF-8.

use vstd::prelude::*;
use vstd::string::*;
use vstd::utf8::*;
use crate::grammar::peek;

verus! {

/// `char::len_utf8` of the standard library: the number of bytes that the
/// UTF-8 encoding of `c` takes.
pub assume_specification[ char::len_utf8 ](c: char) -> (n: usize)
    ensures
        n == encode_scalar(c as u32).len(),
;

/// A character that UTF-8 writes as a single byte.
pub open spec fn is_ascii_char(c: char) -> bool {
    c as u32 <= 0x7f
}

/// The number of bytes that the first `k` characters of `text` take.
pub open spec fn byte_offset(text: Seq<char>, k: int) -> int {
    encode_utf8(text.take(k)).len() as int
}

/// The byte offset `offset` is where character `k` of `text` begins, or the
/// end of the text where `k` is its length.
pub open spec fn at_char(text: Seq<char>, offset: int, k: int) -> bool {
    0 <= k <= text.len() && byte_offset(text, k) == offset
}

/// `offset` is a character boundary of `text`.
pub open spec fn is_boundary(text: Seq<char>, offset: int) -> bool {
    exists|k: int| at_char(text, offset, k)
}

/// The position of the character that begins at the boundary `offset`.
pub open spec fn char_index(text: Seq<char>, offset: int) -> int {
    choose|k: int| at_char(text, offset, k)
}

/// The encoding of two texts, one after the other, is the two encodings,
/// one after the other.
pub proof fn lemma_encode_concat(a: Seq<char>, b: Seq<char>)
    ensures
        encode_utf8(a + b) == encode_utf8(a) + encode_utf8(b),
    decreases a.len(),
{
    if a.len() == 0 {
        assert(a + b =~= b);
        assert(encode_utf8(a) + encode_utf8(b) =~= encode_utf8(b));
    } else {
        assert((a + b).drop_first() =~= a.drop_first() + b);
        assert((a + b)[0] == a[0]);
        lemma_encode_concat(a.drop_first(), b);
        assert(encode_utf8(a + b) =~= encode_utf8(a) + encode_utf8(b));
    }
}

/// Every character takes between one and four bytes.
pub proof fn lemma_scalar_len(c: char)
    ensures
        1 <= encode_scalar(c as u32).len() <= 4,
        is_ascii_char(c) <==> encode_scalar(c as u32).len() == 1,
{
}

/// The byte offset of the next character is that of this one and the bytes
/// that this one takes.
pub proof fn lemma_offset_step(text: Seq<char>, k: int)
    requires
        0 <= k < text.len(),
    ensures
        byte_offset(text, k + 1) == byte_offset(text, k) + encode_scalar(text[k] as u32).len(),
        byte_offset(text, k) < byte_offset(text, k + 1),
{
    let one = seq![text[k]];
    assert(text.take(k + 1) =~= text.take(k) + one);
    lemma_encode_concat(text.take(k), one);
    assert(one.drop_first() =~= Seq::<char>::empty());
    assert(encode_utf8(one.drop_first()) =~= Seq::<u8>::empty());
    assert(encode_utf8(one) =~= encode_scalar(text[k] as u32));
    lemma_scalar_len(text[k]);
}

/// Later characters begin at later bytes.
pub proof fn lemma_offset_grows(text: Seq<char>, j: int, k: int)
    requires
        0 <= j <= k <= text.len(),
    ensures
        byte_offset(text, j) <= byte_offset(text, k),
        j < k ==> byte_offset(text, j) < byte_offset(text, k),
    decreases k - j,
{
    if j < k {
        lemma_offset_step(text, j);
        lemma_offset_grows(text, j + 1, k);
    }
}

/// A boundary is the byte offset of one character only.
pub proof fn lemma_char_index(text: Seq<char>, offset: int, k: int)
    requires
        at_char(text, offset, k),
    ensures
        is_boundary(text, offset),
        char_index(text, offset) == k,
{
    let found = char_index(text, offset);
    assert(at_char(text, offset, found));
    if found < k {
        lemma_offset_grows(text, found, k);
    } else if k < found {
        lemma_offset_grows(text, k, found);
    }
}

/// The start of a text is the byte offset of its first character.
pub proof fn lemma_start(text: Seq<char>)
    ensures
        at_char(text, 0, 0),
{
    assert(text.take(0) =~= Seq::<char>::empty());
}

/// The text splits at a boundary into the encoding of what lies before it
/// and the encoding of what lies behind it.
pub proof fn lemma_split(text: Seq<char>, k: int)
    requires
        0 <= k <= text.len(),
    ensures
        encode_utf8(text) == encode_utf8(text.take(k)) + encode_utf8(text.skip(k)),
        byte_offset(text, k) <= encode_utf8(text).len(),
        byte_offset(text, k) == encode_utf8(text).len() <==> k == text.len(),
        encode_utf8(text).subrange(byte_offset(text, k), encode_utf8(text).len() as int)
            == encode_utf8(text.skip(k)),
{
    assert(text =~= text.take(k) + text.skip(k));
    lemma_encode_concat(text.take(k), text.skip(k));
    let front = encode_utf8(text.take(k));
    let back = encode_utf8(text.skip(k));
    assert((front + back).subrange(front.len() as int, (front + back).len() as int) =~= back);
    if k < text.len() {
        lemma_offset_grows(text, k, text.len() as int);
        assert(text.take(text.len() as int) =~= text);
    } else {
        assert(text.take(k) =~= text);
    }
}

/// A boundary of a text is a boundary of its encoding.
pub proof fn lemma_boundary_of_bytes(text: Seq<char>, k: int)
    requires
        0 <= k <= text.len(),
    ensures
        is_char_boundary(encode_utf8(text), byte_offset(text, k)),
    decreases k,
{
    let bytes = encode_utf8(text);
    encode_utf8_valid_utf8(text);
    if k == 0 {
        lemma_start(text);
    } else {
        let rest = text.drop_first();
        encode_utf8_first_scalar(text);
        assert(pop_first_scalar(bytes) =~= encode_utf8(rest));
        lemma_boundary_of_bytes(rest, k - 1);
        lemma_encode_concat(seq![text[0]], rest.take(k - 1));
        assert(text.take(k) =~= seq![text[0]] + rest.take(k - 1));
        assert(seq![text[0]].drop_first() =~= Seq::<char>::empty());
        assert(encode_utf8(seq![text[0]].drop_first()) =~= Seq::<u8>::empty());
        assert(encode_utf8(seq![text[0]]) =~= encode_scalar(text[0] as u32));
        lemma_scalar_len(text[0]);
        lemma_split(text, k);
        assert(byte_offset(text, k) == length_of_first_scalar(bytes) + byte_offset(rest, k - 1));
    }
}

/// The character that begins at the byte offset `offset` of `text`, if the
/// text reaches that far.
pub fn char_at(text: &str, offset: usize) -> (r: Option<char>)
    requires
        is_boundary(text@, offset as int),
    ensures
        r == peek(text@, char_index(text@, offset as int)),
        r matches Some(c) ==> offset + encode_scalar(c as u32).len() <= usize::MAX,
{
    let ghost k = char_index(text@, offset as int);
    let bytes = text.as_bytes();
    proof {
        lemma_split(text@, k);
        lemma_boundary_of_bytes(text@, k);
    }
    if offset >= bytes.len() {
        return None;
    }
    let (_, rest) = text.split_at(offset);
    proof {
        encode_utf8_decode_utf8(rest@);
        encode_utf8_decode_utf8(text@.skip(k));
        assert(rest@ == text@.skip(k));
        lemma_offset_step(text@, k);
        lemma_split(text@, k + 1);
    }
    let mut rest_chars = rest.chars();
    rest_chars.next()
}

} // verus!
