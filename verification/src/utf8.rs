//! Text and the bytes that encode it.
//!
//! Offsets in an artifact are byte offsets while text is a sequence of characters. The encoding
//! joins the two: a text of several pieces is encoded piece by piece, so the offset of a piece is
//! the number of bytes that the pieces before it take.

use vstd::prelude::*;
use vstd::utf8::decode_utf8;
use vstd::utf8::encode_utf8;
use vstd::utf8::valid_utf8;

verus! {

/// What a byte string reads as when each malformed sequence in it is replaced.
pub uninterp spec fn lossy(bytes: Seq<u8>) -> Seq<char>;

/// `String::from_utf8_lossy`: bytes that are valid UTF-8 read as the text they encode. For other
/// bytes the result is a function of the bytes, and what it is is left unsaid.
#[verifier::external_body]
pub(crate) fn from_utf8_lossy(bytes: &[u8]) -> (r: String)
    ensures
        r@ == lossy(bytes@),
        valid_utf8(bytes@) ==> r@ == decode_utf8(bytes@),
{
    String::from_utf8_lossy(bytes).into_owned()
}

/// `std::str::from_utf8`: the text that valid UTF-8 encodes, and nothing for other bytes.
#[verifier::external_body]
pub(crate) fn from_utf8(bytes: &[u8]) -> (r: Option<String>)
    ensures
        r is Some <==> valid_utf8(bytes@),
        r matches Some(s) ==> s@ == decode_utf8(bytes@),
{
    std::str::from_utf8(bytes).ok().map(|s| s.to_owned())
}

/// How many bytes a text takes.
pub open spec fn byte_len(s: Seq<char>) -> nat {
    encode_utf8(s).len()
}

/// A text is encoded piece by piece.
pub proof fn lemma_encode_add(a: Seq<char>, b: Seq<char>)
    ensures
        encode_utf8(a + b) == encode_utf8(a) + encode_utf8(b),
        byte_len(a + b) == byte_len(a) + byte_len(b),
    decreases a.len(),
{
    if a.len() == 0 {
        assert(a + b =~= b);
        assert(encode_utf8(a) + encode_utf8(b) =~= encode_utf8(b));
    } else {
        lemma_encode_add(a.drop_first(), b);
        assert((a + b).drop_first() =~= a.drop_first() + b);
        assert(encode_utf8(a + b) =~= encode_utf8(a) + encode_utf8(b));
    }
}

/// A run of texts, one after the other.
pub open spec fn joined(parts: Seq<Seq<char>>) -> Seq<char>
    decreases parts.len(),
{
    if parts.len() == 0 {
        Seq::empty()
    } else {
        joined(parts.drop_last()) + parts.last()
    }
}

/// Where part `i` of a run of texts starts, in bytes.
pub open spec fn offset(parts: Seq<Seq<char>>, i: int) -> nat {
    byte_len(joined(parts.take(i)))
}

/// The part after the first `i` starts where part `i` ends.
pub proof fn lemma_offset_step(parts: Seq<Seq<char>>, i: int)
    requires
        0 <= i < parts.len(),
    ensures
        offset(parts, i + 1) == offset(parts, i) + byte_len(parts[i]),
        joined(parts.take(i + 1)) == joined(parts.take(i)) + parts[i],
{
    assert(parts.take(i + 1).drop_last() =~= parts.take(i));
    lemma_encode_add(joined(parts.take(i)), parts[i]);
}

/// Joining a run and then another is joining them together.
pub proof fn lemma_joined_add(a: Seq<Seq<char>>, b: Seq<Seq<char>>)
    ensures
        joined(a + b) == joined(a) + joined(b),
    decreases b.len(),
{
    if b.len() == 0 {
        assert(a + b =~= a);
        assert(joined(a) + joined(b) =~= joined(a));
    } else {
        lemma_joined_add(a, b.drop_last());
        assert((a + b).drop_last() =~= a + b.drop_last());
        assert(joined(a + b) =~= joined(a) + joined(b));
    }
}

/// The bytes between two part boundaries encode the parts between them.
pub proof fn lemma_offset_slice(parts: Seq<Seq<char>>, i: int, j: int)
    requires
        0 <= i <= j <= parts.len(),
    ensures
        offset(parts, i) <= offset(parts, j) <= byte_len(joined(parts)),
        encode_utf8(joined(parts)).subrange(offset(parts, i) as int, offset(parts, j) as int)
            == encode_utf8(joined(parts.subrange(i, j))),
        offset(parts, 0) == 0,
        offset(parts, parts.len() as int) == byte_len(joined(parts)),
{
    let (a, b, c) = (parts.take(i), parts.subrange(i, j), parts.skip(j));
    assert(parts.take(j) =~= a + b);
    assert(parts =~= (a + b) + c);
    lemma_joined_add(a, b);
    lemma_joined_add(a + b, c);
    lemma_encode_add(joined(a), joined(b));
    lemma_encode_add(joined(a) + joined(b), joined(c));
    assert(encode_utf8(joined(parts)).subrange(offset(parts, i) as int, offset(parts, j) as int)
        =~= encode_utf8(joined(b)));
    assert(parts.take(0) =~= Seq::<Seq<char>>::empty());
    assert(parts.take(parts.len() as int) =~= parts);
}

/// How many bytes a text takes.
pub fn len_in_bytes(s: &str) -> (n: usize)
    ensures
        n == byte_len(s@),
{
    s.as_bytes().len()
}

} // verus!
