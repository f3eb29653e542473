//! Texts as sequences of characters, and where each character stands in the
//! UTF-8 bytes of the text.
use crate::text::byte_len;
use vstd::prelude::*;
use vstd::std_specs::iter::IteratorSpec;
use vstd::string::StringSliceAdditionalSpecFns;
use vstd::utf8::{
    char_is_scalar, encode_scalar, encode_utf8, encode_utf8_decode_utf8, encode_utf8_first_scalar,
    encode_utf8_valid_utf8, is_char_boundary, is_char_boundary_iff_not_is_continuation_byte,
    is_char_boundary_start_end_of_seq,
};

verus! {

/// The number of bytes that the first `i` characters of a text take in
/// UTF-8: the byte offset of character `i`.
pub open spec fn prefix_len(chars: Seq<char>, i: int) -> int {
    encode_utf8(chars.subrange(0, i)).len() as int
}

/// The encoding of two texts in a row is the encoding of the first followed
/// by that of the second.
pub proof fn lemma_encode_concat(a: Seq<char>, b: Seq<char>)
    ensures
        encode_utf8(a + b) == encode_utf8(a) + encode_utf8(b),
    decreases a.len(),
{
    if a.len() == 0 {
        assert(a + b =~= b);
        assert(encode_utf8(a) + encode_utf8(b) =~= encode_utf8(b));
    } else {
        lemma_encode_concat(a.drop_first(), b);
        assert((a + b).drop_first() =~= a.drop_first() + b);
        assert((a + b)[0] == a[0]);
        assert(encode_utf8(a + b) =~= encode_utf8(a) + encode_utf8(b));
    }
}

/// A text that is cut at two character indices falls into three parts, and
/// so do its bytes: the middle part is encoded by the bytes between the two
/// byte offsets.
pub proof fn lemma_prefix_len(chars: Seq<char>, i: int, j: int)
    requires
        0 <= i <= j <= chars.len(),
    ensures
        0 <= prefix_len(chars, i) <= prefix_len(chars, j) <= encode_utf8(chars).len(),
        prefix_len(chars, 0) == 0,
        prefix_len(chars, chars.len() as int) == encode_utf8(chars).len(),
        encode_utf8(chars).subrange(prefix_len(chars, i), prefix_len(chars, j)) == encode_utf8(
            chars.subrange(i, j),
        ),
{
    let head = chars.subrange(0, i);
    let mid = chars.subrange(i, j);
    let tail = chars.subrange(j, chars.len() as int);
    assert(chars.subrange(0, j) =~= head + mid);
    assert(chars =~= chars.subrange(0, j) + tail);
    assert(chars.subrange(0, 0) =~= Seq::<char>::empty());
    assert(chars.subrange(0, chars.len() as int) =~= chars);
    lemma_encode_concat(head, mid);
    lemma_encode_concat(chars.subrange(0, j), tail);
    assert(encode_utf8(chars).subrange(prefix_len(chars, i), prefix_len(chars, j)) =~= encode_utf8(
        mid,
    ));
}

/// The byte offset of a character is a code-point boundary of the bytes.
pub proof fn lemma_prefix_boundary(chars: Seq<char>, i: int)
    requires
        0 <= i <= chars.len(),
    ensures
        is_char_boundary(encode_utf8(chars), prefix_len(chars, i)),
{
    let bytes = encode_utf8(chars);
    let n = chars.len() as int;
    encode_utf8_valid_utf8(chars);
    is_char_boundary_start_end_of_seq(bytes);
    lemma_prefix_len(chars, i, n);
    if i < n {
        let rest = chars.subrange(i, n);
        encode_utf8_first_scalar(rest);
        let k = prefix_len(chars, i);
        assert(encode_utf8(rest)[0] == bytes[k]);
        assert(encode_utf8(rest).len() > 0);
        is_char_boundary_iff_not_is_continuation_byte(bytes, k);
    }
}

/// One character more takes the bytes of that character more.
pub proof fn lemma_prefix_step(chars: Seq<char>, i: int)
    requires
        0 <= i < chars.len(),
    ensures
        prefix_len(chars, i + 1) == prefix_len(chars, i) + encode_scalar(chars[i] as u32).len(),
        prefix_len(chars, i + 1) <= encode_utf8(chars).len(),
{
    let one = chars.subrange(i, i + 1);
    assert(chars.subrange(0, i + 1) =~= chars.subrange(0, i) + one);
    lemma_encode_concat(chars.subrange(0, i), one);
    assert(one.drop_first() =~= Seq::<char>::empty());
    assert(encode_utf8(one) =~= encode_scalar(chars[i] as u32)) by {
        reveal_with_fuel(encode_utf8, 2);
    }
    lemma_prefix_len(chars, i + 1, chars.len() as int);
}

/// Two texts with the same bytes are the same text.
pub proof fn lemma_same_bytes(a: Seq<char>, b: Seq<char>)
    requires
        encode_utf8(a) == encode_utf8(b),
    ensures
        a == b,
{
    encode_utf8_decode_utf8(a);
    encode_utf8_decode_utf8(b);
}

/// The number of bytes that `c` takes in UTF-8.
pub fn char_width(c: char) -> (w: usize)
    ensures
        w == encode_scalar(c as u32).len(),
        1 <= w <= 4,
{
    proof {
        char_is_scalar(c);
    }
    let v: u32 = c as u32;
    if v < 0x80 {
        1
    } else if v < 0x800 {
        2
    } else if v < 0x10000 {
        3
    } else {
        4
    }
}

/// The characters of `s`, and the byte offset of each of them within `s`;
/// the last offset is the length of `s`.
pub fn decode(s: &str) -> (r: (Vec<char>, Vec<usize>))
    ensures
        r.0@ == s@,
        r.1@.len() == s@.len() + 1,
        forall|i: int| 0 <= i <= s@.len() ==> #[trigger] r.1@[i] == prefix_len(s@, i),
{
    let total = byte_len(s);
    let mut chars: Vec<char> = Vec::new();
    let mut offsets: Vec<usize> = Vec::new();
    let mut offset: usize = 0;
    offsets.push(offset);
    proof {
        lemma_prefix_len(s@, 0, 0);
    }
    for c in it: s.chars()
        invariant
            it.seq() == s@,
            total == encode_utf8(s@).len(),
            chars@ == s@.subrange(0, it.index() as int),
            offsets@.len() == it.index() + 1,
            offset == prefix_len(s@, it.index() as int),
            forall|i: int| 0 <= i <= it.index() ==> #[trigger] offsets@[i] == prefix_len(s@, i),
    {
        let w = char_width(c);
        proof {
            lemma_prefix_step(s@, it.index() as int);
        }
        offset = offset + w;
        offsets.push(offset);
        chars.push(c);
    }
    assert(chars@ =~= s@);
    (chars, offsets)
}

} // verus!
