//! Character positions and byte offsets in UTF-8 text.
//!
//! A line is reasoned about as a sequence of characters, while the executable
//! scanner addresses it by byte offsets. This module relates the two and
//! offers the string operations that the scanner is built from.

use vstd::prelude::*;
use vstd::utf8::*;

verus! {

/// The number of bytes that `c` occupies in UTF-8.
pub open spec fn char_width(c: char) -> int {
    encode_scalar(c as u32).len() as int
}

/// The number of bytes that the first `k` characters of `s` occupy in UTF-8.
pub open spec fn byte_offset(s: Seq<char>, k: int) -> int {
    encode_utf8(s.take(k)).len() as int
}

/// Every character takes between one and four bytes, and the characters below
/// 128 take exactly one.
pub proof fn lemma_char_width(c: char)
    ensures
        1 <= char_width(c) <= 4,
        (c as u32) < 0x80 ==> char_width(c) == 1,
{
}

/// The encoding of a concatenation is the concatenation of the encodings.
pub proof fn lemma_encode_concat(a: Seq<char>, b: Seq<char>)
    ensures
        encode_utf8(a + b) == encode_utf8(a) + encode_utf8(b),
    decreases a.len(),
{
    if a.len() == 0 {
        assert(a + b =~= b);
        assert(encode_utf8(a) + encode_utf8(b) =~= encode_utf8(b));
    } else {
        lemma_encode_concat(a.drop_first(), b);
        assert((a + b).drop_first() =~= a.drop_first() + b);
        assert((a + b)[0] == a[0]);
        assert(encode_utf8(a + b) =~= encode_utf8(a) + encode_utf8(b));
    }
}

/// Two texts with the same encoding are the same text.
pub proof fn lemma_encode_injective(a: Seq<char>, b: Seq<char>)
    requires
        encode_utf8(a) == encode_utf8(b),
    ensures
        a == b,
{
    encode_utf8_decode_utf8(a);
    encode_utf8_decode_utf8(b);
}

/// Splitting a text at character `k` splits its encoding at `byte_offset(s, k)`.
pub proof fn lemma_encode_split(s: Seq<char>, k: int)
    requires
        0 <= k <= s.len(),
    ensures
        0 <= byte_offset(s, k) <= encode_utf8(s).len(),
        encode_utf8(s).subrange(0, byte_offset(s, k)) == encode_utf8(s.take(k)),
        encode_utf8(s).subrange(byte_offset(s, k), encode_utf8(s).len() as int) == encode_utf8(
            s.skip(k),
        ),
{
    lemma_encode_concat(s.take(k), s.skip(k));
    assert(s.take(k) + s.skip(k) =~= s);
    let head = encode_utf8(s.take(k));
    let tail = encode_utf8(s.skip(k));
    assert((head + tail).subrange(0, head.len() as int) =~= head);
    assert((head + tail).subrange(head.len() as int, (head + tail).len() as int) =~= tail);
}

/// The offset of the end of a text is the length of its encoding, and the
/// offset of its start is zero.
pub proof fn lemma_offset_ends(s: Seq<char>)
    ensures
        byte_offset(s, 0) == 0,
        byte_offset(s, s.len() as int) == encode_utf8(s).len(),
{
    assert(s.take(0) =~= Seq::<char>::empty());
    assert(s.take(s.len() as int) =~= s);
}

/// Moving one character forward moves the offset by that character's width.
pub proof fn lemma_offset_step(s: Seq<char>, k: int)
    requires
        0 <= k < s.len(),
    ensures
        byte_offset(s, k + 1) == byte_offset(s, k) + char_width(s[k]),
{
    let one = seq![s[k]];
    lemma_encode_concat(s.take(k), one);
    assert(s.take(k) + one =~= s.take(k + 1));
    assert(encode_utf8(one) =~= encode_scalar(s[k] as u32)) by {
        reveal_with_fuel(encode_utf8, 2);
        assert(one.drop_first() =~= Seq::<char>::empty());
    }
}

/// Offsets grow with positions.
pub proof fn lemma_offset_monotone(s: Seq<char>, i: int, j: int)
    requires
        0 <= i <= j <= s.len(),
    ensures
        byte_offset(s, i) <= byte_offset(s, j),
        i < j ==> byte_offset(s, i) < byte_offset(s, j),
    decreases j - i,
{
    if i < j {
        lemma_offset_monotone(s, i, j - 1);
        lemma_offset_step(s, j - 1);
        lemma_char_width(s[j - 1]);
    }
}

/// The offset of every character position is a character boundary of the
/// encoded text.
pub proof fn lemma_offset_is_boundary(s: Seq<char>, k: int)
    requires
        0 <= k <= s.len(),
    ensures
        is_char_boundary(encode_utf8(s), byte_offset(s, k)),
    decreases k,
{
    let bytes = encode_utf8(s);
    encode_utf8_valid_utf8(s);
    if k == 0 {
        lemma_offset_ends(s);
    } else {
        let rest = s.drop_first();
        encode_utf8_first_scalar(s);
        assert(pop_first_scalar(bytes) =~= encode_utf8(rest));
        assert(s.take(k).drop_first() =~= rest.take(k - 1));
        assert(s.take(k)[0] == s[0]);
        assert(byte_offset(s, k) == char_width(s[0]) + byte_offset(rest, k - 1));
        lemma_char_width(s[0]);
        lemma_encode_split(s, k);
        lemma_offset_is_boundary(rest, k - 1);
    }
}

/// The number of bytes that `c` occupies in UTF-8.
pub fn utf8_len(c: char) -> (width: usize)
    ensures
        width == char_width(c),
{
    let code: u32 = c as u32;
    if code < 0x80 {
        1
    } else if code < 0x800 {
        2
    } else if code < 0x10000 {
        3
    } else {
        4
    }
}

/// The length of `s` in bytes, together with the fact that no offset into `s`
/// exceeds it.
pub fn byte_len(s: &str) -> (total: usize)
    ensures
        total == encode_utf8(s@).len(),
        total == byte_offset(s@, s@.len() as int),
{
    proof {
        lemma_offset_ends(s@);
    }
    s.as_bytes().len()
}

/// The part of `s` that starts at byte `from`, which is where character `i`
/// starts.
pub(crate) fn suffix<'a>(s: &'a str, from: usize, Ghost(i): Ghost<int>) -> (part: &'a str)
    requires
        0 <= i <= s@.len(),
        from == byte_offset(s@, i),
    ensures
        part@ == s@.skip(i),
{
    proof {
        lemma_offset_is_boundary(s@, i);
        lemma_encode_split(s@, i);
    }
    let (_, part) = s.split_at(from);
    proof {
        lemma_encode_injective(part@, s@.skip(i));
    }
    part
}

/// The part of `s` that ends before byte `to`, which is where character `j`
/// starts.
pub(crate) fn prefix<'a>(s: &'a str, to: usize, Ghost(j): Ghost<int>) -> (part: &'a str)
    requires
        0 <= j <= s@.len(),
        to == byte_offset(s@, j),
    ensures
        part@ == s@.take(j),
{
    proof {
        lemma_offset_is_boundary(s@, j);
        lemma_encode_split(s@, j);
    }
    let (part, _) = s.split_at(to);
    proof {
        lemma_encode_injective(part@, s@.take(j));
    }
    part
}

/// The part of `s` between the bytes `from` and `to`, which are where the
/// characters `i` and `j` start. The result borrows from `s`.
pub(crate) fn substring<'a>(
    s: &'a str,
    from: usize,
    to: usize,
    Ghost(i): Ghost<int>,
    Ghost(j): Ghost<int>,
) -> (part: &'a str)
    requires
        0 <= i <= j <= s@.len(),
        from == byte_offset(s@, i),
        to == byte_offset(s@, j),
    ensures
        part@ == s@.subrange(i, j),
{
    let head = prefix(s, to, Ghost(j));
    proof {
        assert(s@.take(j).take(i) =~= s@.take(i));
    }
    let part = suffix(head, from, Ghost(i));
    proof {
        assert(s@.take(j).skip(i) =~= s@.subrange(i, j));
    }
    part
}

} // verus!
