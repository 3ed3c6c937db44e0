use vstd::prelude::*;
use vstd::string::*;
use vstd::utf8::*;

verus! {

/// The number of bytes that the UTF-8 encoding of one character takes.
pub open spec fn utf8_width(c: char) -> int {
    if has_width_1_encoding(c as u32) {
        1
    } else if has_width_2_encoding(c as u32) {
        2
    } else if has_width_3_encoding(c as u32) {
        3
    } else {
        4
    }
}

/// The number of bytes that the UTF-8 encoding of a text takes.
#[verifier::opaque]
pub open spec fn byte_len(s: Seq<char>) -> int {
    encode_utf8(s).len() as int
}

/// The byte offset at which the character with index `i` starts.
pub open spec fn byte_offset(s: Seq<char>, i: int) -> int {
    byte_len(s.subrange(0, i))
}

/// The empty text takes no byte.
pub proof fn lemma_byte_len_empty()
    ensures
        byte_len(Seq::<char>::empty()) == 0,
{
    reveal(byte_len);
}

/// The byte length of a string is the length that `str::len` reports.
pub proof fn lemma_byte_len_of_str(text: &str)
    ensures
        byte_len(text@) == text.spec_bytes().len(),
{
    reveal(byte_len);
}

/// Encoding is additive over concatenation.
pub proof fn lemma_byte_len_concat(a: Seq<char>, b: Seq<char>)
    ensures
        byte_len(a + b) == byte_len(a) + byte_len(b),
    decreases a.len(),
{
    reveal(byte_len);
    if a.len() == 0 {
        assert(a + b =~= b);
    } else {
        assert((a + b).drop_first() =~= a.drop_first() + b);
        lemma_byte_len_concat(a.drop_first(), b);
    }
}

/// One more character adds its own width.
pub proof fn lemma_byte_len_push(s: Seq<char>, c: char)
    ensures
        byte_len(s.push(c)) == byte_len(s) + utf8_width(c),
        1 <= utf8_width(c) <= 4,
{
    reveal(byte_len);
    lemma_byte_len_concat(s, seq![c]);
    assert(s.push(c) =~= s + seq![c]);
    assert(seq![c].drop_first() =~= Seq::<char>::empty());
    assert(encode_utf8(seq![c]) =~= encode_scalar(c as u32)) by {
        reveal_with_fuel(encode_utf8, 2);
    }
}

/// The bytes of a stretch of text lie between the offsets of its two ends.
pub proof fn lemma_byte_offset_split(s: Seq<char>, i: int, j: int)
    requires
        0 <= i <= j <= s.len(),
    ensures
        byte_offset(s, j) == byte_offset(s, i) + byte_len(s.subrange(i, j)),
        0 <= byte_offset(s, i) <= byte_offset(s, j) <= byte_len(s),
        byte_offset(s, 0) == 0,
        byte_offset(s, s.len() as int) == byte_len(s),
{
    assert(s.subrange(0, j) =~= s.subrange(0, i) + s.subrange(i, j));
    lemma_byte_len_concat(s.subrange(0, i), s.subrange(i, j));
    assert(s =~= s.subrange(0, j) + s.subrange(j, s.len() as int));
    lemma_byte_len_concat(s.subrange(0, j), s.subrange(j, s.len() as int));
    assert(s.subrange(0, 0) =~= Seq::<char>::empty());
    assert(s.subrange(0, s.len() as int) =~= s);
    lemma_byte_len_empty();
    reveal(byte_len);
}

/// A stretch of at least one character takes at least one byte.
pub proof fn lemma_byte_len_positive(s: Seq<char>)
    requires
        s.len() > 0,
    ensures
        byte_len(s) >= s.len(),
    decreases s.len(),
{
    lemma_byte_len_push(s.drop_last(), s.last());
    assert(s.drop_last().push(s.last()) =~= s);
    if s.len() > 1 {
        lemma_byte_len_positive(s.drop_last());
    } else {
        assert(s.drop_last() =~= Seq::<char>::empty());
        lemma_byte_len_empty();
    }
}

/// The encoding of two texts, one behind the other.
pub proof fn lemma_encode_concat(a: Seq<char>, b: Seq<char>)
    ensures
        encode_utf8(a + b) == encode_utf8(a) + encode_utf8(b),
    decreases a.len(),
{
    if a.len() == 0 {
        assert(a + b =~= b);
        assert(encode_utf8(a) + encode_utf8(b) =~= encode_utf8(b));
    } else {
        assert((a + b).drop_first() =~= a.drop_first() + b);
        lemma_encode_concat(a.drop_first(), b);
        assert(encode_utf8(a + b) =~= encode_utf8(a) + encode_utf8(b));
    }
}

/// In the encoding of a text a character starts where the encoding of the
/// characters before it ends.
pub proof fn lemma_char_boundary(a: Seq<char>, b: Seq<char>)
    ensures
        is_char_boundary(encode_utf8(a + b), byte_len(a)),
    decreases a.len(),
{
    reveal(byte_len);
    let s = a + b;
    let bytes = encode_utf8(s);
    encode_utf8_valid_utf8(s);
    if a.len() > 0 {
        encode_utf8_first_scalar(s);
        assert(s.drop_first() =~= a.drop_first() + b);
        assert(pop_first_scalar(bytes) =~= encode_utf8(s.drop_first()));
        lemma_char_boundary(a.drop_first(), b);
        lemma_encode_concat(a, b);
        assert(s[0] == a[0]);
        assert(encode_utf8(a).len() == encode_scalar(a[0] as u32).len() + encode_utf8(
            a.drop_first(),
        ).len());
    }
}

/// Two texts with the same encoding are the same text.
pub proof fn lemma_encode_injective(a: Seq<char>, b: Seq<char>)
    requires
        encode_utf8(a) == encode_utf8(b),
    ensures
        a == b,
{
    encode_utf8_decode_utf8(a);
    encode_utf8_decode_utf8(b);
}

/// The UTF-8 width of one character.
pub fn char_width(c: char) -> (w: usize)
    ensures
        w == utf8_width(c),
        1 <= w <= 4,
{
    let v: u32 = c as u32;
    if v <= 0x7F {
        1
    } else if v <= 0x7FF {
        2
    } else if v <= 0xFFFF {
        proof {
            char_is_scalar(c);
        }
        3
    } else {
        4
    }
}

/// The number of bytes that a text takes.
pub fn byte_length(text: &str) -> (n: usize)
    ensures
        n == byte_len(text@),
{
    proof {
        lemma_byte_len_of_str(text);
        broadcast use vstd::slice::axiom_spec_len;

    }
    text.as_bytes().len()
}

/// Cuts a text in two behind its first `count` characters, which take
/// `width` bytes.
pub(crate) fn split_text<'a>(text: &'a str, width: usize, Ghost(count): Ghost<int>) -> (parts: (
    &'a str,
    &'a str,
))
    requires
        0 <= count <= text@.len(),
        width == byte_offset(text@, count),
    ensures
        parts.0@ == text@.subrange(0, count),
        parts.1@ == text@.subrange(count, text@.len() as int),
{
    let ghost head = text@.subrange(0, count);
    let ghost tail = text@.subrange(count, text@.len() as int);
    proof {
        reveal(byte_len);
        assert(head + tail =~= text@);
        lemma_char_boundary(head, tail);
        lemma_encode_concat(head, tail);
    }
    let parts = text.split_at(width);
    proof {
        let bytes = encode_utf8(text@);
        assert(bytes.subrange(0, width as int) =~= encode_utf8(head));
        assert(bytes.subrange(width as int, bytes.len() as int) =~= encode_utf8(tail));
        lemma_encode_injective(parts.0@, head);
        lemma_encode_injective(parts.1@, tail);
    }
    parts
}

/// The characters of a text, in order.
pub fn chars_of(text: &str) -> (chars: Vec<char>)
    ensures
        chars@ == text@,
{
    let mut chars: Vec<char> = Vec::new();
    for c in it: text.chars()
        invariant
            it.seq() == text@,
            chars@ == it.seq().take(it.index() as int),
    {
        chars.push(c);
    }
    chars
}

} // verus!
