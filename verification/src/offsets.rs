//! Where the characters of a text lie among its bytes, so that a stretch of
//! characters is cut out of the text without a search for the place.

use vstd::prelude::*;
use vstd::string::*;
use vstd::utf8::*;

verus! {

/// The number of bytes that hold the first `k` characters of `chars`.
pub open spec fn offset(chars: Seq<char>, k: int) -> nat {
    encode_utf8(chars.take(k)).len()
}

/// The bytes of two texts, one behind the other, are the bytes of the
/// first and behind them those of the second.
pub proof fn lemma_bytes_concat(a: Seq<char>, b: Seq<char>)
    ensures
        encode_utf8(a + b) =~= encode_utf8(a) + encode_utf8(b),
    decreases a.len(),
{
    if a.len() == 0 {
        assert(a + b =~= b);
    } else {
        assert((a + b).drop_first() =~= a.drop_first() + b);
        assert((a + b)[0] == a[0]);
        lemma_bytes_concat(a.drop_first(), b);
    }
}

/// A character starts where the bytes of the text in front of it end.
pub proof fn lemma_boundary(a: Seq<char>, b: Seq<char>)
    ensures
        is_char_boundary(encode_utf8(a + b), encode_utf8(a).len() as int),
    decreases a.len(),
{
    broadcast use encode_utf8_valid_utf8;

    let bytes = encode_utf8(a + b);
    if a.len() > 0 {
        lemma_bytes_concat(a, b);
        encode_utf8_first_scalar(a + b);
        assert(pop_first_scalar(bytes) =~= encode_utf8((a + b).drop_first()));
        assert((a + b).drop_first() =~= a.drop_first() + b);
        assert((a + b)[0] == a[0]);
        lemma_boundary(a.drop_first(), b);
    }
}

/// The bytes in front of a place are the bytes in front of the character
/// before it and the bytes of that character.
pub proof fn lemma_offset_step(chars: Seq<char>, k: int)
    requires
        0 <= k < chars.len(),
    ensures
        offset(chars, k + 1) == offset(chars, k) + encode_scalar(chars[k] as u32).len(),
{
    let one = seq![chars[k]];
    assert(chars.take(k + 1) =~= chars.take(k) + one);
    lemma_bytes_concat(chars.take(k), one);
    assert(one.drop_first() =~= Seq::<char>::empty());
    assert(encode_utf8(one.drop_first()).len() == 0);
    assert(one[0] == chars[k]);
    assert(encode_utf8(one) =~= encode_scalar(one[0] as u32) + encode_utf8(one.drop_first()));
}

/// No place lies behind the end of the bytes.
pub proof fn lemma_offset_bound(chars: Seq<char>, k: int)
    requires
        0 <= k <= chars.len(),
    ensures
        offset(chars, k) <= encode_utf8(chars).len(),
{
    assert(chars =~= chars.take(k) + chars.skip(k));
    lemma_bytes_concat(chars.take(k), chars.skip(k));
}

/// The number of bytes that hold a character.
pub fn width_of(c: char) -> (n: usize)
    ensures
        n == encode_scalar(c as u32).len(),
{
    proof {
        char_is_scalar(c);
    }
    let v: u32 = c as u32;
    if v <= 0x7F {
        1
    } else if v <= 0x7FF {
        2
    } else if v <= 0xFFFF {
        3
    } else {
        4
    }
}

/// The number of bytes of a text.
pub fn byte_len(source: &str) -> (n: usize)
    ensures
        n == encode_utf8(source@).len(),
{
    source.as_bytes().len()
}

/// The place among the bytes of character `to`, from that of character
/// `from`.
pub fn offset_from(chars: &Vec<char>, from: usize, to: usize, start: usize) -> (end: usize)
    requires
        from <= to <= chars@.len(),
        start == offset(chars@, from as int),
        encode_utf8(chars@).len() <= usize::MAX,
    ensures
        end == offset(chars@, to as int),
{
    let mut at: usize = from;
    let mut end: usize = start;
    while at < to
        invariant
            from <= at <= to <= chars@.len(),
            end == offset(chars@, at as int),
            encode_utf8(chars@).len() <= usize::MAX,
        decreases to - at,
    {
        proof {
            lemma_offset_step(chars@, at as int);
            lemma_offset_bound(chars@, at + 1);
        }
        end = end + width_of(chars[at]);
        at = at + 1;
    }
    end
}

/// The text of the source from character `a` up to character `b`, which
/// lie at the places `from` and `to` among its bytes.
pub(crate) fn cut(source: &str, from: usize, to: usize, Ghost(a): Ghost<int>, Ghost(b): Ghost<int>) -> (text:
    String)
    requires
        0 <= a <= b <= source@.len(),
        from == offset(source@, a),
        to == offset(source@, b),
    ensures
        text@ == source@.subrange(a, b),
{
    let ghost chars = source@;
    proof {
        assert(chars =~= chars.take(b) + chars.skip(b));
        lemma_boundary(chars.take(b), chars.skip(b));
        lemma_bytes_concat(chars.take(b), chars.skip(b));
    }
    let halves = source.split_at(to);
    let head = halves.0;
    proof {
        assert(head.spec_bytes() =~= encode_utf8(chars.take(b)));
        encode_utf8_decode_utf8(head@);
        encode_utf8_decode_utf8(chars.take(b));
        assert(head@ == chars.take(b));
        assert(chars.take(b) =~= chars.take(a) + chars.subrange(a, b));
        assert(chars.take(b).take(a) =~= chars.take(a));
        lemma_boundary(chars.take(a), chars.subrange(a, b));
        lemma_bytes_concat(chars.take(a), chars.subrange(a, b));
    }
    let parts = head.split_at(from);
    let tail = parts.1;
    proof {
        assert(tail.spec_bytes() =~= encode_utf8(chars.subrange(a, b)));
        encode_utf8_decode_utf8(tail@);
        encode_utf8_decode_utf8(chars.subrange(a, b));
    }
    String::from_str(tail)
}

} // verus!
