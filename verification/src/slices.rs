//! Slices of a text by characters, cut at byte offsets: a slice shares the
//! storage of the text it is cut from.

use vstd::prelude::*;
use vstd::string::StringSliceAdditionalSpecFns;
use vstd::utf8::{
    encode_scalar, encode_utf8, encode_utf8_decode_utf8, encode_utf8_first_scalar,
    encode_utf8_valid_utf8, is_char_boundary, pop_first_scalar,
};

verus! {

/// The number of bytes that the first `k` characters take.
pub open spec fn byte_offset(chars: Seq<char>, k: int) -> nat {
    encode_utf8(chars.take(k)).len()
}

/// Characters one behind the other take the bytes of the first, then the
/// bytes of the second.
pub proof fn lemma_encode_concat(x: Seq<char>, y: Seq<char>)
    ensures
        encode_utf8(x + y) == encode_utf8(x) + encode_utf8(y),
    decreases x.len(),
{
    if x.len() == 0 {
        assert(x + y =~= y);
        assert(encode_utf8(x) + encode_utf8(y) =~= encode_utf8(y));
    } else {
        lemma_encode_concat(x.drop_first(), y);
        assert((x + y).drop_first() =~= x.drop_first() + y);
        assert(encode_utf8(x + y) =~= encode_utf8(x) + encode_utf8(y));
    }
}

/// One character takes the bytes of its scalar value.
pub proof fn lemma_encode_one(c: char)
    ensures
        encode_utf8(seq![c]) == encode_scalar(c as u32),
{
    let one = seq![c];
    assert(one.drop_first() =~= Seq::<char>::empty());
    assert(encode_utf8(Seq::<char>::empty()) =~= Seq::<u8>::empty());
    assert(one[0] == c);
    assert(encode_utf8(one) =~= encode_scalar(c as u32) + encode_utf8(one.drop_first()));
    assert(encode_scalar(c as u32) + Seq::<u8>::empty() =~= encode_scalar(c as u32));
}

/// One character more takes the bytes of that character more.
pub proof fn lemma_offset_step(chars: Seq<char>, k: int)
    requires
        0 <= k < chars.len(),
    ensures
        byte_offset(chars, k + 1) == byte_offset(chars, k) + encode_scalar(chars[k] as u32).len(),
{
    let one = seq![chars[k]];
    assert(chars.take(k + 1) =~= chars.take(k) + one);
    lemma_encode_concat(chars.take(k), one);
    lemma_encode_one(chars[k]);
}

/// The bytes between two offsets are the bytes of the characters between
/// the two places.
pub proof fn lemma_bytes_between(chars: Seq<char>, a: int, b: int)
    requires
        0 <= a <= b <= chars.len(),
    ensures
        byte_offset(chars, a) <= byte_offset(chars, b) <= encode_utf8(chars).len(),
        encode_utf8(chars).subrange(byte_offset(chars, a) as int, byte_offset(chars, b) as int)
            == encode_utf8(chars.subrange(a, b)),
{
    let head = chars.take(a);
    let middle = chars.subrange(a, b);
    let tail = chars.skip(b);
    assert(chars.take(b) =~= head + middle);
    assert(chars =~= chars.take(b) + tail);
    lemma_encode_concat(head, middle);
    lemma_encode_concat(chars.take(b), tail);
    assert(encode_utf8(chars).subrange(byte_offset(chars, a) as int, byte_offset(chars, b) as int)
        =~= encode_utf8(middle));
}

/// Every offset of a place between characters is a boundary between
/// characters.
pub proof fn lemma_offset_is_boundary(chars: Seq<char>, k: int)
    requires
        0 <= k <= chars.len(),
    ensures
        is_char_boundary(encode_utf8(chars), byte_offset(chars, k) as int),
    decreases k,
{
    encode_utf8_valid_utf8(chars);
    if k == 0 {
        assert(chars.take(0) =~= Seq::<char>::empty());
    } else {
        let bytes = encode_utf8(chars);
        let rest = chars.drop_first();
        encode_utf8_first_scalar(chars);
        assert(pop_first_scalar(bytes) =~= encode_utf8(rest));
        lemma_offset_is_boundary(rest, k - 1);
        assert(chars.take(k) =~= seq![chars[0]] + rest.take(k - 1));
        lemma_encode_concat(seq![chars[0]], rest.take(k - 1));
        lemma_encode_one(chars[0]);
        lemma_bytes_between(chars, 0, k);
        assert(chars.take(0) =~= Seq::<char>::empty());
    }
}

/// The number of bytes that `c` takes.
pub fn utf8_width(c: char) -> (w: usize)
    ensures
        w == encode_scalar(c as u32).len(),
        1 <= w <= 4,
{
    let u: u32 = c as u32;
    if u < 0x80 {
        1
    } else if u < 0x800 {
        2
    } else if u < 0x1_0000 {
        3
    } else {
        4
    }
}

/// The slice of `source` that holds the characters from the `a`th up to the
/// `b`th, `from` and `to` being the offsets of the two places in bytes.
pub fn slice_between<'a>(
    source: &'a str,
    from: usize,
    to: usize,
    Ghost(a): Ghost<int>,
    Ghost(b): Ghost<int>,
) -> (r: &'a str)
    requires
        0 <= a <= b <= source@.len(),
        from == byte_offset(source@, a),
        to == byte_offset(source@, b),
    ensures
        r@ == source@.subrange(a, b),
{
    let ghost chars = source@;
    let ghost first = chars.take(b);
    proof {
        lemma_offset_is_boundary(chars, b);
        lemma_bytes_between(chars, 0, b);
        assert(chars.take(0) =~= Seq::<char>::empty());
        assert(chars.subrange(0, b) =~= first);
    }
    let (head, _) = source.split_at(to);
    proof {
        encode_utf8_decode_utf8(head@);
        encode_utf8_decode_utf8(first);
        assert(head.spec_bytes() == encode_utf8(first));
        assert(head@ == first);
        assert(first.take(a) =~= chars.take(a));
        lemma_offset_is_boundary(first, a);
        lemma_bytes_between(first, a, b);
        assert(first.take(b) =~= first);
        assert(first.subrange(a, b) =~= chars.subrange(a, b));
    }
    let (_, middle) = head.split_at(from);
    proof {
        encode_utf8_decode_utf8(middle@);
        encode_utf8_decode_utf8(chars.subrange(a, b));
        assert(middle.spec_bytes() == encode_utf8(chars.subrange(a, b)));
    }
    middle
}

} // verus!
