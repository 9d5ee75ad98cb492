//! Text recoding: UTF-8 input, UTF-16 code units inside the library.
use vstd::prelude::*;
use vstd::utf8::{char_is_scalar, char_u32_cast, decode_utf8, valid_utf8};

verus! {

/// The UTF-16 code units of one character: itself below U+10000, a surrogate pair above.
pub open spec fn char_units(c: char) -> Seq<u16> {
    let v = c as u32 as int;
    if v < 0x10000 {
        seq![v as u16]
    } else {
        seq![(0xD800 + (v - 0x10000) / 0x400) as u16, (0xDC00 + (v - 0x10000) % 0x400) as u16]
    }
}

/// The UTF-16 encoding of a character sequence.
pub open spec fn utf16_of(s: Seq<char>) -> Seq<u16>
    decreases s.len(),
{
    if s.len() == 0 {
        seq![]
    } else {
        utf16_of(s.drop_last()) + char_units(s.last())
    }
}

/// Relies on str::encode_utf16: each character as one code unit, or as a
/// surrogate pair above U+FFFF, in order.
#[verifier::external_body]
pub(crate) fn encode_utf16(s: &str) -> (r: Vec<u16>)
    ensures
        r@ == utf16_of(s@),
{
    s.encode_utf16().collect()
}

/// Relies on std::str::from_utf8: it succeeds exactly on valid UTF-8, and the
/// text it gives is what the bytes decode to.
#[verifier::external_body]
pub(crate) fn str_from_utf8(b: &[u8]) -> (r: Option<&str>)
    ensures
        match r {
            Some(s) => valid_utf8(b@) && s@ == decode_utf8(b@),
            None => !valid_utf8(b@),
        },
{
    std::str::from_utf8(b).ok()
}


proof fn lemma_pair_parts(x: int)
    requires
        0 <= x <= 0xFFFFF,
    ensures
        0 <= x / 0x400 <= 0x3FF,
        0 <= x % 0x400 < 0x400,
        x == (x / 0x400) * 0x400 + x % 0x400,
{
    assert(0 <= x / 0x400 <= 0x3FF) by (nonlinear_arith)
        requires 0 <= x <= 0xFFFFF;
    assert(x == (x / 0x400) * 0x400 + x % 0x400) by (nonlinear_arith);
}

/// The last code unit of a character is a low surrogate exactly when the
/// character lies above U+FFFF.
proof fn lemma_char_units_shape(c: char)
    ensures
        (c as u32) < 0x10000 ==> char_units(c).len() == 1 && !(0xDC00 <= char_units(c).last() <= 0xDFFF),
        (c as u32) >= 0x10000 ==> char_units(c).len() == 2 && 0xDC00 <= char_units(c).last() <= 0xDFFF
            && 0xD800 <= char_units(c)[0] <= 0xDBFF,
{
    char_is_scalar(c);
    let v = c as u32 as int;
    if v >= 0x10000 {
        lemma_pair_parts(v - 0x10000);
    }
}

proof fn lemma_char_units_injective(c: char, d: char)
    requires
        char_units(c) == char_units(d),
    ensures
        c == d,
{
    lemma_char_units_shape(c);
    lemma_char_units_shape(d);
    let v = c as u32 as int;
    let w = d as u32 as int;
    if v >= 0x10000 {
        lemma_pair_parts(v - 0x10000);
        lemma_pair_parts(w - 0x10000);
        assert(char_units(c)[0] == char_units(d)[0]);
        assert(char_units(c)[1] == char_units(d)[1]);
        assert((v - 0x10000) / 0x400 == (w - 0x10000) / 0x400);
        assert((v - 0x10000) % 0x400 == (w - 0x10000) % 0x400);
    } else {
        assert(char_units(c)[0] == char_units(d)[0]);
    }
    assert(c as u32 == d as u32);
    char_u32_cast(c, c as u32);
    char_u32_cast(d, d as u32);
}

/// Two texts with the same UTF-16 encoding are the same text: decoding the code
/// units gives back exactly the characters that were encoded.
pub proof fn lemma_utf16_injective(a: Seq<char>, b: Seq<char>)
    requires
        utf16_of(a) == utf16_of(b),
    ensures
        a == b,
    decreases a.len() + b.len(),
{
    if a.len() == 0 && b.len() == 0 {
        assert(a =~= b);
    } else if a.len() == 0 {
        lemma_char_units_shape(b.last());
        assert(utf16_of(b).len() >= char_units(b.last()).len());
    } else if b.len() == 0 {
        lemma_char_units_shape(a.last());
        assert(utf16_of(a).len() >= char_units(a.last()).len());
    } else {
        let u = utf16_of(a);
        let ca = char_units(a.last());
        let cb = char_units(b.last());
        lemma_char_units_shape(a.last());
        lemma_char_units_shape(b.last());
        assert(u.last() == ca.last());
        assert(u.last() == cb.last());
        assert(ca.len() == cb.len());
        let pa = utf16_of(a.drop_last());
        let pb = utf16_of(b.drop_last());
        assert(pa.len() == pb.len());
        assert(ca =~= u.subrange(pa.len() as int, u.len() as int));
        assert(cb =~= u.subrange(pb.len() as int, u.len() as int));
        assert(pa =~= u.take(pa.len() as int));
        assert(pb =~= u.take(pb.len() as int));
        lemma_char_units_injective(a.last(), b.last());
        lemma_utf16_injective(a.drop_last(), b.drop_last());
        assert(a =~= a.drop_last().push(a.last()));
        assert(b =~= b.drop_last().push(b.last()));
    }
}

} // verus!
