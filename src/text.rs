//! Facts about UTF-8 text that the tokenizer and the decoder share.
use vstd::prelude::*;
use vstd::utf8::*;

verus! {

/// Relies on `String::push`: it appends one char to the string.
#[verifier::external_body]
pub(crate) fn push_char(s: &mut String, c: char)
    ensures
        final(s)@ == old(s)@.push(c),
{
    s.push(c)
}

/// A string that holds the one char `c`.
pub(crate) fn char_string(c: char) -> (s: String)
    ensures
        s@ == seq![c],
{
    let mut s = String::new();
    push_char(&mut s, c);
    proof {
        assert(s@ =~= seq![c]);
    }
    s
}

/// The UTF-8 encoding of a concatenation is the concatenation of encodings.
pub proof fn lemma_encode_concat(a: Seq<char>, b: Seq<char>)
    ensures
        encode_utf8(a + b) == encode_utf8(a) + encode_utf8(b),
    decreases a.len(),
{
    if a.len() == 0 {
        assert(a + b =~= b);
        assert(encode_utf8(a) =~= Seq::<u8>::empty());
        assert(encode_utf8(a) + encode_utf8(b) =~= encode_utf8(b));
    } else {
        assert((a + b).drop_first() =~= a.drop_first() + b);
        lemma_encode_concat(a.drop_first(), b);
        assert((a + b)[0] == a[0]);
        assert(encode_utf8(a + b) =~= encode_scalar(a[0] as u32) + (encode_utf8(a.drop_first())
            + encode_utf8(b)));
    }
}

/// The UTF-8 encoding of one char, followed by anything, starts with a
/// well-formed scalar of exactly that encoding's length.
pub proof fn lemma_char_prefix(c: char, y: Seq<u8>)
    ensures
        ({
            let e = encode_utf8(seq![c]);
            let b = e + y;
            &&& e == encode_scalar(c as u32)
            &&& 1 <= e.len() <= 4
            &&& b.len() >= 1
            &&& valid_first_scalar(b)
            &&& decode_first_scalar(b) == c as u32
            &&& length_of_first_scalar(b) == e.len()
            &&& (is_leading_byte_width_1(b[0]) ==> e.len() == 1)
            &&& (is_leading_byte_width_2(b[0]) ==> e.len() == 2)
            &&& (is_leading_byte_width_3(b[0]) ==> e.len() == 3)
            &&& (is_leading_byte_width_4(b[0]) ==> e.len() == 4)
        }),
{
    let e = encode_utf8(seq![c]);
    let b = e + y;
    encode_utf8_first_scalar(seq![c]);
    assert(seq![c].drop_first() =~= Seq::<char>::empty());
    assert(encode_utf8(Seq::<char>::empty()) == Seq::<u8>::empty());
    assert(e =~= encode_scalar(c as u32));
    assert(b[0] == e[0]);
    if e.len() >= 2 {
        assert(b[1] == e[1]);
    }
    if e.len() >= 3 {
        assert(b[2] == e[2]);
    }
    if e.len() >= 4 {
        assert(b[3] == e[3]);
    }
}

/// After a prefix that is the encoding of some chars, valid UTF-8 stays valid.
pub proof fn lemma_valid_suffix(x: Seq<char>, y: Seq<u8>)
    requires
        valid_utf8(encode_utf8(x) + y),
    ensures
        valid_utf8(y),
    decreases x.len(),
{
    if x.len() == 0 {
        assert(encode_utf8(x) + y =~= y);
    } else {
        let e = encode_utf8(seq![x[0]]);
        lemma_encode_concat(seq![x[0]], x.drop_first());
        assert(x =~= seq![x[0]] + x.drop_first());
        let whole = encode_utf8(x) + y;
        assert(whole =~= e + (encode_utf8(x.drop_first()) + y));
        lemma_char_prefix(x[0], encode_utf8(x.drop_first()) + y);
        assert(pop_first_scalar(whole) =~= encode_utf8(x.drop_first()) + y);
        lemma_valid_suffix(x.drop_first(), y);
    }
}

/// ASCII bytes, read as chars, encode back to themselves.
pub open spec fn ascii_chars(d: Seq<u8>) -> Seq<char> {
    d.map_values(|b: u8| b as char)
}

pub proof fn lemma_ascii_encode(d: Seq<u8>)
    requires
        forall|i: int| 0 <= i < d.len() ==> d[i] < 0x80,
    ensures
        encode_utf8(ascii_chars(d)) == d,
    decreases d.len(),
{
    let x = ascii_chars(d);
    if d.len() == 0 {
        assert(x =~= Seq::<char>::empty());
    } else {
        assert(x.drop_first() =~= ascii_chars(d.drop_first()));
        lemma_ascii_encode(d.drop_first());
        let b = d[0];
        assert(x[0] == b as char);
        assert((b as char) as u32 == b as u32);
        assert(leading_byte_width_1(b as u32) == b) by (bit_vector)
            requires
                b < 0x80,
        ;
        assert(encode_utf8(x) =~= seq![b] + encode_utf8(ascii_chars(d.drop_first())));
        assert(d =~= seq![b] + d.drop_first());
    }
}

} // verus!
