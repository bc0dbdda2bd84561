//! The byte code: each token is a header byte, possibly an escape pair, and
//! trailing bytes, laid out in one shared numeric address space.
use crate::dictionary::{lemma_pow256_monotone, pow256};
use crate::error::Error;
use crate::ir::CodeType;
use crate::text::lemma_char_prefix;
use vstd::prelude::*;
use vstd::utf8::*;

verus! {

/// Lemmas of the one-byte table; header bytes below it are those lemmas.
pub const ONE_BYTE_COUNT: usize = 240;
/// The header byte that announces a Unicode scalar value.
pub const UNICODE_ESCAPE: u8 = 240;
/// The first header byte of a two-byte escape.
pub const ESCAPE_BASE: usize = 241;
/// Lemmas of the two-byte table.
pub const TWO_BYTE_COUNT: usize = 257;
/// Lemmas of the three-byte table.
pub const THREE_BYTE_COUNT: usize = 153;
/// Entries of the control table.
pub const NON_PRINTABLE_COUNT: usize = 30;
/// Codes reserved for custom words.
pub const CUSTOM_COUNT: usize = 32;
/// Codes reserved for repetitions (one per count).
pub const REPETITION_COUNT: usize = 32;
/// Codes reserved for numbers (four low-bit values times eight lengths).
pub const NUMBER_COUNT: usize = 32;
/// Custom words usable when custom words may carry a leading space.
pub const SPACED_CUSTOM_COUNT: usize = 16;
/// Start of the custom partition of the escape address space.
pub const CUSTOM_BASE: usize = 2 * TWO_BYTE_COUNT;
/// Start of the repetition partition.
pub const REPETITION_BASE: usize = CUSTOM_BASE + CUSTOM_COUNT;
/// Start of the number partition.
pub const NUMBER_BASE: usize = REPETITION_BASE + REPETITION_COUNT;
/// Start of the control partition.
pub const CONTROL_BASE: usize = NUMBER_BASE + NUMBER_COUNT;
/// Start of the three-byte partition.
pub const THREE_BYTE_BASE: usize = CONTROL_BASE + NON_PRINTABLE_COUNT;
/// Numbers must lie below this bound: 2 to the 66th.
pub const NUMBER_LIMIT: u128 = 0x4_0000_0000_0000_0000;

/// The two bytes of escape code `n`.
pub open spec fn escape(n: int) -> Seq<u8> {
    seq![(n / 256 + ESCAPE_BASE) as u8, (n % 256) as u8]
}

/// The shortest little-endian bytes of `r`, at least one.
pub open spec fn le_bytes(r: nat) -> Seq<u8>
    decreases r,
{
    if r < 256 {
        seq![r as u8]
    } else {
        seq![(r % 256) as u8] + le_bytes(r / 256)
    }
}

/// The number that little-endian bytes `s` stand for.
pub open spec fn le_value(s: Seq<u8>) -> nat
    decreases s.len(),
{
    if s.len() == 0 {
        0
    } else {
        s[0] as nat + 256 * le_value(s.drop_first())
    }
}

/// The bytes that the leading byte `b` of a UTF-8 sequence announces; 0 for
/// a byte that never leads one (a continuation byte, 0xC0, 0xC1, or 0xF5 and
/// above).
pub open spec fn utf8_width(b: u8) -> nat {
    if b <= 0x7F {
        1
    } else if 0xC2 <= b <= 0xDF {
        2
    } else if 0xE0 <= b <= 0xEF {
        3
    } else if 0xF0 <= b <= 0xF4 {
        4
    } else {
        0
    }
}

/// A well-formed scalar starts with a byte that announces its length.
proof fn lemma_width_of_valid(b: Seq<u8>)
    requires
        valid_first_scalar(b),
    ensures
        utf8_width(b[0]) == length_of_first_scalar(b),
{
    let b0 = b[0];
    if 0xC0 <= b0 <= 0xC1 {
        let b1 = b[1];
        assert(((((b0 & 0x1F) as u32) << 6) | ((b1 & 0x3F) as u32)) < 0x80) by (bit_vector)
            requires
                0xC0 <= b0 <= 0xC1,
        ;
    }
    if 0xF5 <= b0 <= 0xF7 {
        let b1 = b[1];
        let b2 = b[2];
        let b3 = b[3];
        assert(((((b0 & 0x07) as u32) << 18) | (((b1 & 0x3F) as u32) << 12) | (((b2 & 0x3F) as u32)
            << 6) | ((b3 & 0x3F) as u32)) > 0x10FFFF) by (bit_vector)
            requires
                0xF5 <= b0 <= 0xF7,
        ;
    }
}

/// Whether `t` has a code: its index fits its table and partition.
pub open spec fn code_valid(t: CodeType, spaces: bool) -> bool {
    match t {
        CodeType::OneByteWonder(i) => i < ONE_BYTE_COUNT,
        CodeType::TwoByteCommon(_, i) => i < TWO_BYTE_COUNT,
        CodeType::ThreeByteUncommon(_, i) => i < THREE_BYTE_COUNT,
        CodeType::UnicodeChar(_) => true,
        CodeType::Number(v) => v < NUMBER_LIMIT,
        CodeType::Unprintable(i) => i < NON_PRINTABLE_COUNT,
        CodeType::Repetitions(c, i) => c < REPETITION_COUNT && i < 256,
        CodeType::Custom(sp, i) => if spaces {
            i < SPACED_CUSTOM_COUNT
        } else {
            !sp && i < CUSTOM_COUNT
        },
    }
}

/// The bytes of `t`.
pub open spec fn spec_serialize(t: CodeType, spaces: bool) -> Seq<u8> {
    match t {
        CodeType::OneByteWonder(i) => seq![i as u8],
        CodeType::UnicodeChar(c) => seq![UNICODE_ESCAPE] + encode_utf8(seq![c]),
        CodeType::TwoByteCommon(sp, i) => escape(
            if sp {
                TWO_BYTE_COUNT + i
            } else {
                i as int
            },
        ),
        CodeType::Custom(sp, i) => escape(
            CUSTOM_BASE + if sp && spaces {
                i + SPACED_CUSTOM_COUNT
            } else {
                i as int
            },
        ),
        CodeType::Repetitions(c, i) => escape(REPETITION_BASE + c) + seq![i as u8],
        CodeType::Number(v) => {
            let b = le_bytes(v as nat / 4);
            escape(NUMBER_BASE + (v % 4) * 8 + b.len() - 1) + b
        },
        CodeType::Unprintable(i) => escape(CONTROL_BASE + i),
        CodeType::ThreeByteUncommon(sp, i) => {
            let n: int = if sp {
                THREE_BYTE_COUNT + i
            } else {
                i as int
            };
            escape(THREE_BYTE_BASE + n / 256) + seq![(n % 256) as u8]
        },
    }
}

/// The token at the front of `b`, with the bytes it takes, or why there is none.
pub open spec fn spec_deserialize(b: Seq<u8>, spaces: bool) -> Result<(CodeType, nat), Error> {
    if b.len() == 0 {
        Err(Error::UnexpectedEndOfBytes)
    } else if b[0] < UNICODE_ESCAPE {
        Ok((CodeType::OneByteWonder(b[0] as usize), 1))
    } else if b[0] == UNICODE_ESCAPE {
        let rest = b.drop_first();
        if rest.len() == 0 || rest.len() < utf8_width(rest[0]) {
            Err(Error::UnexpectedEndOfBytes)
        } else if valid_first_scalar(rest) {
            Ok(
                (
                    CodeType::UnicodeChar(decode_first_scalar(rest) as char),
                    1 + length_of_first_scalar(rest) as nat,
                ),
            )
        } else {
            Err(Error::InvalidUnicodeChar)
        }
    } else if b.len() < 2 {
        Err(Error::UnexpectedEndOfBytes)
    } else {
        let code: int = (b[0] - ESCAPE_BASE) * 256 + b[1];
        if code < CUSTOM_BASE {
            Ok((CodeType::TwoByteCommon(code >= TWO_BYTE_COUNT, (code % TWO_BYTE_COUNT as int) as usize), 2))
        } else if code < REPETITION_BASE {
            let c: int = code - CUSTOM_BASE;
            if spaces && c >= SPACED_CUSTOM_COUNT {
                Ok((CodeType::Custom(true, (c - SPACED_CUSTOM_COUNT) as usize), 2))
            } else {
                Ok((CodeType::Custom(false, c as usize), 2))
            }
        } else if code < NUMBER_BASE {
            if b.len() < 3 {
                Err(Error::UnexpectedEndOfBytes)
            } else {
                Ok((CodeType::Repetitions((code - REPETITION_BASE) as u32, b[2] as usize), 3))
            }
        } else if code < CONTROL_BASE {
            let c: int = code - NUMBER_BASE;
            let len: int = c % 8 + 1;
            if b.len() < 2 + len {
                Err(Error::UnexpectedEndOfBytes)
            } else {
                Ok(
                    (
                        CodeType::Number((c / 8 + 4 * le_value(b.subrange(2, 2 + len))) as u128),
                        (2 + len) as nat,
                    ),
                )
            }
        } else if code < THREE_BYTE_BASE {
            Ok((CodeType::Unprintable((code - CONTROL_BASE) as usize), 2))
        } else if b.len() < 3 {
            Err(Error::UnexpectedEndOfBytes)
        } else {
            let n: int = (code - THREE_BYTE_BASE) * 256 + b[2];
            Ok((CodeType::ThreeByteUncommon(n >= THREE_BYTE_COUNT, (n % THREE_BYTE_COUNT as int) as usize), 3))
        }
    }
}

/// bincode's error kind, which its `Error` boxes; carried without being read.
#[verifier::external_type_specification]
#[verifier::external_body]
pub struct ExBincodeErrorKind(bincode::ErrorKind);

/// Relies on `bincode::deserialize::<char>`: it reads the UTF-8 encoding of one
/// Unicode scalar value from the front of `b[start..]` (trailing bytes are
/// allowed) and fails when the bytes there are not such an encoding.
#[verifier::external_body]
pub(crate) fn read_char(b: &[u8], start: usize) -> (r: core::result::Result<char, bincode::Error>)
    requires
        start <= b@.len(),
    ensures
        r is Ok <==> valid_first_scalar(b@.subrange(start as int, b@.len() as int)),
        r matches Ok(c) ==> c as u32 == decode_first_scalar(b@.subrange(start as int, b@.len() as int)),
{
    bincode::deserialize::<char>(&b[start..])
}

proof fn lemma_le_bytes(r: nat, k: nat)
    requires
        1 <= k,
        r < pow256(k),
    ensures
        le_value(le_bytes(r)) == r,
        1 <= le_bytes(r).len() <= k,
    decreases r,
{
    if r >= 256 {
        assert(pow256(k) == 256 * pow256((k - 1) as nat));
        if k == 1 {
            assert(pow256(0) == 1);
        }
        lemma_le_bytes(r / 256, (k - 1) as nat);
        let s = le_bytes(r);
        assert(s.drop_first() =~= le_bytes(r / 256));
        assert(s[0] as nat == r % 256);
        assert(le_value(s) == r % 256 + 256 * (r / 256));
    } else {
        let s = le_bytes(r);
        assert(s.drop_first() =~= Seq::<u8>::empty());
        assert(le_value(Seq::<u8>::empty()) == 0);
    }
}

proof fn lemma_escape(n: int, rest: Seq<u8>)
    requires
        0 <= n < 15 * 256,
    ensures
        (escape(n) + rest).len() == 2 + rest.len(),
        (escape(n) + rest)[0] > UNICODE_ESCAPE,
        ((escape(n) + rest)[0] - ESCAPE_BASE) * 256 + (escape(n) + rest)[1] == n,
        (escape(n) + rest).subrange(2, 2 + rest.len() as int) == rest,
{
    assert((escape(n) + rest).subrange(2, 2 + rest.len() as int) =~= rest);
}

proof fn lemma_unicode_round_trip(c: char, rest: Seq<u8>, spaces: bool)
    ensures
        spec_deserialize(spec_serialize(CodeType::UnicodeChar(c), spaces) + rest, spaces) == Ok::<
            (CodeType, nat),
            Error,
        >((CodeType::UnicodeChar(c), spec_serialize(CodeType::UnicodeChar(c), spaces).len())),
{
    let b = spec_serialize(CodeType::UnicodeChar(c), spaces) + rest;
    let e = encode_utf8(seq![c]);
    lemma_char_prefix(c, rest);
    assert(b.drop_first() =~= e + rest);
    lemma_width_of_valid(e + rest);
    vstd::utf8::char_u32_cast(c, c as u32);
}

proof fn lemma_number_round_trip(v: u128, rest: Seq<u8>, spaces: bool)
    requires
        v < NUMBER_LIMIT,
    ensures
        spec_deserialize(spec_serialize(CodeType::Number(v), spaces) + rest, spaces) == Ok::<
            (CodeType, nat),
            Error,
        >((CodeType::Number(v), spec_serialize(CodeType::Number(v), spaces).len())),
{
    let b = spec_serialize(CodeType::Number(v), spaces) + rest;
    let r = v as nat / 4;
    let tail = le_bytes(r);
    assert(r < pow256(8)) by {
        reveal_with_fuel(pow256, 9);
    }
    lemma_le_bytes(r, 8);
    let n: int = NUMBER_BASE + (v % 4) * 8 + tail.len() - 1;
    lemma_escape(n, tail + rest);
    assert(b =~= escape(n) + (tail + rest));
    assert((tail + rest).subrange(0, tail.len() as int) =~= tail);
    assert(b.subrange(2, 2 + tail.len() as int) =~= tail);
    let c: int = n - NUMBER_BASE;
    assert(c / 8 == v % 4 && c % 8 + 1 == tail.len());
    assert((c / 8 + 4 * le_value(tail)) == v);
}

proof fn lemma_three_round_trip(sp: bool, i: usize, rest: Seq<u8>, spaces: bool)
    requires
        i < THREE_BYTE_COUNT,
    ensures
        spec_deserialize(spec_serialize(CodeType::ThreeByteUncommon(sp, i), spaces) + rest, spaces)
            == Ok::<(CodeType, nat), Error>(
            (
                CodeType::ThreeByteUncommon(sp, i),
                spec_serialize(CodeType::ThreeByteUncommon(sp, i), spaces).len(),
            ),
        ),
{
    let b = spec_serialize(CodeType::ThreeByteUncommon(sp, i), spaces) + rest;
    let n: int = if sp { THREE_BYTE_COUNT + i } else { i as int };
    lemma_escape(THREE_BYTE_BASE + n / 256, seq![(n % 256) as u8] + rest);
    assert(b =~= escape(THREE_BYTE_BASE + n / 256) + (seq![(n % 256) as u8] + rest));
    assert(b[2] == (n % 256) as u8);
    assert((n / 256) * 256 + n % 256 == n);
}

proof fn lemma_escape_round_trip(t: CodeType, spaces: bool, rest: Seq<u8>)
    requires
        code_valid(t, spaces),
        t is TwoByteCommon || t is Custom || t is Repetitions || t is Unprintable,
    ensures
        spec_deserialize(spec_serialize(t, spaces) + rest, spaces) == Ok::<(CodeType, nat), Error>(
            (t, spec_serialize(t, spaces).len()),
        ),
{
    let s = spec_serialize(t, spaces);
    let b = s + rest;
    match t {
        CodeType::TwoByteCommon(sp, i) => {
            let n: int = if sp { TWO_BYTE_COUNT + i } else { i as int };
            lemma_escape(n, rest);
        },
        CodeType::Custom(sp, i) => {
            let n: int = CUSTOM_BASE + if sp && spaces { i + SPACED_CUSTOM_COUNT } else { i as int };
            lemma_escape(n, rest);
        },
        CodeType::Repetitions(c, i) => {
            lemma_escape(REPETITION_BASE + c, seq![i as u8] + rest);
            assert(b =~= escape(REPETITION_BASE + c) + (seq![i as u8] + rest));
        },
        CodeType::Unprintable(i) => {
            lemma_escape(CONTROL_BASE + i, rest);
        },
        _ => {},
    }
}

/// A code read back gives the token that was written, and takes exactly its
/// bytes, whatever follows it.
pub proof fn lemma_code_round_trip(t: CodeType, spaces: bool, rest: Seq<u8>)
    requires
        code_valid(t, spaces),
    ensures
        spec_deserialize(spec_serialize(t, spaces) + rest, spaces) == Ok::<(CodeType, nat), Error>(
            (t, spec_serialize(t, spaces).len()),
        ),
{
    let s = spec_serialize(t, spaces);
    let b = s + rest;
    match t {
        CodeType::OneByteWonder(i) => {
            assert(b[0] == i as u8);
        },
        CodeType::UnicodeChar(c) => {
            lemma_unicode_round_trip(c, rest, spaces);
        },
        CodeType::TwoByteCommon(_, _) | CodeType::Custom(_, _) | CodeType::Repetitions(_, _)
        | CodeType::Unprintable(_) => {
            lemma_escape_round_trip(t, spaces, rest);
        },
        CodeType::Number(v) => {
            lemma_number_round_trip(v, rest, spaces);
        },
        CodeType::ThreeByteUncommon(sp, i) => {
            lemma_three_round_trip(sp, i, rest, spaces);
        },
    }
}

fn push_escape(bytes: &mut Vec<u8>, n: usize)
    requires
        n < 15 * 256,
    ensures
        final(bytes)@ == old(bytes)@ + escape(n as int),
{
    bytes.push((n / 256 + ESCAPE_BASE) as u8);
    bytes.push((n % 256) as u8);
    proof {
        assert(final(bytes)@ =~= old(bytes)@ + escape(n as int));
    }
}

fn push_le_bytes(bytes: &mut Vec<u8>, r: u64)
    ensures
        final(bytes)@ == old(bytes)@ + le_bytes(r as nat),
{
    let mut r = r;
    let ghost r0 = r as nat;
    loop
        invariant_except_break
            old(bytes)@ + le_bytes(r0) == bytes@ + le_bytes(r as nat),
        ensures
            bytes@ == old(bytes)@ + le_bytes(r0),
        decreases r,
    {
        if r < 256 {
            bytes.push(r as u8);
            proof {
                assert(bytes@ =~= old(bytes)@ + le_bytes(r0));
            }
            break;
        }
        let ghost before = bytes@;
        bytes.push((r % 256) as u8);
        proof {
            assert(before + le_bytes(r as nat) =~= bytes@ + le_bytes((r / 256) as nat));
        }
        r = r / 256;
    }
}

/// The UTF-8 encoding of `c`, appended to `bytes`.
fn push_utf8(bytes: &mut Vec<u8>, c: char)
    ensures
        final(bytes)@ == old(bytes)@ + encode_utf8(seq![c]),
{
    let v = c as u32;
    proof {
        vstd::utf8::char_is_scalar(c);
        assert(seq![c].drop_first() =~= Seq::<char>::empty());
        assert(encode_utf8(Seq::<char>::empty()) == Seq::<u8>::empty());
        assert(encode_utf8(seq![c]) =~= encode_scalar(v));
    }
    if v <= 0x7F {
        bytes.push((v & 0x7F) as u8);
    } else if v <= 0x7FF {
        bytes.push(0xC0 | ((v >> 6) & 0x1F) as u8);
        bytes.push(0x80 | (v & 0x3F) as u8);
    } else if v <= 0xFFFF {
        bytes.push(0xE0 | ((v >> 12) & 0x0F) as u8);
        bytes.push(0x80 | ((v >> 6) & 0x3F) as u8);
        bytes.push(0x80 | (v & 0x3F) as u8);
    } else {
        bytes.push(0xF0 | ((v >> 18) & 0x7) as u8);
        bytes.push(0x80 | ((v >> 12) & 0x3F) as u8);
        bytes.push(0x80 | ((v >> 6) & 0x3F) as u8);
        bytes.push(0x80 | (v & 0x3F) as u8);
    }
    proof {
        assert(bytes@ =~= old(bytes)@ + encode_utf8(seq![c]));
    }
}

/// The number that `b[start..start + len]` stands for, little-endian.
fn read_le(b: &[u8], start: usize, len: usize) -> (r: u128)
    requires
        len <= 8,
        start + len <= b@.len(),
    ensures
        r as nat == le_value(b@.subrange(start as int, start + len)),
        r < 0x1_0000_0000_0000_0000,
{
    let n = b.len();
    let mut acc: u128 = 0;
    let mut i: usize = len;
    proof {
        assert(b@.subrange(start + len, start + len) =~= Seq::<u8>::empty());
        assert(pow256(0) == 1);
    }
    while i > 0
        invariant
            i <= len <= 8,
            start + len <= b@.len(),
            n == b@.len(),
            acc as nat == le_value(b@.subrange(start + i, start + len)),
            acc < pow256((len - i) as nat),
        decreases i,
    {
        i = i - 1;
        let ghost cur = b@.subrange(start + i, start + len);
        let ghost p = pow256((len - i - 1) as nat);
        proof {
            assert(cur.drop_first() =~= b@.subrange(start + i + 1, start + len));
            assert(cur[0] == b@[start + i]);
            assert(pow256((len - i) as nat) == 256 * p);
            lemma_pow256_monotone((len - i - 1) as nat, 7);
            assert(pow256(7) == 0x100_0000_0000_0000) by {
                reveal_with_fuel(pow256, 8);
            }
            assert(b@[start + i] + 256 * acc < 256 * p) by (nonlinear_arith)
                requires
                    acc < p,
                    b@[start + i] < 256,
            ;
        }
        acc = b[start + i] as u128 + 256 * acc;
    }
    proof {
        lemma_pow256_monotone(len as nat, 8);
        assert(pow256(8) == 0x1_0000_0000_0000_0000) by {
            reveal_with_fuel(pow256, 9);
        }
    }
    acc
}

impl CodeType {
    /// Appends the code of this token to `bytes`.
    pub fn serialize_into(&self, bytes: &mut Vec<u8>, spaces: bool)
        requires
            code_valid(*self, spaces),
        ensures
            final(bytes)@ == old(bytes)@ + spec_serialize(*self, spaces),
    {
        match self {
            CodeType::OneByteWonder(i) => {
                bytes.push(*i as u8);
                proof {
                    assert(final(bytes)@ =~= old(bytes)@ + spec_serialize(*self, spaces));
                }
            },
            CodeType::UnicodeChar(c) => {
                bytes.push(UNICODE_ESCAPE);
                push_utf8(bytes, *c);
                proof {
                    assert(final(bytes)@ =~= old(bytes)@ + spec_serialize(*self, spaces));
                }
            },
            CodeType::TwoByteCommon(sp, i) => {
                let n = if *sp { TWO_BYTE_COUNT + *i } else { *i };
                push_escape(bytes, n);
            },
            CodeType::Custom(sp, i) => {
                let n = if *sp && spaces { *i + SPACED_CUSTOM_COUNT } else { *i };
                push_escape(bytes, CUSTOM_BASE + n);
            },
            CodeType::Repetitions(c, i) => {
                push_escape(bytes, REPETITION_BASE + *c as usize);
                bytes.push(*i as u8);
                proof {
                    assert(final(bytes)@ =~= old(bytes)@ + spec_serialize(*self, spaces));
                }
            },
            CodeType::Number(v) => {
                let mut tail: Vec<u8> = Vec::new();
                let r = (*v / 4) as u64;
                push_le_bytes(&mut tail, r);
                proof {
                    assert(tail@ =~= le_bytes(*v as nat / 4));
                    assert(*v as nat / 4 < pow256(8)) by {
                        reveal_with_fuel(pow256, 9);
                    }
                    lemma_le_bytes(*v as nat / 4, 8);
                }
                let low = (*v % 4) as usize;
                push_escape(bytes, NUMBER_BASE + low * 8 + tail.len() - 1);
                bytes.append(&mut tail);
                proof {
                    assert(final(bytes)@ =~= old(bytes)@ + spec_serialize(*self, spaces));
                }
            },
            CodeType::Unprintable(i) => {
                push_escape(bytes, CONTROL_BASE + *i);
            },
            CodeType::ThreeByteUncommon(sp, i) => {
                let n = if *sp { THREE_BYTE_COUNT + *i } else { *i };
                push_escape(bytes, THREE_BYTE_BASE + n / 256);
                bytes.push((n % 256) as u8);
                proof {
                    assert(final(bytes)@ =~= old(bytes)@ + spec_serialize(*self, spaces));
                }
            },
        }
    }
}

impl CodeType {
    /// Reads the token whose code starts at `bytes[at]`, with the number of
    /// bytes it takes.
    pub fn deserialize_from(bytes: &[u8], at: usize, spaces: bool) -> (r: Result<(CodeType, usize), Error>)
        requires
            at <= bytes@.len(),
        ensures
            match spec_deserialize(bytes@.subrange(at as int, bytes@.len() as int), spaces) {
                Ok((t, n)) => r == Ok::<(CodeType, usize), Error>((t, n as usize)),
                Err(e) => r == Err::<(CodeType, usize), Error>(e),
            },
    {
        let len = bytes.len();
        let ghost b = bytes@.subrange(at as int, len as int);
        if at >= len {
            return Err(Error::UnexpectedEndOfBytes);
        }
        assert(b[0] == bytes@[at as int]);
        let first = bytes[at];
        if first < UNICODE_ESCAPE {
            return Ok((CodeType::OneByteWonder(first as usize), 1));
        }
        if first == UNICODE_ESCAPE {
            if len - at < 2 {
                return Err(Error::UnexpectedEndOfBytes);
            }
            let ghost rest = b.drop_first();
            assert(rest =~= bytes@.subrange(at + 1, len as int));
            let lead = bytes[at + 1];
            let width: usize = if lead <= 0x7f {
                1
            } else if 0xc2 <= lead && lead <= 0xdf {
                2
            } else if 0xe0 <= lead && lead <= 0xef {
                3
            } else if 0xf0 <= lead && lead <= 0xf4 {
                4
            } else {
                0
            };
            if len - (at + 1) < width {
                return Err(Error::UnexpectedEndOfBytes);
            }
            return match read_char(bytes, at + 1) {
                Ok(c) => {
                    proof {
                        vstd::utf8::char_u32_cast(c, c as u32);
                        lemma_width_of_valid(rest);
                    }
                    Ok((CodeType::UnicodeChar(c), 1 + width))
                },
                Err(_) => Err(Error::InvalidUnicodeChar),
            };
        }
        if len - at < 2 {
            return Err(Error::UnexpectedEndOfBytes);
        }
        assert(b[1] == bytes@[at + 1]);
        let code = (first as usize - ESCAPE_BASE) * 256 + bytes[at + 1] as usize;
        if code < CUSTOM_BASE {
            return Ok((CodeType::TwoByteCommon(code >= TWO_BYTE_COUNT, code % TWO_BYTE_COUNT), 2));
        }
        if code < REPETITION_BASE {
            let c = code - CUSTOM_BASE;
            if spaces && c >= SPACED_CUSTOM_COUNT {
                return Ok((CodeType::Custom(true, c - SPACED_CUSTOM_COUNT), 2));
            }
            return Ok((CodeType::Custom(false, c), 2));
        }
        if code < NUMBER_BASE {
            if len - at < 3 {
                return Err(Error::UnexpectedEndOfBytes);
            }
            assert(b[2] == bytes@[at + 2]);
            return Ok((CodeType::Repetitions((code - REPETITION_BASE) as u32, bytes[at + 2] as usize), 3));
        }
        if code < CONTROL_BASE {
            let c = code - NUMBER_BASE;
            let n = c % 8 + 1;
            if len - at < 2 + n {
                return Err(Error::UnexpectedEndOfBytes);
            }
            let v = read_le(bytes, at + 2, n);
            proof {
                assert(b.subrange(2, 2 + n as int) =~= bytes@.subrange(at + 2, at + 2 + n));
            }
            return Ok((CodeType::Number((c / 8) as u128 + 4 * v), 2 + n));
        }
        if code < THREE_BYTE_BASE {
            return Ok((CodeType::Unprintable(code - CONTROL_BASE), 2));
        }
        if len - at < 3 {
            return Err(Error::UnexpectedEndOfBytes);
        }
        assert(b[2] == bytes@[at + 2]);
        let n = (code - THREE_BYTE_BASE) * 256 + bytes[at + 2] as usize;
        Ok((CodeType::ThreeByteUncommon(n >= THREE_BYTE_COUNT, n % THREE_BYTE_COUNT), 3))
    }
}

} // verus!
