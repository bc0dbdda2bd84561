//! The tokens that the tokenizer emits and the codec packs.
use crate::engine::Engine;
use crate::iterator::decimal;
use crate::error::Error;
use crate::text::{ascii_chars, push_char};
use vstd::string::*;
use vstd::prelude::*;

verus! {

/// One unit of compressed text.
#[derive(Debug, Clone, Copy, PartialEq, Eq, Structural)]
pub enum CodeType {
    /// A lemma of the one-byte table, or a literal ASCII byte: one byte.
    OneByteWonder(usize),
    /// A lemma of the two-byte table, optionally after a space: two bytes.
    TwoByteCommon(bool, usize),
    /// A lemma of the three-byte table, optionally after a space: three bytes.
    ThreeByteUncommon(bool, usize),
    /// A non-ASCII Unicode scalar value: one byte more than its UTF-8 form.
    UnicodeChar(char),
    /// A decimal number without leading zeros: three to ten bytes.
    Number(u128),
    /// A control byte of the control table: two bytes.
    Unprintable(usize),
    /// A run of `count` copies of a repetition unit: three bytes.
    Repetitions(u32, usize),
    /// A word of the custom list, optionally after a space: two bytes.
    Custom(bool, usize),
}

/// A space, when `sp` holds.
pub open spec fn space_text(sp: bool) -> Seq<char> {
    if sp {
        seq![' ']
    } else {
        Seq::empty()
    }
}

/// `x` written `c` times.
pub open spec fn repeat_text(x: Seq<char>, c: nat) -> Seq<char>
    decreases c,
{
    if c == 0 {
        Seq::empty()
    } else {
        repeat_text(x, (c - 1) as nat) + x
    }
}

/// Whether every index in `t` names an entry of its table or of the custom
/// list, so that `t` has a text.
pub open spec fn text_valid(e: Engine, t: CodeType) -> bool {
    match t {
        CodeType::OneByteWonder(i) => i < e.tables.one.count(),
        CodeType::TwoByteCommon(_, i) => i < e.tables.two.count(),
        CodeType::ThreeByteUncommon(_, i) => i < e.tables.three.count(),
        CodeType::UnicodeChar(_) => true,
        CodeType::Number(_) => true,
        CodeType::Unprintable(i) => i < e.tables.controls.count(),
        CodeType::Repetitions(_, i) => i < e.tables.repetitions.count(),
        CodeType::Custom(_, i) => i < e.custom@.len(),
    }
}

/// The text that `t` stands for.
pub open spec fn token_text(e: Engine, t: CodeType) -> Seq<char> {
    match t {
        CodeType::OneByteWonder(i) => e.tables.one.text(i as int),
        CodeType::TwoByteCommon(sp, i) => space_text(sp) + e.tables.two.text(i as int),
        CodeType::ThreeByteUncommon(sp, i) => space_text(sp) + e.tables.three.text(i as int),
        CodeType::UnicodeChar(c) => seq![c],
        CodeType::Number(v) => ascii_chars(decimal(v as nat)),
        CodeType::Unprintable(i) => e.tables.controls.text(i as int),
        CodeType::Repetitions(c, i) => repeat_text(e.tables.repetitions.text(i as int), c as nat),
        CodeType::Custom(sp, i) => space_text(sp) + e.custom@[i as int]@,
    }
}

/// Appends the decimal digits of `v`.
fn push_decimal(s: &mut String, v: u128)
    ensures
        final(s)@ == old(s)@ + ascii_chars(decimal(v as nat)),
    decreases v,
{
    if v >= 10 {
        push_decimal(s, v / 10);
    }
    let d = (v % 10) as u8 + 48;
    push_char(s, d as char);
    proof {
        if v >= 10 {
            assert(ascii_chars(decimal(v as nat)) =~= ascii_chars(decimal((v / 10) as nat)).push(d as char));
        } else {
            assert(ascii_chars(decimal(v as nat)) =~= seq![d as char]);
        }
        assert(final(s)@ =~= old(s)@ + ascii_chars(decimal(v as nat)));
    }
}

fn push_space(s: &mut String, sp: bool)
    ensures
        final(s)@ == old(s)@ + space_text(sp),
{
    if sp {
        push_char(s, ' ');
    }
    proof {
        assert(final(s)@ =~= old(s)@ + space_text(sp));
    }
}

impl CodeType {
    /// Appends the text of this token to `string`; `Error::Format` when an
    /// index names no entry, and then `string` is left as it was.
    pub fn add_to_string(&self, string: &mut String, engine: &Engine) -> (r: Result<(), Error>)
        ensures
            text_valid(*engine, *self) ==> r is Ok && final(string)@ == old(string)@ + token_text(
                *engine,
                *self,
            ),
            !text_valid(*engine, *self) ==> r == Err::<(), Error>(Error::Format) && final(string)@
                == old(string)@,
    {
        let t = &engine.tables;
        match self {
            CodeType::OneByteWonder(index) => {
                if *index >= t.one.len() {
                    return Err(Error::Format);
                }
                string.append(t.one.words[*index].as_str());
            },
            CodeType::TwoByteCommon(space, index) => {
                if *index >= t.two.len() {
                    return Err(Error::Format);
                }
                push_space(string, *space);
                string.append(t.two.words[*index].as_str());
                proof {
                    assert(final(string)@ =~= old(string)@ + token_text(*engine, *self));
                }
            },
            CodeType::ThreeByteUncommon(space, index) => {
                if *index >= t.three.len() {
                    return Err(Error::Format);
                }
                push_space(string, *space);
                string.append(t.three.words[*index].as_str());
                proof {
                    assert(final(string)@ =~= old(string)@ + token_text(*engine, *self));
                }
            },
            CodeType::UnicodeChar(ch) => {
                push_char(string, *ch);
                proof {
                    assert(final(string)@ =~= old(string)@ + token_text(*engine, *self));
                }
            },
            CodeType::Number(num) => {
                push_decimal(string, *num);
            },
            CodeType::Unprintable(index) => {
                if *index >= t.controls.len() {
                    return Err(Error::Format);
                }
                string.append(t.controls.words[*index].as_str());
            },
            CodeType::Repetitions(count, index) => {
                if *index >= t.repetitions.len() {
                    return Err(Error::Format);
                }
                let unit = t.repetitions.words[*index].as_str();
                let mut i: u32 = 0;
                proof {
                    assert(old(string)@ + repeat_text(unit@, 0) =~= old(string)@);
                }
                while i < *count
                    invariant
                        i <= *count,
                        string@ == old(string)@ + repeat_text(unit@, i as nat),
                    decreases *count - i,
                {
                    string.append(unit);
                    i = i + 1;
                    proof {
                        assert(string@ =~= old(string)@ + repeat_text(unit@, i as nat));
                    }
                }
            },
            CodeType::Custom(space, index) => {
                if *index >= engine.custom.len() {
                    return Err(Error::Format);
                }
                push_space(string, *space);
                string.append(engine.custom[*index]);
                proof {
                    assert(final(string)@ =~= old(string)@ + token_text(*engine, *self));
                }
            },
        }
        Ok(())
    }
}

} // verus!
