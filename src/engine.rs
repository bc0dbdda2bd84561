//! The engine: a custom word list, its space policy and the tables, with
//! compression and decompression.
use crate::codec::{spec_deserialize, spec_serialize};
use crate::error::Error;
use crate::ir::{text_valid, token_text, CodeType};
use crate::iterator::{lemma_next_step, spec_next, CodeIterator};
use crate::tables::Tables;
use vstd::prelude::*;
use vstd::utf8::*;

verus! {

/// Compresses and decompresses with one configuration; made by
/// [`crate::builder::Builder::engine`].
pub struct Engine {
    pub custom: Vec<&'static str>,
    pub custom_spaces: bool,
    pub tables: Tables,
}

impl Engine {
    /// The custom words, in order.
    pub open spec fn custom_words(&self) -> Seq<&'static str> {
        self.custom@
    }

    /// Whether custom words also match after a space.
    pub open spec fn spaces(&self) -> bool {
        self.custom_spaces
    }

    /// How many custom words the code can address: 32, or 16 when custom
    /// words may carry a space.
    pub open spec fn custom_limit(spaces: bool) -> nat {
        if spaces {
            16
        } else {
            32
        }
    }

    /// The custom words that the tokenizer uses: the first ones, up to the
    /// limit.
    pub open spec fn custom_in_use(&self) -> nat {
        if self.custom@.len() < Self::custom_limit(self.custom_spaces) {
            self.custom@.len()
        } else {
            Self::custom_limit(self.custom_spaces)
        }
    }

    /// The tables are well formed.
    pub open spec fn wf(&self) -> bool {
        self.tables.wf()
    }
}

/// Two well-formed engines with the same configuration whose tables hold
/// the same lemmas: they compress and decompress alike.
pub open spec fn alike(e1: Engine, e2: Engine) -> bool {
    &&& e1.wf()
    &&& e2.wf()
    &&& e1.custom@ == e2.custom@
    &&& e1.custom_spaces == e2.custom_spaces
    &&& e1.tables.one.texts() == e2.tables.one.texts()
    &&& e1.tables.two.texts() == e2.tables.two.texts()
    &&& e1.tables.three.texts() == e2.tables.three.texts()
    &&& e1.tables.controls.texts() == e2.tables.controls.texts()
    &&& e1.tables.repetitions.texts() == e2.tables.repetitions.texts()
}

/// The tokens of the bytes `b`, front to back.
pub open spec fn spec_tokens(e: Engine, b: Seq<u8>) -> Seq<CodeType>
    decreases b.len(),
{
    if b.len() == 0 {
        Seq::empty()
    } else {
        let (n, t) = spec_next(e, b);
        if 1 <= n <= b.len() {
            seq![t] + spec_tokens(e, b.subrange(n as int, b.len() as int))
        } else {
            Seq::empty()
        }
    }
}

/// The bytes that each token of `b` takes, front to back.
pub open spec fn spec_token_lengths(e: Engine, b: Seq<u8>) -> Seq<nat>
    decreases b.len(),
{
    if b.len() == 0 {
        Seq::empty()
    } else {
        let (n, t) = spec_next(e, b);
        if 1 <= n <= b.len() {
            seq![n] + spec_token_lengths(e, b.subrange(n as int, b.len() as int))
        } else {
            Seq::empty()
        }
    }
}

/// The codes of `ts`, one after another.
pub open spec fn spec_serialize_all(ts: Seq<CodeType>, spaces: bool) -> Seq<u8>
    decreases ts.len(),
{
    if ts.len() == 0 {
        Seq::empty()
    } else {
        spec_serialize(ts[0], spaces) + spec_serialize_all(ts.drop_first(), spaces)
    }
}

/// What `e` compresses the text `s` to.
pub open spec fn spec_compress(e: Engine, s: Seq<char>) -> Seq<u8> {
    spec_serialize_all(spec_tokens(e, encode_utf8(s)), e.custom_spaces)
}

/// What `e` decompresses the bytes `b` to: the texts of the codes, one after
/// another, or the first error.
pub open spec fn spec_decompress(e: Engine, b: Seq<u8>) -> Result<Seq<char>, Error>
    decreases b.len(),
{
    if b.len() == 0 {
        Ok(Seq::empty())
    } else {
        match spec_deserialize(b, e.custom_spaces) {
            Err(err) => Err(err),
            Ok((t, n)) => if !text_valid(e, t) {
                Err(Error::Format)
            } else if 1 <= n <= b.len() {
                match spec_decompress(e, b.subrange(n as int, b.len() as int)) {
                    Ok(rest) => Ok(token_text(e, t) + rest),
                    Err(err) => Err(err),
                }
            } else {
                Err(Error::UnexpectedEndOfBytes)
            },
        }
    }
}

impl Engine {
    /// Compresses `string`.
    pub fn compress(&self, string: &str) -> (r: Vec<u8>)
        requires
            self.wf(),
        ensures
            r@ == spec_compress(*self, string@),
    {
        let mut res: Vec<u8> = Vec::new();
        let mut it = CodeIterator::new(string, self);
        let total = it.main.len();
        proof {
            encode_utf8_valid_utf8(string@);
        }
        loop
            invariant
                it.wf(),
                it.engine == self,
                it.main@.len() <= total,
                spec_compress(*self, string@) == res@ + spec_serialize_all(
                    spec_tokens(*self, it.main@),
                    self.custom_spaces,
                ),
            ensures
                res@ == spec_compress(*self, string@),
            decreases it.main@.len(),
        {
            let ghost before = it.main@;
            let ghost done = res@;
            match it.next() {
                Some(code) => {
                    proof {
                        lemma_next_step(*self, before);
                        let ts = spec_tokens(*self, before);
                        assert(ts.drop_first() =~= spec_tokens(*self, it.main@));
                    }
                    code.serialize_into(&mut res, self.custom_spaces);
                    proof {
                        assert(done + spec_serialize_all(spec_tokens(*self, before), self.custom_spaces)
                            =~= res@ + spec_serialize_all(spec_tokens(*self, it.main@), self.custom_spaces));
                    }
                },
                None => {
                    proof {
                        assert(spec_tokens(*self, it.main@) =~= Seq::<CodeType>::empty());
                        assert(spec_serialize_all(Seq::<CodeType>::empty(), self.custom_spaces)
                            =~= Seq::<u8>::empty());
                        assert(res@ + Seq::<u8>::empty() =~= res@);
                    }
                    break;
                },
            }
        }
        res
    }

    /// Decompresses `bytes`: the text, or the first error.
    pub fn decompress(&self, bytes: &[u8]) -> (r: Result<String, Error>)
        requires
            self.wf(),
        ensures
            match spec_decompress(*self, bytes@) {
                Ok(text) => r matches Ok(s) && s@ == text,
                Err(err) => r == Err::<String, Error>(err),
            },
    {
        let mut string = String::new();
        let len = bytes.len();
        let mut at: usize = 0;
        proof {
            assert(bytes@.subrange(0, len as int) =~= bytes@);
            assert(string@ + Seq::<char>::empty() =~= string@);
        }
        while at < len
            invariant
                at <= len == bytes@.len(),
                spec_decompress(*self, bytes@) == match spec_decompress(
                    *self,
                    bytes@.subrange(at as int, len as int),
                ) {
                    Ok(rest) => Ok::<Seq<char>, Error>(string@ + rest),
                    Err(err) => Err(err),
                },
            decreases len - at,
        {
            let ghost b = bytes@.subrange(at as int, len as int);
            let (code, n) = match CodeType::deserialize_from(bytes, at, self.custom_spaces) {
                Ok(x) => x,
                Err(err) => {
                    return Err(err);
                },
            };
            let ghost before = string@;
            match code.add_to_string(&mut string, self) {
                Ok(()) => {},
                Err(err) => {
                    return Err(err);
                },
            }
            proof {
                lemma_deserialize_takes(b, self.custom_spaces);
                assert(b.subrange(n as int, b.len() as int) =~= bytes@.subrange(at + n, len as int));
                match spec_decompress(*self, bytes@.subrange(at + n, len as int)) {
                    Ok(rest) => {
                        assert(before + (token_text(*self, code) + rest) =~= string@ + rest);
                    },
                    Err(err) => {},
                }
            }
            at = at + n;
        }
        Ok(string)
    }
}

/// A code read from `b` takes at least one byte and no more than `b` holds.
pub proof fn lemma_deserialize_takes(b: Seq<u8>, spaces: bool)
    ensures
        spec_deserialize(b, spaces) matches Ok((t, n)) ==> 1 <= n <= b.len(),
{
    if b.len() > 0 && b[0] == 240 && b.len() > 1 {
        let rest = b.drop_first();
        if valid_first_scalar(rest) {
            assert(length_of_first_scalar(rest) <= rest.len());
        }
    }
}

} // verus!
