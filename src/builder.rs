//! Configuration for an engine: the custom word list and its space policy.
use crate::engine::{spec_compress, spec_decompress, Engine};
use crate::laws::{lemma_alike, lemma_round_trip_alike};
use crate::error::Error;
use crate::tables::Tables;
use vstd::prelude::*;
use vstd::utf8::*;

verus! {

/// The custom words of [`Builder::default`].
pub open spec fn default_custom() -> Seq<&'static str> {
    seq!["http://", "https://", ".com", "\n\r\n", "\r\n\r", "C:\\", ".co.uk"]
}

/// `r` is what `e` compresses `s` to.
pub open spec fn compresses_to(e: Engine, s: Seq<char>, r: Seq<u8>) -> bool {
    r == spec_compress(e, s)
}

/// `r` is what `e` decompresses `b` to.
pub open spec fn decompresses_to(e: Engine, b: Seq<u8>, r: Result<String, Error>) -> bool {
    match spec_decompress(e, b) {
        Ok(text) => r matches Ok(s) && s@ == text,
        Err(err) => r == Err::<String, Error>(err),
    }
}

/// An engine configured as `custom` and `spaces` say, with this library's
/// tables. All such engines compress and decompress alike.
pub open spec fn configured(e: Engine, custom: Seq<&'static str>, spaces: bool) -> bool {
    &&& e.wf()
    &&& e.custom@ == custom
    &&& e.custom_spaces == spaces
    &&& e.tables.standard()
}

/// With one configuration, decompressing what was compressed gives the text
/// back, whichever engines of that configuration do the work.
pub proof fn lemma_configured_round_trip(
    e1: Engine,
    e2: Engine,
    custom: Seq<&'static str>,
    spaces: bool,
    s: Seq<char>,
)
    requires
        configured(e1, custom, spaces),
        configured(e2, custom, spaces),
        encode_utf8(s).len() <= usize::MAX,
    ensures
        spec_decompress(e2, spec_compress(e1, s)) == Ok::<Seq<char>, Error>(s),
{
    lemma_round_trip_alike(e1, e2, s);
}

/// Builds engines.
///
/// The custom list may hold any number of words; the code addresses the first
/// 32 of them, or the first 16 when custom words may carry a leading space,
/// and the rest are never used.
pub struct Builder {
    pub custom: Vec<&'static str>,
    pub custom_spaces: bool,
}

fn copy_words(words: &Vec<&'static str>) -> (r: Vec<&'static str>)
    ensures
        r@ == words@,
{
    let mut r: Vec<&'static str> = Vec::new();
    let mut i: usize = 0;
    while i < words.len()
        invariant
            i <= words@.len(),
            r@ == words@.subrange(0, i as int),
        decreases words@.len() - i,
    {
        r.push(words[i]);
        i = i + 1;
        proof {
            assert(r@ =~= words@.subrange(0, i as int));
        }
    }
    proof {
        assert(words@.subrange(0, i as int) =~= words@);
    }
    r
}

impl Default for Builder {
    /// A builder with a few common URL and line-break words and no spaces.
    fn default() -> (r: Self)
        ensures
            r.custom@ == default_custom(),
            !r.custom_spaces,
    {
        let custom = vec!["http://", "https://", ".com", "\n\r\n", "\r\n\r", "C:\\", ".co.uk"];
        proof {
            assert(custom@ =~= default_custom());
        }
        Self { custom, custom_spaces: false }
    }
}

impl Builder {
    /// A builder with an empty custom list and no spaces.
    pub fn empty() -> (r: Self)
        ensures
            r.custom@ == Seq::<&'static str>::empty(),
            !r.custom_spaces,
    {
        Self { custom: Vec::new(), custom_spaces: false }
    }

    /// Replaces the custom list.
    pub fn set_custom(&mut self, list: Vec<&'static str>) -> (r: &mut Self)
        ensures
            r.custom@ == list@,
            r.custom_spaces == old(self).custom_spaces,
            *final(self) == *final(r),
    {
        self.custom = list;
        self
    }

    /// Appends a word to the custom list.
    pub fn push_custom(&mut self, custom: &'static str) -> (r: &mut Self)
        ensures
            r.custom@ == old(self).custom@.push(custom),
            r.custom_spaces == old(self).custom_spaces,
            *final(self) == *final(r),
    {
        self.custom.push(custom);
        self
    }

    /// Empties the custom list.
    pub fn clear_custom(&mut self) -> (r: &mut Self)
        ensures
            r.custom@ == Seq::<&'static str>::empty(),
            r.custom_spaces == old(self).custom_spaces,
            *final(self) == *final(r),
    {
        self.custom.clear();
        self
    }

    /// Sets whether custom words also match after a space.
    pub fn set_custom_spaces(&mut self, spaces: bool) -> (r: &mut Self)
        ensures
            r.custom@ == old(self).custom@,
            r.custom_spaces == spaces,
            *final(self) == *final(r),
    {
        self.custom_spaces = spaces;
        self
    }

    /// The length of the custom list.
    pub fn len_custom(&self) -> (r: usize)
        ensures
            r == self.custom@.len(),
    {
        self.custom.len()
    }

    /// An engine with this configuration.
    pub fn engine(&self) -> (e: Engine)
        ensures
            configured(e, self.custom@, self.custom_spaces),
    {
        Engine { custom: copy_words(&self.custom), custom_spaces: self.custom_spaces, tables: Tables::new() }
    }

    /// Compresses `string` with an engine of this configuration.
    pub fn compress(&self, string: &str) -> (r: Vec<u8>)
        ensures
            exists|e: Engine| configured(e, self.custom@, self.custom_spaces) && #[trigger] compresses_to(e, string@, r@),
            forall|e: Engine| configured(e, self.custom@, self.custom_spaces) ==> #[trigger] compresses_to(e, string@, r@),
    {
        let e = self.engine();
        let r = e.compress(string);
        proof {
            assert(compresses_to(e, string@, r@));
            assert forall|e2: Engine| configured(e2, self.custom@, self.custom_spaces) implies #[trigger] compresses_to(e2, string@, r@) by {
                lemma_alike(e, e2, string@, Seq::empty());
            }
        }
        r
    }

    /// Decompresses `bytes` with an engine of this configuration.
    pub fn decompress(&self, bytes: &[u8]) -> (r: Result<String, Error>)
        ensures
            exists|e: Engine| configured(e, self.custom@, self.custom_spaces) && #[trigger] decompresses_to(e, bytes@, r),
            forall|e: Engine| configured(e, self.custom@, self.custom_spaces) ==> #[trigger] decompresses_to(e, bytes@, r),
    {
        let e = self.engine();
        let r = e.decompress(bytes);
        proof {
            assert(decompresses_to(e, bytes@, r));
            assert forall|e2: Engine| configured(e2, self.custom@, self.custom_spaces) implies #[trigger] decompresses_to(e2, bytes@, r) by {
                lemma_alike(e, e2, Seq::empty(), bytes@);
            }
        }
        r
    }
}

/// Compresses `string` with the default configuration.
pub fn compress(string: &str) -> (r: Vec<u8>)
    ensures
        exists|e: Engine| configured(e, default_custom(), false) && #[trigger] compresses_to(e, string@, r@),
        forall|e: Engine| configured(e, default_custom(), false) ==> #[trigger] compresses_to(e, string@, r@),
{
    let e = Builder::default().engine();
    let r = e.compress(string);
    proof {
        assert(compresses_to(e, string@, r@));
        assert forall|e2: Engine| configured(e2, default_custom(), false) implies #[trigger] compresses_to(e2, string@, r@) by {
            lemma_alike(e, e2, string@, Seq::empty());
        }
    }
    r
}

/// Decompresses `bytes` with the default configuration.
pub fn decompress(bytes: &[u8]) -> (r: Result<String, Error>)
    ensures
        exists|e: Engine| configured(e, default_custom(), false) && #[trigger] decompresses_to(e, bytes@, r),
        forall|e: Engine| configured(e, default_custom(), false) ==> #[trigger] decompresses_to(e, bytes@, r),
{
    let e = Builder::default().engine();
    let r = e.decompress(bytes);
    proof {
        assert(decompresses_to(e, bytes@, r));
        assert forall|e2: Engine| configured(e2, default_custom(), false) implies #[trigger] decompresses_to(e2, bytes@, r) by {
            lemma_alike(e, e2, Seq::empty(), bytes@);
        }
    }
    r
}

} // verus!
