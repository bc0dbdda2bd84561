//! Immutable lemma tables: a bijection between short byte strings and dense
//! indices, with a lookup keyed by an integer packing of the bytes.
use std::collections::HashMap;
use vstd::prelude::*;
use vstd::utf8::*;

verus! {

broadcast use vstd::std_specs::hash::group_hash_axioms;

/// The longest lemma, in bytes, that a dictionary can look up.
pub const MAX_LEMMA_LEN: usize = 15;

/// 256 to the power `n`.
pub open spec fn pow256(n: nat) -> nat
    decreases n,
{
    if n == 0 {
        1
    } else {
        256 * pow256((n - 1) as nat)
    }
}

/// An injective packing of a byte string into a number: the bytes in base 256,
/// least significant first, under a leading 1 that marks the length.
pub open spec fn key_of(w: Seq<u8>) -> nat
    decreases w.len(),
{
    if w.len() == 0 {
        1
    } else {
        w[0] as nat + 256 * key_of(w.drop_first())
    }
}

proof fn lemma_key_bounds(w: Seq<u8>)
    ensures
        1 <= key_of(w) < pow256(w.len() + 1),
        w.len() > 0 ==> key_of(w) >= 256,
    decreases w.len(),
{
    assert(pow256(w.len() + 1) == 256 * pow256(w.len() as nat));
    if w.len() == 0 {
        assert(pow256(0) == 1);
    } else {
        lemma_key_bounds(w.drop_first());
        let k = key_of(w.drop_first());
        let p = pow256(w.len() as nat);
        assert(w[0] as nat + 256 * k < 256 * p) by (nonlinear_arith)
            requires
                k + 1 <= p,
                w[0] < 256,
        ;
    }
}

proof fn lemma_key_injective(a: Seq<u8>, b: Seq<u8>)
    requires
        key_of(a) == key_of(b),
    ensures
        a == b,
    decreases a.len(),
{
    lemma_key_bounds(a);
    lemma_key_bounds(b);
    if a.len() > 0 && b.len() > 0 {
        let ka = key_of(a.drop_first());
        let kb = key_of(b.drop_first());
        assert(a[0] == b[0] && ka == kb) by (nonlinear_arith)
            requires
                a[0] as nat + 256 * ka == b[0] as nat + 256 * kb,
                a[0] < 256,
                b[0] < 256,
        ;
        lemma_key_injective(a.drop_first(), b.drop_first());
        assert(a =~= seq![a[0]] + a.drop_first());
        assert(b =~= seq![b[0]] + b.drop_first());
    }
}

proof fn lemma_pow256_16()
    ensures
        pow256(16) == 0x1_0000_0000_0000_0000_0000_0000_0000_0000,
{
    reveal_with_fuel(pow256, 17);
}

pub proof fn lemma_pow256_monotone(a: nat, b: nat)
    requires
        a <= b,
    ensures
        pow256(a) <= pow256(b),
    decreases b,
{
    if a < b {
        lemma_pow256_monotone(a, (b - 1) as nat);
    }
}

/// The packed key of `w[start..start + len]`.
pub(crate) fn pack_key(w: &[u8], start: usize, len: usize) -> (k: u128)
    requires
        len <= MAX_LEMMA_LEN,
        start + len <= w@.len(),
    ensures
        k as nat == key_of(w@.subrange(start as int, start + len)),
{
    let n = w.len();
    let mut k: u128 = 1;
    let mut i: usize = len;
    proof {
        assert(w@.subrange(start + len, start + len) =~= Seq::<u8>::empty());
    }
    while i > 0
        invariant
            i <= len <= MAX_LEMMA_LEN,
            start + len <= w@.len(),
            n == w@.len(),
            k as nat == key_of(w@.subrange(start + i, start + len)),
        decreases i,
    {
        i = i - 1;
        let ghost tail = w@.subrange(start + i + 1, start + len);
        let ghost cur = w@.subrange(start + i, start + len);
        proof {
            assert(cur.drop_first() =~= tail);
            assert(cur[0] == w@[start + i]);
            lemma_key_bounds(tail);
            lemma_pow256_monotone(tail.len() + 1, 15);
            lemma_pow256_16();
            assert(pow256(16) == 256 * pow256(15));
            assert(key_of(cur) < pow256(16)) by (nonlinear_arith)
                requires
                    key_of(cur) == cur[0] as nat + 256 * key_of(tail),
                    key_of(tail) < pow256(15),
                    cur[0] < 256,
                    pow256(16) == 256 * pow256(15),
            ;
        }
        let b = w[start + i] as u128;
        assert(b + 256 * k < 0x1_0000_0000_0000_0000_0000_0000_0000_0000);
        k = b + 256 * k;
    }
    k
}

proof fn lemma_find_sound(d: Dictionary)
    requires
        d.words@.len() <= usize::MAX,
    ensures
        forall|w: Seq<u8>| #[trigger]
            d.find(w) matches Some(i) ==> i < d.count() && d.bytes(i as int) == w,
{
    assert forall|w: Seq<u8>| #[trigger]
        d.find(w) matches Some(i) ==> i < d.count() && d.bytes(i as int) == w by {
        lemma_last_with(d.texts(), w, d.count());
    }
}

proof fn lemma_key_fits(w: Seq<u8>)
    requires
        w.len() <= MAX_LEMMA_LEN,
    ensures
        key_of(w) < 0x1_0000_0000_0000_0000_0000_0000_0000_0000,
{
    lemma_key_bounds(w);
    lemma_pow256_monotone(w.len() + 1, 16);
    lemma_pow256_16();
}

proof fn lemma_key_distinct(a: Seq<u8>, b: Seq<u8>)
    requires
        a != b,
        a.len() <= MAX_LEMMA_LEN,
        b.len() <= MAX_LEMMA_LEN,
    ensures
        key_of(a) as u128 != key_of(b) as u128,
{
    lemma_key_bounds(a);
    lemma_key_bounds(b);
    lemma_pow256_monotone(a.len() + 1, 16);
    lemma_pow256_monotone(b.len() + 1, 16);
    lemma_pow256_16();
    if key_of(a) == key_of(b) {
        lemma_key_injective(a, b);
    }
}

/// The texts of `words`.
pub open spec fn texts_of(words: Seq<String>) -> Seq<Seq<char>> {
    words.map_values(|w: String| w@)
}

/// The last of the first `n` texts whose UTF-8 bytes are `w`.
pub open spec fn last_with(texts: Seq<Seq<char>>, w: Seq<u8>, n: nat) -> Option<usize>
    decreases n,
{
    if n == 0 {
        None
    } else if encode_utf8(texts[n - 1]) == w {
        Some((n - 1) as usize)
    } else {
        last_with(texts, w, (n - 1) as nat)
    }
}

/// Whether some text has `l` bytes.
pub open spec fn has_len(texts: Seq<Seq<char>>, l: nat) -> bool {
    exists|j: int| 0 <= j < texts.len() && #[trigger] encode_utf8(texts[j]).len() == l
}

/// The byte lengths from `l` down to 1 that some text has, longest first.
pub open spec fn lens_from(texts: Seq<Seq<char>>, l: nat) -> Seq<usize>
    decreases l,
{
    if l == 0 {
        Seq::empty()
    } else {
        (if has_len(texts, l) {
            seq![l as usize]
        } else {
            Seq::empty()
        }) + lens_from(texts, (l - 1) as nat)
    }
}

proof fn lemma_last_with(texts: Seq<Seq<char>>, w: Seq<u8>, n: nat)
    requires
        n <= texts.len(),
        n <= usize::MAX,
    ensures
        last_with(texts, w, n) matches Some(j) ==> j < n && encode_utf8(texts[j as int]) == w,
        (exists|j: int| 0 <= j < n && encode_utf8(texts[j]) == w) ==> last_with(texts, w, n) is Some,
    decreases n,
{
    if n > 0 {
        lemma_last_with(texts, w, (n - 1) as nat);
        if exists|j: int| 0 <= j < n && encode_utf8(texts[j]) == w {
            let j = choose|j: int| 0 <= j < n && encode_utf8(texts[j]) == w;
            if j < n - 1 {
                assert(exists|j: int| 0 <= j < n - 1 && encode_utf8(texts[j]) == w);
            }
        }
    }
}

proof fn lemma_lens_from(texts: Seq<Seq<char>>, l: nat)
    requires
        l <= MAX_LEMMA_LEN,
    ensures
        forall|j: int| 0 <= j < lens_from(texts, l).len() ==> 1 <= #[trigger] lens_from(texts, l)[j] <= l,
        forall|j: int, k: int|
            0 <= j < k < lens_from(texts, l).len() ==> lens_from(texts, l)[j] > lens_from(texts, l)[k],
        forall|m: nat| 1 <= m <= l && has_len(texts, m) ==> lens_from(texts, l).contains(m as usize),
    decreases l,
{
    if l > 0 {
        lemma_lens_from(texts, (l - 1) as nat);
        let rest = lens_from(texts, (l - 1) as nat);
        let all = lens_from(texts, l);
        if has_len(texts, l) {
            assert(all == seq![l as usize] + rest);
            assert((l as usize) as nat == l);
            assert forall|j: int| 0 <= j < all.len() implies 1 <= #[trigger] all[j] <= l by {
                if j > 0 {
                    assert(all[j] == rest[j - 1]);
                    assert(1 <= rest[j - 1] <= l - 1);
                }
            }
            assert forall|j: int, k: int| 0 <= j < k < all.len() implies all[j] > all[k] by {
                assert(all[k] == rest[k - 1]);
                assert(1 <= rest[k - 1] <= l - 1);
                if j > 0 {
                    assert(all[j] == rest[j - 1]);
                }
            }
            assert forall|m: nat| 1 <= m <= l && has_len(texts, m) implies all.contains(m as usize) by {
                if m == l {
                    assert(all[0] == l as usize);
                } else {
                    let j = choose|j: int| 0 <= j < rest.len() && rest[j] == m as usize;
                    assert(all[j + 1] == m as usize);
                }
            }
        } else {
            assert(all =~= rest);
        }
    }
}

/// A lemma table: `words[i]` is the lemma with index `i`.
pub struct Dictionary {
    pub words: Vec<String>,
    pub index: HashMap<u128, usize>,
    pub lengths: Vec<usize>,
}

impl Dictionary {
    /// The lemmas, by index.
    pub open spec fn word_list(&self) -> Seq<String> {
        self.words@
    }

    /// The lemma texts, by index.
    pub open spec fn texts(&self) -> Seq<Seq<char>> {
        texts_of(self.words@)
    }

    /// The number of lemmas.
    pub open spec fn count(&self) -> nat {
        self.texts().len()
    }

    /// The text of lemma `i`.
    pub open spec fn text(&self, i: int) -> Seq<char> {
        self.texts()[i]
    }

    /// The UTF-8 bytes of lemma `i`.
    pub open spec fn bytes(&self, i: int) -> Seq<u8> {
        encode_utf8(self.text(i))
    }

    /// The index that a lookup of `w` gives: the last lemma whose bytes are
    /// `w`, for `w` of 1 to 15 bytes.
    pub open spec fn find(&self, w: Seq<u8>) -> Option<usize> {
        if 1 <= w.len() <= MAX_LEMMA_LEN {
            last_with(self.texts(), w, self.count())
        } else {
            None
        }
    }

    /// The lemma lengths, longest first.
    pub open spec fn lens(&self) -> Seq<usize> {
        self.lengths@
    }

    /// The index map agrees with `find`, and `lengths` lists exactly the
    /// lemma lengths of 1 to 15 bytes, longest first; hence a lookup finds
    /// exactly the lemmas of 1 to 15 bytes, each at an index whose lemma it is.
    pub open spec fn wf(&self) -> bool {
        &&& self.words@.len() <= usize::MAX
        &&& forall|w: Seq<u8>|
            1 <= w.len() <= MAX_LEMMA_LEN ==> (#[trigger] self.index@.contains_key(key_of(w) as u128)
                <==> self.find(w) is Some) && (self.find(w) matches Some(i) ==> self.index@[key_of(
                w,
            ) as u128] == i)
        &&& self.lengths@ == lens_from(self.texts(), MAX_LEMMA_LEN as nat)
        &&& forall|w: Seq<u8>| #[trigger]
            self.find(w) matches Some(i) ==> i < self.count() && self.bytes(i as int) == w
        &&& forall|i: int|
            0 <= i < self.count() && 1 <= #[trigger] self.bytes(i).len() <= MAX_LEMMA_LEN
                ==> self.find(self.bytes(i)) is Some
        &&& forall|j: int| 0 <= j < self.lengths@.len() ==> 1 <= #[trigger] self.lengths@[j] <= MAX_LEMMA_LEN
        &&& forall|j: int, k: int|
            0 <= j < k < self.lengths@.len() ==> self.lengths@[j] > self.lengths@[k]
        &&& forall|i: int|
            0 <= i < self.count() && 1 <= #[trigger] self.bytes(i).len() <= MAX_LEMMA_LEN
                ==> self.lengths@.contains(self.bytes(i).len() as usize)
    }

    /// Builds the table of `words`, lemma `i` at index `i`.
    pub fn new(words: Vec<String>) -> (d: Dictionary)
        ensures
            d.wf(),
            d.word_list() == words@,
    {
        let ghost t = texts_of(words@);
        let n = words.len();
        let mut index: HashMap<u128, usize> = HashMap::new();
        let mut i: usize = 0;
        while i < n
            invariant
                i <= n == words@.len(),
                t == texts_of(words@),
                forall|w: Seq<u8>|
                    1 <= w.len() <= MAX_LEMMA_LEN ==> (#[trigger] index@.contains_key(key_of(w) as u128)
                        <==> last_with(t, w, i as nat) is Some) && (last_with(t, w, i as nat) matches Some(j)
                        ==> index@[key_of(w) as u128] == j),
            decreases n - i,
        {
            let b = words[i].as_str().as_bytes();
            let len = b.len();
            let ghost bi = b@;
            assert(t[i as int] == words@[i as int]@);
            assert(bi == encode_utf8(t[i as int]));
            let ghost before = index@;
            if 1 <= len && len <= MAX_LEMMA_LEN {
                let k = pack_key(b, 0, len);
                proof {
                    assert(b@.subrange(0, len as int) =~= b@);
                    lemma_key_fits(bi);
                    assert(k == key_of(bi) as u128);
                }
                index.insert(k, i);
            }
            proof {
                assert forall|w: Seq<u8>| 1 <= w.len() <= MAX_LEMMA_LEN implies last_with(t, w, (i + 1) as nat)
                    == if w == bi { Some(i) } else { last_with(t, w, i as nat) } by {}
                assert forall|w: Seq<u8>| 1 <= w.len() <= MAX_LEMMA_LEN implies (
                #[trigger] index@.contains_key(key_of(w) as u128) <==> last_with(t, w, (i + 1) as nat)
                    is Some) && (last_with(t, w, (i + 1) as nat) matches Some(j) ==> index@[key_of(w) as u128]
                    == j) by {
                    if w != bi && 1 <= len <= MAX_LEMMA_LEN {
                        lemma_key_distinct(w, bi);
                    }
                }
            }
            i = i + 1;
        }
        let mut lengths: Vec<usize> = Vec::new();
        let mut l: usize = MAX_LEMMA_LEN;
        while l > 0
            invariant
                l <= MAX_LEMMA_LEN,
                n == words@.len(),
                t == texts_of(words@),
                lens_from(t, MAX_LEMMA_LEN as nat) == lengths@ + lens_from(t, l as nat),
            decreases l,
        {
            let mut found = false;
            let mut j: usize = 0;
            while j < n
                invariant
                    j <= n == words@.len(),
                    t == texts_of(words@),
                    found == exists|k: int| 0 <= k < j && #[trigger] encode_utf8(t[k]).len() == l,
                decreases n - j,
            {
                let len = words[j].as_str().as_bytes().len();
                assert(t[j as int] == words@[j as int]@);
                assert(len == encode_utf8(t[j as int]).len());
                if len == l {
                    found = true;
                }
                j = j + 1;
            }
            let ghost rest = lens_from(t, (l - 1) as nat);
            if found {
                lengths.push(l);
            }
            proof {
                assert(has_len(t, l as nat) == found);
                assert(lengths@ + rest =~= lens_from(t, MAX_LEMMA_LEN as nat));
            }
            l = l - 1;
        }
        proof {
            assert(lengths@ + lens_from(t, 0) =~= lengths@);
        }
        let d = Dictionary { words, index, lengths };
        proof {
            assert(d.texts() == t);
            lemma_lens_from(t, MAX_LEMMA_LEN as nat);
            lemma_find_sound(d);
            assert forall|i: int|
                0 <= i < d.count() && 1 <= #[trigger] d.bytes(i).len() <= MAX_LEMMA_LEN implies d.find(
                d.bytes(i),
            ) is Some by {
                lemma_last_with(t, d.bytes(i), n as nat);
            }
            assert forall|i: int|
                0 <= i < d.count() && 1 <= #[trigger] d.bytes(i).len() <= MAX_LEMMA_LEN implies d.lengths@.contains(
                d.bytes(i).len() as usize,
            ) by {
                assert(has_len(t, d.bytes(i).len()));
            }
        }
        d
    }

    /// Looks up `w[start..start + len]`.
    pub fn lookup(&self, w: &[u8], start: usize, len: usize) -> (r: Option<usize>)
        requires
            self.wf(),
            start + len <= w@.len(),
        ensures
            r == self.find(w@.subrange(start as int, start + len)),
    {
        if len == 0 || len > MAX_LEMMA_LEN {
            return None;
        }
        let k = pack_key(w, start, len);
        proof {
            let ws = w@.subrange(start as int, start + len);
            lemma_key_bounds(ws);
            lemma_pow256_monotone(ws.len() + 1, 16);
            lemma_pow256_16();
            assert(k == key_of(ws) as u128);
            assert(self.index@.contains_key(key_of(ws) as u128) == (self.find(ws) is Some));
        }
        match self.index.get(&k) {
            Some(i) => Some(*i),
            None => None,
        }
    }

    /// The number of lemmas.
    pub fn len(&self) -> (n: usize)
        ensures
            n == self.count(),
    {
        self.words.len()
    }
}

} // verus!
