//! The tokenizer: a single left-to-right pass that picks, at each position,
//! the first applicable encoding in a fixed order of priority.
use crate::codec::{code_valid, read_char, NUMBER_LIMIT};
use crate::dictionary::{Dictionary, MAX_LEMMA_LEN};
use crate::engine::Engine;
use crate::ir::{repeat_text, space_text, text_valid, token_text, CodeType};
use crate::matcher::{largest_match, try_match_largest, word_match, Match};
use crate::tables::Tables;
use crate::text::{ascii_chars, lemma_ascii_encode, lemma_char_prefix, lemma_encode_concat, lemma_valid_suffix};
use vstd::prelude::*;
use vstd::string::*;
use vstd::utf8::*;

verus! {

/// The tokenizer's cursor: the bytes not yet encoded.
pub struct CodeIterator<'a> {
    pub main: &'a [u8],
    pub engine: &'a Engine,
}

/// An ASCII decimal digit.
pub open spec fn is_digit_byte(b: u8) -> bool {
    48 <= b <= 57
}

/// The end of the run of digits in `s` that starts at `i`.
pub open spec fn digit_run(s: Seq<u8>, i: nat) -> nat
    decreases s.len() - i,
{
    if i < s.len() && is_digit_byte(s[i as int]) {
        digit_run(s, i + 1)
    } else {
        i
    }
}

/// The value of a string of decimal digits.
pub open spec fn decimal_value(d: Seq<u8>) -> nat
    decreases d.len(),
{
    if d.len() == 0 {
        0
    } else {
        decimal_value(d.drop_last()) * 10 + (d.last() - 48) as nat
    }
}

/// The canonical decimal digits of `v`.
pub open spec fn decimal(v: nat) -> Seq<u8>
    decreases v,
{
    if v < 10 {
        seq![(v + 48) as u8]
    } else {
        decimal(v / 10).push((v % 10 + 48) as u8)
    }
}

/// The number at the front of `s`: the whole run of digits, if its value is
/// at least 1000, below 2 to the 66th, and written canonically.
pub open spec fn spec_number(s: Seq<u8>) -> Option<(u128, nat)> {
    if s.len() > 0 && is_digit_byte(s[0]) {
        let n = digit_run(s, 0);
        let v = decimal_value(s.subrange(0, n as int));
        if 1000 <= v < NUMBER_LIMIT && decimal(v) == s.subrange(0, n as int) {
            Some((v as u128, n))
        } else {
            None
        }
    } else {
        None
    }
}

/// How many chunks of `l` bytes, from chunk `k` on, all look up to unit
/// `idx`, counting at most 31 chunks in all.
pub open spec fn run_from(rep: Dictionary, s: Seq<u8>, l: nat, idx: usize, k: nat) -> nat
    decreases 31 - k,
{
    if k >= 31 || s.len() < (k + 1) * l || rep.find(s.subrange((k * l) as int, ((k + 1) * l) as int)) != Some(idx) {
        k
    } else {
        run_from(rep, s, l, idx, k + 1)
    }
}

/// The run of units of `l` bytes at the front of `s`, with its unit, if it
/// holds more than 3 of them.
pub open spec fn rep_run(rep: Dictionary, s: Seq<u8>, l: nat) -> Option<(nat, usize)> {
    if 1 <= l <= s.len() {
        match rep.find(s.subrange(0, l as int)) {
            Some(idx) => {
                let c = run_from(rep, s, l, idx, 0);
                if c > 3 {
                    Some((c, idx))
                } else {
                    None
                }
            },
            None => None,
        }
    } else {
        None
    }
}

/// The first unit length, from `lens[j]` on, that gives a run: the count,
/// the unit length and the unit.
pub open spec fn spec_repetitions(rep: Dictionary, lens: Seq<usize>, s: Seq<u8>, j: nat) -> Option<
    (nat, nat, usize),
>
    decreases lens.len() - j,
{
    if j >= lens.len() {
        None
    } else {
        match rep_run(rep, s, lens[j as int] as nat) {
            Some((c, idx)) => Some((c, lens[j as int] as nat, idx)),
            None => spec_repetitions(rep, lens, s, j + 1),
        }
    }
}

/// A lemma of `l` bytes of table `d` at the front of `s`, after a space
/// first (when `space` allows it), else on its own: index, bytes taken, and
/// whether the space was taken.
pub open spec fn spec_match_map(d: Dictionary, s: Seq<u8>, space: bool, l: nat) -> Option<
    (usize, nat, bool),
> {
    if space && s.len() >= l + 1 && s[0] == 32 && d.find(s.subrange(1, l + 1 as int)) is Some {
        Some((d.find(s.subrange(1, l + 1 as int))->Some_0, l + 1, true))
    } else if s.len() >= l && d.find(s.subrange(0, l as int)) is Some {
        Some((d.find(s.subrange(0, l as int))->Some_0, l, false))
    } else {
        None
    }
}

/// The dictionary sweep from length `t.lengths[j]` down: at each length the
/// one-byte table, then the two-byte table, then the three-byte table.
pub open spec fn spec_sweep(t: Tables, s: Seq<u8>, j: nat) -> Option<(CodeType, nat)>
    decreases t.lengths@.len() - j,
{
    if j >= t.lengths@.len() {
        None
    } else {
        let l = t.lengths@[j as int] as nat;
        match spec_match_map(t.one, s, false, l) {
            Some((i, n, _)) => Some((CodeType::OneByteWonder(i), n)),
            None => match spec_match_map(t.two, s, true, l) {
                Some((i, n, sp)) => Some((CodeType::TwoByteCommon(sp, i), n)),
                None => match spec_match_map(t.three, s, true, l) {
                    Some((i, n, sp)) => Some((CodeType::ThreeByteUncommon(sp, i), n)),
                    None => spec_sweep(t, s, j + 1),
                },
            },
        }
    }
}

/// The token at the front of the non-empty `s`, with the bytes it takes:
/// a custom word (unless the longest match is empty), a repetition, a number, a dictionary lemma, a non-ASCII
/// char, a control byte, or the literal byte, the first that applies.
pub open spec fn spec_next(e: Engine, s: Seq<u8>) -> (nat, CodeType) {
    let t = e.tables;
    match largest_match(e.custom_words(), e.spaces(), s, e.custom_in_use()) {
        Some(m) if m.length > 0 => (m.length as nat, CodeType::Custom(m.space, m.index)),
        _ => match spec_repetitions(t.repetitions, t.repetitions.lens(), s, 0) {
            Some((c, l, idx)) => (c * l, CodeType::Repetitions(c as u32, idx)),
            None => match spec_number(s) {
                Some((v, n)) => (n, CodeType::Number(v)),
                None => match spec_sweep(t, s, 0) {
                    Some((code, n)) => (n, code),
                    None => if s[0] >= 0x80 && valid_first_scalar(s) {
                        (
                            length_of_first_scalar(s) as nat,
                            CodeType::UnicodeChar(decode_first_scalar(s) as char),
                        )
                    } else {
                        match t.controls.find(seq![s[0]]) {
                            Some(k) => (1, CodeType::Unprintable(k)),
                            None => (1, CodeType::OneByteWonder(s[0] as usize)),
                        }
                    },
                },
            },
        },
    }
}

proof fn lemma_digit_run_bounds(s: Seq<u8>, i: nat)
    requires
        i <= s.len(),
    ensures
        i <= digit_run(s, i) <= s.len(),
        forall|k: int| i <= k < digit_run(s, i) ==> is_digit_byte(#[trigger] s[k]),
        digit_run(s, i) < s.len() ==> !is_digit_byte(s[digit_run(s, i) as int]),
    decreases s.len() - i,
{
    if i < s.len() && is_digit_byte(s[i as int]) {
        lemma_digit_run_bounds(s, i + 1);
    }
}

proof fn lemma_decimal_value_step(d: Seq<u8>, i: int)
    requires
        0 <= i < d.len(),
    ensures
        decimal_value(d.subrange(0, i + 1)) == decimal_value(d.subrange(0, i)) * 10 + (d[i] - 48) as nat,
{
    assert(d.subrange(0, i + 1).drop_last() =~= d.subrange(0, i));
}

proof fn lemma_decimal_value_grows(d: Seq<u8>, i: int, j: int)
    requires
        0 <= i <= j <= d.len(),
        forall|k: int| 0 <= k < d.len() ==> is_digit_byte(#[trigger] d[k]),
    ensures
        decimal_value(d.subrange(0, i)) <= decimal_value(d.subrange(0, j)),
    decreases j - i,
{
    if i < j {
        lemma_decimal_value_grows(d, i, j - 1);
        lemma_decimal_value_step(d, j - 1);
    }
}

proof fn lemma_decimal_value_positive(d: Seq<u8>)
    requires
        d.len() > 0,
        forall|k: int| 0 <= k < d.len() ==> is_digit_byte(#[trigger] d[k]),
        d[0] != 48,
    ensures
        decimal_value(d) >= 1,
    decreases d.len(),
{
    if d.len() > 1 {
        lemma_decimal_value_positive(d.drop_last());
    }
}

/// Digits without a leading zero are the canonical digits of their value.
proof fn lemma_canonical(d: Seq<u8>)
    requires
        d.len() > 0,
        forall|k: int| 0 <= k < d.len() ==> is_digit_byte(#[trigger] d[k]),
        d[0] != 48,
    ensures
        decimal(decimal_value(d)) == d,
    decreases d.len(),
{
    if d.len() == 1 {
        assert(d.drop_last() =~= Seq::<u8>::empty());
        assert(decimal_value(Seq::<u8>::empty()) == 0);
        assert(decimal(decimal_value(d)) =~= d);
    } else {
        let p = d.drop_last();
        lemma_canonical(p);
        lemma_decimal_value_positive(p);
        let v = decimal_value(d);
        assert(v / 10 == decimal_value(p) && v % 10 == (d.last() - 48) as nat);
        assert(decimal(v) =~= p.push(d.last()));
        assert(p.push(d.last()) =~= d);
    }
}

proof fn lemma_decimal_leading(v: nat)
    requires
        v >= 1,
    ensures
        decimal(v).len() >= 1,
        decimal(v)[0] != 48,
    decreases v,
{
    if v >= 10 {
        lemma_decimal_leading(v / 10);
    }
}

proof fn lemma_run_step(rep: Dictionary, s: Seq<u8>, l: nat, idx: usize, k: nat)
    requires
        k < 31,
        s.len() >= (k + 1) * l,
        rep.find(s.subrange((k * l) as int, ((k + 1) * l) as int)) == Some(idx),
    ensures
        run_from(rep, s, l, idx, k) == run_from(rep, s, l, idx, k + 1),
{
}

impl<'a> CodeIterator<'a> {
    /// A tokenizer over the bytes of `s`.
    pub fn new(s: &'a str, engine: &'a Engine) -> (r: Self)
        ensures
            r.main@ == encode_utf8(s@),
            r.engine == engine,
    {
        Self { main: s.as_bytes(), engine }
    }

    /// Whether `ch` is an ASCII decimal digit.
    pub fn is_digit(ch: u8) -> (r: bool)
        ensures
            r == is_digit_byte(ch),
    {
        ch >= 48 && ch <= 57
    }

    /// The number at the front of the input, with its length in bytes.
    pub fn try_number(&self) -> (r: Option<(u128, usize)>)
        requires
            self.main@.len() > 0,
        ensures
            r matches Some((v, n)) ==> 1000 <= v < NUMBER_LIMIT && 1 <= n <= self.main@.len(),
            match spec_number(self.main@) {
                Some((v, n)) => r == Some((v, n as usize)),
                None => r is None,
            },
    {
        let s = self.main;
        let ghost g = s@;
        if !Self::is_digit(s[0]) {
            return None;
        }
        let len = s.len();
        let mut n: usize = 0;
        while n < len && Self::is_digit(s[n])
            invariant
                n <= len == g.len(),
                s@ == g,
                forall|k: int| 0 <= k < n ==> is_digit_byte(#[trigger] g[k]),
            decreases len - n,
        {
            n = n + 1;
        }
        proof {
            lemma_digit_run_bounds(g, 0);
            let m = digit_run(g, 0);
            if m < n {
                assert(is_digit_byte(g[m as int]));
            }
            if (n as nat) < m {
                assert(is_digit_byte(g[n as int]));
            }
            assert(m == n);
        }
        let ghost d = g.subrange(0, n as int);
        assert forall|k: int| 0 <= k < d.len() implies is_digit_byte(#[trigger] d[k]) by {
            assert(d[k] == g[k]);
        }
        if s[0] == 48 {
            proof {
                let v = decimal_value(d);
                if v >= 1000 {
                    lemma_decimal_leading(v);
                    assert(d[0] == 48);
                }
            }
            return None;
        }
        let mut acc: u128 = 0;
        let mut i: usize = 0;
        proof {
            assert(d.subrange(0, 0) =~= Seq::<u8>::empty());
        }
        while i < n
            invariant
                i <= n <= len == g.len(),
                s@ == g,
                d == g.subrange(0, n as int),
                g == self.main@,
                digit_run(g, 0) == n,
                g[0] != 48,
                forall|k: int| 0 <= k < d.len() ==> is_digit_byte(#[trigger] d[k]),
                acc as nat == decimal_value(d.subrange(0, i as int)),
                acc < NUMBER_LIMIT,
            decreases n - i,
        {
            proof {
                lemma_decimal_value_step(d, i as int);
                assert(d[i as int] == s@[i as int]);
            }
            acc = acc * 10 + (s[i] - 48) as u128;
            i = i + 1;
            if acc >= NUMBER_LIMIT {
                proof {
                    lemma_decimal_value_grows(d, i as int, n as int);
                    assert(d.subrange(0, n as int) =~= d);
                }
                return None;
            }
        }
        proof {
            assert(d.subrange(0, n as int) =~= d);
            lemma_canonical(d);
        }
        if acc < 1000 {
            return None;
        }
        Some((acc, n))
    }

    /// A lemma of `length` bytes of `map` at the front of `string`, after a
    /// space first when `space` allows it.
    pub fn match_map(string: &[u8], space: bool, map: &Dictionary, length: usize) -> (r: Option<Match>)
        requires
            map.wf(),
        ensures
            match spec_match_map(*map, string@, space, length as nat) {
                Some((i, n, sp)) => r == Some(Match { index: i, length: n as usize, space: sp }),
                None => r is None,
            },
    {
        if string.len() > length {
            if space && string[0] == 32 {
                match map.lookup(string, 1, length) {
                    Some(index) => {
                        return Some(Match { index, length: length + 1, space: true });
                    },
                    None => {},
                }
            }
        }
        if string.len() >= length {
            match map.lookup(string, 0, length) {
                Some(index) => {
                    return Some(Match { index, length, space: false });
                },
                None => {},
            }
        }
        None
    }

    /// The first run of more than 3 repetition units at the front of the
    /// input, trying unit lengths longest first: the count and the match.
    pub fn try_repetitions(&self) -> (r: Option<(usize, Match)>)
        requires
            self.engine.wf(),
        ensures
            r matches Some((c, m)) ==> 3 < c < 32 && 1 <= m.length <= self.main@.len(),
            match spec_repetitions(
                self.engine.tables.repetitions,
                self.engine.tables.repetitions.lens(),
                self.main@,
                0,
            ) {
                Some((c, l, idx)) => r == Some(
                    (c as usize, Match { index: idx, length: (c * l) as usize, space: false }),
                ),
                None => r is None,
            },
    {
        let rep = &self.engine.tables.repetitions;
        let lens = &rep.lengths;
        let s = self.main;
        proof {
            lemma_repetitions(*rep, rep.lens(), s@, 0);
        }
        let len = s.len();
        let mut j: usize = 0;
        while j < lens.len()
            invariant
                rep.wf(),
                *rep == self.engine.tables.repetitions,
                s@ == self.main@,
                j <= lens@.len(),
                lens@ == rep.lens(),
                len == s@.len(),
                spec_repetitions(*rep, lens@, s@, 0) == spec_repetitions(*rep, lens@, s@, j as nat),
            decreases lens@.len() - j,
        {
            let l = lens[j];
            let mut count: usize = 0;
            let mut ind: Option<usize> = None;
            let mut pos: usize = 0;
            loop
                invariant_except_break
                    rep.wf(),
                    1 <= l <= MAX_LEMMA_LEN,
                    len == s@.len(),
                    count <= 31,
                    pos == count * l,
                    pos <= len,
                    count == 0 ==> ind is None,
                    count > 0 ==> ind == rep.find(s@.subrange(0, l as int)) && ind is Some
                        && run_from(*rep, s@, l as nat, ind->Some_0, 0) == run_from(
                        *rep,
                        s@,
                        l as nat,
                        ind->Some_0,
                        count as nat,
                    ),
                ensures
                    count <= 31,
                    pos == count * l,
                    pos <= len,
                    count == 0 ==> rep_run(*rep, s@, l as nat) is None,
                    count > 0 ==> ind == rep.find(s@.subrange(0, l as int)) && ind is Some
                        && run_from(*rep, s@, l as nat, ind->Some_0, 0) == count,
                decreases 31 - count,
            {
                let ghost k = count as nat;
                proof {
                    assert((k + 1) * l == k * l + l) by (nonlinear_arith);
                }
                if count >= 31 || len - pos < l {
                    break;
                }
                match rep.lookup(s, pos, l) {
                    Some(index) => {
                        match ind {
                            Some(rolling) => {
                                if index != rolling {
                                    break;
                                }
                            },
                            None => {
                                proof {
                                    assert(pos == 0);
                                }
                                ind = Some(index);
                            },
                        }
                        proof {
                            lemma_run_step(*rep, s@, l as nat, ind->Some_0, k);
                        }
                        count = count + 1;
                        pos = pos + l;
                    },
                    None => {
                        break;
                    },
                }
            }
            if count > 3 {
                let index = match ind {
                    Some(i) => i,
                    None => 0,
                };
                proof {
                    assert(count * l <= 31 * 15) by (nonlinear_arith)
                        requires
                            count <= 31,
                            l <= 15,
                    ;
                    assert(l <= count * l) by (nonlinear_arith)
                        requires
                            count > 3,
                    ;
                    assert(rep_run(*rep, s@, l as nat) == Some((count as nat, index)));
                    assert(spec_repetitions(*rep, lens@, s@, j as nat) == Some(
                        (count as nat, l as nat, index),
                    ));
                    assert(self.main@ == s@);
                }
                return Some((count, Match { index, length: count * l, space: false }));
            }
            j = j + 1;
        }
        None
    }
}

proof fn lemma_space_encode()
    ensures
        encode_utf8(seq![' ']) == seq![32u8],
{
    assert(ascii_chars(seq![32u8]) =~= seq![' ']);
    lemma_ascii_encode(seq![32u8]);
}

/// A spaced window: a space then `w`.
proof fn lemma_spaced(sp: bool, x: Seq<char>, s: Seq<u8>, n: int)
    requires
        sp ==> n >= 1 && s[0] == 32 && encode_utf8(x) == s.subrange(1, n),
        !sp ==> encode_utf8(x) == s.subrange(0, n),
        0 <= n <= s.len(),
    ensures
        encode_utf8(space_text(sp) + x) == s.subrange(0, n),
{
    lemma_encode_concat(space_text(sp), x);
    if sp {
        lemma_space_encode();
        assert(s.subrange(0, n) =~= seq![32u8] + s.subrange(1, n));
    } else {
        assert(space_text(sp) + x =~= x);
    }
}

proof fn lemma_largest_match(words: Seq<&'static str>, spaces: bool, s: Seq<u8>, n: nat)
    requires
        n <= words.len(),
        n <= usize::MAX,
        s.len() <= usize::MAX,
    ensures
        largest_match(words, spaces, s, n) matches Some(m) ==> m.index < n && word_match(
            encode_utf8(words[m.index as int]@),
            spaces,
            s,
        ) == Some((m.length as nat, m.space)),
    decreases n,
{
    if n > 0 {
        lemma_largest_match(words, spaces, s, (n - 1) as nat);
        match word_match(encode_utf8(words[n - 1]@), spaces, s) {
            Some((len, sp)) => {
                assert(len <= s.len());
                assert((len as usize) as nat == len);
                assert(((n - 1) as usize) as int == n - 1);
            },
            None => {},
        }
    }
}

proof fn lemma_word_match(w: Seq<char>, spaces: bool, s: Seq<u8>)
    requires
        word_match(encode_utf8(w), spaces, s) is Some,
    ensures
        ({
            let (n, sp) = word_match(encode_utf8(w), spaces, s)->Some_0;
            &&& n <= s.len()
            &&& sp ==> spaces
            &&& encode_utf8(space_text(sp) + w) == s.subrange(0, n as int)
        }),
{
    let (n, sp) = word_match(encode_utf8(w), spaces, s)->Some_0;
    lemma_spaced(sp, w, s, n as int);
}

proof fn lemma_run_from(rep: Dictionary, s: Seq<u8>, l: nat, idx: usize, k: nat)
    requires
        k <= 31,
        k * l <= s.len(),
        l >= 1,
    ensures
        k <= run_from(rep, s, l, idx, k) <= 31,
        run_from(rep, s, l, idx, k) * l <= s.len(),
        forall|j: nat|
            k <= j < run_from(rep, s, l, idx, k) ==> (j + 1) * l <= s.len() && #[trigger] rep.find(
                s.subrange((j * l) as int, ((j + 1) * l) as int),
            ) == Some(idx),
    decreases 31 - k,
{
    if k >= 31 || s.len() < (k + 1) * l || rep.find(s.subrange((k * l) as int, ((k + 1) * l) as int))
        != Some(idx) {
    } else {
        lemma_run_from(rep, s, l, idx, k + 1);
    }
}

proof fn lemma_repeat_bytes(rep: Dictionary, s: Seq<u8>, l: nat, idx: usize, c: nat)
    requires
        rep.wf(),
        c * l <= s.len(),
        forall|j: nat|
            j < c ==> (j + 1) * l <= s.len() && #[trigger] rep.find(
                s.subrange((j * l) as int, ((j + 1) * l) as int),
            ) == Some(idx),
    ensures
        encode_utf8(repeat_text(rep.text(idx as int), c)) == s.subrange(0, (c * l) as int),
    decreases c,
{
    if c == 0 {
        assert(c * l == 0);
        assert(s.subrange(0, 0) =~= Seq::<u8>::empty());
        assert(encode_utf8(Seq::<char>::empty()) =~= Seq::<u8>::empty());
        assert(repeat_text(rep.text(idx as int), 0) =~= Seq::<char>::empty());
    } else {
        let k = (c - 1) as nat;
        assert(k * l <= c * l) by (nonlinear_arith)
            requires
                k <= c,
        ;
        assert(c * l == k * l + l) by (nonlinear_arith)
            requires
                k + 1 == c,
        ;
        lemma_repeat_bytes(rep, s, l, idx, k);
        assert(rep.find(s.subrange((k * l) as int, ((k + 1) * l) as int)) == Some(idx));
        assert(rep.bytes(idx as int) == s.subrange((k * l) as int, ((k + 1) * l) as int));
        assert(repeat_text(rep.text(idx as int), c) == repeat_text(rep.text(idx as int), k) + rep.text(
            idx as int,
        ));
        lemma_encode_concat(repeat_text(rep.text(idx as int), k), rep.text(idx as int));
        assert(s.subrange(0, (c * l) as int) =~= s.subrange(0, (k * l) as int) + s.subrange(
            (k * l) as int,
            ((k + 1) * l) as int,
        ));
        assert(encode_utf8(repeat_text(rep.text(idx as int), c)) == encode_utf8(
            repeat_text(rep.text(idx as int), k),
        ) + rep.bytes(idx as int));
    }
}

proof fn lemma_repetitions(rep: Dictionary, lens: Seq<usize>, s: Seq<u8>, j: nat)
    requires
        rep.wf(),
        lens == rep.lens(),
    ensures
        spec_repetitions(rep, lens, s, j) matches Some((c, l, idx)) ==> {
            &&& 4 <= c <= 31
            &&& 1 <= l <= MAX_LEMMA_LEN
            &&& 1 <= c * l <= s.len()
            &&& idx < rep.count()
            &&& encode_utf8(repeat_text(rep.text(idx as int), c)) == s.subrange(0, (c * l) as int)
        },
    decreases lens.len() - j,
{
    if j < lens.len() {
        let l = lens[j as int] as nat;
        match rep_run(rep, s, l) {
            Some((c, idx)) => {
                assert(0 * l == 0);
                lemma_run_from(rep, s, l, idx, 0);
                lemma_repeat_bytes(rep, s, l, idx, c);
                assert(1 <= c * l) by (nonlinear_arith)
                    requires
                        c >= 4,
                        l >= 1,
                ;
            },
            None => {
                lemma_repetitions(rep, lens, s, j + 1);
            },
        }
    }
}

proof fn lemma_match_map(d: Dictionary, s: Seq<u8>, space: bool, l: nat)
    requires
        d.wf(),
    ensures
        spec_match_map(d, s, space, l) matches Some((i, n, sp)) ==> {
            &&& i < d.count()
            &&& l <= n <= s.len()
            &&& n <= l + 1
            &&& sp ==> space
            &&& encode_utf8(space_text(sp) + d.text(i as int)) == s.subrange(0, n as int)
        },
{
    match spec_match_map(d, s, space, l) {
        Some((i, n, sp)) => {
            lemma_spaced(sp, d.text(i as int), s, n as int);
        },
        None => {},
    }
}

proof fn lemma_sweep(t: Tables, s: Seq<u8>, j: nat, spaces: bool)
    requires
        t.wf(),
    ensures
        spec_sweep(t, s, j) matches Some((code, n)) ==> {
            &&& 2 <= n <= s.len()
            &&& code_valid(code, spaces)
            &&& encode_utf8(
                match code {
                    CodeType::OneByteWonder(i) => t.one.text(i as int),
                    CodeType::TwoByteCommon(sp, i) => space_text(sp) + t.two.text(i as int),
                    CodeType::ThreeByteUncommon(sp, i) => space_text(sp) + t.three.text(i as int),
                    _ => Seq::empty(),
                },
            ) == s.subrange(0, n as int)
            &&& (code is OneByteWonder || code is TwoByteCommon || code is ThreeByteUncommon)
        },
    decreases t.lengths@.len() - j,
{
    if j < t.lengths@.len() {
        let l = t.lengths@[j as int] as nat;
        assert(t.sweeps(t.lengths@[j as int]));
        lemma_match_map(t.one, s, false, l);
        lemma_match_map(t.two, s, true, l);
        lemma_match_map(t.three, s, true, l);
        match spec_match_map(t.one, s, false, l) {
            Some((i, n, sp)) => {
                assert(space_text(sp) + t.one.text(i as int) =~= t.one.text(i as int));
            },
            None => {
                lemma_sweep(t, s, j + 1, spaces);
            },
        }
    }
}

proof fn lemma_digits_ascii(v: nat)
    ensures
        forall|k: int| 0 <= k < decimal(v).len() ==> #[trigger] decimal(v)[k] < 0x80,
        decimal(v).len() >= 1,
    decreases v,
{
    if v >= 10 {
        lemma_digits_ascii(v / 10);
    }
}

/// One step of the tokenizer on valid UTF-8: the token takes between one
/// byte and all of them, has a code and a text, its text is exactly the
/// bytes it takes, and what is left is valid UTF-8 again.
pub proof fn lemma_next_step(e: Engine, s: Seq<u8>)
    requires
        e.wf(),
        valid_utf8(s),
        s.len() > 0,
        s.len() <= usize::MAX,
    ensures
        ({
            let (n, t) = spec_next(e, s);
            &&& 1 <= n <= s.len()
            &&& code_valid(t, e.spaces())
            &&& text_valid(e, t)
            &&& encode_utf8(token_text(e, t)) == s.subrange(0, n as int)
            &&& valid_utf8(s.subrange(n as int, s.len() as int))
        }),
{
    let t = e.tables;
    let (n, code) = spec_next(e, s);
    let used = e.custom_in_use();
    lemma_largest_match(e.custom_words(), e.spaces(), s, used);
    lemma_repetitions(t.repetitions, t.repetitions.lens(), s, 0);
    lemma_sweep(t, s, 0, e.spaces());
    match largest_match(e.custom_words(), e.spaces(), s, used) {
        Some(m) if m.length > 0 => {
            lemma_word_match(e.custom@[m.index as int]@, e.spaces(), s);
        },
        _ => match spec_repetitions(t.repetitions, t.repetitions.lens(), s, 0) {
            Some((c, l, idx)) => {},
            None => match spec_number(s) {
                Some((v, k)) => {
                    lemma_digit_run_bounds(s, 0);
                    lemma_digits_ascii(v as nat);
                    lemma_ascii_encode(decimal(v as nat));
                },
                None => match spec_sweep(t, s, 0) {
                    Some((c, k)) => {},
                    None => {
                        if s[0] >= 0x80 && valid_first_scalar(s) {
                            vstd::utf8::decode_utf8_first_scalar(s);
                            let c = decode_first_scalar(s) as char;
                            lemma_char_prefix(c, Seq::<u8>::empty());
                            assert(encode_utf8(seq![c]) + Seq::<u8>::empty() =~= encode_utf8(seq![c]));
                        } else {
                            assert(s[0] < 0x80);
                            assert(s.subrange(0, 1) =~= seq![s[0]]);
                        }
                    },
                },
            },
        },
    }
    let x = token_text(e, code);
    assert(s =~= s.subrange(0, n as int) + s.subrange(n as int, s.len() as int));
    lemma_valid_suffix(x, s.subrange(n as int, s.len() as int));
}

impl<'a> CodeIterator<'a> {
    /// The tokenizer can go on: its tables are well formed and the bytes left
    /// are valid UTF-8.
    pub open spec fn wf(&self) -> bool {
        &&& self.engine.wf()
        &&& valid_utf8(self.main@)
    }

    /// The token at the cursor and the bytes it takes.
    pub fn encode_next(&self) -> (r: (usize, CodeType))
        requires
            self.wf(),
            self.main@.len() > 0,
        ensures
            r.0 as nat == spec_next(*self.engine, self.main@).0,
            r.1 == spec_next(*self.engine, self.main@).1,
            1 <= r.0 <= self.main@.len(),
    {
        let e = self.engine;
        let s = self.main;
        let t = &e.tables;
        let limit: usize = if e.custom_spaces {
            16
        } else {
            32
        };
        let used = if e.custom.len() < limit {
            e.custom.len()
        } else {
            limit
        };
        let slen = s.len();
        proof {
            lemma_next_step(*e, s@);
            lemma_repetitions(t.repetitions, t.repetitions.lens(), s@, 0);
        }
        match try_match_largest(&e.custom, used, e.custom_spaces, s) {
            Some(m) => {
                if m.length > 0 {
                    return (m.length, CodeType::Custom(m.space, m.index));
                }
            },
            None => {},
        }
        match self.try_repetitions() {
            Some((count, m)) => {
                return (m.length, CodeType::Repetitions(count as u32, m.index));
            },
            None => {},
        }
        match self.try_number() {
            Some((number, length)) => {
                return (length, CodeType::Number(number));
            },
            None => {},
        }
        let lens = &t.lengths;
        let mut j: usize = 0;
        while j < lens.len()
            invariant
                t.wf(),
                *t == e.tables,
                *e == *self.engine,
                s@ == self.main@,
                slen == s@.len(),
                lens@ == t.lengths@,
                !(largest_match(e.custom_words(), e.spaces(), s@, e.custom_in_use()) matches Some(m)
                    && m.length > 0),
                spec_repetitions(t.repetitions, t.repetitions.lens(), s@, 0) is None,
                spec_number(s@) is None,
                j <= lens@.len(),
                spec_sweep(*t, s@, 0) == spec_sweep(*t, s@, j as nat),
            decreases lens@.len() - j,
        {
            let l = lens[j];
            proof {
                assert(t.sweeps(lens@[j as int]));
                lemma_match_map(t.one, s@, false, l as nat);
                lemma_match_map(t.two, s@, true, l as nat);
                lemma_match_map(t.three, s@, true, l as nat);
            }
            match Self::match_map(s, false, &t.one, l) {
                Some(m) => {
                    return (m.length, CodeType::OneByteWonder(m.index));
                },
                None => {},
            }
            match Self::match_map(s, true, &t.two, l) {
                Some(m) => {
                    return (m.length, CodeType::TwoByteCommon(m.space, m.index));
                },
                None => {},
            }
            match Self::match_map(s, true, &t.three, l) {
                Some(m) => {
                    return (m.length, CodeType::ThreeByteUncommon(m.space, m.index));
                },
                None => {},
            }
            j = j + 1;
        }
        let lead = s[0];
        if lead >= 0x80 {
            match read_char(s, 0) {
                Ok(c) => {
                    proof {
                        assert(s@.subrange(0, slen as int) =~= s@);
                        vstd::utf8::char_u32_cast(c, c as u32);
                    }
                    let width: usize = if lead <= 0xdf {
                        2
                    } else if lead <= 0xef {
                        3
                    } else {
                        4
                    };
                    return (width, CodeType::UnicodeChar(c));
                },
                Err(_) => {
                    proof {
                        assert(s@.subrange(0, slen as int) =~= s@);
                    }
                },
            }
        }
        proof {
            assert(s@.subrange(0, 1) =~= seq![s@[0]]);
        }
        match t.controls.lookup(s, 0, 1) {
            Some(index) => (1, CodeType::Unprintable(index)),
            None => (1, CodeType::OneByteWonder(lead as usize)),
        }
    }

    /// The next token, moving the cursor past its bytes; `None` at the end.
    pub fn next(&mut self) -> (r: Option<CodeType>)
        requires
            old(self).wf(),
        ensures
            final(self).wf(),
            final(self).engine == old(self).engine,
            old(self).main@.len() == 0 ==> r is None && final(self).main@ == old(self).main@,
            old(self).main@.len() > 0 ==> ({
                let (n, t) = spec_next(*old(self).engine, old(self).main@);
                &&& r == Some(t)
                &&& final(self).main@ == old(self).main@.subrange(n as int, old(self).main@.len() as int)
            }),
    {
        if self.main.len() == 0 {
            return None;
        }
        let (length, t) = self.encode_next();
        proof {
            lemma_next_step(*self.engine, self.main@);
        }
        self.main = &self.main[length..self.main.len()];
        Some(t)
    }
}

/// The chunks of a repetition token are each the bytes of its unit.
pub proof fn lemma_repetition_chunks(e: Engine, s: Seq<u8>)
    requires
        e.wf(),
        valid_utf8(s),
        s.len() > 0,
        s.len() <= usize::MAX,
    ensures
        spec_next(e, s).1 matches CodeType::Repetitions(c, i) ==> {
            let n = spec_next(e, s).0;
            let l = e.tables.repetitions.bytes(i as int).len();
            &&& 3 < c < 32
            &&& n == c * l
            &&& forall|k: int|
                0 <= k < c ==> #[trigger] s.subrange(k * l, (k + 1) * l) == e.tables.repetitions.bytes(
                    i as int,
                )
        },
{
    let t = e.tables;
    let rep = t.repetitions;
    lemma_sweep(t, s, 0, e.spaces());
    lemma_largest_match(e.custom_words(), e.spaces(), s, e.custom_in_use());
    if !(largest_match(e.custom_words(), e.spaces(), s, e.custom_in_use()) matches Some(m) && m.length
        > 0) {
        lemma_repetition_units(rep, rep.lens(), s, 0);
        match spec_repetitions(rep, rep.lens(), s, 0) {
            Some((c, l, idx)) => {
                assert(spec_next(e, s) == (c * l, CodeType::Repetitions(c as u32, idx)));
                assert((c as u32) as nat == c);
                let l2 = rep.bytes(idx as int).len();
                assert(l2 == l);
                assert forall|k: int| 0 <= k < c implies #[trigger] s.subrange(k * l2, (k + 1) * l2)
                    == rep.bytes(idx as int) by {
                    assert(s.subrange(k * l, (k + 1) * l) == rep.bytes(idx as int));
                }
            },
            None => {},
        }
    }
}

/// A number token is the whole run of digits, canonical, in range.
pub proof fn lemma_number_token(e: Engine, s: Seq<u8>)
    requires
        e.wf(),
        s.len() > 0,
        s.len() <= usize::MAX,
    ensures
        spec_next(e, s).1 matches CodeType::Number(v) ==> {
            let n = spec_next(e, s).0;
            &&& 1000 <= v < NUMBER_LIMIT
            &&& n == digit_run(s, 0)
            &&& decimal(v as nat) == s.subrange(0, n as int)
        },
{
    let t = e.tables;
    lemma_sweep(t, s, 0, e.spaces());
}

proof fn lemma_repetition_units(rep: Dictionary, lens: Seq<usize>, s: Seq<u8>, j: nat)
    requires
        rep.wf(),
        lens == rep.lens(),
    ensures
        spec_repetitions(rep, lens, s, j) matches Some((c, l, idx)) ==> {
            &&& 3 < c < 32
            &&& rep.bytes(idx as int).len() == l
            &&& forall|k: int|
                0 <= k < c ==> #[trigger] s.subrange(k * l, (k + 1) * l) == rep.bytes(idx as int)
        },
    decreases lens.len() - j,
{
    if j < lens.len() {
        let l = lens[j as int] as nat;
        match rep_run(rep, s, l) {
            Some((c, idx)) => {
                assert(0 * l == 0);
                lemma_run_from(rep, s, l, idx, 0);
                assert(rep.find(s.subrange(0, l as int)) == Some(idx));
                assert forall|k: int| 0 <= k < c implies #[trigger] s.subrange(k * l, (k + 1) * l)
                    == rep.bytes(idx as int) by {
                    let kn = k as nat;
                    assert(rep.find(s.subrange((kn * l) as int, ((kn + 1) * l) as int)) == Some(idx));
                }
            },
            None => {
                lemma_repetition_units(rep, lens, s, j + 1);
            },
        }
    }
}

} // verus!
