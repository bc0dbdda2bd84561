//! Properties that hold of every input: the round trip, token coverage, the
//! range of numbers, the length of repetitions, and truncated input.
use crate::codec::{lemma_code_round_trip, spec_deserialize, spec_serialize, NUMBER_LIMIT, UNICODE_ESCAPE};
use crate::dictionary::Dictionary;
use crate::engine::{
    alike,
    lemma_deserialize_takes, spec_compress, spec_decompress, spec_serialize_all, spec_token_lengths,
    spec_tokens, Engine,
};
use crate::error::Error;
use crate::ir::{token_text, CodeType};
use crate::iterator::{
    lemma_number_token, lemma_next_step, lemma_repetition_chunks, rep_run, run_from, spec_match_map,
    spec_next, spec_repetitions, spec_sweep,
};
use crate::tables::Tables;
use crate::text::lemma_encode_concat;
use vstd::prelude::*;
use vstd::utf8::*;

verus! {

/// The sum of `ls`.
pub open spec fn total(ls: Seq<nat>) -> nat
    decreases ls.len(),
{
    if ls.len() == 0 {
        0
    } else {
        ls[0] + total(ls.drop_first())
    }
}

proof fn lemma_tokens_unfold(e: Engine, b: Seq<u8>)
    requires
        e.wf(),
        valid_utf8(b),
        b.len() > 0,
        b.len() <= usize::MAX,
    ensures
        ({
            let (n, t) = spec_next(e, b);
            let rest = b.subrange(n as int, b.len() as int);
            &&& spec_tokens(e, b) == seq![t] + spec_tokens(e, rest)
            &&& spec_tokens(e, b)[0] == t
            &&& spec_tokens(e, b).drop_first() == spec_tokens(e, rest)
            &&& spec_token_lengths(e, b) == seq![n] + spec_token_lengths(e, rest)
            &&& spec_serialize_all(spec_tokens(e, b), e.custom_spaces) == spec_serialize(
                t,
                e.custom_spaces,
            ) + spec_serialize_all(spec_tokens(e, rest), e.custom_spaces)
        }),
{
    lemma_next_step(e, b);
    let (n, t) = spec_next(e, b);
    let rest = b.subrange(n as int, b.len() as int);
    assert((seq![t] + spec_tokens(e, rest)).drop_first() =~= spec_tokens(e, rest));
}

proof fn lemma_round_trip_bytes(e: Engine, b: Seq<u8>)
    requires
        e.wf(),
        valid_utf8(b),
        b.len() <= usize::MAX,
    ensures
        spec_decompress(e, spec_serialize_all(spec_tokens(e, b), e.custom_spaces)) matches Ok(x)
            && encode_utf8(x) == b,
    decreases b.len(),
{
    if b.len() == 0 {
        assert(spec_serialize_all(spec_tokens(e, b), e.custom_spaces) =~= Seq::<u8>::empty());
        assert(encode_utf8(Seq::<char>::empty()) =~= b);
    } else {
        lemma_next_step(e, b);
        lemma_tokens_unfold(e, b);
        let (n, t) = spec_next(e, b);
        let rest = b.subrange(n as int, b.len() as int);
        lemma_round_trip_bytes(e, rest);
        let head = spec_serialize(t, e.custom_spaces);
        let tail = spec_serialize_all(spec_tokens(e, rest), e.custom_spaces);
        let whole = head + tail;
        lemma_code_round_trip(t, e.custom_spaces, tail);
        lemma_deserialize_takes(whole, e.custom_spaces);
        assert(whole.subrange(head.len() as int, whole.len() as int) =~= tail);
        let x = spec_decompress(e, tail)->Ok_0;
        lemma_encode_concat(token_text(e, t), x);
        assert(b =~= b.subrange(0, n as int) + rest);
    }
}

/// Decompressing what an engine compressed gives back the text.
pub proof fn lemma_round_trip(e: Engine, s: Seq<char>)
    requires
        e.wf(),
        encode_utf8(s).len() <= usize::MAX,
    ensures
        spec_decompress(e, spec_compress(e, s)) == Ok::<Seq<char>, Error>(s),
{
    encode_utf8_valid_utf8(s);
    lemma_round_trip_bytes(e, encode_utf8(s));
    let x = spec_decompress(e, spec_compress(e, s))->Ok_0;
    encode_utf8_decode_utf8(x);
    encode_utf8_decode_utf8(s);
}

/// The bytes that the tokens take add up to the whole input: no gap and no
/// overlap.
pub proof fn lemma_token_coverage(e: Engine, b: Seq<u8>)
    requires
        e.wf(),
        valid_utf8(b),
        b.len() <= usize::MAX,
    ensures
        total(spec_token_lengths(e, b)) == b.len(),
        spec_token_lengths(e, b).len() == spec_tokens(e, b).len(),
        forall|k: int| 0 <= k < spec_token_lengths(e, b).len() ==> #[trigger] spec_token_lengths(e, b)[k] >= 1,
    decreases b.len(),
{
    if b.len() > 0 {
        lemma_next_step(e, b);
        lemma_tokens_unfold(e, b);
        let (n, t) = spec_next(e, b);
        let rest = b.subrange(n as int, b.len() as int);
        lemma_token_coverage(e, rest);
        let ls = spec_token_lengths(e, b);
        assert(ls.drop_first() =~= spec_token_lengths(e, rest));
        assert forall|k: int| 0 <= k < ls.len() implies #[trigger] ls[k] >= 1 by {
            if k > 0 {
                assert(ls[k] == spec_token_lengths(e, rest)[k - 1]);
            }
        }
    }
}

/// Every number token of a text lies in `[1000, 2^66)`.
pub proof fn lemma_numbers_in_range(e: Engine, b: Seq<u8>)
    requires
        e.wf(),
        valid_utf8(b),
        b.len() <= usize::MAX,
    ensures
        forall|k: int|
            0 <= k < spec_tokens(e, b).len() ==> (#[trigger] spec_tokens(e, b)[k] matches CodeType::Number(
                v,
            ) ==> 1000 <= v < NUMBER_LIMIT),
    decreases b.len(),
{
    if b.len() > 0 {
        lemma_next_step(e, b);
        lemma_tokens_unfold(e, b);
        lemma_number_token(e, b);
        let (n, t) = spec_next(e, b);
        let rest = b.subrange(n as int, b.len() as int);
        lemma_numbers_in_range(e, rest);
        let ts = spec_tokens(e, b);
        assert forall|k: int| 0 <= k < ts.len() implies (#[trigger] ts[k] matches CodeType::Number(
            v,
        ) ==> 1000 <= v < NUMBER_LIMIT) by {
            if k > 0 {
                assert(ts[k] == spec_tokens(e, rest)[k - 1]);
            }
        }
    }
}

/// Every repetition token of a text repeats its unit more than 3 times.
pub proof fn lemma_repetitions_over_three(e: Engine, b: Seq<u8>)
    requires
        e.wf(),
        valid_utf8(b),
        b.len() <= usize::MAX,
    ensures
        forall|k: int|
            0 <= k < spec_tokens(e, b).len() ==> (#[trigger] spec_tokens(e, b)[k] matches CodeType::Repetitions(
                c,
                _,
            ) ==> c > 3),
    decreases b.len(),
{
    if b.len() > 0 {
        lemma_next_step(e, b);
        lemma_tokens_unfold(e, b);
        lemma_repetition_chunks(e, b);
        let (n, t) = spec_next(e, b);
        let rest = b.subrange(n as int, b.len() as int);
        lemma_repetitions_over_three(e, rest);
        let ts = spec_tokens(e, b);
        assert forall|k: int| 0 <= k < ts.len() implies (#[trigger] ts[k] matches CodeType::Repetitions(
            c,
            _,
        ) ==> c > 3) by {
            if k > 0 {
                assert(ts[k] == spec_tokens(e, rest)[k - 1]);
            }
        }
    }
}

/// A lone escape byte, with nothing after it, is a truncated code.
pub proof fn lemma_lone_escape(e: Engine, b: u8)
    requires
        b >= UNICODE_ESCAPE,
    ensures
        spec_decompress(e, seq![b]) == Err::<Seq<char>, Error>(Error::UnexpectedEndOfBytes),
{
}

proof fn lemma_alike_run(r1: Dictionary, r2: Dictionary, s: Seq<u8>, l: nat, idx: usize, k: nat)
    requires
        forall|w: Seq<u8>| #[trigger] r1.find(w) == r2.find(w),
    ensures
        run_from(r1, s, l, idx, k) == run_from(r2, s, l, idx, k),
    decreases 31 - k,
{
    if !(k >= 31 || s.len() < (k + 1) * l || r1.find(s.subrange((k * l) as int, ((k + 1) * l) as int))
        != Some(idx)) {
        lemma_alike_run(r1, r2, s, l, idx, k + 1);
    }
}

proof fn lemma_alike_repetitions(r1: Dictionary, r2: Dictionary, lens: Seq<usize>, s: Seq<u8>, j: nat)
    requires
        forall|w: Seq<u8>| #[trigger] r1.find(w) == r2.find(w),
    ensures
        spec_repetitions(r1, lens, s, j) == spec_repetitions(r2, lens, s, j),
    decreases lens.len() - j,
{
    if j < lens.len() {
        let l = lens[j as int] as nat;
        if 1 <= l <= s.len() {
            match r1.find(s.subrange(0, l as int)) {
                Some(idx) => {
                    lemma_alike_run(r1, r2, s, l, idx, 0);
                },
                None => {},
            }
        }
        assert(rep_run(r1, s, l) == rep_run(r2, s, l));
        lemma_alike_repetitions(r1, r2, lens, s, j + 1);
    }
}

proof fn lemma_alike_sweep(t1: Tables, t2: Tables, s: Seq<u8>, j: nat)
    requires
        t1.lengths@ == t2.lengths@,
        forall|w: Seq<u8>| #[trigger] t1.one.find(w) == t2.one.find(w),
        forall|w: Seq<u8>| #[trigger] t1.two.find(w) == t2.two.find(w),
        forall|w: Seq<u8>| #[trigger] t1.three.find(w) == t2.three.find(w),
    ensures
        spec_sweep(t1, s, j) == spec_sweep(t2, s, j),
    decreases t1.lengths@.len() - j,
{
    if j < t1.lengths@.len() {
        let l = t1.lengths@[j as int] as nat;
        assert(spec_match_map(t1.one, s, false, l) == spec_match_map(t2.one, s, false, l));
        assert(spec_match_map(t1.two, s, true, l) == spec_match_map(t2.two, s, true, l));
        assert(spec_match_map(t1.three, s, true, l) == spec_match_map(t2.three, s, true, l));
        lemma_alike_sweep(t1, t2, s, j + 1);
    }
}

proof fn lemma_alike_finds(e1: Engine, e2: Engine)
    requires
        alike(e1, e2),
    ensures
        forall|w: Seq<u8>| #[trigger] e1.tables.one.find(w) == e2.tables.one.find(w),
        forall|w: Seq<u8>| #[trigger] e1.tables.two.find(w) == e2.tables.two.find(w),
        forall|w: Seq<u8>| #[trigger] e1.tables.three.find(w) == e2.tables.three.find(w),
        forall|w: Seq<u8>| #[trigger] e1.tables.controls.find(w) == e2.tables.controls.find(w),
        forall|w: Seq<u8>| #[trigger] e1.tables.repetitions.find(w) == e2.tables.repetitions.find(w),
        e1.tables.repetitions.lens() == e2.tables.repetitions.lens(),
        e1.tables.lengths@ == e2.tables.lengths@,
{
}

proof fn lemma_alike_next(e1: Engine, e2: Engine, s: Seq<u8>)
    requires
        alike(e1, e2),
    ensures
        spec_next(e1, s) == spec_next(e2, s),
{
    lemma_alike_finds(e1, e2);
    lemma_alike_repetitions(
        e1.tables.repetitions,
        e2.tables.repetitions,
        e1.tables.repetitions.lens(),
        s,
        0,
    );
    lemma_alike_sweep(e1.tables, e2.tables, s, 0);
}

proof fn lemma_alike_tokens(e1: Engine, e2: Engine, b: Seq<u8>)
    requires
        alike(e1, e2),
    ensures
        spec_tokens(e1, b) == spec_tokens(e2, b),
    decreases b.len(),
{
    if b.len() > 0 {
        lemma_alike_next(e1, e2, b);
        let (n, t) = spec_next(e1, b);
        if 1 <= n <= b.len() {
            lemma_alike_tokens(e1, e2, b.subrange(n as int, b.len() as int));
        }
    }
}

proof fn lemma_alike_decompress(e1: Engine, e2: Engine, b: Seq<u8>)
    requires
        alike(e1, e2),
    ensures
        spec_decompress(e1, b) == spec_decompress(e2, b),
    decreases b.len(),
{
    if b.len() > 0 {
        match spec_deserialize(b, e1.custom_spaces) {
            Ok((t, n)) => {
                assert(token_text(e1, t) == token_text(e2, t));
                if 1 <= n <= b.len() {
                    lemma_alike_decompress(e1, e2, b.subrange(n as int, b.len() as int));
                }
            },
            Err(_) => {},
        }
    }
}

/// Engines alike compress and decompress alike.
pub proof fn lemma_alike(e1: Engine, e2: Engine, s: Seq<char>, b: Seq<u8>)
    requires
        alike(e1, e2),
    ensures
        spec_compress(e1, s) == spec_compress(e2, s),
        spec_decompress(e1, b) == spec_decompress(e2, b),
{
    lemma_alike_tokens(e1, e2, encode_utf8(s));
    lemma_alike_decompress(e1, e2, b);
}

/// Decompressing, with one engine, what another engine alike compressed gives
/// back the text.
pub proof fn lemma_round_trip_alike(e1: Engine, e2: Engine, s: Seq<char>)
    requires
        alike(e1, e2),
        encode_utf8(s).len() <= usize::MAX,
    ensures
        spec_decompress(e2, spec_compress(e1, s)) == Ok::<Seq<char>, Error>(s),
{
    lemma_alike(e1, e2, s, spec_compress(e1, s));
    lemma_round_trip(e2, s);
}

} // verus!
