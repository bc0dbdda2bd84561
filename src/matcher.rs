//! Longest-match lookup of a byte string against the custom word list.
use vstd::prelude::*;
use vstd::string::*;
use vstd::utf8::*;

verus! {

/// A match: the index of the entry, the bytes it takes (with the space, if
/// any) and whether a leading space was taken with it.
#[derive(Debug, Clone, Copy, PartialEq, Eq, Structural)]
pub struct Match {
    pub index: usize,
    pub length: usize,
    pub space: bool,
}

/// `w` occurs in `s` at `at`.
pub open spec fn prefix_at(w: Seq<u8>, s: Seq<u8>, at: int) -> bool {
    0 <= at && at + w.len() <= s.len() && s.subrange(at, at + w.len()) == w
}

/// Whether `string` starts with `m`.
pub fn spaceless_match(string: &[u8], m: &[u8]) -> (r: bool)
    ensures
        r == prefix_at(m@, string@, 0),
{
    if string.len() < m.len() {
        return false;
    }
    let mut i: usize = 0;
    while i < m.len()
        invariant
            i <= m@.len() <= string@.len(),
            forall|j: int| 0 <= j < i ==> string@[j] == m@[j],
        decreases m@.len() - i,
    {
        if string[i] != m[i] {
            proof {
                assert(string@.subrange(0, m@.len() as int)[i as int] != m@[i as int]);
            }
            return false;
        }
        i = i + 1;
    }
    proof {
        assert(string@.subrange(0, m@.len() as int) =~= m@);
    }
    true
}

/// How the word with bytes `w` matches the front of `s`: with a leading
/// space taken too when spaces are allowed and `s` starts with one, else on
/// its own. An empty word matches the empty prefix.
pub open spec fn word_match(w: Seq<u8>, spaces: bool, s: Seq<u8>) -> Option<(nat, bool)> {
    if spaces && s.len() > 0 && s[0] == 32 && prefix_at(w, s, 1) {
        Some(((w.len() + 1) as nat, true))
    } else if prefix_at(w, s, 0) {
        Some((w.len(), false))
    } else {
        None
    }
}

/// The longest match among the first `n` words; the earliest of equally long
/// ones.
pub open spec fn largest_match(words: Seq<&'static str>, spaces: bool, s: Seq<u8>, n: nat) -> Option<
    Match,
>
    decreases n,
{
    if n == 0 {
        None
    } else {
        let prev = largest_match(words, spaces, s, (n - 1) as nat);
        match word_match(encode_utf8(words[n - 1]@), spaces, s) {
            Some((len, sp)) => match prev {
                Some(m) if m.length >= len => prev,
                _ => Some(Match { index: (n - 1) as usize, length: len as usize, space: sp }),
            },
            None => prev,
        }
    }
}

/// How one word matches the front of `string`.
pub fn try_match_word(word: &str, space: bool, string: &[u8]) -> (r: Option<(usize, bool)>)
    ensures
        match word_match(encode_utf8(word@), space, string@) {
            Some((n, sp)) => r == Some((n as usize, sp)),
            None => r is None,
        },
{
    let w = word.as_bytes();
    if space && string.len() > 0 && string[0] == 32 {
        let tail = &string[1..string.len()];
        if spaceless_match(tail, w) {
            proof {
                assert(tail@.subrange(0, w@.len() as int) =~= string@.subrange(1, 1 + w@.len() as int));
            }
            return Some((w.len() + 1, true));
        }
        proof {
            if w@.len() <= tail@.len() {
                assert(tail@.subrange(0, w@.len() as int) =~= string@.subrange(1, 1 + w@.len() as int));
            }
        }
    }
    if spaceless_match(string, w) {
        Some((w.len(), false))
    } else {
        None
    }
}

/// The longest match of the first `n` of `words` at the front of `string`.
pub fn try_match_largest(words: &Vec<&'static str>, n: usize, space: bool, string: &[u8]) -> (r:
    Option<Match>)
    requires
        n <= words@.len(),
    ensures
        r == largest_match(words@, space, string@, n as nat),
{
    let slen = string.len();
    let mut largest: Option<Match> = None;
    let mut i: usize = 0;
    while i < n
        invariant
            i <= n <= words@.len(),
            slen == string@.len(),
            largest == largest_match(words@, space, string@, i as nat),
        decreases n - i,
    {
        let ghost prev = largest;
        let r = try_match_word(words[i], space, string);
        proof {
            assert(largest_match(words@, space, string@, (i + 1) as nat) == match word_match(
                encode_utf8(words@[i as int]@),
                space,
                string@,
            ) {
                Some((len, sp)) => match prev {
                    Some(m) if m.length >= len => prev,
                    _ => Some(Match { index: i, length: len as usize, space: sp }),
                },
                None => prev,
            });
        }
        match r {
            Some((len, sp)) => {
                let better = match largest {
                    Some(l) => len > l.length,
                    None => true,
                };
                if better {
                    largest = Some(Match { index: i, length: len, space: sp });
                }
            },
            None => {},
        }
        i = i + 1;
    }
    largest
}

} // verus!
