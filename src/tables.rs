//! The five static tables: one-byte, two-byte and three-byte lemmas, control
//! bytes, and repetition units.
use crate::codec::{NON_PRINTABLE_COUNT, ONE_BYTE_COUNT, THREE_BYTE_COUNT, TWO_BYTE_COUNT};
use crate::dictionary::{texts_of, Dictionary, MAX_LEMMA_LEN};
use crate::text::{ascii_chars, char_string, lemma_ascii_encode};
use vstd::prelude::*;
use vstd::string::*;
use vstd::utf8::*;

verus! {

/// The control byte at index `k` of the control table: the C0 controls but
/// tab, line feed and carriage return, then delete.
pub open spec fn control_byte(k: int) -> u8 {
    if k < 9 {
        k as u8
    } else if k < 11 {
        (k + 2) as u8
    } else if k < 29 {
        (k + 3) as u8
    } else {
        127
    }
}

/// The index of byte `b` in the control table, if it is a control byte there.
pub open spec fn control_slot(b: u8) -> Option<int> {
    if b < 9 {
        Some(b as int)
    } else if b == 11 || b == 12 {
        Some(b - 2)
    } else if 14 <= b < 32 {
        Some(b - 3)
    } else if b == 127 {
        Some(29)
    } else {
        None
    }
}

fn control_slot_of(b: u8) -> (r: Option<usize>)
    ensures
        r matches Some(k) ==> control_slot(b) == Some(k as int) && k < NON_PRINTABLE_COUNT
            && control_byte(k as int) == b,
        r is None ==> control_slot(b) is None,
{
    if b < 9 {
        Some(b as usize)
    } else if b == 11 || b == 12 {
        Some(b as usize - 2)
    } else if 14 <= b && b < 32 {
        Some(b as usize - 3)
    } else if b == 127 {
        Some(29)
    } else {
        None
    }
}

/// The texts of the control table: each control byte as a char.
pub open spec fn control_texts() -> Seq<Seq<char>> {
    Seq::new(NON_PRINTABLE_COUNT as nat, |k: int| seq![control_byte(k) as char])
}

/// The texts of a list of lemmas.
pub open spec fn list_texts(l: Seq<&'static str>) -> Seq<Seq<char>> {
    l.map_values(|w: &'static str| w@)
}

/// The text of entry `i` of the one-byte table: an ASCII byte itself, a
/// lemma in the place of a control byte, or a lemma above ASCII.
pub open spec fn one_byte_text(i: int) -> Seq<char> {
    if i < 0x80 {
        match control_slot(i as u8) {
            Some(k) => one_byte_control_slot_list()[k]@,
            None => seq![(i as u8) as char],
        }
    } else {
        one_byte_upper_list()[i - 0x80]@
    }
}

/// The texts of the one-byte table.
pub open spec fn one_byte_texts() -> Seq<Seq<char>> {
    Seq::new(ONE_BYTE_COUNT as nat, |i: int| one_byte_text(i))
}

/// The byte lengths from `l` down to 2 that one of the three lemma tables
/// has, longest first.
pub open spec fn sweep_from(a: Seq<usize>, b: Seq<usize>, c: Seq<usize>, l: nat) -> Seq<usize>
    decreases l,
{
    if l < 2 {
        Seq::empty()
    } else {
        (if a.contains(l as usize) || b.contains(l as usize) || c.contains(l as usize) {
            seq![l as usize]
        } else {
            Seq::empty()
        }) + sweep_from(a, b, c, (l - 1) as nat)
    }
}

fn control_words() -> (r: Vec<String>)
    ensures
        texts_of(r@) == control_texts(),
        r@.len() == NON_PRINTABLE_COUNT,
        forall|k: int| 0 <= k < NON_PRINTABLE_COUNT ==> #[trigger] r@[k]@ == seq![control_byte(k) as char],
{
    let mut r: Vec<String> = Vec::new();
    let mut k: usize = 0;
    while k < NON_PRINTABLE_COUNT
        invariant
            k <= NON_PRINTABLE_COUNT,
            r@.len() == k,
            forall|j: int| 0 <= j < k ==> #[trigger] r@[j]@ == seq![control_byte(j) as char],
        decreases NON_PRINTABLE_COUNT - k,
    {
        let b: u8 = if k < 9 {
            k as u8
        } else if k < 11 {
            (k + 2) as u8
        } else if k < 29 {
            (k + 3) as u8
        } else {
            127
        };
        r.push(char_string(b as char));
        k = k + 1;
    }
    proof {
        assert(texts_of(r@) =~= control_texts());
    }
    r
}

fn string_list(words: Vec<&'static str>) -> (r: Vec<String>)
    ensures
        texts_of(r@) == list_texts(words@),
        r@.len() == words@.len(),
        forall|i: int| 0 <= i < words@.len() ==> #[trigger] r@[i]@ == words@[i]@,
{
    let mut r: Vec<String> = Vec::new();
    let mut i: usize = 0;
    while i < words.len()
        invariant
            i <= words@.len(),
            r@.len() == i,
            forall|j: int| 0 <= j < i ==> #[trigger] r@[j]@ == words@[j]@,
        decreases words@.len() - i,
    {
        r.push(String::from_str(words[i]));
        i = i + 1;
    }
    proof {
        assert(texts_of(r@) =~= list_texts(words@));
    }
    r
}

/// The one-byte table: each ASCII byte stands for itself, but the control
/// bytes give their codes to lemmas, and lemmas fill the codes above ASCII.
fn one_byte_words() -> (r: Vec<String>)
    ensures
        texts_of(r@) == one_byte_texts(),
        r@.len() == ONE_BYTE_COUNT,
        forall|b: u8| b < 0x80 && control_slot(b) is None ==> #[trigger] r@[b as int]@ == seq![b as char],
{
    let slots = one_byte_control_slot_lemmas();
    let upper = one_byte_upper_lemmas();
    let mut r: Vec<String> = Vec::new();
    let mut b: u8 = 0;
    while b < 0x80
        invariant
            b <= 0x80,
            r@.len() == b,
            slots@ == one_byte_control_slot_list(),
            forall|c: u8| c < b && control_slot(c) is None ==> #[trigger] r@[c as int]@ == seq![c as char],
            forall|c: int| 0 <= c < b ==> #[trigger] r@[c]@ == one_byte_text(c),
        decreases 0x80 - b,
    {
        match control_slot_of(b) {
            Some(k) => r.push(String::from_str(slots[k])),
            None => r.push(char_string(b as char)),
        }
        b = b + 1;
    }
    let mut i: usize = 0;
    while i < upper.len()
        invariant
            i <= upper@.len(),
            upper@ == one_byte_upper_list(),
            upper@.len() == ONE_BYTE_COUNT - 0x80,
            r@.len() == 0x80 + i,
            forall|c: u8| c < 0x80 && control_slot(c) is None ==> #[trigger] r@[c as int]@ == seq![c as char],
            forall|c: int| 0 <= c < 0x80 + i ==> #[trigger] r@[c]@ == one_byte_text(c),
        decreases upper@.len() - i,
    {
        r.push(String::from_str(upper[i]));
        i = i + 1;
    }
    proof {
        assert(texts_of(r@) =~= one_byte_texts());
    }
    r
}

fn contains_len(v: &Vec<usize>, l: usize) -> (r: bool)
    ensures
        r == v@.contains(l),
{
    let mut i: usize = 0;
    while i < v.len()
        invariant
            i <= v@.len(),
            forall|j: int| 0 <= j < i ==> v@[j] != l,
        decreases v@.len() - i,
    {
        if v[i] == l {
            return true;
        }
        i = i + 1;
    }
    false
}

/// The tables that the tokenizer and the decoder read.
pub struct Tables {
    pub one: Dictionary,
    pub two: Dictionary,
    pub three: Dictionary,
    pub controls: Dictionary,
    pub repetitions: Dictionary,
    /// The lemma lengths of the one-, two- and three-byte tables, 2 and over,
    /// longest first.
    pub lengths: Vec<usize>,
}

impl Tables {
    /// Whether `l` is a length that the dictionary sweep tries.
    pub open spec fn sweeps(&self, l: usize) -> bool {
        2 <= l <= MAX_LEMMA_LEN && (self.one.lens().contains(l) || self.two.lens().contains(l)
            || self.three.lens().contains(l))
    }

    /// The tables are well formed, sized as the code expects, and every ASCII
    /// byte that the control table does not hold stands for itself in the
    /// one-byte table.
    pub open spec fn wf(&self) -> bool {
        &&& self.one.wf()
        &&& self.two.wf()
        &&& self.three.wf()
        &&& self.controls.wf()
        &&& self.repetitions.wf()
        &&& self.one.count() == ONE_BYTE_COUNT
        &&& self.two.count() == TWO_BYTE_COUNT
        &&& self.three.count() == THREE_BYTE_COUNT
        &&& self.controls.count() == NON_PRINTABLE_COUNT
        &&& self.repetitions.count() <= 256
        &&& forall|b: u8|
            b < 0x80 ==> (#[trigger] self.controls.find(seq![b]) is Some || self.one.bytes(b as int)
                == seq![b])
        &&& forall|j: int| 0 <= j < self.lengths@.len() ==> self.sweeps(#[trigger] self.lengths@[j])
        &&& forall|l: usize| #[trigger] self.sweeps(l) ==> self.lengths@.contains(l)
        &&& forall|j: int, k: int|
            0 <= j < k < self.lengths@.len() ==> self.lengths@[j] > self.lengths@[k]
        &&& self.lengths@ == sweep_from(
            self.one.lens(),
            self.two.lens(),
            self.three.lens(),
            MAX_LEMMA_LEN as nat,
        )
    }

    /// The tables hold the lemmas of this library's lists, in order.
    pub open spec fn standard(&self) -> bool {
        &&& self.one.texts() == one_byte_texts()
        &&& self.two.texts() == list_texts(two_byte_list())
        &&& self.three.texts() == list_texts(three_byte_list())
        &&& self.controls.texts() == control_texts()
        &&& self.repetitions.texts() == list_texts(repetition_list())
    }

    /// Builds the tables.
    pub fn new() -> (t: Tables)
        ensures
            t.wf(),
            t.standard(),
    {
        let one = Dictionary::new(one_byte_words());
        let two = Dictionary::new(string_list(two_byte_lemmas()));
        let three = Dictionary::new(string_list(three_byte_lemmas()));
        let controls = Dictionary::new(control_words());
        let repetitions = Dictionary::new(string_list(repetition_lemmas()));
        let mut lengths: Vec<usize> = Vec::new();
        let mut l: usize = MAX_LEMMA_LEN;
        while l >= 2
            invariant
                1 <= l <= MAX_LEMMA_LEN,
                forall|j: int| 0 <= j < lengths@.len() ==> l < #[trigger] lengths@[j] <= MAX_LEMMA_LEN
                    && (one.lens().contains(lengths@[j]) || two.lens().contains(lengths@[j])
                    || three.lens().contains(lengths@[j])),
                forall|j: int, k: int| 0 <= j < k < lengths@.len() ==> lengths@[j] > lengths@[k],
                forall|m: usize|
                    l < m <= MAX_LEMMA_LEN && (one.lens().contains(m) || two.lens().contains(m)
                        || three.lens().contains(m)) ==> lengths@.contains(m),
                sweep_from(one.lens(), two.lens(), three.lens(), MAX_LEMMA_LEN as nat) == lengths@
                    + sweep_from(one.lens(), two.lens(), three.lens(), l as nat),
            decreases l,
        {
            let ghost rest = sweep_from(one.lens(), two.lens(), three.lens(), (l - 1) as nat);
            let ghost done = lengths@;
            if contains_len(&one.lengths, l) || contains_len(&two.lengths, l) || contains_len(
                &three.lengths,
                l,
            ) {
                let ghost before = lengths@;
                lengths.push(l);
                proof {
                    assert(lengths@[lengths@.len() - 1] == l);
                    assert forall|m: usize|
                        l <= m <= MAX_LEMMA_LEN && (one.lens().contains(m) || two.lens().contains(m)
                            || three.lens().contains(m)) implies lengths@.contains(m) by {
                        if m != l {
                            let j = choose|j: int| 0 <= j < before.len() && before[j] == m;
                            assert(lengths@[j] == m);
                        }
                    }
                }
            }
            proof {
                assert(sweep_from(one.lens(), two.lens(), three.lens(), MAX_LEMMA_LEN as nat)
                    =~= lengths@ + rest);
            }
            l = l - 1;
        }
        proof {
            assert(lengths@ + sweep_from(one.lens(), two.lens(), three.lens(), l as nat) =~= lengths@);
        }
        let t = Tables { one, two, three, controls, repetitions, lengths };
        proof {
            assert forall|b: u8| b < 0x80 implies (#[trigger] t.controls.find(seq![b]) is Some
                || t.one.bytes(b as int) == seq![b]) by {
                lemma_ascii_identity(t, b);
            }
        }
        t
    }
}

proof fn lemma_ascii_identity(t: Tables, b: u8)
    requires
        b < 0x80,
        t.controls.wf(),
        t.controls.count() == NON_PRINTABLE_COUNT,
        forall|k: int| 0 <= k < NON_PRINTABLE_COUNT ==> #[trigger] t.controls.text(k) == seq![control_byte(k) as char],
        t.one.count() == ONE_BYTE_COUNT,
        forall|c: u8| c < 0x80 && control_slot(c) is None ==> #[trigger] t.one.text(c as int) == seq![c as char],
    ensures
        t.controls.find(seq![b]) is Some || t.one.bytes(b as int) == seq![b],
{
    assert(ascii_chars(seq![b]) =~= seq![b as char]);
    lemma_ascii_encode(seq![b]);
    match control_slot(b) {
        Some(k) => {
            assert(control_byte(k) == b);
            assert(t.controls.bytes(k) == seq![b]);
        },
        None => {},
    }
}

/// Lemmas of the one-byte table that take the codes of the control bytes.
pub open spec fn one_byte_control_slot_list() -> Seq<&'static str> {
    seq![
        "the", "e ", " t", "th", "he", "s ", " a", "in", "er", "d ", "an", "re", "t ", " th",
        "on", "at", "en", "nd", " o", "es", "or", "ing", "to", "of", "ed", "is", "it", "ou",
        "\r\n", "ion",
    ]
}

/// Lemmas of the one-byte table that take the codes of the control bytes.
pub(crate) fn one_byte_control_slot_lemmas() -> (r: Vec<&'static str>)
    ensures
        r@ == one_byte_control_slot_list(),
{
    let r = vec![
        "the", "e ", " t", "th", "he", "s ", " a", "in", "er", "d ", "an", "re", "t ", " th",
        "on", "at", "en", "nd", " o", "es", "or", "ing", "to", "of", "ed", "is", "it", "ou",
        "\r\n", "ion",
    ];
    proof {
        assert(r@ =~= one_byte_control_slot_list());
    }
    r
}

/// Lemmas of the one-byte table above the ASCII range.
pub open spec fn one_byte_upper_list() -> Seq<&'static str> {
    seq![
        " the", "the ", " of", " and", "and ", " to", " in", "ar", "al", "st", "nt", "ng", "se",
        "ha", "as", "le", "ve", "co", "me", "de", "hi", "ri", "ro", "ic", "ne", "ea", "ra",
        "ce", "li", "ch", "ll", "be", "ma", "si", "om", "ur", "ca", "el", "ta", "la", "ns",
        "di", "fo", "ho", "pe", "ec", "pr", "no", "ct", "us", "ac", "ot", "il", "tr", "ly",
        "nc", "et", "ut", "ss", "so", "rs", "un", "lo", "wa", "ge", "ie", "wh", "ee", "wi",
        "em", "ad", "ol", "rt", "po", "we", "na", "ul", "ni", "ts", "mo", "ow", "pa", "im",
        "mi", "ai", "sh", "ir", "su", "id", "os", "iv", "ia", "am", "fi", "ci", "vi", "ay",
        "ig", "tu", "ev", "ld", "ry", "mp", "fe", "bl", "ab", "gh", "ty", "wo", "ex", "oo",
        "ck",
    ]
}

/// Lemmas of the one-byte table above the ASCII range.
pub(crate) fn one_byte_upper_lemmas() -> (r: Vec<&'static str>)
    ensures
        r@ == one_byte_upper_list(),
{
    let r = vec![
        " the", "the ", " of", " and", "and ", " to", " in", "ar", "al", "st", "nt", "ng", "se",
        "ha", "as", "le", "ve", "co", "me", "de", "hi", "ri", "ro", "ic", "ne", "ea", "ra",
        "ce", "li", "ch", "ll", "be", "ma", "si", "om", "ur", "ca", "el", "ta", "la", "ns",
        "di", "fo", "ho", "pe", "ec", "pr", "no", "ct", "us", "ac", "ot", "il", "tr", "ly",
        "nc", "et", "ut", "ss", "so", "rs", "un", "lo", "wa", "ge", "ie", "wh", "ee", "wi",
        "em", "ad", "ol", "rt", "po", "we", "na", "ul", "ni", "ts", "mo", "ow", "pa", "im",
        "mi", "ai", "sh", "ir", "su", "id", "os", "iv", "ia", "am", "fi", "ci", "vi", "ay",
        "ig", "tu", "ev", "ld", "ry", "mp", "fe", "bl", "ab", "gh", "ty", "wo", "ex", "oo",
        "ck",
    ];
    proof {
        assert(r@ =~= one_byte_upper_list());
    }
    r
}

/// Lemmas of the two-byte table.
pub open spec fn two_byte_list() -> Seq<&'static str> {
    seq![
        "year", "way", "day", "thing", "man", "world", "life", "hand", "part", "child", "eye",
        "woman", "place", "week", "case", "point", "government", "company", "group", "fact",
        "again", "against", "another", "being", "below", "both", "came", "come", "does",
        "doing", "down", "during", "each", "even", "ever", "few", "find", "found", "give",
        "going", "great", "having", "here", "high", "home", "house", "however", "know", "large",
        "last", "later", "least", "left", "less", "line", "long", "look", "made", "make",
        "many", "might", "most", "much", "must", "name", "near", "need", "next", "night",
        "often", "open", "own", "right", "same", "said", "says", "school", "seem", "several",
        "show", "side", "since", "something", "sometimes", "still", "such", "system", "take",
        "tell", "they", "think", "those", "though", "three", "today", "together", "too",
        "until", "upon", "want", "water", "while", "white", "whole", "within", "without",
        "word", "write", "young", "yours", "email", "message", "please", "thanks", "hello",
        "tomorrow", "yesterday", "morning", "evening", "weekend", "meeting", "office", "phone",
        "mobile", "address", "update", "account", "password", "login", "user", "users",
        "search", "help", "contact", "privacy", "terms", "service", "services", "news", "media",
        "video", "videos", "photo", "photos", "image", "images", "music", "games", "online",
        "free", "best", "new", "info", "page", "blog", "post", "posts", "comment", "comments",
        "share", "follow", "twitter", "facebook", "youtube", "wikipedia", "amazon", "that",
        "with", "this", "from", "have", "will", "your", "which", "there", "their", "would",
        "about", "other", "these", "them", "than", "then", "some", "what", "when", "were",
        "been", "more", "also", "into", "only", "time", "very", "over", "just", "like", "could",
        "after", "first", "well", "where", "should", "because", "through", "between", "before",
        "people", "under", "never", "always", "number", "numbers", "string", "strings", "small",
        "simple", "compression", "compress", "example", "google", "programming", "therefore",
        "download", "able", "data", "good", "idea", "problem", "general", "state", "order",
        "every", "kind", "build", "short", "fine", "space", "custom", "quick", "brown",
        "jumped", "bar", "end", "nothing", "compressing", "tree", "github", "www.", "html",
        ".org", ".net", "index", "http", "com", "org", "net",
    ]
}

/// Lemmas of the two-byte table.
pub(crate) fn two_byte_lemmas() -> (r: Vec<&'static str>)
    ensures
        r@ == two_byte_list(),
{
    let r = vec![
        "year", "way", "day", "thing", "man", "world", "life", "hand", "part", "child", "eye",
        "woman", "place", "week", "case", "point", "government", "company", "group", "fact",
        "again", "against", "another", "being", "below", "both", "came", "come", "does",
        "doing", "down", "during", "each", "even", "ever", "few", "find", "found", "give",
        "going", "great", "having", "here", "high", "home", "house", "however", "know", "large",
        "last", "later", "least", "left", "less", "line", "long", "look", "made", "make",
        "many", "might", "most", "much", "must", "name", "near", "need", "next", "night",
        "often", "open", "own", "right", "same", "said", "says", "school", "seem", "several",
        "show", "side", "since", "something", "sometimes", "still", "such", "system", "take",
        "tell", "they", "think", "those", "though", "three", "today", "together", "too",
        "until", "upon", "want", "water", "while", "white", "whole", "within", "without",
        "word", "write", "young", "yours", "email", "message", "please", "thanks", "hello",
        "tomorrow", "yesterday", "morning", "evening", "weekend", "meeting", "office", "phone",
        "mobile", "address", "update", "account", "password", "login", "user", "users",
        "search", "help", "contact", "privacy", "terms", "service", "services", "news", "media",
        "video", "videos", "photo", "photos", "image", "images", "music", "games", "online",
        "free", "best", "new", "info", "page", "blog", "post", "posts", "comment", "comments",
        "share", "follow", "twitter", "facebook", "youtube", "wikipedia", "amazon", "that",
        "with", "this", "from", "have", "will", "your", "which", "there", "their", "would",
        "about", "other", "these", "them", "than", "then", "some", "what", "when", "were",
        "been", "more", "also", "into", "only", "time", "very", "over", "just", "like", "could",
        "after", "first", "well", "where", "should", "because", "through", "between", "before",
        "people", "under", "never", "always", "number", "numbers", "string", "strings", "small",
        "simple", "compression", "compress", "example", "google", "programming", "therefore",
        "download", "able", "data", "good", "idea", "problem", "general", "state", "order",
        "every", "kind", "build", "short", "fine", "space", "custom", "quick", "brown",
        "jumped", "bar", "end", "nothing", "compressing", "tree", "github", "www.", "html",
        ".org", ".net", "index", "http", "com", "org", "net",
    ];
    proof {
        assert(r@ =~= two_byte_list());
    }
    r
}

/// Lemmas of the three-byte table.
pub open spec fn three_byte_list() -> Seq<&'static str> {
    seq![
        "accommodation", "acknowledge", "administration", "advertisement", "alternatively",
        "approximately", "architecture", "arrangement", "atmosphere", "automatically",
        "background", "beautiful", "behaviour", "businesses", "calculation", "celebration",
        "championship", "circumstances", "collaboration", "communication", "community",
        "comparison", "competition", "comprehensive", "concentration", "configuration",
        "consequently", "consideration", "constitution", "construction", "contribution",
        "conversation", "corporation", "correspondence", "demonstration", "description",
        "destination", "determination", "development", "differently", "disappointed",
        "distribution", "documentation", "effectiveness", "electricity", "encouragement",
        "entertainment", "environment", "establishment", "examination", "exceptionally",
        "experience", "experiment", "explanation", "extraordinary", "familiar", "generation",
        "headquarters", "identification", "imagination", "immediately", "implementation",
        "improvement", "independent", "individual", "information", "infrastructure",
        "installation", "institution", "instructions", "insurance", "intelligence",
        "international", "interpretation", "introduction", "investigation", "knowledge",
        "laboratory", "language", "literature", "maintenance", "management", "manufacturer",
        "mathematics", "measurement", "neighbourhood", "nevertheless", "notification",
        "opportunity", "organisation", "organization", "particularly", "performance",
        "permission", "personality", "perspective", "philosophy", "photograph", "possibility",
        "preparation", "presentation", "probability", "professional", "programme",
        "pronunciation", "publication", "qualification", "questionnaire", "recommendation",
        "registration", "relationship", "representative", "requirement", "reservation",
        "responsibility", "restaurant", "satisfaction", "scholarship", "significance",
        "specification", "statistics", "subscription", "successfully", "superintendent",
        "temperature", "transportation", "understanding", "unfortunately", "university",
        "vocabulary", "wonderful", "ooh", "antirez", "smaz", "shrink", "fox", "library", "lazy",
        "dog", "master", "mate", "precious", "difficult", "decide", "works", "little",
        "dynamically", "specific", "suitable", "libraries", "purpose", "needed", "test",
    ]
}

/// Lemmas of the three-byte table.
pub(crate) fn three_byte_lemmas() -> (r: Vec<&'static str>)
    ensures
        r@ == three_byte_list(),
{
    let r = vec![
        "accommodation", "acknowledge", "administration", "advertisement", "alternatively",
        "approximately", "architecture", "arrangement", "atmosphere", "automatically",
        "background", "beautiful", "behaviour", "businesses", "calculation", "celebration",
        "championship", "circumstances", "collaboration", "communication", "community",
        "comparison", "competition", "comprehensive", "concentration", "configuration",
        "consequently", "consideration", "constitution", "construction", "contribution",
        "conversation", "corporation", "correspondence", "demonstration", "description",
        "destination", "determination", "development", "differently", "disappointed",
        "distribution", "documentation", "effectiveness", "electricity", "encouragement",
        "entertainment", "environment", "establishment", "examination", "exceptionally",
        "experience", "experiment", "explanation", "extraordinary", "familiar", "generation",
        "headquarters", "identification", "imagination", "immediately", "implementation",
        "improvement", "independent", "individual", "information", "infrastructure",
        "installation", "institution", "instructions", "insurance", "intelligence",
        "international", "interpretation", "introduction", "investigation", "knowledge",
        "laboratory", "language", "literature", "maintenance", "management", "manufacturer",
        "mathematics", "measurement", "neighbourhood", "nevertheless", "notification",
        "opportunity", "organisation", "organization", "particularly", "performance",
        "permission", "personality", "perspective", "philosophy", "photograph", "possibility",
        "preparation", "presentation", "probability", "professional", "programme",
        "pronunciation", "publication", "qualification", "questionnaire", "recommendation",
        "registration", "relationship", "representative", "requirement", "reservation",
        "responsibility", "restaurant", "satisfaction", "scholarship", "significance",
        "specification", "statistics", "subscription", "successfully", "superintendent",
        "temperature", "transportation", "understanding", "unfortunately", "university",
        "vocabulary", "wonderful", "ooh", "antirez", "smaz", "shrink", "fox", "library", "lazy",
        "dog", "master", "mate", "precious", "difficult", "decide", "works", "little",
        "dynamically", "specific", "suitable", "libraries", "purpose", "needed", "test",
    ];
    proof {
        assert(r@ =~= three_byte_list());
    }
    r
}

/// Units that a repetition may repeat.
pub open spec fn repetition_list() -> Seq<&'static str> {
    seq![
        "he", "he ", "h", "hh", "a", "e", "o", "ha", "ha ", "la", "na", "lo", "xo", "-", "=",
        "*", ".", "!", "?", " ",
    ]
}

/// Units that a repetition may repeat.
pub(crate) fn repetition_lemmas() -> (r: Vec<&'static str>)
    ensures
        r@ == repetition_list(),
{
    let r = vec![
        "he", "he ", "h", "hh", "a", "e", "o", "ha", "ha ", "la", "na", "lo", "xo", "-", "=",
        "*", ".", "!", "?", " ",
    ];
    proof {
        assert(r@ =~= repetition_list());
    }
    r
}

} // verus!
