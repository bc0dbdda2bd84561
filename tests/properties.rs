use byte_size::codec::{CUSTOM_BASE, NUMBER_BASE, REPETITION_BASE};
use byte_size::iterator::CodeIterator;
use byte_size::matcher::spaceless_match;
use byte_size::{compress, decompress, Builder, CodeType, Error};

fn tokens(s: &str, b: &Builder) -> (Vec<CodeType>, Vec<usize>) {
    let e = b.engine();
    let mut it = CodeIterator::new(s, &e);
    let mut out = Vec::new();
    let mut lens = Vec::new();
    loop {
        let before = it.main.len();
        match it.next() {
            Some(t) => {
                out.push(t);
                lens.push(before - it.main.len());
            }
            None => break,
        }
    }
    (out, lens)
}

#[test]
fn round_trip_various() {
    let samples = [
        "",
        "a",
        " ",
        "hello, world",
        "0000123",
        "73786976294838206463",
        "73786976294838206464",
        "tab\there\r\nnew\nline\x7f\x00",
        "日本語のテキスト and 😀 emoji",
        "http://https://.com C:\\ .co.uk",
        "        ",
        "aaaaaaaaaaaaaaaaaaaaaaaaaaaaaaaaaaaaaaaaaaaaaaaaaaaaaaaaaaaaaaaaaaaaaaaaaaa",
    ];
    for s in samples.iter() {
        assert_eq!(decompress(&compress(s)).unwrap(), *s);
        let b = Builder::empty();
        let e = b.engine();
        assert_eq!(e.decompress(&e.compress(s)).unwrap(), *s);
    }
    let mut all = String::new();
    for b in 0u8..128 {
        all.push(b as char);
    }
    assert_eq!(decompress(&compress(&all)).unwrap(), all);
}

#[test]
fn round_trip_custom_spaces() {
    let mut b = Builder::empty();
    b.set_custom_spaces(true).push_custom("alpha").push_custom("beta");
    let e = b.engine();
    let s = "alpha beta alphabeta  beta";
    assert_eq!(e.decompress(&e.compress(s)).unwrap(), s);
}

#[test]
fn token_coverage() {
    let s = "The quick brown fox 1234567 hehehehe ❤ \x01 done";
    let (toks, lens) = tokens(s, &Builder::default());
    assert_eq!(toks.len(), lens.len());
    assert!(lens.iter().all(|n| *n >= 1));
    assert_eq!(lens.iter().sum::<usize>(), s.len());
}

#[test]
fn numbers_in_range() {
    let (toks, _) = tokens("73786976294838206463", &Builder::empty());
    assert_eq!(toks, vec![CodeType::Number(73786976294838206463)]);
    let (toks, _) = tokens("73786976294838206464", &Builder::empty());
    assert!(!toks.iter().any(|t| *t == CodeType::Number(73786976294838206464)));
    let (toks, lens) = tokens("01000", &Builder::empty());
    assert_eq!(toks, vec![CodeType::OneByteWonder(48), CodeType::Number(1000)]);
    assert_eq!(lens, vec![1, 4]);
    let (toks, _) = tokens("0999", &Builder::empty());
    assert!(!toks.iter().any(|t| matches!(t, CodeType::Number(_))));
    let (toks, _) = tokens("999 1000", &Builder::empty());
    assert!(toks.contains(&CodeType::Number(1000)));
    assert!(!toks.iter().any(|t| matches!(t, CodeType::Number(999))));
}

#[test]
fn repetition_minimum() {
    let (toks, _) = tokens("hahaha", &Builder::empty());
    assert!(!toks.iter().any(|t| matches!(t, CodeType::Repetitions(_, _))));
    let (toks, lens) = tokens("hahahaha", &Builder::empty());
    assert_eq!(toks.len(), 1);
    assert!(matches!(toks[0], CodeType::Repetitions(4, _)));
    assert_eq!(lens, vec![8]);
    let long = "-".repeat(40);
    let (toks, _) = tokens(&long, &Builder::empty());
    assert!(matches!(toks[0], CodeType::Repetitions(31, _)));
    assert_eq!(decompress(&compress(&long)).unwrap(), long);
}

#[test]
fn malformed_input() {
    for b in 241u8..=255 {
        assert_eq!(decompress(&[b]), Err(Error::UnexpectedEndOfBytes));
    }
    assert_eq!(decompress(&[240]), Err(Error::UnexpectedEndOfBytes));
    assert_eq!(decompress(&[240, 0xE2]), Err(Error::UnexpectedEndOfBytes));
    assert_eq!(decompress(&[240, 0x80]), Err(Error::InvalidUnicodeChar));
    assert_eq!(decompress(&[240, 0xC0]), Err(Error::InvalidUnicodeChar));
    assert_eq!(decompress(&[240, 0xC1, 0x81]), Err(Error::InvalidUnicodeChar));
    assert_eq!(decompress(&[240, 0xF5]), Err(Error::InvalidUnicodeChar));
    assert_eq!(decompress(&[240, 0xF0, 0x9F]), Err(Error::UnexpectedEndOfBytes));
    assert_eq!(decompress(&[240, 0xED, 0xA0, 0x80]), Err(Error::InvalidUnicodeChar));
    let rep_first = (REPETITION_BASE / 256 + 241) as u8;
    let rep_second = (REPETITION_BASE % 256) as u8;
    assert_eq!(decompress(&[rep_first, rep_second]), Err(Error::UnexpectedEndOfBytes));
    let num_first = (NUMBER_BASE / 256 + 241) as u8;
    let num_second = (NUMBER_BASE % 256 + 7) as u8;
    assert_eq!(decompress(&[num_first, num_second, 1, 2, 3]), Err(Error::UnexpectedEndOfBytes));
}

#[test]
fn format_errors() {
    let e = Builder::empty().engine();
    let first = (CUSTOM_BASE / 256 + 241) as u8;
    let second = (CUSTOM_BASE % 256) as u8;
    assert_eq!(e.decompress(&[first, second]), Err(Error::Format));
    let rep_first = (REPETITION_BASE / 256 + 241) as u8;
    let rep_second = (REPETITION_BASE % 256 + 5) as u8;
    assert_eq!(e.decompress(&[rep_first, rep_second, 200]), Err(Error::Format));
    assert_eq!(Error::Format.message(), "Error converting IR to string");
}

#[test]
fn literal_scenarios() {
    assert_eq!(compress("\x01").len(), 2);
    let n = compress("1000");
    assert_eq!(n, vec![(NUMBER_BASE / 256 + 241) as u8, (NUMBER_BASE % 256) as u8, 250]);
    assert_eq!(compress("999"), vec![b'9', b'9', b'9']);
    assert_eq!(compress("\u{2764}"), vec![240, 0xE2, 0x9D, 0xA4]);
    assert_eq!(compress("the").len(), 1);
    assert_eq!(compress("the"), vec![0]);
}

#[test]
fn number_codes() {
    for v in [0u128, 3, 4, 1000, 255 * 4 + 3, 1 << 40, (1u128 << 66) - 1] {
        let mut bytes = Vec::new();
        CodeType::Number(v).serialize_into(&mut bytes, false);
        let expected_tail = {
            let mut r = v >> 2;
            let mut t = vec![(r % 256) as u8];
            r >>= 8;
            while r != 0 {
                t.push((r % 256) as u8);
                r >>= 8;
            }
            t
        };
        assert_eq!(bytes.len(), 2 + expected_tail.len());
        assert_eq!(&bytes[2..], expected_tail.as_slice());
        assert_eq!(CodeType::deserialize_from(&bytes, 0, false), Ok((CodeType::Number(v), bytes.len())));
    }
}

#[test]
fn codes_read_back() {
    let samples = [
        CodeType::OneByteWonder(7),
        CodeType::TwoByteCommon(true, 5),
        CodeType::ThreeByteUncommon(true, 3),
        CodeType::ThreeByteUncommon(false, 21),
        CodeType::UnicodeChar('😀'),
        CodeType::Unprintable(29),
        CodeType::Repetitions(31, 255),
        CodeType::Custom(true, 15),
    ];
    for t in samples.iter() {
        let mut bytes = vec![1, 2];
        t.serialize_into(&mut bytes, true);
        assert_eq!(CodeType::deserialize_from(&bytes, 2, true), Ok((*t, bytes.len() - 2)));
    }
}

#[test]
fn builder_settings() {
    let mut b = Builder::default();
    assert_eq!(b.len_custom(), 7);
    b.push_custom("x");
    assert_eq!(b.len_custom(), 8);
    b.clear_custom();
    assert_eq!(b.len_custom(), 0);
    b.set_custom(vec!["a", "b", "c"]);
    assert_eq!(b.len_custom(), 3);
    let e = b.engine();
    assert_eq!(e.compress("b"), vec![(CUSTOM_BASE / 256 + 241) as u8, (CUSTOM_BASE % 256 + 1) as u8]);
    assert_eq!(b.decompress(&b.compress("abc cab")).unwrap(), "abc cab");
}

#[test]
fn custom_words_beyond_the_limit() {
    let mut b = Builder::empty();
    let words: Vec<&'static str> = vec!["w"; 32];
    b.set_custom(words).push_custom("zzzz");
    let e = b.engine();
    assert!(!e.compress("zzzz").starts_with(&[(CUSTOM_BASE / 256 + 241) as u8, (CUSTOM_BASE % 256 + 32) as u8]));
    assert_eq!(e.decompress(&e.compress("zzzz")).unwrap(), "zzzz");
}

#[test]
fn matcher_and_digits() {
    assert!(spaceless_match(b"hello", b"he"));
    assert!(!spaceless_match(b"he", b"hello"));
    assert!(spaceless_match(b"abc", b""));
    assert!(CodeIterator::is_digit(b'0'));
    assert!(CodeIterator::is_digit(b'9'));
    assert!(!CodeIterator::is_digit(b'a'));
}

#[test]
fn empty_custom_word() {
    let mut b = Builder::empty();
    b.set_custom_spaces(true).push_custom("");
    let (toks, lens) = tokens(" a", &b);
    assert_eq!(toks[0], CodeType::Custom(true, 0));
    assert_eq!(lens, vec![1, 1]);
    let e = b.engine();
    assert_eq!(e.decompress(&e.compress(" a b")).unwrap(), " a b");

    let mut b = Builder::empty();
    b.push_custom("");
    let (toks, _) = tokens("ab", &b);
    assert!(!toks.iter().any(|t| matches!(t, CodeType::Custom(_, _))));
    let e = b.engine();
    assert_eq!(e.decompress(&e.compress("ab")).unwrap(), "ab");
}
