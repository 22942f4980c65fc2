use jlang::{scan, AdverbImpl, FloatItem, JArray, NdArray, VerbImpl, Word};

fn ints(shape: Vec<usize>, data: Vec<i64>) -> Word {
    Word::Noun(JArray::IntArray { a: NdArray { shape, data } })
}

fn chars(s: &str) -> Word {
    let data: Vec<char> = s.chars().collect();
    Word::Noun(JArray::CharArray { a: NdArray { shape: vec![data.len()], data } })
}

fn literal(s: &str) -> FloatItem {
    FloatItem::Literal(s.chars().collect())
}

fn verb(name: &str, v: VerbImpl) -> Word {
    Word::Verb(name.to_string(), Box::new(v))
}

fn error_of(sentence: &str) -> String {
    match scan(sentence) {
        Ok(ws) => panic!("expected an error, got {:?}", ws),
        Err(e) => e.message().to_string(),
    }
}

#[test]
fn scan_integer_list() {
    assert_eq!(scan("1 2 3").unwrap(), vec![ints(vec![3], vec![1, 2, 3])]);
}

#[test]
fn scan_single_integer_is_a_list_of_one() {
    assert_eq!(scan("42").unwrap(), vec![ints(vec![1], vec![42])]);
}

#[test]
fn scan_negative_numbers_use_underscore() {
    assert_eq!(scan("_5 3 _17").unwrap(), vec![ints(vec![3], vec![-5, 3, -17])]);
}

#[test]
fn scan_float_literals() {
    let expected = Word::Noun(JArray::FloatArray {
        a: NdArray { shape: vec![2], data: vec![literal("1.5"), literal("-2e3")] },
    });
    assert_eq!(scan("1.5 _2e3").unwrap(), vec![expected]);
}

#[test]
fn scan_complex_numbers_are_refused() {
    assert_eq!(error_of("1j2"), "complex numbers not supported yet");
}

#[test]
fn scan_rational_numbers_are_refused() {
    assert_eq!(error_of("1r2"), "rational numbers not supported yet");
}

#[test]
fn scan_bad_integer() {
    assert_eq!(error_of("1_2"), "parse int error");
}

#[test]
fn scan_bad_float() {
    assert_eq!(error_of("1.2.3"), "parse float error");
}

#[test]
fn scan_string_literal() {
    assert_eq!(scan("'hello world'").unwrap(), vec![chars("hello world")]);
}

#[test]
fn scan_string_literal_with_doubled_quote() {
    assert_eq!(scan("'it''s'").unwrap(), vec![chars("it's")]);
}

#[test]
fn scan_empty_string_literal() {
    assert_eq!(scan("''").unwrap(), vec![chars("")]);
}

#[test]
fn scan_string_then_more_words() {
    assert_eq!(
        scan("'ab' , 'cd'").unwrap(),
        vec![chars("ab"), verb(",", VerbImpl::NotImplemented), chars("cd")]
    );
}

#[test]
fn scan_open_quote() {
    assert_eq!(error_of("'abc\n"), "open quote");
}

#[test]
fn scan_string_unclosed_at_end() {
    assert_eq!(error_of("'ab"), "open quote");
    assert_eq!(error_of(" 'ab "), "open quote");
    assert_eq!(error_of("1 'it''s"), "open quote");
}

#[test]
fn scan_blanks_around_a_sentence_change_nothing() {
    for s in ["'ab'", "1 2 + 3", "abc =: i. 3", "(+/ 1)"] {
        assert_eq!(scan(&format!(" {} ", s)).unwrap(), scan(s).unwrap());
    }
}

#[test]
fn scan_string_followed_by_text() {
    assert_eq!(
        scan("'it''s'+1").unwrap(),
        vec![chars("it's"), verb("+", VerbImpl::Plus), ints(vec![1], vec![1])]
    );
}

#[test]
fn scan_lone_quote() {
    assert_eq!(error_of("'"), "Empty literal string");
}

#[test]
fn scan_name() {
    assert_eq!(scan("abc_1").unwrap(), vec![Word::Name("abc_1".to_string())]);
    assert_eq!(
        scan("ab1 x").unwrap(),
        vec![Word::Name("ab1".to_string()), Word::Name("x".to_string())]
    );
}

#[test]
fn scan_plain_name() {
    assert_eq!(scan("foo").unwrap(), vec![Word::Name("foo".to_string())]);
}

#[test]
fn scan_primitive_spelled_with_letters() {
    assert_eq!(scan("i.").unwrap(), vec![verb("i.", VerbImpl::NotImplemented)]);
}

#[test]
fn scan_primitive_nouns_spell_themselves() {
    assert_eq!(scan("a.").unwrap(), vec![chars("a.")]);
}

#[test]
fn scan_verbs_and_adverbs() {
    assert_eq!(
        scan("+/").unwrap(),
        vec![verb("+", VerbImpl::Plus), Word::Adverb("/".to_string(), AdverbImpl::Slash)]
    );
}

#[test]
fn scan_conjunction() {
    assert_eq!(scan("@:").unwrap(), vec![Word::Conjunction("@:".to_string())]);
}

#[test]
fn scan_assignment() {
    assert_eq!(
        scan("a =: 1").unwrap(),
        vec![Word::Name("a".to_string()), Word::IsGlobal, ints(vec![1], vec![1])]
    );
    assert_eq!(
        scan("b =. 2").unwrap(),
        vec![Word::Name("b".to_string()), Word::IsLocal, ints(vec![1], vec![2])]
    );
}

#[test]
fn scan_parentheses() {
    assert_eq!(
        scan("(1 2)").unwrap(),
        vec![Word::LP, ints(vec![2], vec![1, 2]), Word::RP]
    );
}

#[test]
fn scan_invalid_primitive() {
    assert_eq!(error_of("{{{"), "Invalid primitive");
}

#[test]
fn scan_blank_sentence() {
    assert_eq!(scan("  \t ").unwrap(), vec![]);
}

#[test]
fn scan_dyadic_sentence() {
    assert_eq!(
        scan("1 2 + 3 4").unwrap(),
        vec![ints(vec![2], vec![1, 2]), verb("+", VerbImpl::Plus), ints(vec![2], vec![3, 4])]
    );
}

#[test]
fn scan_round_trips_quoted_strings() {
    for s in ["", "a", "''", "don't", "'quoted'", "x y z"] {
        let literal = format!("'{}'", s.replace('\'', "''"));
        assert_eq!(scan(&literal).unwrap(), vec![chars(s)]);
    }
}

#[test]
fn scan_gives_no_placeholders() {
    for sentence in ["1 2 + 3", "+/ i. 10", "'a' , 'b'", "x =: 3 $ 1", "(# 1 2)"] {
        for w in scan(sentence).unwrap() {
            assert!(w != Word::StartOfLine && w != Word::Nothing);
        }
    }
}

#[test]
fn scan_positions_after_non_ascii_text() {
    // Each word is scanned from the byte offset equal to its character position.
    assert_eq!(scan("'é' 1").unwrap(), vec![chars("é"), ints(vec![1], vec![1])]);
}

#[test]
fn scan_words_clone_equal() {
    let ws = scan("1 2 + 'x'").unwrap();
    let copies: Vec<Word> = ws.iter().map(|w| w.clone()).collect();
    assert_eq!(ws, copies);
}
