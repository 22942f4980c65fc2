use jlang::{eval, scan, FloatItem, JArray, NdArray, VerbImpl, Word};

fn ints(shape: Vec<usize>, data: Vec<i64>) -> Word {
    Word::Noun(JArray::IntArray { a: NdArray { shape, data } })
}

fn run(sentence: &str) -> Word {
    eval(scan(sentence).unwrap()).unwrap()
}

#[test]
fn eval_single_noun() {
    assert_eq!(run("1 2 3"), ints(vec![3], vec![1, 2, 3]));
}

#[test]
fn eval_single_noun_from_words() {
    let n = ints(vec![2], vec![7, 8]);
    assert_eq!(eval(vec![ints(vec![2], vec![7, 8])]).unwrap(), n);
}

#[test]
fn eval_dyadic_plus() {
    assert_eq!(run("1 2 + 3 4"), ints(vec![2], vec![4, 6]));
}

#[test]
fn eval_dyadic_minus() {
    assert_eq!(run("10 20 - 1 2"), ints(vec![2], vec![9, 18]));
}

#[test]
fn eval_dyadic_times() {
    assert_eq!(run("2 3 * 4 5"), ints(vec![2], vec![8, 15]));
}

#[test]
fn eval_broadcasts_a_single_number() {
    assert_eq!(run("1 + 1 2 3"), ints(vec![3], vec![2, 3, 4]));
    assert_eq!(run("1 2 3 * 2"), ints(vec![3], vec![2, 4, 6]));
}

#[test]
fn eval_right_to_left() {
    // 2 * (3 + 4), not (2 * 3) + 4
    assert_eq!(run("2 * 3 + 4"), ints(vec![1], vec![14]));
    assert_eq!(run("1 + 2 + 3 + 4"), ints(vec![1], vec![10]));
}

#[test]
fn eval_monadic_tally() {
    assert_eq!(run("# 5 6 7"), ints(vec![1], vec![3]));
}

#[test]
fn eval_monadic_shape() {
    assert_eq!(run("$ 5 6 7"), ints(vec![1], vec![3]));
}

#[test]
fn eval_reshape() {
    assert_eq!(run("2 3 $ 1 2 3 4 5 6"), ints(vec![2, 3], vec![1, 2, 3, 4, 5, 6]));
}

#[test]
fn eval_shape_of_reshape() {
    assert_eq!(run("$ 2 3 $ 1 2 3 4 5 6"), ints(vec![2], vec![2, 3]));
}

#[test]
fn eval_tally_of_reshape_counts_items() {
    assert_eq!(run("# 2 3 $ 1 2 3 4 5 6"), ints(vec![1], vec![2]));
}

#[test]
fn eval_reshape_cycles() {
    assert_eq!(run("2 3 $ 1 2"), ints(vec![2, 3], vec![1, 2, 1, 2, 1, 2]));
}

#[test]
fn eval_monad_inside_dyad() {
    assert_eq!(run("1 + # 4 5 6"), ints(vec![1], vec![4]));
}

#[test]
fn eval_float_sum() {
    let expected = Word::Noun(JArray::FloatArray {
        a: NdArray {
            shape: vec![1],
            data: vec![FloatItem::Sum(
                Box::new(FloatItem::Literal("1.5".chars().collect())),
                Box::new(FloatItem::FromInt(2)),
            )],
        },
    });
    assert_eq!(run("1.5 + 2"), expected);
}

#[test]
fn eval_two_nouns_is_a_syntax_error() {
    let e = eval(scan("1 'a'").unwrap()).unwrap_err();
    assert_eq!(e.message(), "if you're happy and you know it, syntax error");
}

#[test]
fn eval_empty_sentence_is_a_syntax_error() {
    let e = eval(vec![]).unwrap_err();
    assert_eq!(e.message(), "if you're happy and you know it, syntax error");
}

#[test]
fn eval_lone_verb_is_left_as_it_is() {
    assert_eq!(run("+"), Word::Verb("+".to_string(), Box::new(VerbImpl::Plus)));
}

#[test]
fn eval_adverb_derives_a_verb() {
    let w = run("+/");
    match w {
        Word::Verb(name, v) => {
            assert_eq!(name, "+/");
            match *v {
                VerbImpl::DerivedVerb { u, m, a } => {
                    assert_eq!(u, Word::Verb("+".to_string(), Box::new(VerbImpl::Plus)));
                    assert_eq!(m, Word::Nothing);
                    assert_eq!(a, Word::Adverb("/".to_string(), jlang::AdverbImpl::Slash));
                }
                other => panic!("not a derived verb: {:?}", other),
            }
        }
        other => panic!("not a verb: {:?}", other),
    }
}

#[test]
fn eval_plus_commutes_on_examples() {
    assert_eq!(run("1 2 3 + 10"), run("10 + 1 2 3"));
    assert_eq!(run("_4 5 * 6 7"), run("6 7 * _4 5"));
}

#[test]
fn eval_gives_no_placeholder() {
    for sentence in ["1", "+", "1 + 2", "$ 1 2"] {
        let w = run(sentence);
        assert!(w != Word::StartOfLine && w != Word::Nothing);
    }
}
