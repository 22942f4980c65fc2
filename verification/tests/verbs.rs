use jlang::{
    char_array, int_array, v_dollar, v_minus, v_not_implemented, v_number, v_plus, v_times,
    AdverbImpl, FloatItem, JArray, NdArray, VerbImpl, Word,
};

fn ints(shape: Vec<usize>, data: Vec<i64>) -> Word {
    Word::Noun(JArray::IntArray { a: NdArray { shape, data } })
}

fn bools(shape: Vec<usize>, data: Vec<u8>) -> Word {
    Word::Noun(JArray::BoolArray { a: NdArray { shape, data } })
}

fn ext(shape: Vec<usize>, data: Vec<i128>) -> Word {
    Word::Noun(JArray::ExtIntArray { a: NdArray { shape, data } })
}

fn message(r: Result<Word, jlang::JError>) -> String {
    r.unwrap_err().message().to_string()
}

#[test]
fn int_array_is_a_list() {
    assert_eq!(int_array(vec![4, 5]).unwrap(), ints(vec![2], vec![4, 5]));
    assert_eq!(int_array(vec![]).unwrap(), ints(vec![0], vec![]));
}

#[test]
fn char_array_is_a_list_of_characters() {
    let expected = Word::Noun(JArray::CharArray {
        a: NdArray { shape: vec![3], data: vec!['a', 'é', 'c'] },
    });
    assert_eq!(char_array("aéc"), expected);
}

#[test]
fn plus_adds_elementwise() {
    let r = v_plus(Some(&ints(vec![3], vec![1, 2, 3])), &ints(vec![3], vec![10, 20, 30]));
    assert_eq!(r.unwrap(), ints(vec![3], vec![11, 22, 33]));
}

#[test]
fn plus_broadcasts_a_column_against_a_row() {
    let col = ints(vec![2, 1], vec![10, 20]);
    let row = ints(vec![3], vec![1, 2, 3]);
    let r = v_plus(Some(&col), &row).unwrap();
    assert_eq!(r, ints(vec![2, 3], vec![11, 12, 13, 21, 22, 23]));
}

#[test]
fn plus_promotes_booleans_to_integers() {
    let r = v_plus(Some(&bools(vec![2], vec![1, 0])), &bools(vec![2], vec![1, 1])).unwrap();
    assert_eq!(r, ints(vec![2], vec![2, 1]));
    let r = v_plus(Some(&bools(vec![2], vec![1, 0])), &ints(vec![2], vec![5, 6])).unwrap();
    assert_eq!(r, ints(vec![2], vec![6, 6]));
}

#[test]
fn plus_promotes_integers_to_floating_point() {
    let f = Word::Noun(JArray::FloatArray {
        a: NdArray { shape: vec![1], data: vec![FloatItem::Literal("0.5".chars().collect())] },
    });
    let r = v_plus(Some(&ints(vec![1], vec![3])), &f).unwrap();
    let expected = Word::Noun(JArray::FloatArray {
        a: NdArray {
            shape: vec![1],
            data: vec![FloatItem::Sum(
                Box::new(FloatItem::FromInt(3)),
                Box::new(FloatItem::Literal("0.5".chars().collect())),
            )],
        },
    });
    assert_eq!(r, expected);
}

#[test]
fn plus_on_extended_integers() {
    let r = v_plus(Some(&ext(vec![2], vec![1 << 70, 1])), &ext(vec![2], vec![1, 2])).unwrap();
    assert_eq!(r, ext(vec![2], vec![(1 << 70) + 1, 3]));
}

#[test]
fn plus_errors() {
    assert_eq!(message(v_plus(None, &ints(vec![1], vec![1]))), "monadic + not implemented yet");
    assert_eq!(
        message(v_plus(Some(&ints(vec![1], vec![1])), &char_array("a"))),
        "domain error"
    );
    assert_eq!(
        message(v_plus(Some(&Word::Name("x".to_string())), &ints(vec![1], vec![1]))),
        "plus not supported for these types yet"
    );
}

#[test]
fn plus_commutes() {
    let x = ints(vec![2, 1], vec![1, 2]);
    let y = bools(vec![3], vec![1, 0, 1]);
    assert_eq!(v_plus(Some(&x), &y).unwrap(), v_plus(Some(&y), &x).unwrap());
}

#[test]
fn minus_subtracts() {
    let r = v_minus(Some(&ints(vec![2], vec![5, 5])), &ints(vec![2], vec![1, 7])).unwrap();
    assert_eq!(r, ints(vec![2], vec![4, -2]));
}

#[test]
fn minus_errors() {
    assert_eq!(message(v_minus(None, &ints(vec![1], vec![1]))), "monadic - not implemented yet");
    assert_eq!(
        message(v_minus(Some(&bools(vec![1], vec![1])), &ints(vec![1], vec![1]))),
        "minus not supported for these types yet"
    );
}

#[test]
fn times_multiplies() {
    let r = v_times(Some(&ints(vec![2], vec![3, -4])), &ints(vec![2], vec![5, 6])).unwrap();
    assert_eq!(r, ints(vec![2], vec![15, -24]));
}

#[test]
fn times_errors() {
    assert_eq!(message(v_times(None, &ints(vec![1], vec![1]))), "monadic * not implemented yet");
    assert_eq!(
        message(v_times(Some(&char_array("a")), &ints(vec![1], vec![1]))),
        "times not supported for these types yet"
    );
}

#[test]
fn times_commutes() {
    let x = ints(vec![3], vec![2, 3, 4]);
    let y = ints(vec![1], vec![-5]);
    assert_eq!(v_times(Some(&x), &y).unwrap(), v_times(Some(&y), &x).unwrap());
}

#[test]
fn tally_counts_items() {
    assert_eq!(v_number(None, &ints(vec![2, 3], vec![0; 6])).unwrap(), ints(vec![1], vec![2]));
    assert_eq!(v_number(None, &char_array("hello")).unwrap(), ints(vec![1], vec![5]));
    assert_eq!(v_number(None, &ints(vec![], vec![7])).unwrap(), ints(vec![1], vec![1]));
    assert_eq!(v_number(None, &ints(vec![0, 4], vec![])).unwrap(), ints(vec![1], vec![0]));
}

#[test]
fn tally_is_first_axis_and_number_of_cells() {
    let a = ints(vec![2, 3, 4], vec![1; 24]);
    let shape = v_dollar(None, &a).unwrap();
    let tally = v_number(None, &a).unwrap();
    let first: i64 = match shape {
        Word::Noun(JArray::IntArray { a }) => a.data[0],
        other => panic!("not an integer noun: {:?}", other),
    };
    assert_eq!(tally, ints(vec![1], vec![first]));
    assert_eq!(tally, ints(vec![1], vec![a.to_cells().unwrap().len() as i64]));
}

#[test]
fn number_errors() {
    assert_eq!(
        message(v_number(Some(&ints(vec![1], vec![1])), &ints(vec![1], vec![1]))),
        "dyadic # not implemented yet"
    );
    assert_eq!(message(v_number(None, &Word::LP)), "domain error");
}

#[test]
fn shape_of() {
    assert_eq!(v_dollar(None, &ints(vec![2, 3], vec![0; 6])).unwrap(), ints(vec![2], vec![2, 3]));
    assert_eq!(v_dollar(None, &bools(vec![0], vec![])).unwrap(), ints(vec![1], vec![0]));
}

#[test]
fn reshape_keeps_elements_in_order() {
    let r = v_dollar(Some(&ints(vec![2], vec![3, 2])), &ints(vec![6], vec![1, 2, 3, 4, 5, 6]));
    assert_eq!(r.unwrap(), ints(vec![3, 2], vec![1, 2, 3, 4, 5, 6]));
}

#[test]
fn shape_of_reshape_is_the_new_shape() {
    let x = ints(vec![3], vec![2, 1, 3]);
    let r = v_dollar(Some(&x), &ints(vec![6], vec![6, 5, 4, 3, 2, 1])).unwrap();
    assert_eq!(v_dollar(None, &r).unwrap(), ints(vec![3], vec![2, 1, 3]));
}

#[test]
fn reshape_cycles_the_elements() {
    let r = v_dollar(Some(&ints(vec![2], vec![2, 3])), &ints(vec![2], vec![1, 2])).unwrap();
    assert_eq!(r, ints(vec![2, 3], vec![1, 2, 1, 2, 1, 2]));
}

#[test]
fn reshape_cycles_items_of_a_table() {
    let t = ints(vec![2, 2], vec![1, 2, 3, 4]);
    let r = v_dollar(Some(&ints(vec![1], vec![3])), &t).unwrap();
    assert_eq!(r, ints(vec![3, 2], vec![1, 2, 3, 4, 1, 2]));
}

#[test]
fn reshape_of_an_atom_repeats_it() {
    let r = v_dollar(Some(&ints(vec![2], vec![2, 2])), &ints(vec![], vec![9])).unwrap();
    assert_eq!(r, ints(vec![2, 2], vec![9, 9, 9, 9]));
}

#[test]
fn reshape_other_element_types() {
    let r = v_dollar(Some(&ints(vec![1], vec![5])), &char_array("ab")).unwrap();
    assert_eq!(r, char_array("ababa"));
    let r = v_dollar(Some(&ints(vec![1], vec![3])), &bools(vec![2], vec![1, 0])).unwrap();
    assert_eq!(r, bools(vec![3], vec![1, 0, 1]));
    let r = v_dollar(Some(&ints(vec![1], vec![1])), &ext(vec![2], vec![7, 8])).unwrap();
    assert_eq!(r, ext(vec![1], vec![7]));
    let f = Word::Noun(JArray::FloatArray {
        a: NdArray { shape: vec![1], data: vec![FloatItem::Literal("1.5".chars().collect())] },
    });
    let r = v_dollar(Some(&ints(vec![1], vec![2])), &f).unwrap();
    let expected = Word::Noun(JArray::FloatArray {
        a: NdArray {
            shape: vec![2],
            data: vec![
                FloatItem::Literal("1.5".chars().collect()),
                FloatItem::Literal("1.5".chars().collect()),
            ],
        },
    });
    assert_eq!(r, expected);
}

#[test]
fn reshape_of_an_empty_list_uses_fill() {
    let r = v_dollar(Some(&ints(vec![1], vec![3])), &ints(vec![0], vec![])).unwrap();
    assert_eq!(r, ints(vec![3], vec![0, 0, 0]));
    let r = v_dollar(Some(&ints(vec![1], vec![2])), &char_array("")).unwrap();
    assert_eq!(r, char_array("  "));
}

#[test]
fn reshape_to_an_empty_shape() {
    let r = v_dollar(Some(&ints(vec![0], vec![])), &ints(vec![3], vec![4, 5, 6])).unwrap();
    assert_eq!(r, ints(vec![], vec![4]));
}

#[test]
fn reshape_errors() {
    assert_eq!(
        message(v_dollar(Some(&ints(vec![2], vec![2, -1])), &ints(vec![1], vec![1]))),
        "domain error"
    );
    assert_eq!(
        message(v_dollar(Some(&ints(vec![2], vec![i64::MAX, 2])), &ints(vec![1], vec![1]))),
        "limit error"
    );
    assert_eq!(
        message(v_dollar(
            Some(&ints(vec![2], vec![1 << 40, 1 << 40])),
            &ints(vec![1], vec![1])
        )),
        "limit error"
    );
}

#[test]
fn dollar_errors() {
    assert_eq!(message(v_dollar(None, &Word::RP)), "domain error");
    assert_eq!(
        message(v_dollar(Some(&char_array("ab")), &ints(vec![1], vec![1]))),
        "domain error"
    );
    assert_eq!(
        message(v_dollar(Some(&ints(vec![1], vec![1])), &Word::IsGlobal)),
        "domain error"
    );
}

#[test]
fn not_implemented_verb() {
    assert_eq!(message(v_not_implemented(None, &ints(vec![1], vec![1]))), "verb not implemented yet");
}

#[test]
fn exec_dispatches_to_the_verb() {
    let r = VerbImpl::Plus.exec(Some(&ints(vec![1], vec![2])), &ints(vec![1], vec![3]));
    assert_eq!(r.unwrap(), ints(vec![1], vec![5]));
    let r = VerbImpl::Dollar.exec(None, &ints(vec![4], vec![0; 4]));
    assert_eq!(r.unwrap(), ints(vec![1], vec![4]));
}

#[test]
fn derived_verbs_report_unimplemented_adverbs() {
    let derived = VerbImpl::DerivedVerb {
        u: Word::Verb("+".to_string(), Box::new(VerbImpl::Plus)),
        m: Word::Nothing,
        a: Word::Adverb("/".to_string(), AdverbImpl::Slash),
    };
    assert_eq!(
        message(derived.exec(None, &ints(vec![3], vec![1, 2, 3]))),
        "adverb not implemented yet"
    );
    let from_noun = VerbImpl::DerivedVerb {
        u: Word::Nothing,
        m: ints(vec![1], vec![1]),
        a: Word::Adverb("}".to_string(), AdverbImpl::CurlyRt),
    };
    assert_eq!(
        message(from_noun.exec(None, &ints(vec![1], vec![1]))),
        "adverb not implemented yet"
    );
}

#[test]
fn promotion_changes_precision_not_shape() {
    let b = JArray::BoolArray { a: NdArray { shape: vec![2, 1], data: vec![1, 0] } };
    let i = JArray::IntArray { a: NdArray { shape: vec![3], data: vec![4, 5, 6] } };
    let (pb, pi) = jlang::verbs::promotion(&b, &i).unwrap();
    assert_eq!(pb, JArray::IntArray { a: NdArray { shape: vec![2, 1], data: vec![1, 0] } });
    assert_eq!(pi, i);
    let f = JArray::FloatArray { a: NdArray { shape: vec![1], data: vec![FloatItem::FromInt(9)] } };
    let (pi2, pf) = jlang::verbs::promotion(&i, &f).unwrap();
    assert_eq!(
        pi2,
        JArray::FloatArray {
            a: NdArray {
                shape: vec![3],
                data: vec![FloatItem::FromInt(4), FloatItem::FromInt(5), FloatItem::FromInt(6)],
            },
        }
    );
    assert_eq!(pf, f);
    let c = JArray::CharArray { a: NdArray { shape: vec![1], data: vec!['z'] } };
    let (pc, pi3) = jlang::verbs::promotion(&c, &i).unwrap();
    assert_eq!(pc, c);
    assert_eq!(pi3, i);
}
