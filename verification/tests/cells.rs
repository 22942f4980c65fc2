use jlang::{char_array, FloatItem, JArray, NdArray, Word};

fn ints(shape: Vec<usize>, data: Vec<i64>) -> Word {
    Word::Noun(JArray::IntArray { a: NdArray { shape, data } })
}

#[test]
fn cells_of_a_table_are_its_rows() {
    let t = ints(vec![2, 3], vec![1, 2, 3, 4, 5, 6]);
    assert_eq!(
        t.to_cells().unwrap(),
        vec![ints(vec![3], vec![1, 2, 3]), ints(vec![3], vec![4, 5, 6])]
    );
}

#[test]
fn cells_of_a_list_are_atoms() {
    let l = ints(vec![3], vec![7, 8, 9]);
    assert_eq!(
        l.to_cells().unwrap(),
        vec![ints(vec![], vec![7]), ints(vec![], vec![8]), ints(vec![], vec![9])]
    );
}

#[test]
fn cells_of_an_empty_list() {
    assert_eq!(ints(vec![0], vec![]).to_cells().unwrap(), vec![]);
}

#[test]
fn cells_of_characters() {
    let cells = char_array("ab").to_cells().unwrap();
    let atom = |c: char| Word::Noun(JArray::CharArray { a: NdArray { shape: vec![], data: vec![c] } });
    assert_eq!(cells, vec![atom('a'), atom('b')]);
}

#[test]
fn cells_of_floats() {
    let f = Word::Noun(JArray::FloatArray {
        a: NdArray {
            shape: vec![2, 1],
            data: vec![FloatItem::FromInt(1), FloatItem::Literal("2.5".chars().collect())],
        },
    });
    let cell = |x: FloatItem| Word::Noun(JArray::FloatArray { a: NdArray { shape: vec![1], data: vec![x] } });
    assert_eq!(
        f.to_cells().unwrap(),
        vec![cell(FloatItem::FromInt(1)), cell(FloatItem::Literal("2.5".chars().collect()))]
    );
}

#[test]
fn cells_of_booleans_and_extended_integers() {
    let b = Word::Noun(JArray::BoolArray { a: NdArray { shape: vec![2, 2], data: vec![1, 0, 0, 1] } });
    let row = |d: Vec<u8>| Word::Noun(JArray::BoolArray { a: NdArray { shape: vec![2], data: d } });
    assert_eq!(b.to_cells().unwrap(), vec![row(vec![1, 0]), row(vec![0, 1])]);
    let x = Word::Noun(JArray::ExtIntArray { a: NdArray { shape: vec![1, 2], data: vec![5, 6] } });
    let xrow = Word::Noun(JArray::ExtIntArray { a: NdArray { shape: vec![2], data: vec![5, 6] } });
    assert_eq!(x.to_cells().unwrap(), vec![xrow]);
}

#[test]
fn cells_partition_the_elements() {
    let data: Vec<i64> = (0..24).collect();
    let a = ints(vec![4, 3, 2], data.clone());
    let cells = a.to_cells().unwrap();
    assert_eq!(cells.len(), 4);
    let mut joined: Vec<i64> = Vec::new();
    for c in cells {
        match c {
            Word::Noun(JArray::IntArray { a }) => {
                assert_eq!(a.shape, vec![3, 2]);
                joined.extend(a.data);
            }
            other => panic!("not an integer noun: {:?}", other),
        }
    }
    assert_eq!(joined, data);
}
