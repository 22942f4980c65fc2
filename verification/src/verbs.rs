//! The primitive verbs (`+ - * # $`), the promotion of argument precisions, and
//! the execution of verbs and adverbs.
use vstd::prelude::*;
use crate::array::{
    NdArray, NdView, bcast_index, bcast_shape, lemma_size_le_nonzero, shape_fits, shape_size,
    shape_size_checked, vector_view, zip_positions, zip_view,
};
use crate::word::{
    AdverbImpl, ArrayV, FloatItem, FloatV, JArray, JError, Outcome, VerbImpl, VerbV, Word, WordV,
    float_items_view, float_nd, int_array, int_vector_word, verb_wf, word_result_is, word_wf,
};

verus! {

// ---------------------------------------------------------------------------------------
// Elementwise arithmetic (ndarray's `+`, `-` and `*` on owned arrays)
// ---------------------------------------------------------------------------------------

/// The integer operations that the verbs apply elementwise.
#[derive(Copy, Clone, Debug, PartialEq, Eq, Structural)]
pub enum IntOp {
    Add,
    Sub,
    Mul,
}

pub open spec fn int_op_value(op: IntOp, a: int, b: int) -> int {
    match op {
        IntOp::Add => a + b,
        IntOp::Sub => a - b,
        IntOp::Mul => a * b,
    }
}

/// `x op y` on integer arrays: elementwise with broadcasting. ndarray panics when the
/// shapes do not broadcast together, and `i64` arithmetic panics when a result overflows.
pub open spec fn int_zip(op: IntOp, x: NdView<i64>, y: NdView<i64>) -> Outcome<NdView<i64>> {
    match zip_view(x, y) {
        None => Outcome::Abort,
        Some(z) => if forall|k: int|
            0 <= k < z.data.len() ==> i64::MIN <= #[trigger] int_op_value(
                op,
                z.data[k].0 as int,
                z.data[k].1 as int,
            ) <= i64::MAX {
            Outcome::Value(
                NdView {
                    shape: z.shape,
                    data: z.data.map_values(
                        |p: (i64, i64)| int_op_value(op, p.0 as int, p.1 as int) as i64,
                    ),
                },
            )
        } else {
            Outcome::Abort
        },
    }
}

/// `x + y` on extended-integer (`i128`) arrays.
pub open spec fn ext_add(x: NdView<i128>, y: NdView<i128>) -> Outcome<NdView<i128>> {
    match zip_view(x, y) {
        None => Outcome::Abort,
        Some(z) => if forall|k: int|
            0 <= k < z.data.len() ==> i128::MIN <= #[trigger] (z.data[k].0 + z.data[k].1)
                <= i128::MAX {
            Outcome::Value(
                NdView {
                    shape: z.shape,
                    data: z.data.map_values(|p: (i128, i128)| (p.0 + p.1) as i128),
                },
            )
        } else {
            Outcome::Abort
        },
    }
}

/// `x + y` on floating-point arrays: each element is the sum of the two elements that
/// broadcasting pairs up.
pub open spec fn float_add(x: NdView<FloatV>, y: NdView<FloatV>) -> Outcome<NdView<FloatV>> {
    match zip_view(x, y) {
        None => Outcome::Abort,
        Some(z) => Outcome::Value(
            NdView {
                shape: z.shape,
                data: z.data.map_values(
                    |p: (FloatV, FloatV)| FloatV::Sum(Box::new(p.0), Box::new(p.1)),
                ),
            },
        ),
    }
}

fn apply_int_op(op: IntOp, a: i64, b: i64) -> (r: i64)
    requires
        i64::MIN <= int_op_value(op, a as int, b as int) <= i64::MAX,
    ensures
        r == int_op_value(op, a as int, b as int),
{
    match op {
        IntOp::Add => a + b,
        IntOp::Sub => a - b,
        IntOp::Mul => a * b,
    }
}

/// `x op y` on integer arrays.
pub fn zip_int(op: IntOp, x: &NdArray<i64>, y: &NdArray<i64>) -> (r: NdArray<i64>)
    requires
        x.wf(),
        y.wf(),
        int_zip(op, x@, y@) is Value,
    ensures
        int_zip(op, x@, y@) == Outcome::Value(r@),
        r.wf(),
{
    let (t, px, py) = match zip_positions(&x.shape, &y.shape) {
        Some(z) => z,
        None => {
            return NdArray { shape: Vec::new(), data: Vec::new() };  // unreachable: the shapes broadcast
        },
    };
    let ghost z = zip_view(x@, y@)->0;
    let mut data: Vec<i64> = Vec::new();
    let mut k: usize = 0;
    while k < px.len()
        invariant
            k <= px@.len(),
            px@.len() == py@.len(),
            z == zip_view(x@, y@)->0,
            z.shape == t@,
            z.data.len() == px@.len(),
            x.wf(),
            y.wf(),
            int_zip(op, x@, y@) is Value,
            forall|u: int|
                0 <= u < px@.len() ==> {
                    &&& px@[u] == bcast_index(x@.shape, y@.shape, t@, u)
                    &&& py@[u] == bcast_index(y@.shape, x@.shape, t@, u)
                    &&& px@[u] < shape_size(x@.shape)
                    &&& py@[u] < shape_size(y@.shape)
                },
            data@ =~= z.data.take(k as int).map_values(
                |p: (i64, i64)| int_op_value(op, p.0 as int, p.1 as int) as i64,
            ),
        decreases px.len() - k,
    {
        let a = x.data[px[k]];
        let b = y.data[py[k]];
        assert(z.data[k as int] == (a, b));
        assert(i64::MIN <= int_op_value(op, z.data[k as int].0 as int, z.data[k as int].1 as int)
            <= i64::MAX);
        let v = apply_int_op(op, a, b);
        data.push(v);
        assert(z.data.take(k + 1) =~= z.data.take(k as int).push(z.data[k as int]));
        k = k + 1;
    }
    assert(z.data.take(px.len() as int) =~= z.data);
    NdArray { shape: t, data }
}

/// `x + y` on extended-integer arrays.
pub fn zip_ext_add(x: &NdArray<i128>, y: &NdArray<i128>) -> (r: NdArray<i128>)
    requires
        x.wf(),
        y.wf(),
        ext_add(x@, y@) is Value,
    ensures
        ext_add(x@, y@) == Outcome::Value(r@),
        r.wf(),
{
    let (t, px, py) = match zip_positions(&x.shape, &y.shape) {
        Some(z) => z,
        None => {
            return NdArray { shape: Vec::new(), data: Vec::new() };  // unreachable: the shapes broadcast
        },
    };
    let ghost z = zip_view(x@, y@)->0;
    let mut data: Vec<i128> = Vec::new();
    let mut k: usize = 0;
    while k < px.len()
        invariant
            k <= px@.len(),
            px@.len() == py@.len(),
            z == zip_view(x@, y@)->0,
            z.shape == t@,
            z.data.len() == px@.len(),
            x.wf(),
            y.wf(),
            ext_add(x@, y@) is Value,
            forall|u: int|
                0 <= u < px@.len() ==> {
                    &&& px@[u] == bcast_index(x@.shape, y@.shape, t@, u)
                    &&& py@[u] == bcast_index(y@.shape, x@.shape, t@, u)
                    &&& px@[u] < shape_size(x@.shape)
                    &&& py@[u] < shape_size(y@.shape)
                },
            data@ =~= z.data.take(k as int).map_values(|p: (i128, i128)| (p.0 + p.1) as i128),
        decreases px.len() - k,
    {
        let a = x.data[px[k]];
        let b = y.data[py[k]];
        assert(z.data[k as int] == (a, b));
        assert(i128::MIN <= z.data[k as int].0 + z.data[k as int].1 <= i128::MAX);
        data.push(a + b);
        assert(z.data.take(k + 1) =~= z.data.take(k as int).push(z.data[k as int]));
        k = k + 1;
    }
    assert(z.data.take(px.len() as int) =~= z.data);
    NdArray { shape: t, data }
}

/// `x + y` on floating-point arrays.
pub fn zip_float_add(x: &NdArray<FloatItem>, y: &NdArray<FloatItem>) -> (r: NdArray<FloatItem>)
    requires
        x.wf(),
        y.wf(),
        bcast_shape(x@.shape, y@.shape) is Some,
    ensures
        float_add(float_nd(x@), float_nd(y@)) == Outcome::Value(float_nd(r@)),
        r.wf(),
{
    let ghost xv = float_nd(x@);
    let ghost yv = float_nd(y@);
    let (t, px, py) = match zip_positions(&x.shape, &y.shape) {
        Some(z) => z,
        None => {
            return NdArray { shape: Vec::new(), data: Vec::new() };  // unreachable: the shapes broadcast
        },
    };
    let ghost z = zip_view(xv, yv)->0;
    let mut data: Vec<FloatItem> = Vec::new();
    let mut k: usize = 0;
    while k < px.len()
        invariant
            k <= px@.len(),
            px@.len() == py@.len(),
            xv == float_nd(x@),
            yv == float_nd(y@),
            z == zip_view(xv, yv)->0,
            zip_view(xv, yv) is Some,
            z.shape == t@,
            z.data.len() == px@.len(),
            x.wf(),
            y.wf(),
            forall|u: int|
                0 <= u < px@.len() ==> {
                    &&& px@[u] == bcast_index(x@.shape, y@.shape, t@, u)
                    &&& py@[u] == bcast_index(y@.shape, x@.shape, t@, u)
                    &&& px@[u] < shape_size(x@.shape)
                    &&& py@[u] < shape_size(y@.shape)
                },
            float_items_view(data@) =~= z.data.take(k as int).map_values(
                |p: (FloatV, FloatV)| FloatV::Sum(Box::new(p.0), Box::new(p.1)),
            ),
        decreases px.len() - k,
    {
        let a = x.data[px[k]].copy();
        let b = y.data[py[k]].copy();
        assert(z.data[k as int] == (a@, b@));
        let item = FloatItem::Sum(Box::new(a), Box::new(b));
        let ghost before = data@;
        data.push(item);
        proof {
            assert(float_items_view(data@) =~= float_items_view(before).push(item@));
            assert(z.data.take(k + 1) =~= z.data.take(k as int).push(z.data[k as int]));
        }
        k = k + 1;
    }
    assert(z.data.take(px.len() as int) =~= z.data);
    NdArray { shape: t, data }
}



// ---------------------------------------------------------------------------------------
// Promotion of argument precisions
// ---------------------------------------------------------------------------------------

pub open spec fn bool_to_int(a: NdView<u8>) -> NdView<i64> {
    NdView { shape: a.shape, data: a.data.map_values(|b: u8| b as i64) }
}

pub open spec fn int_to_float(a: NdView<i64>) -> NdView<FloatV> {
    NdView { shape: a.shape, data: a.data.map_values(|i: i64| FloatV::FromInt(i)) }
}

pub open spec fn bool_to_float(a: NdView<u8>) -> NdView<FloatV> {
    NdView { shape: a.shape, data: a.data.map_values(|b: u8| FloatV::FromInt(b as i64)) }
}

/// J's automatic promotion of argument precision: booleans are promoted to integers
/// (or to floating point against floating point), and integers to floating point
/// against floating point. Other pairs are left as they are.
pub open spec fn promote(x: ArrayV, y: ArrayV) -> (ArrayV, ArrayV) {
    match (x, y) {
        (ArrayV::Bool(a), ArrayV::Bool(b)) => (ArrayV::Int(bool_to_int(a)), ArrayV::Int(bool_to_int(b))),
        (ArrayV::Bool(a), ArrayV::Int(b)) => (ArrayV::Int(bool_to_int(a)), ArrayV::Int(b)),
        (ArrayV::Int(a), ArrayV::Bool(b)) => (ArrayV::Int(a), ArrayV::Int(bool_to_int(b))),
        (ArrayV::Bool(a), ArrayV::Float(b)) => (ArrayV::Float(bool_to_float(a)), ArrayV::Float(b)),
        (ArrayV::Float(a), ArrayV::Bool(b)) => (ArrayV::Float(a), ArrayV::Float(bool_to_float(b))),
        (ArrayV::Int(a), ArrayV::Float(b)) => (ArrayV::Float(int_to_float(a)), ArrayV::Float(b)),
        (ArrayV::Float(a), ArrayV::Int(b)) => (ArrayV::Float(a), ArrayV::Float(int_to_float(b))),
        _ => (x, y),
    }
}

fn bools_to_ints(a: &NdArray<u8>) -> (r: NdArray<i64>)
    requires
        a.wf(),
    ensures
        r@ == bool_to_int(a@),
        r.wf(),
{
    let mut data: Vec<i64> = Vec::new();
    let mut k: usize = 0;
    while k < a.data.len()
        invariant
            k <= a.data@.len(),
            data@ =~= a.data@.take(k as int).map_values(|b: u8| b as i64),
        decreases a.data.len() - k,
    {
        data.push(a.data[k] as i64);
        assert(a.data@.take(k + 1) =~= a.data@.take(k as int).push(a.data@[k as int]));
        k = k + 1;
    }
    assert(a.data@.take(a.data.len() as int) =~= a.data@);
    NdArray { shape: a.shape.clone(), data }
}

fn ints_to_floats(a: &NdArray<i64>) -> (r: NdArray<FloatItem>)
    requires
        a.wf(),
    ensures
        float_nd(r@) == int_to_float(a@),
        r.wf(),
{
    let mut data: Vec<FloatItem> = Vec::new();
    let mut k: usize = 0;
    while k < a.data.len()
        invariant
            k <= a.data@.len(),
            float_items_view(data@) =~= a.data@.take(k as int).map_values(
                |i: i64| FloatV::FromInt(i),
            ),
        decreases a.data.len() - k,
    {
        let item = FloatItem::FromInt(a.data[k]);
        let ghost before = data@;
        data.push(item);
        assert(float_items_view(data@) =~= float_items_view(before).push(item@));
        assert(a.data@.take(k + 1) =~= a.data@.take(k as int).push(a.data@[k as int]));
        k = k + 1;
    }
    assert(a.data@.take(a.data.len() as int) =~= a.data@);
    NdArray { shape: a.shape.clone(), data }
}

fn bools_to_floats(a: &NdArray<u8>) -> (r: NdArray<FloatItem>)
    requires
        a.wf(),
    ensures
        float_nd(r@) == bool_to_float(a@),
        r.wf(),
{
    let mut data: Vec<FloatItem> = Vec::new();
    let mut k: usize = 0;
    while k < a.data.len()
        invariant
            k <= a.data@.len(),
            float_items_view(data@) =~= a.data@.take(k as int).map_values(
                |b: u8| FloatV::FromInt(b as i64),
            ),
        decreases a.data.len() - k,
    {
        let item = FloatItem::FromInt(a.data[k] as i64);
        let ghost before = data@;
        data.push(item);
        assert(float_items_view(data@) =~= float_items_view(before).push(item@));
        assert(a.data@.take(k + 1) =~= a.data@.take(k as int).push(a.data@[k as int]));
        k = k + 1;
    }
    assert(a.data@.take(a.data.len() as int) =~= a.data@);
    NdArray { shape: a.shape.clone(), data }
}

/// Promotes the precisions of the two arguments of a verb (`promote`).
pub fn promotion(x: &JArray, y: &JArray) -> (r: Result<(JArray, JArray), JError>)
    requires
        x@.wf(),
        y@.wf(),
    ensures
        r matches Ok((a, b)) && promote(x@, y@) == (a@, b@) && a@.wf() && b@.wf(),
{
    match (x, y) {
        (JArray::BoolArray { a: x }, JArray::BoolArray { a: y }) => Ok(
            (JArray::IntArray { a: bools_to_ints(x) }, JArray::IntArray { a: bools_to_ints(y) }),
        ),
        (JArray::BoolArray { a: x }, JArray::IntArray { a: _ }) => Ok(
            (JArray::IntArray { a: bools_to_ints(x) }, y.copy()),
        ),
        (JArray::IntArray { a: _ }, JArray::BoolArray { a: y }) => Ok(
            (x.copy(), JArray::IntArray { a: bools_to_ints(y) }),
        ),
        (JArray::BoolArray { a: x }, JArray::FloatArray { a: _ }) => Ok(
            (JArray::FloatArray { a: bools_to_floats(x) }, y.copy()),
        ),
        (JArray::FloatArray { a: _ }, JArray::BoolArray { a: y }) => Ok(
            (x.copy(), JArray::FloatArray { a: bools_to_floats(y) }),
        ),
        (JArray::IntArray { a: x }, JArray::FloatArray { a: _ }) => Ok(
            (JArray::FloatArray { a: ints_to_floats(x) }, y.copy()),
        ),
        (JArray::FloatArray { a: _ }, JArray::IntArray { a: y }) => Ok(
            (x.copy(), JArray::FloatArray { a: ints_to_floats(y) }),
        ),
        _ => Ok((x.copy(), y.copy())),
    }
}


// ---------------------------------------------------------------------------------------
// The verbs
// ---------------------------------------------------------------------------------------

/// The value of an optional argument.
pub open spec fn arg_view(x: Option<&Word>) -> Option<WordV> {
    match x {
        Some(w) => Some(w@),
        None => None,
    }
}

pub open spec fn arg_wf(x: Option<WordV>) -> bool {
    match x {
        Some(w) => word_wf(w),
        None => true,
    }
}

pub open spec fn int_noun(o: Outcome<NdView<i64>>) -> Outcome<WordV> {
    match o {
        Outcome::Value(v) => Outcome::Value(WordV::Noun(ArrayV::Int(v))),
        Outcome::Failure(e) => Outcome::Failure(e),
        Outcome::Abort => Outcome::Abort,
    }
}

pub open spec fn ext_noun(o: Outcome<NdView<i128>>) -> Outcome<WordV> {
    match o {
        Outcome::Value(v) => Outcome::Value(WordV::Noun(ArrayV::ExtInt(v))),
        Outcome::Failure(e) => Outcome::Failure(e),
        Outcome::Abort => Outcome::Abort,
    }
}

pub open spec fn float_noun(o: Outcome<NdView<FloatV>>) -> Outcome<WordV> {
    match o {
        Outcome::Value(v) => Outcome::Value(WordV::Noun(ArrayV::Float(v))),
        Outcome::Failure(e) => Outcome::Failure(e),
        Outcome::Abort => Outcome::Abort,
    }
}

/// `v_not_implemented`.
pub open spec fn not_implemented_spec() -> Outcome<WordV> {
    Outcome::Failure("verb not implemented yet"@)
}

/// Dyadic `+`: elementwise sum after promotion of the arguments.
pub open spec fn plus_spec(x: Option<WordV>, y: WordV) -> Outcome<WordV> {
    match x {
        None => Outcome::Failure("monadic + not implemented yet"@),
        Some(x) => match (x, y) {
            (WordV::Noun(xa), WordV::Noun(ya)) => match promote(xa, ya) {
                (ArrayV::Int(a), ArrayV::Int(b)) => int_noun(int_zip(IntOp::Add, a, b)),
                (ArrayV::ExtInt(a), ArrayV::ExtInt(b)) => ext_noun(ext_add(a, b)),
                (ArrayV::Float(a), ArrayV::Float(b)) => float_noun(float_add(a, b)),
                _ => Outcome::Failure("domain error"@),
            },
            _ => Outcome::Failure("plus not supported for these types yet"@),
        },
    }
}

/// Dyadic `-` on integer arrays.
pub open spec fn minus_spec(x: Option<WordV>, y: WordV) -> Outcome<WordV> {
    match x {
        None => Outcome::Failure("monadic - not implemented yet"@),
        Some(x) => match (x, y) {
            (WordV::Noun(ArrayV::Int(a)), WordV::Noun(ArrayV::Int(b))) => int_noun(
                int_zip(IntOp::Sub, a, b),
            ),
            _ => Outcome::Failure("minus not supported for these types yet"@),
        },
    }
}

/// Dyadic `*` on integer arrays.
pub open spec fn times_spec(x: Option<WordV>, y: WordV) -> Outcome<WordV> {
    match x {
        None => Outcome::Failure("monadic * not implemented yet"@),
        Some(x) => match (x, y) {
            (WordV::Noun(ArrayV::Int(a)), WordV::Noun(ArrayV::Int(b))) => int_noun(
                int_zip(IntOp::Mul, a, b),
            ),
            _ => Outcome::Failure("times not supported for these types yet"@),
        },
    }
}

/// The number of items of a noun: the length of its first axis, or 1 for an atom.
pub open spec fn tally(a: ArrayV) -> nat {
    if a.shape().len() == 0 {
        1
    } else {
        a.shape()[0] as nat
    }
}

/// Monadic `#` (tally): the number of items of the noun, as a one-element list.
pub open spec fn number_spec(x: Option<WordV>, y: WordV) -> Outcome<WordV> {
    match x {
        None => match y {
            WordV::Noun(a) => Outcome::Value(int_vector_word(seq![tally(a) as i64])),
            _ => Outcome::Failure("domain error"@),
        },
        Some(_) => Outcome::Failure("dyadic # not implemented yet"@),
    }
}

/// The shape of an array as a list of integers.
pub open spec fn shape_as_ints(s: Seq<usize>) -> Seq<i64> {
    s.map_values(|d: usize| d as i64)
}

/// A list of (non-negative) integers read as a shape.
pub open spec fn ints_as_shape(v: Seq<i64>) -> Seq<usize> {
    v.map_values(|i: i64| i as usize)
}

/// The shape of the items of an array of shape `s`: all axes but the first. An atom is
/// its own item.
pub open spec fn item_shape(s: Seq<usize>) -> Seq<usize> {
    if s.len() == 0 {
        s
    } else {
        s.skip(1)
    }
}

/// `n` elements taken cyclically from `d`, or `n` times `fill` when `d` is empty.
pub open spec fn cycle<T>(d: Seq<T>, n: nat, fill: T) -> Seq<T> {
    Seq::new(
        n,
        |k: int|
            if d.len() > 0 {
                d[k % (d.len() as int)]
            } else {
                fill
            },
    )
}

/// The array of shape `t` filled with the elements of `y`, repeated cyclically.
pub open spec fn reshape_to<T>(t: Seq<usize>, y: NdView<T>, fill: T) -> NdView<T> {
    NdView { shape: t, data: cycle(y.data, shape_size(t), fill) }
}

/// `reshape_to` for each element type, with J's fill element (0 for numbers, a space for
/// characters).
pub open spec fn reshaped(t: Seq<usize>, y: ArrayV) -> ArrayV {
    match y {
        ArrayV::Int(a) => ArrayV::Int(reshape_to(t, a, 0i64)),
        ArrayV::ExtInt(a) => ArrayV::ExtInt(reshape_to(t, a, 0i128)),
        ArrayV::Float(a) => ArrayV::Float(reshape_to(t, a, FloatV::FromInt(0))),
        ArrayV::Bool(a) => ArrayV::Bool(reshape_to(t, a, 0u8)),
        ArrayV::Char(a) => ArrayV::Char(reshape_to(t, a, ' ')),
    }
}

/// The shape of `x $ y`: the list `x` followed by the shape of the items of `y`.
pub open spec fn reshape_shape(xs: Seq<i64>, y: ArrayV) -> Seq<usize> {
    ints_as_shape(xs) + item_shape(y.shape())
}

/// Dyadic `$` (reshape): an array whose shape is `x` followed by the shape of the items
/// of `y`, filled with the items of `y` repeated cyclically. A negative length is a domain
/// error; a shape that no array can have (a length or a number of elements over
/// `isize::MAX`) is a limit error.
pub open spec fn reshape(xs: Seq<i64>, y: ArrayV) -> Outcome<WordV> {
    if exists|k: int| 0 <= k < xs.len() && #[trigger] xs[k] < 0 {
        Outcome::Failure("domain error"@)
    } else if exists|k: int| 0 <= k < xs.len() && #[trigger] xs[k] > isize::MAX {
        Outcome::Failure("limit error"@)
    } else {
        let t = reshape_shape(xs, y);
        if shape_fits(t) && t.len() <= isize::MAX {
            Outcome::Value(WordV::Noun(reshaped(t, y)))
        } else {
            Outcome::Failure("limit error"@)
        }
    }
}

/// Monadic `$` (shape of) and dyadic `$` (reshape).
pub open spec fn dollar_spec(x: Option<WordV>, y: WordV) -> Outcome<WordV> {
    match x {
        None => match y {
            WordV::Noun(a) => Outcome::Value(int_vector_word(shape_as_ints(a.shape()))),
            _ => Outcome::Failure("domain error"@),
        },
        Some(WordV::Noun(ArrayV::Int(xa))) => match y {
            WordV::Noun(ya) => reshape(xa.data, ya),
            _ => Outcome::Failure("domain error"@),
        },
        Some(_) => Outcome::Failure("domain error"@),
    }
}

pub fn v_not_implemented(x: Option<&Word>, y: &Word) -> (r: Result<Word, JError>)
    ensures
        word_result_is(r, not_implemented_spec()),
{
    Err(JError::new("verb not implemented yet"))
}

/// Dyadic `+`.
pub fn v_plus(x: Option<&Word>, y: &Word) -> (r: Result<Word, JError>)
    requires
        arg_wf(arg_view(x)),
        word_wf(y@),
        !(plus_spec(arg_view(x), y@) is Abort),
    ensures
        word_result_is(r, plus_spec(arg_view(x), y@)),
        r matches Ok(w) ==> word_wf(w@),
{
    match x {
        None => Err(JError::new("monadic + not implemented yet")),
        Some(x) => match (x, y) {
            (Word::Noun(x), Word::Noun(y)) => {
                let pr = promotion(x, y);
                match pr {
                    Ok((JArray::IntArray { a: x }, JArray::IntArray { a: y })) => Ok(
                        Word::Noun(JArray::IntArray { a: zip_int(IntOp::Add, &x, &y) }),
                    ),
                    Ok((JArray::ExtIntArray { a: x }, JArray::ExtIntArray { a: y })) => Ok(
                        Word::Noun(JArray::ExtIntArray { a: zip_ext_add(&x, &y) }),
                    ),
                    Ok((JArray::FloatArray { a: x }, JArray::FloatArray { a: y })) => {
                        let s = zip_float_add(&x, &y);
                        Ok(Word::Noun(JArray::FloatArray { a: s }))
                    },
                    Err(e) => Err(e),
                    _ => Err(JError::new("domain error")),
                }
            },
            _ => Err(JError::new("plus not supported for these types yet")),
        },
    }
}

/// Dyadic `-`.
pub fn v_minus(x: Option<&Word>, y: &Word) -> (r: Result<Word, JError>)
    requires
        arg_wf(arg_view(x)),
        word_wf(y@),
        !(minus_spec(arg_view(x), y@) is Abort),
    ensures
        word_result_is(r, minus_spec(arg_view(x), y@)),
        r matches Ok(w) ==> word_wf(w@),
{
    match x {
        None => Err(JError::new("monadic - not implemented yet")),
        Some(x) => {
            if let (Word::Noun(JArray::IntArray { a: x }), Word::Noun(JArray::IntArray { a: y })) = (
                x,
                y,
            ) {
                Ok(Word::Noun(JArray::IntArray { a: zip_int(IntOp::Sub, x, y) }))
            } else {
                Err(JError::new("minus not supported for these types yet"))
            }
        },
    }
}

/// Dyadic `*`.
pub fn v_times(x: Option<&Word>, y: &Word) -> (r: Result<Word, JError>)
    requires
        arg_wf(arg_view(x)),
        word_wf(y@),
        !(times_spec(arg_view(x), y@) is Abort),
    ensures
        word_result_is(r, times_spec(arg_view(x), y@)),
        r matches Ok(w) ==> word_wf(w@),
{
    match x {
        None => Err(JError::new("monadic * not implemented yet")),
        Some(x) => {
            if let (Word::Noun(JArray::IntArray { a: x }), Word::Noun(JArray::IntArray { a: y })) = (
                x,
                y,
            ) {
                Ok(Word::Noun(JArray::IntArray { a: zip_int(IntOp::Mul, x, y) }))
            } else {
                Err(JError::new("times not supported for these types yet"))
            }
        },
    }
}

impl JArray {
    /// The shape.
    pub fn shape(&self) -> (r: &Vec<usize>)
        ensures
            r@ == self@.shape(),
    {
        match self {
            JArray::IntArray { a } => &a.shape,
            JArray::ExtIntArray { a } => &a.shape,
            JArray::FloatArray { a } => &a.shape,
            JArray::BoolArray { a } => &a.shape,
            JArray::CharArray { a } => &a.shape,
        }
    }
}

/// Monadic `#` (tally).
pub fn v_number(x: Option<&Word>, y: &Word) -> (r: Result<Word, JError>)
    requires
        word_wf(y@),
    ensures
        word_result_is(r, number_spec(arg_view(x), y@)),
        r matches Ok(w) ==> word_wf(w@),
{
    match x {
        None => {
            match y {
                Word::Noun(ja) => {
                    proof {
                        lemma_len_fits(ja@);
                    }
                    let shape = ja.shape();
                    let t: usize = if shape.len() == 0 {
                        1
                    } else {
                        assert(shape@[0] <= isize::MAX);
                        shape[0]
                    };
                    let mut v: Vec<i64> = Vec::new();
                    v.push(t as i64);
                    assert(v@ =~= seq![tally(ja@) as i64]);
                    int_array(v)
                },
                _ => Err(JError::new("domain error")),
            }
        },
        Some(_x) => Err(JError::new("dyadic # not implemented yet")),  // Copy
    }
}

/// A well-formed array has at most `isize::MAX` elements.
pub proof fn lemma_len_fits(a: ArrayV)
    requires
        a.wf(),
    ensures
        a.len() <= isize::MAX,
        a.shape().len() <= isize::MAX,
        forall|i: int| 0 <= i < a.shape().len() ==> #[trigger] a.shape()[i] <= isize::MAX,
{
    lemma_size_le_nonzero(a.shape());
    assert forall|i: int| 0 <= i < a.shape().len() implies #[trigger] a.shape()[i]
        <= isize::MAX by {
        lemma_dim_le_nonzero(a.shape(), i);
    }
}

/// Each non-zero axis length is at most the product of the non-zero axis lengths.
pub proof fn lemma_dim_le_nonzero(s: Seq<usize>, i: int)
    requires
        0 <= i < s.len(),
    ensures
        s[i] == 0 || s[i] <= crate::array::nonzero_size(s),
{
    crate::array::lemma_nonzero_prefix_le(s, i + 1);
    crate::array::lemma_nonzero_positive(s.take(i));
    let p = s.take(i + 1);
    assert(p.drop_last() =~= s.take(i));
    if s[i] != 0 {
        let q = crate::array::nonzero_size(s.take(i));
        assert(s[i] as nat <= q * (s[i] as nat)) by (nonlinear_arith)
            requires
                q >= 1,
        ;
    }
}

/// Monadic `$` (shape of) and dyadic `$` (reshape).
pub fn v_dollar(x: Option<&Word>, y: &Word) -> (r: Result<Word, JError>)
    requires
        arg_wf(arg_view(x)),
        word_wf(y@),
    ensures
        word_result_is(r, dollar_spec(arg_view(x), y@)),
        r matches Ok(w) ==> word_wf(w@),
{
    match x {
        None => {
            // Shape-of
            match y {
                Word::Noun(ja) => {
                    proof {
                        lemma_len_fits(ja@);
                    }
                    let shape = ja.shape();
                    let mut v: Vec<i64> = Vec::new();
                    let mut k: usize = 0;
                    while k < shape.len()
                        invariant
                            k <= shape@.len(),
                            shape@ == ja@.shape(),
                            forall|i: int|
                                0 <= i < shape@.len() ==> #[trigger] shape@[i] <= isize::MAX,
                            v@ =~= shape_as_ints(shape@.take(k as int)),
                        decreases shape.len() - k,
                    {
                        assert(shape@[k as int] <= isize::MAX);
                        v.push(shape[k] as i64);
                        assert(shape@.take(k + 1) =~= shape@.take(k as int).push(shape@[k as int]));
                        k = k + 1;
                    }
                    assert(shape@.take(shape.len() as int) =~= shape@);
                    int_array(v)
                },
                _ => Err(JError::new("domain error")),
            }
        },
        Some(x) => {
            // Reshape
            match x {
                Word::Noun(JArray::IntArray { a: xa }) => match y {
                    Word::Noun(ya) => reshape_noun(&xa.data, ya),
                    _ => Err(JError::new("domain error")),
                },
                _ => Err(JError::new("domain error")),
            }
        },
    }
}

/// `n` elements taken cyclically from `d` (`cycle`).
fn cycle_plain<T: Copy>(d: &Vec<T>, n: usize, fill: T) -> (r: Vec<T>)
    ensures
        r@ == cycle(d@, n as nat, fill),
{
    let len = d.len();
    let mut out: Vec<T> = Vec::new();
    let mut k: usize = 0;
    while k < n
        invariant
            k <= n,
            len == d@.len(),
            out@ =~= cycle(d@, n as nat, fill).take(k as int),
        decreases n - k,
    {
        if len == 0 {
            out.push(fill);
        } else {
            out.push(d[k % len]);
        }
        k = k + 1;
    }
    assert(cycle(d@, n as nat, fill).take(n as int) =~= cycle(d@, n as nat, fill));
    out
}

/// `n` floating-point terms taken cyclically from `d` (`cycle`).
fn cycle_floats(d: &Vec<FloatItem>, n: usize) -> (r: Vec<FloatItem>)
    ensures
        float_items_view(r@) == cycle(float_items_view(d@), n as nat, FloatV::FromInt(0)),
{
    let len = d.len();
    let ghost c = cycle(float_items_view(d@), n as nat, FloatV::FromInt(0));
    let mut out: Vec<FloatItem> = Vec::new();
    let mut k: usize = 0;
    while k < n
        invariant
            k <= n,
            len == d@.len(),
            c == cycle(float_items_view(d@), n as nat, FloatV::FromInt(0)),
            float_items_view(out@) =~= c.take(k as int),
        decreases n - k,
    {
        let item = if len == 0 {
            FloatItem::FromInt(0)
        } else {
            d[k % len].copy()
        };
        let ghost before = out@;
        out.push(item);
        assert(float_items_view(out@) =~= float_items_view(before).push(item@));
        assert(c.take(k + 1) =~= c.take(k as int).push(c[k as int]));
        k = k + 1;
    }
    assert(c.take(n as int) =~= c);
    out
}

/// Dyadic `$` on the list of lengths `xs` and the noun `y` (`reshape`).
fn reshape_noun(xs: &Vec<i64>, y: &JArray) -> (r: Result<Word, JError>)
    requires
        y@.wf(),
    ensures
        word_result_is(r, reshape(xs@, y@)),
        r matches Ok(w) ==> word_wf(w@),
{
    let mut k: usize = 0;
    while k < xs.len()
        invariant
            k <= xs@.len(),
            forall|i: int| 0 <= i < k ==> #[trigger] xs@[i] >= 0,
        decreases xs.len() - k,
    {
        if xs[k] < 0 {
            return Err(JError::new("domain error"));
        }
        k = k + 1;
    }
    let mut t: Vec<usize> = Vec::new();
    let mut k: usize = 0;
    while k < xs.len()
        invariant
            k <= xs@.len(),
            forall|i: int| 0 <= i < xs@.len() ==> #[trigger] xs@[i] >= 0,
            forall|i: int| 0 <= i < k ==> #[trigger] xs@[i] <= isize::MAX,
            t@ =~= ints_as_shape(xs@.take(k as int)),
        decreases xs.len() - k,
    {
        if xs[k] > isize::MAX as i64 {
            return Err(JError::new("limit error"));
        }
        t.push(xs[k] as usize);
        assert(xs@.take(k + 1) =~= xs@.take(k as int).push(xs@[k as int]));
        k = k + 1;
    }
    assert(xs@.take(xs.len() as int) =~= xs@);
    let ys = y.shape();
    let mut k: usize = if ys.len() == 0 {
        0
    } else {
        1
    };
    let ghost t0 = t@;
    while k < ys.len()
        invariant
            ys@ == y@.shape(),
            ys@.len() == 0 ==> k == 0,
            ys@.len() > 0 ==> 1 <= k <= ys@.len(),
            t@ =~= t0 + (if ys@.len() == 0 {
                Seq::<usize>::empty()
            } else {
                ys@.subrange(1, k as int)
            }),
        decreases ys.len() - k,
    {
        t.push(ys[k]);
        k = k + 1;
    }
    assert(t@ =~= reshape_shape(xs@, y@));
    if t.len() > isize::MAX as usize {
        return Err(JError::new("limit error"));
    }
    let n = match shape_size_checked(&t) {
        Some(n) => n,
        None => {
            return Err(JError::new("limit error"));
        },
    };
    let a = match y {
        JArray::IntArray { a } => JArray::IntArray {
            a: NdArray { shape: t, data: cycle_plain(&a.data, n, 0i64) },
        },
        JArray::ExtIntArray { a } => JArray::ExtIntArray {
            a: NdArray { shape: t, data: cycle_plain(&a.data, n, 0i128) },
        },
        JArray::FloatArray { a } => JArray::FloatArray {
            a: NdArray { shape: t, data: cycle_floats(&a.data, n) },
        },
        JArray::BoolArray { a } => JArray::BoolArray {
            a: NdArray { shape: t, data: cycle_plain(&a.data, n, 0u8) },
        },
        JArray::CharArray { a } => JArray::CharArray {
            a: NdArray { shape: t, data: cycle_plain(&a.data, n, ' ') },
        },
    };
    assert(a@ == reshaped(reshape_shape(xs@, y@), y@));
    Ok(Word::Noun(a))
}

// ---------------------------------------------------------------------------------------
// Executing verbs and adverbs
// ---------------------------------------------------------------------------------------

/// What an adverb does: none of the adverbs is implemented yet.
pub open spec fn adverb_spec(a: AdverbImpl, x: Option<WordV>, v: WordV, y: WordV) -> Outcome<WordV> {
    Outcome::Failure("adverb not implemented yet"@)
}

/// What a verb does when applied to `y`, or to `x` and `y`.
#[verifier::opaque]
pub open spec fn exec_spec(v: VerbV, x: Option<WordV>, y: WordV) -> Outcome<WordV> {
    match v {
        VerbV::Plus => plus_spec(x, y),
        VerbV::Minus => minus_spec(x, y),
        VerbV::Times => times_spec(x, y),
        VerbV::Number => number_spec(x, y),
        VerbV::Dollar => dollar_spec(x, y),
        VerbV::NotImplemented => not_implemented_spec(),
        VerbV::DerivedVerb(u, m, a) => match (*u, *m, *a) {
            (WordV::Verb(_, _), WordV::Nothing, WordV::Adverb(_, ai)) => adverb_spec(ai, x, *u, y),
            (WordV::Nothing, WordV::Noun(_), WordV::Adverb(_, ai)) => adverb_spec(ai, x, *m, y),
            _ => Outcome::Abort,  // invalid derived verb
        },
    }
}

pub fn a_not_implemented(x: Option<&Word>, v: &Word, y: &Word) -> (r: Result<Word, JError>)
    ensures
        r matches Err(e) && e@ == "adverb not implemented yet"@,
{
    Err(JError::new("adverb not implemented yet"))
}

impl AdverbImpl {
    /// Applies the verb derived by this adverb from `v`.
    pub fn exec(&self, x: Option<&Word>, v: &Word, y: &Word) -> (r: Result<Word, JError>)
        ensures
            word_result_is(r, adverb_spec(*self, arg_view(x), v@, y@)),
    {
        match self {
            AdverbImpl::Slash => a_not_implemented(x, v, y),
            AdverbImpl::CurlyRt => a_not_implemented(x, v, y),
            AdverbImpl::NotImplemented => a_not_implemented(x, v, y),
        }
    }
}

impl VerbImpl {
    /// Applies this verb to `y` (monad) or to `x` and `y` (dyad).
    pub fn exec(&self, x: Option<&Word>, y: &Word) -> (r: Result<Word, JError>)
        requires
            verb_wf(self@),
            arg_wf(arg_view(x)),
            word_wf(y@),
            !(exec_spec(self@, arg_view(x), y@) is Abort),
        ensures
            word_result_is(r, exec_spec(self@, arg_view(x), y@)),
            r matches Ok(w) ==> word_wf(w@),
    {
        reveal(exec_spec);
        match self {
            VerbImpl::Plus => v_plus(x, y),
            VerbImpl::Minus => v_minus(x, y),
            VerbImpl::Times => v_times(x, y),
            VerbImpl::Number => v_number(x, y),
            VerbImpl::Dollar => v_dollar(x, y),
            VerbImpl::NotImplemented => v_not_implemented(x, y),
            VerbImpl::DerivedVerb { u, m, a } => match (u, m, a) {
                (Word::Verb(_, _), Word::Nothing, Word::Adverb(_, a)) => a.exec(x, &u, y),
                (Word::Nothing, Word::Noun(_), Word::Adverb(_, a)) => a.exec(x, &m, y),
                _ => Err(JError::new("invalid DerivedVerb")),  // unreachable: a panic
            },
        }
    }
}

} // verus!
