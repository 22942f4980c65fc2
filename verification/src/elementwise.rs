//! What the arithmetic verbs compute, element by element: each element of `x op y` is
//! `op` applied to the elements of `x` and `y` that broadcasting pairs at that position.
use vstd::prelude::*;
use crate::array::{
    NdView, bcast_index, bcast_shape, co_broadcast, lemma_bsrc_bound, lemma_co_broadcast_upcast,
    shape_fits, shape_size, zip_view,
};
use crate::verbs::{
    IntOp, bool_to_float, bool_to_int, ext_add, float_add, int_op_value, int_to_float, int_zip, minus_spec,
    plus_spec, promote, times_spec,
};
use crate::word::{ArrayV, FloatV, Outcome, WordV};

verus! {

/// The element of `x` that broadcasting pairs with position `k` of a result of shape `t`.
pub open spec fn lhs_at<A, B>(x: NdView<A>, y: NdView<B>, t: Seq<usize>, k: int) -> A {
    x.data[bcast_index(x.shape, y.shape, t, k)]
}

/// The element of `y` that broadcasting pairs with position `k` of a result of shape `t`.
pub open spec fn rhs_at<A, B>(x: NdView<A>, y: NdView<B>, t: Seq<usize>, k: int) -> B {
    y.data[bcast_index(y.shape, x.shape, t, k)]
}

/// The positions that broadcasting pairs lie inside both operands.
pub proof fn lemma_bcast_index_bound(a: Seq<usize>, b: Seq<usize>, k: int)
    requires
        bcast_shape(a, b) is Some,
        0 <= k < shape_size(bcast_shape(a, b)->0),
    ensures
        0 <= bcast_index(a, b, bcast_shape(a, b)->0, k) < shape_size(a),
        0 <= bcast_index(b, a, bcast_shape(a, b)->0, k) < shape_size(b),
{
    let t = bcast_shape(a, b)->0;
    if a != b {
        lemma_co_broadcast_upcast(a, b);
        lemma_bsrc_bound(a, t, k);
        lemma_bsrc_bound(b, t, k);
    }
}

/// `int_zip` element by element.
proof fn lemma_int_zip_elements(op: IntOp, a: NdView<i64>, b: NdView<i64>)
    ensures
        bcast_shape(a.shape, b.shape) is None ==> int_zip(op, a, b) is Abort,
        bcast_shape(a.shape, b.shape) matches Some(t) ==> {
            let fits = forall|k: int|
                0 <= k < shape_size(t) ==> i64::MIN <= #[trigger] int_op_value(
                    op,
                    lhs_at(a, b, t, k) as int,
                    rhs_at(a, b, t, k) as int,
                ) <= i64::MAX;
            &&& fits ==> (int_zip(op, a, b) matches Outcome::Value(r) && r.shape == t
                && r.data.len() == shape_size(t) && forall|k: int|
                0 <= k < shape_size(t) ==> r.data[k] as int == int_op_value(
                    op,
                    lhs_at(a, b, t, k) as int,
                    rhs_at(a, b, t, k) as int,
                ))
            &&& !fits ==> int_zip(op, a, b) is Abort
        },
{
    if let Some(t) = bcast_shape(a.shape, b.shape) {
        let z = zip_view(a, b)->0;
        assert forall|k: int| 0 <= k < shape_size(t) implies #[trigger] z.data[k] == (
            lhs_at(a, b, t, k),
            rhs_at(a, b, t, k),
        ) by {}
        let fits = forall|k: int|
            0 <= k < shape_size(t) ==> i64::MIN <= #[trigger] int_op_value(
                op,
                lhs_at(a, b, t, k) as int,
                rhs_at(a, b, t, k) as int,
            ) <= i64::MAX;
        let zfits = forall|k: int|
            0 <= k < z.data.len() ==> i64::MIN <= #[trigger] int_op_value(
                op,
                z.data[k].0 as int,
                z.data[k].1 as int,
            ) <= i64::MAX;
        if fits {
            assert forall|k: int| 0 <= k < z.data.len() implies i64::MIN <= #[trigger] int_op_value(
                op,
                z.data[k].0 as int,
                z.data[k].1 as int,
            ) <= i64::MAX by {
                assert(i64::MIN <= int_op_value(op, lhs_at(a, b, t, k) as int, rhs_at(a, b, t, k) as int)
                    <= i64::MAX);
            }
            assert(zfits);
        } else {
            let k = choose|k: int|
                !(0 <= k < shape_size(t) ==> i64::MIN <= #[trigger] int_op_value(
                    op,
                    lhs_at(a, b, t, k) as int,
                    rhs_at(a, b, t, k) as int,
                ) <= i64::MAX);
            assert(z.data[k] == (lhs_at(a, b, t, k), rhs_at(a, b, t, k)));
            assert(!(i64::MIN <= int_op_value(op, z.data[k].0 as int, z.data[k].1 as int)
                <= i64::MAX));
            assert(!zfits);
        }
    }
}

/// Dyadic `-` on integer nouns, of any shapes: when the shapes broadcast together, each
/// element of `x - y` is the element of `x` minus the element of `y` that broadcasting
/// pairs at its position (a difference out of the range of `i64` is a panic); when they
/// do not, it is a panic.
pub proof fn law_minus_elementwise(a: NdView<i64>, b: NdView<i64>)
    ensures
        ({
            let o = minus_spec(
                Some(WordV::Noun(ArrayV::Int(a))),
                WordV::Noun(ArrayV::Int(b)),
            );
            match bcast_shape(a.shape, b.shape) {
                None => o is Abort,
                Some(t) => if forall|k: int|
                    0 <= k < shape_size(t) ==> i64::MIN <= #[trigger] lhs_at(a, b, t, k)
                        - rhs_at(a, b, t, k) <= i64::MAX {
                    &&& o matches Outcome::Value(WordV::Noun(ArrayV::Int(r)))
                    &&& o->Value_0->Noun_0->Int_0.shape == t
                    &&& o->Value_0->Noun_0->Int_0.data.len() == shape_size(t)
                    &&& forall|k: int|
                        0 <= k < shape_size(t) ==> #[trigger] o->Value_0->Noun_0->Int_0.data[k]
                            == lhs_at(a, b, t, k) - rhs_at(a, b, t, k)
                } else {
                    o is Abort
                },
            }
        }),
{
    lemma_int_zip_elements(IntOp::Sub, a, b);
    if let Some(t) = bcast_shape(a.shape, b.shape) {
        let fits = forall|k: int|
            0 <= k < shape_size(t) ==> i64::MIN <= #[trigger] int_op_value(
                IntOp::Sub,
                lhs_at(a, b, t, k) as int,
                rhs_at(a, b, t, k) as int,
            ) <= i64::MAX;
        let lfits = forall|k: int|
            0 <= k < shape_size(t) ==> i64::MIN <= #[trigger] (lhs_at(a, b, t, k)
                - rhs_at(a, b, t, k)) <= i64::MAX;
        if lfits {
            assert forall|k: int| 0 <= k < shape_size(t) implies i64::MIN <= #[trigger] int_op_value(
                IntOp::Sub,
                lhs_at(a, b, t, k) as int,
                rhs_at(a, b, t, k) as int,
            ) <= i64::MAX by {
                assert(i64::MIN <= (lhs_at(a, b, t, k) - rhs_at(a, b, t, k)) <= i64::MAX);
            }
            assert(fits);
        } else {
            let k = choose|k: int|
                !(0 <= k < shape_size(t) ==> i64::MIN <= #[trigger] (lhs_at(a, b, t, k)
                    - rhs_at(a, b, t, k)) <= i64::MAX);
            assert(!(i64::MIN <= int_op_value(
                IntOp::Sub,
                lhs_at(a, b, t, k) as int,
                rhs_at(a, b, t, k) as int,
            ) <= i64::MAX));
            assert(!fits);
        }
    }
}

/// Dyadic `*` on integer nouns, of any shapes and ranks: when the shapes broadcast together,
/// each element of `x * y` is the product of the elements of `x` and `y` that broadcasting
/// pairs at its position (a product out of the range of `i64` is a panic); when they do
/// not, it is a panic.
pub proof fn law_times_elementwise(a: NdView<i64>, b: NdView<i64>)
    ensures
        ({
            let o = times_spec(
                Some(WordV::Noun(ArrayV::Int(a))),
                WordV::Noun(ArrayV::Int(b)),
            );
            match bcast_shape(a.shape, b.shape) {
                None => o is Abort,
                Some(t) => if forall|k: int|
                    0 <= k < shape_size(t) ==> i64::MIN <= #[trigger] (lhs_at(a, b, t, k)
                        * rhs_at(a, b, t, k)) <= i64::MAX {
                    &&& o matches Outcome::Value(WordV::Noun(ArrayV::Int(r)))
                    &&& o->Value_0->Noun_0->Int_0.shape == t
                    &&& o->Value_0->Noun_0->Int_0.data.len() == shape_size(t)
                    &&& forall|k: int|
                        0 <= k < shape_size(t) ==> #[trigger] o->Value_0->Noun_0->Int_0.data[k]
                            == lhs_at(a, b, t, k) * rhs_at(a, b, t, k)
                } else {
                    o is Abort
                },
            }
        }),
{
    lemma_int_zip_elements(IntOp::Mul, a, b);
    if let Some(t) = bcast_shape(a.shape, b.shape) {
        let fits = forall|k: int|
            0 <= k < shape_size(t) ==> i64::MIN <= #[trigger] int_op_value(
                IntOp::Mul,
                lhs_at(a, b, t, k) as int,
                rhs_at(a, b, t, k) as int,
            ) <= i64::MAX;
        let lfits = forall|k: int|
            0 <= k < shape_size(t) ==> i64::MIN <= #[trigger] (lhs_at(a, b, t, k)
                * rhs_at(a, b, t, k)) <= i64::MAX;
        if lfits {
            assert forall|k: int| 0 <= k < shape_size(t) implies i64::MIN <= #[trigger] int_op_value(
                IntOp::Mul,
                lhs_at(a, b, t, k) as int,
                rhs_at(a, b, t, k) as int,
            ) <= i64::MAX by {
                assert(i64::MIN <= (lhs_at(a, b, t, k) * rhs_at(a, b, t, k)) <= i64::MAX);
            }
            assert(fits);
        } else {
            let k = choose|k: int|
                !(0 <= k < shape_size(t) ==> i64::MIN <= #[trigger] (lhs_at(a, b, t, k)
                    * rhs_at(a, b, t, k)) <= i64::MAX);
            assert(!(i64::MIN <= int_op_value(
                IntOp::Mul,
                lhs_at(a, b, t, k) as int,
                rhs_at(a, b, t, k) as int,
            ) <= i64::MAX));
            assert(!fits);
        }
    }
}

/// A noun of integers or booleans.
pub open spec fn is_int_like(x: ArrayV) -> bool {
    x is Int || x is Bool
}

/// A noun of integers, booleans or floating-point numbers.
pub open spec fn is_numeric(x: ArrayV) -> bool {
    x is Int || x is Bool || x is Float
}

/// Element `i` of an integer or boolean noun, as an integer.
pub open spec fn int_elem(x: ArrayV, i: int) -> int {
    match x {
        ArrayV::Int(a) => a.data[i] as int,
        ArrayV::Bool(a) => a.data[i] as int,
        _ => 0,
    }
}

/// Element `i` of a numeric noun, as a floating-point term.
pub open spec fn float_elem(x: ArrayV, i: int) -> FloatV {
    match x {
        ArrayV::Int(a) => FloatV::FromInt(a.data[i]),
        ArrayV::Bool(a) => FloatV::FromInt(a.data[i] as i64),
        ArrayV::Float(a) => a.data[i],
        _ => FloatV::FromInt(0),
    }
}

/// Position in `x` that broadcasting pairs with position `k` of a result of shape `t`.
pub open spec fn pos_in(x: ArrayV, y: ArrayV, t: Seq<usize>, k: int) -> int {
    bcast_index(x.shape(), y.shape(), t, k)
}

spec fn as_int(x: ArrayV) -> NdView<i64> {
    match x {
        ArrayV::Bool(a) => bool_to_int(a),
        ArrayV::Int(a) => a,
        _ => NdView { shape: x.shape(), data: seq![] },
    }
}

spec fn as_float(x: ArrayV) -> NdView<FloatV> {
    match x {
        ArrayV::Bool(a) => bool_to_float(a),
        ArrayV::Int(a) => int_to_float(a),
        ArrayV::Float(a) => a,
        _ => NdView { shape: x.shape(), data: seq![] },
    }
}

/// Dyadic `+` on integer or boolean nouns (booleans count as 0 and 1), of any shapes: when
/// the shapes broadcast together, each element of `x + y` is the sum of the elements of
/// `x` and `y` that broadcasting pairs at its position (a sum out of the range of `i64` is
/// a panic); when they do not, it is a panic.
pub proof fn law_plus_int_elementwise(x: ArrayV, y: ArrayV)
    requires
        is_int_like(x),
        is_int_like(y),
        x.wf(),
        y.wf(),
    ensures
        ({
            let o = plus_spec(Some(WordV::Noun(x)), WordV::Noun(y));
            match bcast_shape(x.shape(), y.shape()) {
                None => o is Abort,
                Some(t) => if forall|k: int|
                    0 <= k < shape_size(t) ==> i64::MIN <= #[trigger] (int_elem(x, pos_in(x, y, t, k))
                        + int_elem(y, pos_in(y, x, t, k))) <= i64::MAX {
                    &&& o matches Outcome::Value(WordV::Noun(ArrayV::Int(r)))
                    &&& o->Value_0->Noun_0->Int_0.shape == t
                    &&& o->Value_0->Noun_0->Int_0.data.len() == shape_size(t)
                    &&& forall|k: int|
                        0 <= k < shape_size(t) ==> #[trigger] o->Value_0->Noun_0->Int_0.data[k]
                            == int_elem(x, pos_in(x, y, t, k)) + int_elem(y, pos_in(y, x, t, k))
                } else {
                    o is Abort
                },
            }
        }),
{
    let a = as_int(x);
    let b = as_int(y);
    assert(promote(x, y) == (ArrayV::Int(a), ArrayV::Int(b)));
    assert(a.shape == x.shape() && b.shape == y.shape());
    lemma_int_zip_elements(IntOp::Add, a, b);
    if let Some(t) = bcast_shape(x.shape(), y.shape()) {
        assert forall|k: int| 0 <= k < shape_size(t) implies lhs_at(a, b, t, k) as int == int_elem(
            x,
            pos_in(x, y, t, k),
        ) && rhs_at(a, b, t, k) as int == int_elem(y, pos_in(y, x, t, k)) by {
            lemma_bcast_index_bound(x.shape(), y.shape(), k);
        }
        let fits = forall|k: int|
            0 <= k < shape_size(t) ==> i64::MIN <= #[trigger] int_op_value(
                IntOp::Add,
                lhs_at(a, b, t, k) as int,
                rhs_at(a, b, t, k) as int,
            ) <= i64::MAX;
        let xfits = forall|k: int|
            0 <= k < shape_size(t) ==> i64::MIN <= #[trigger] (int_elem(x, pos_in(x, y, t, k))
                + int_elem(y, pos_in(y, x, t, k))) <= i64::MAX;
        if xfits {
            assert forall|k: int| 0 <= k < shape_size(t) implies i64::MIN <= #[trigger] int_op_value(
                IntOp::Add,
                lhs_at(a, b, t, k) as int,
                rhs_at(a, b, t, k) as int,
            ) <= i64::MAX by {
                assert(i64::MIN <= (int_elem(x, pos_in(x, y, t, k)) + int_elem(
                    y,
                    pos_in(y, x, t, k),
                )) <= i64::MAX);
            }
            assert(fits);
        } else {
            let k = choose|k: int|
                !(0 <= k < shape_size(t) ==> i64::MIN <= #[trigger] (int_elem(
                    x,
                    pos_in(x, y, t, k),
                ) + int_elem(y, pos_in(y, x, t, k))) <= i64::MAX);
            assert(!(i64::MIN <= int_op_value(
                IntOp::Add,
                lhs_at(a, b, t, k) as int,
                rhs_at(a, b, t, k) as int,
            ) <= i64::MAX));
            assert(!fits);
        }
    }
}

/// Dyadic `+` with a floating-point operand (the other one integer, boolean or floating
/// point), of any shapes: when the shapes broadcast together, `x + y` is a floating-point
/// noun of the broadcast shape whose elements are the sums of the elements of `x` and `y`
/// (integers and booleans taken as floating point) that broadcasting pairs at each
/// position; when they do not, it is a panic.
pub proof fn law_plus_float_elementwise(x: ArrayV, y: ArrayV)
    requires
        is_numeric(x),
        is_numeric(y),
        x is Float || y is Float,
        x.wf(),
        y.wf(),
    ensures
        ({
            let o = plus_spec(Some(WordV::Noun(x)), WordV::Noun(y));
            match bcast_shape(x.shape(), y.shape()) {
                None => o is Abort,
                Some(t) => {
                    &&& o matches Outcome::Value(WordV::Noun(ArrayV::Float(r)))
                    &&& o->Value_0->Noun_0->Float_0.shape == t
                    &&& o->Value_0->Noun_0->Float_0.data.len() == shape_size(t)
                    &&& forall|k: int|
                        0 <= k < shape_size(t) ==> #[trigger] o->Value_0->Noun_0->Float_0.data[k]
                            == FloatV::Sum(
                            Box::new(float_elem(x, pos_in(x, y, t, k))),
                            Box::new(float_elem(y, pos_in(y, x, t, k))),
                        )
                },
            }
        }),
{
    let a = as_float(x);
    let b = as_float(y);
    assert(promote(x, y) == (ArrayV::Float(a), ArrayV::Float(b)));
    assert(a.shape == x.shape() && b.shape == y.shape());
    if let Some(t) = bcast_shape(x.shape(), y.shape()) {
        let z = zip_view(a, b)->0;
        assert forall|k: int| 0 <= k < shape_size(t) implies #[trigger] z.data[k] == (
            float_elem(x, pos_in(x, y, t, k)),
            float_elem(y, pos_in(y, x, t, k)),
        ) by {
            lemma_bcast_index_bound(x.shape(), y.shape(), k);
        }
    }
}

/// Dyadic `+` on extended-integer nouns, of any shapes: when the shapes broadcast together,
/// each element of `x + y` is the sum of the elements of `x` and `y` that broadcasting
/// pairs at its position (a sum out of the range of `i128` is a panic); when they do not,
/// it is a panic.
pub proof fn law_plus_ext_elementwise(a: NdView<i128>, b: NdView<i128>)
    ensures
        ({
            let o = plus_spec(
                Some(WordV::Noun(ArrayV::ExtInt(a))),
                WordV::Noun(ArrayV::ExtInt(b)),
            );
            match bcast_shape(a.shape, b.shape) {
                None => o is Abort,
                Some(t) => if forall|k: int|
                    0 <= k < shape_size(t) ==> i128::MIN <= #[trigger] (lhs_at(a, b, t, k)
                        + rhs_at(a, b, t, k)) <= i128::MAX {
                    &&& o matches Outcome::Value(WordV::Noun(ArrayV::ExtInt(r)))
                    &&& o->Value_0->Noun_0->ExtInt_0.shape == t
                    &&& o->Value_0->Noun_0->ExtInt_0.data.len() == shape_size(t)
                    &&& forall|k: int|
                        0 <= k < shape_size(t) ==> #[trigger] o->Value_0->Noun_0->ExtInt_0.data[k]
                            == lhs_at(a, b, t, k) + rhs_at(a, b, t, k)
                } else {
                    o is Abort
                },
            }
        }),
{
    assert(promote(ArrayV::ExtInt(a), ArrayV::ExtInt(b)) == (ArrayV::ExtInt(a), ArrayV::ExtInt(b)));
    if let Some(t) = bcast_shape(a.shape, b.shape) {
        let z = zip_view(a, b)->0;
        assert forall|k: int| 0 <= k < shape_size(t) implies #[trigger] z.data[k] == (
            lhs_at(a, b, t, k),
            rhs_at(a, b, t, k),
        ) by {}
        let lfits = forall|k: int|
            0 <= k < shape_size(t) ==> i128::MIN <= #[trigger] (lhs_at(a, b, t, k) + rhs_at(
                a,
                b,
                t,
                k,
            )) <= i128::MAX;
        let zfits = forall|k: int|
            0 <= k < z.data.len() ==> i128::MIN <= #[trigger] (z.data[k].0 + z.data[k].1)
                <= i128::MAX;
        if lfits {
            assert forall|k: int| 0 <= k < z.data.len() implies i128::MIN <= #[trigger] (
            z.data[k].0 + z.data[k].1) <= i128::MAX by {
                assert(i128::MIN <= (lhs_at(a, b, t, k) + rhs_at(a, b, t, k)) <= i128::MAX);
            }
            assert(zfits);
        } else {
            let k = choose|k: int|
                !(0 <= k < shape_size(t) ==> i128::MIN <= #[trigger] (lhs_at(a, b, t, k)
                    + rhs_at(a, b, t, k)) <= i128::MAX);
            assert(z.data[k] == (lhs_at(a, b, t, k), rhs_at(a, b, t, k)));
            assert(!(i128::MIN <= z.data[k].0 + z.data[k].1 <= i128::MAX));
            assert(!zfits);
        }
    }
}

} // verus!
