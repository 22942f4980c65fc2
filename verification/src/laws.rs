//! Properties of the interpreter as a whole: how the verbs relate to one another and
//! what the evaluator does with the simplest sentences.
use vstd::prelude::*;
use crate::array::{
    NdView, bcast_shape, lemma_co_broadcast_symmetric, nonzero_size, shape_fits, shape_size, zip_view,
};
use crate::cells::{cell_size, cells_nd, cells_spec, lemma_size_first, nonzero_factor};
use crate::eval::{Step, eval_spec, parse_loop, step, without_placeholders};
use crate::primitives::primitive_word;
use crate::scan::{
    TokenKind, literal_items, litnum_token, litstring_token, name_end, num_char, quote_end,
    scan_from, scan_spec, token,
};
use crate::text::{
    all_digits, dashes, decimal_ok, digits_value, parse_i64, float_syntax, is_digit, is_white, lead_count, lemma_lead_count,
    split_white, undouble_quotes, unsigned_part,
};
use crate::verbs::{
    IntOp, cycle, dollar_spec, exec_spec, ext_add, int_op_value, int_zip, ints_as_shape,
    item_shape, lemma_len_fits, number_spec, plus_spec, promote, reshape_shape, shape_as_ints,
    times_spec,
};
use crate::word::{ArrayV, FloatV, Outcome, VerbV, WordV, char_vector_word, int_vector_word};
use crate::array::vector_view;

verus! {

/// A noun whose elements are floating point.
pub open spec fn is_float_noun(w: WordV) -> bool {
    w matches WordV::Noun(ArrayV::Float(_))
}

/// Broadcasting does not depend on the order of the operands.
proof fn lemma_bcast_shape_symmetric(a: Seq<usize>, b: Seq<usize>)
    ensures
        bcast_shape(a, b) == bcast_shape(b, a),
{
    lemma_co_broadcast_symmetric(a, b);
}

/// Pairing `y` with `x` gives the pairs of `x` with `y`, each one swapped.
proof fn lemma_zip_swap<A, B>(x: NdView<A>, y: NdView<B>)
    ensures
        zip_view(x, y) is Some <==> zip_view(y, x) is Some,
        zip_view(x, y) is Some ==> ({
            let p = zip_view(x, y)->0;
            let q = zip_view(y, x)->0;
            &&& q.shape == p.shape
            &&& q.data.len() == p.data.len()
            &&& forall|k: int| 0 <= k < p.data.len() ==> #[trigger] q.data[k] == (p.data[k].1, p.data[k].0)
        }),
{
    lemma_bcast_shape_symmetric(x.shape, y.shape);
}

/// `x op y` and `y op x` agree for the commutative operations.
proof fn lemma_int_zip_commutes(op: IntOp, x: NdView<i64>, y: NdView<i64>)
    requires
        op != IntOp::Sub,
    ensures
        int_zip(op, x, y) == int_zip(op, y, x),
{
    lemma_zip_swap(x, y);
    if zip_view(x, y) is Some {
        let p = zip_view(x, y)->0;
        let q = zip_view(y, x)->0;
        assert forall|k: int| 0 <= k < p.data.len() implies int_op_value(
            op,
            q.data[k].0 as int,
            q.data[k].1 as int,
        ) == int_op_value(op, p.data[k].0 as int, p.data[k].1 as int) by {
            let a = p.data[k].0 as int;
            let b = p.data[k].1 as int;
            assert(q.data[k] == (p.data[k].1, p.data[k].0));
            assert(a * b == b * a) by (nonlinear_arith);
        }
        let fits_p = forall|k: int|
            0 <= k < p.data.len() ==> i64::MIN <= #[trigger] int_op_value(
                op,
                p.data[k].0 as int,
                p.data[k].1 as int,
            ) <= i64::MAX;
        let fits_q = forall|k: int|
            0 <= k < q.data.len() ==> i64::MIN <= #[trigger] int_op_value(
                op,
                q.data[k].0 as int,
                q.data[k].1 as int,
            ) <= i64::MAX;
        if fits_p {
            assert forall|k: int| 0 <= k < q.data.len() implies i64::MIN <= #[trigger] int_op_value(
                op,
                q.data[k].0 as int,
                q.data[k].1 as int,
            ) <= i64::MAX by {
                assert(i64::MIN <= int_op_value(op, p.data[k].0 as int, p.data[k].1 as int)
                    <= i64::MAX);
            }
        }
        if fits_q {
            assert forall|k: int| 0 <= k < p.data.len() implies i64::MIN <= #[trigger] int_op_value(
                op,
                p.data[k].0 as int,
                p.data[k].1 as int,
            ) <= i64::MAX by {
                assert(i64::MIN <= int_op_value(op, q.data[k].0 as int, q.data[k].1 as int)
                    <= i64::MAX);
            }
        }
        let fp = |r: (i64, i64)| int_op_value(op, r.0 as int, r.1 as int) as i64;
        assert(q.data.map_values(fp) =~= p.data.map_values(fp));
    }
}

proof fn lemma_ext_add_commutes(x: NdView<i128>, y: NdView<i128>)
    ensures
        ext_add(x, y) == ext_add(y, x),
{
    lemma_zip_swap(x, y);
    if zip_view(x, y) is Some {
        let p = zip_view(x, y)->0;
        let q = zip_view(y, x)->0;
        let fp = |r: (i128, i128)| (r.0 + r.1) as i128;
        assert(q.data.map_values(fp) =~= p.data.map_values(fp));
        let fits_p = forall|k: int|
            0 <= k < p.data.len() ==> i128::MIN <= #[trigger] (p.data[k].0 + p.data[k].1)
                <= i128::MAX;
        let fits_q = forall|k: int|
            0 <= k < q.data.len() ==> i128::MIN <= #[trigger] (q.data[k].0 + q.data[k].1)
                <= i128::MAX;
        if fits_p {
            assert forall|k: int| 0 <= k < q.data.len() implies i128::MIN <= #[trigger] (
            q.data[k].0 + q.data[k].1) <= i128::MAX by {
                assert(i128::MIN <= p.data[k].0 + p.data[k].1 <= i128::MAX);
            }
        }
        if fits_q {
            assert forall|k: int| 0 <= k < p.data.len() implies i128::MIN <= #[trigger] (
            p.data[k].0 + p.data[k].1) <= i128::MAX by {
                assert(i128::MIN <= q.data[k].0 + q.data[k].1 <= i128::MAX);
            }
        }
    }
}

/// Promoting `y` against `x` gives the promotion of `x` against `y`, swapped.
proof fn lemma_promote_swap(x: ArrayV, y: ArrayV)
    ensures
        promote(y, x) == (promote(x, y).1, promote(x, y).0),
{
}

/// Dyadic `+` commutes: `x + y` and `y + x` give the same result (or fail alike) for all
/// words other than floating-point nouns.
pub proof fn law_plus_commutes(x: WordV, y: WordV)
    requires
        !is_float_noun(x),
        !is_float_noun(y),
    ensures
        plus_spec(Some(x), y) == plus_spec(Some(y), x),
{
    if let (WordV::Noun(xa), WordV::Noun(ya)) = (x, y) {
        lemma_promote_swap(xa, ya);
        match promote(xa, ya) {
            (ArrayV::Int(a), ArrayV::Int(b)) => lemma_int_zip_commutes(IntOp::Add, a, b),
            (ArrayV::ExtInt(a), ArrayV::ExtInt(b)) => lemma_ext_add_commutes(a, b),
            _ => {},
        }
    }
}

/// Dyadic `*` commutes: `x * y` and `y * x` give the same result (or fail alike).
pub proof fn law_times_commutes(x: WordV, y: WordV)
    ensures
        times_spec(Some(x), y) == times_spec(Some(y), x),
{
    if let (WordV::Noun(ArrayV::Int(a)), WordV::Noun(ArrayV::Int(b))) = (x, y) {
        lemma_int_zip_commutes(IntOp::Mul, a, b);
    }
}

/// Promotion changes the precision of the elements, never the shapes or the number of
/// elements.
pub proof fn law_promotion_keeps_shapes(x: ArrayV, y: ArrayV)
    ensures
        promote(x, y).0.shape() == x.shape(),
        promote(x, y).1.shape() == y.shape(),
        promote(x, y).0.len() == x.len(),
        promote(x, y).1.len() == y.len(),
{
}

/// Monadic `#` (tally) counts items: for a noun with axes it is the first entry of monadic
/// `$` (shape of), which is also the number of cells that the noun splits into; an atom
/// has one item.
pub proof fn law_tally_counts_items(a: ArrayV)
    requires
        a.wf(),
    ensures
        dollar_spec(None, WordV::Noun(a)) == Outcome::Value(
            int_vector_word(shape_as_ints(a.shape())),
        ),
        a.shape().len() >= 1 ==> number_spec(None, WordV::Noun(a)) == Outcome::Value(
            int_vector_word(seq![shape_as_ints(a.shape())[0]]),
        ),
        a.shape().len() >= 1 ==> number_spec(None, WordV::Noun(a)) == Outcome::Value(
            int_vector_word(seq![cells_spec(a).len() as i64]),
        ),
        a.shape().len() == 0 ==> number_spec(None, WordV::Noun(a)) == Outcome::Value(
            int_vector_word(seq![1i64]),
        ),
{
    lemma_len_fits(a);
}

/// The shape of `x $ y` is the list `x` followed by the shape of the items of `y`,
/// whenever the reshape succeeds.
pub proof fn law_shape_of_reshape(x: NdView<i64>, y: ArrayV)
    requires
        y.wf(),
        dollar_spec(Some(WordV::Noun(ArrayV::Int(x))), WordV::Noun(y)) is Value,
    ensures
        ({
            let r = dollar_spec(Some(WordV::Noun(ArrayV::Int(x))), WordV::Noun(y))->Value_0;
            dollar_spec(None, r) == Outcome::Value(
                int_vector_word(x.data + shape_as_ints(item_shape(y.shape()))),
            )
        }),
{
    lemma_len_fits(y);
    let s = ints_as_shape(x.data);
    assert(shape_as_ints(s) =~= x.data);
    let t = reshape_shape(x.data, y);
    assert(shape_as_ints(t) =~= x.data + shape_as_ints(item_shape(y.shape())));
}

/// Reshaping a list of integers to a shape with as many positions as it has elements
/// keeps its elements in order.
pub proof fn law_reshape_keeps_elements(x: NdView<i64>, y: NdView<i64>)
    requires
        y.shape.len() == 1,
        dollar_spec(Some(WordV::Noun(ArrayV::Int(x))), WordV::Noun(ArrayV::Int(y))) is Value,
        shape_size(ints_as_shape(x.data)) == y.data.len(),
    ensures
        dollar_spec(Some(WordV::Noun(ArrayV::Int(x))), WordV::Noun(ArrayV::Int(y)))
            == Outcome::Value(
            WordV::Noun(ArrayV::Int(NdView { shape: ints_as_shape(x.data), data: y.data })),
        ),
{
    let t = reshape_shape(x.data, ArrayV::Int(y));
    assert(item_shape(y.shape) =~= Seq::<usize>::empty());
    assert(t =~= ints_as_shape(x.data));
    let n = y.data.len() as int;
    assert(cycle(y.data, shape_size(t), 0i64) =~= y.data) by {
        assert forall|k: int| 0 <= k < n implies #[trigger] cycle(y.data, shape_size(t), 0i64)[k]
            == y.data[k] by {
            assert(k % n == k) by (nonlinear_arith)
                requires
                    0 <= k < n,
            ;
        }
    }
}

/// A verb that succeeds gives a noun.
pub proof fn lemma_verb_results_are_nouns(v: VerbV, x: Option<WordV>, y: WordV)
    ensures
        exec_spec(v, x, y) matches Outcome::Value(r) ==> r is Noun,
{
    reveal(exec_spec);
}

/// `n` parser placeholders.
pub open spec fn nothings(n: nat) -> Seq<WordV> {
    Seq::new(n, |i: int| WordV::Nothing)
}

proof fn lemma_without_placeholders(r: WordV, n: nat)
    requires
        !(r is StartOfLine) && !(r is Nothing),
    ensures
        without_placeholders(seq![WordV::StartOfLine, r] + nothings(n)) == seq![r],
    decreases n,
{
    reveal_with_fuel(Seq::<_>::filter, 1);
    let s = seq![WordV::StartOfLine, r] + nothings(n);
    if n == 0 {
        assert(s =~= seq![WordV::StartOfLine, r]);
        assert(s.drop_last() =~= seq![WordV::StartOfLine]);
        assert(s.drop_last().drop_last() =~= Seq::<WordV>::empty());
        reveal_with_fuel(Seq::<_>::filter, 3);
        assert(without_placeholders(s) =~= seq![r]);
    } else {
        lemma_without_placeholders(r, (n - 1) as nat);
        assert(s.drop_last() =~= seq![WordV::StartOfLine, r] + nothings((n - 1) as nat));
    }
}

/// The stack that the parser reaches after a step.
pub open spec fn next_stack(st: Step) -> Seq<WordV> {
    match st {
        Step::Reduced(s) => s,
        Step::Shifted(s) => s,
        Step::Done(s) => s,
        Step::Abort => seq![],
    }
}

/// Evaluating a sentence made of one noun gives that noun.
pub proof fn law_eval_noun(a: ArrayV)
    ensures
        eval_spec(seq![WordV::Noun(a)]) == Outcome::Value(WordV::Noun(a)),
{
    let n = WordV::Noun(a);
    let q0 = seq![WordV::StartOfLine] + seq![n];
    let s0 = Seq::<WordV>::empty();
    assert(step(q0, s0) is Shifted);
    let s1 = seq![n] + nothings(4);
    assert(next_stack(step(q0, s0)) =~= s1);
    let q1 = q0.drop_last();
    assert(q1 =~= seq![WordV::StartOfLine]);
    assert(step(q1, s1) is Shifted);
    let s2 = seq![WordV::StartOfLine, n] + nothings(4);
    assert(next_stack(step(q1, s1)) =~= s2);
    let q2 = q1.drop_last();
    assert(q2 =~= Seq::<WordV>::empty());
    assert(step(q2, s2) is Done);
    assert(next_stack(step(q2, s2)) =~= s2);
    assert(parse_loop(q2, s2) == Outcome::Value(s2));
    assert(parse_loop(q1, s1) == Outcome::Value(s2));
    assert(parse_loop(q0, s0) == Outcome::Value(s2));
    lemma_without_placeholders(n, 4);
}

/// What the parser gives for a verb's outcome: its value, or a panic when it failed.
pub open spec fn applied(o: Outcome<WordV>) -> Outcome<WordV> {
    match o {
        Outcome::Value(r) => Outcome::Value(r),
        _ => Outcome::Abort,
    }
}

/// Evaluating `v y`, a verb followed by a noun, applies the verb monadically to the noun.
pub proof fn law_eval_monad(name: Seq<char>, v: VerbV, y: ArrayV)
    ensures
        eval_spec(seq![WordV::Verb(name, Box::new(v)), WordV::Noun(y)]) == applied(
            exec_spec(v, None, WordV::Noun(y)),
        ),
{
    let vw = WordV::Verb(name, Box::new(v));
    let yw = WordV::Noun(y);
    let q0 = seq![WordV::StartOfLine] + seq![vw, yw];
    let s0 = Seq::<WordV>::empty();
    assert(step(q0, s0) is Shifted);
    let s1 = seq![yw] + nothings(4);
    assert(next_stack(step(q0, s0)) =~= s1);
    let q1 = q0.drop_last();
    assert(q1 =~= seq![WordV::StartOfLine, vw]);
    assert(step(q1, s1) is Shifted);
    let s2 = seq![vw, yw] + nothings(4);
    assert(next_stack(step(q1, s1)) =~= s2);
    let q2 = q1.drop_last();
    assert(q2 =~= seq![WordV::StartOfLine]);
    assert(step(q2, s2) is Shifted);
    let s3 = seq![WordV::StartOfLine, vw, yw] + nothings(4);
    assert(next_stack(step(q2, s2)) =~= s3);
    let q3 = q2.drop_last();
    assert(q3 =~= Seq::<WordV>::empty());
    lemma_verb_results_are_nouns(v, None, yw);
    match exec_spec(v, None, yw) {
        Outcome::Value(r) => {
            assert(step(q3, s3) is Reduced);
            let s4 = seq![WordV::StartOfLine, r] + nothings(4);
            assert(next_stack(step(q3, s3)) =~= s4);
            assert(step(q3, s4) is Done);
            assert(next_stack(step(q3, s4)) =~= s4);
            assert(parse_loop(q3, s4) == Outcome::Value(s4));
            assert(parse_loop(q3, s3) == Outcome::Value(s4));
            lemma_without_placeholders(r, 4);
        },
        _ => {
            assert(step(q3, s3) is Abort);
        },
    }
    assert(parse_loop(q2, s2) == parse_loop(q3, s3));
    assert(parse_loop(q1, s1) == parse_loop(q3, s3));
    assert(parse_loop(q0, s0) == parse_loop(q3, s3));
}

/// Evaluating `x v y`, a verb between two nouns, applies the verb dyadically to them.
pub proof fn law_eval_dyad(x: ArrayV, name: Seq<char>, v: VerbV, y: ArrayV)
    ensures
        eval_spec(seq![WordV::Noun(x), WordV::Verb(name, Box::new(v)), WordV::Noun(y)])
            == applied(exec_spec(v, Some(WordV::Noun(x)), WordV::Noun(y))),
{
    let xw = WordV::Noun(x);
    let vw = WordV::Verb(name, Box::new(v));
    let yw = WordV::Noun(y);
    let q0 = seq![WordV::StartOfLine] + seq![xw, vw, yw];
    let s0 = Seq::<WordV>::empty();
    assert(step(q0, s0) is Shifted);
    let s1 = seq![yw] + nothings(4);
    assert(next_stack(step(q0, s0)) =~= s1);
    let q1 = q0.drop_last();
    assert(q1 =~= seq![WordV::StartOfLine, xw, vw]);
    assert(step(q1, s1) is Shifted);
    let s2 = seq![vw, yw] + nothings(4);
    assert(next_stack(step(q1, s1)) =~= s2);
    let q2 = q1.drop_last();
    assert(q2 =~= seq![WordV::StartOfLine, xw]);
    assert(step(q2, s2) is Shifted);
    let s3 = seq![xw, vw, yw] + nothings(4);
    assert(next_stack(step(q2, s2)) =~= s3);
    let q3 = q2.drop_last();
    assert(q3 =~= seq![WordV::StartOfLine]);
    assert(step(q3, s3) is Shifted);
    let s4 = seq![WordV::StartOfLine, xw, vw, yw] + nothings(4);
    assert(next_stack(step(q3, s3)) =~= s4);
    let q4 = q3.drop_last();
    assert(q4 =~= Seq::<WordV>::empty());
    lemma_verb_results_are_nouns(v, Some(xw), yw);
    match exec_spec(v, Some(xw), yw) {
        Outcome::Value(r) => {
            assert(step(q4, s4) is Reduced);
            let s5 = seq![WordV::StartOfLine, r] + nothings(4);
            assert(next_stack(step(q4, s4)) =~= s5);
            assert(step(q4, s5) is Done);
            assert(next_stack(step(q4, s5)) =~= s5);
            assert(parse_loop(q4, s5) == Outcome::Value(s5));
            assert(parse_loop(q4, s4) == Outcome::Value(s5));
            lemma_without_placeholders(r, 4);
        },
        _ => {
            assert(step(q4, s4) is Abort);
        },
    }
    assert(parse_loop(q3, s3) == parse_loop(q4, s4));
    assert(parse_loop(q2, s2) == parse_loop(q4, s4));
    assert(parse_loop(q1, s1) == parse_loop(q4, s4));
    assert(parse_loop(q0, s0) == parse_loop(q4, s4));
}

/// The elements of a list of arrays, one array after the other.
pub open spec fn concat_data<T>(cs: Seq<NdView<T>>) -> Seq<T>
    decreases cs.len(),
{
    if cs.len() == 0 {
        seq![]
    } else {
        concat_data(cs.drop_last()) + cs.last().data
    }
}

proof fn lemma_cells_prefix<T>(a: NdView<T>, k: int)
    requires
        a.wf(),
        a.shape.len() >= 1,
        0 <= k <= a.shape[0],
    ensures
        concat_data(cells_nd(a).take(k)) == a.data.subrange(0, k * (cell_size(a.shape) as int)),
    decreases k,
{
    let c = cell_size(a.shape) as int;
    lemma_size_first(a.shape);
    let n0 = a.shape[0] as int;
    assert(a.data.len() == n0 * c);
    if k == 0 {
        assert(cells_nd(a).take(0) =~= Seq::<NdView<T>>::empty());
        assert(a.data.subrange(0, 0 * c) =~= Seq::<T>::empty());
    } else {
        lemma_cells_prefix(a, k - 1);
        assert(cells_nd(a).take(k).drop_last() =~= cells_nd(a).take(k - 1));
        assert((k - 1) * c + c == k * c) by (nonlinear_arith);
        assert(k * c <= n0 * c) by (nonlinear_arith)
            requires
                k <= n0,
                c >= 0,
        ;
        assert(0 <= (k - 1) * c) by (nonlinear_arith)
            requires
                k >= 1,
                c >= 0,
        ;
        assert(a.data.subrange(0, k * c) =~= a.data.subrange(0, (k - 1) * c) + a.data.subrange(
            (k - 1) * c,
            k * c,
        ));
    }
}

/// Splitting a noun into its cells: there is one cell per position along the first axis,
/// every cell is a well-formed array of the remaining axes, and the cells' elements, one
/// cell after the other, are the elements of the noun.
pub proof fn law_cells_partition<T>(a: NdView<T>)
    requires
        a.wf(),
        a.shape.len() >= 1,
    ensures
        cells_nd(a).len() == a.shape[0],
        forall|k: int|
            0 <= k < cells_nd(a).len() ==> (#[trigger] cells_nd(a)[k]).shape == a.shape.skip(1)
                && cells_nd(a)[k].wf(),
        concat_data(cells_nd(a)) == a.data,
{
    let c = cell_size(a.shape) as int;
    lemma_size_first(a.shape);
    let n0 = a.shape[0] as int;
    lemma_cells_prefix(a, n0);
    assert(cells_nd(a).take(n0) =~= cells_nd(a));
    assert(a.data.subrange(0, n0 * c) =~= a.data);
    let rest = a.shape.skip(1);
    let f = nonzero_factor(a.shape[0]);
    let nz = nonzero_size(rest);
    assert(nz <= f * nz) by (nonlinear_arith)
        requires
            f >= 1,
    ;
    assert(shape_fits(rest));
    assert forall|k: int| 0 <= k < cells_nd(a).len() implies (#[trigger] cells_nd(a)[k]).shape
        == a.shape.skip(1) && cells_nd(a)[k].wf() by {
        assert(k * c + c <= n0 * c) by (nonlinear_arith)
            requires
                k < n0,
                c >= 0,
        ;
        assert((k + 1) * c == k * c + c) by (nonlinear_arith);
        assert(0 <= k * c) by (nonlinear_arith)
            requires
                k >= 0,
                c >= 0,
        ;
    }
}

/// `s` with each quote doubled, as a J string literal spells it.
pub open spec fn double_quotes(s: Seq<char>) -> Seq<char>
    decreases s.len(),
{
    if s.len() == 0 {
        seq![]
    } else if s[0] == '\'' {
        seq!['\'', '\''] + double_quotes(s.drop_first())
    } else {
        seq![s[0]] + double_quotes(s.drop_first())
    }
}

/// The J string literal for `s`: `s` between quotes, each quote inside doubled.
pub open spec fn quoted(s: Seq<char>) -> Seq<char> {
    seq!['\''] + double_quotes(s) + seq!['\'']
}

proof fn lemma_undouble_double(s: Seq<char>)
    ensures
        undouble_quotes(double_quotes(s)) == s,
    decreases s.len(),
{
    if s.len() > 0 {
        let d = double_quotes(s);
        let r = s.drop_first();
        lemma_undouble_double(r);
        if s[0] == '\'' {
            assert(d.skip(2) =~= double_quotes(r));
        } else {
            assert(d.drop_first() =~= double_quotes(r));
        }
        assert(s =~= seq![s[0]] + r);
    }
}

proof fn lemma_quote_end_doubled(p: Seq<char>, s: Seq<char>, rest: Seq<char>)
    requires
        !s.contains('\n'),
        rest.len() == 0 || rest[0] != '\'',
    ensures
        quote_end(p + double_quotes(s) + seq!['\''] + rest, p.len() as int, false) == Some(
            (p.len() + double_quotes(s).len()) as int,
        ),
    decreases s.len(),
{
    let q = p + double_quotes(s) + seq!['\''] + rest;
    let i = p.len() as int;
    if s.len() == 0 {
        assert(q =~= p + seq!['\''] + rest);
        assert(q[i] == '\'');
        if rest.len() > 0 {
            assert(q[i + 1] == rest[0]);
        }
        assert(quote_end(q, i + 1, true) == Some(i));
    } else {
        let r = s.drop_first();
        assert(!r.contains('\n')) by {
            if r.contains('\n') {
                let j = choose|j: int| 0 <= j < r.len() && r[j] == '\n';
                assert(s[j + 1] == '\n');
            }
        }
        assert(s[0] != '\n') by {
            assert(s.contains(s[0]));
        }
        if s[0] == '\'' {
            let p2 = p + seq!['\'', '\''];
            lemma_quote_end_doubled(p2, r, rest);
            assert(q =~= p2 + double_quotes(r) + seq!['\''] + rest);
            assert(q[i] == '\'' && q[i + 1] == '\'');
            assert(quote_end(q, i + 1, true) == quote_end(q, i + 2, false));
        } else {
            let p2 = p + seq![s[0]];
            lemma_quote_end_doubled(p2, r, rest);
            assert(q =~= p2 + double_quotes(r) + seq!['\''] + rest);
            assert(q[i] == s[0]);
        }
    }
}

/// A string literal is read up to its closing quote: `s` quoted, with each quote doubled,
/// and followed by any text that does not begin with a quote, scans as the noun holding
/// the characters of `s`, and the literal ends at its closing quote (for every `s` without
/// a newline, which would leave the quote open).
pub proof fn law_string_literal_then_text(s: Seq<char>, rest: Seq<char>)
    requires
        !s.contains('\n'),
        rest.len() == 0 || rest[0] != '\'',
    ensures
        litstring_token(quoted(s) + rest) == Outcome::Value(
            ((quoted(s).len() - 1) as nat, char_vector_word(s)),
        ),
{
    let q = quoted(s);
    let d = double_quotes(s);
    let t = q + rest;
    lemma_quote_end_doubled(seq!['\''], s, rest);
    assert(t =~= seq!['\''] + d + seq!['\''] + rest);
    assert(t.subrange(1, q.len() - 1) =~= d);
    lemma_undouble_double(s);
}

/// Scanning a string literal gives back the string: a sentence that is `s` between quotes,
/// with each quote in `s` doubled, scans to the one noun holding the characters of `s`
/// (for every `s` without a newline, which would leave the quote open).
pub proof fn law_string_literal_round_trip(s: Seq<char>)
    requires
        !s.contains('\n'),
    ensures
        scan_spec(quoted(s)) == Outcome::Value(seq![char_vector_word(s)]),
{
    let q = quoted(s);
    law_string_literal_then_text(s, seq![]);
    assert(q + Seq::<char>::empty() =~= q);
    assert(q.skip(0) =~= q);
    assert(scan_from(q, q.len() as int) == Outcome::<Seq<WordV>>::Value(seq![]));
    assert(seq![char_vector_word(s)] + Seq::<WordV>::empty() =~= seq![char_vector_word(s)]);
}

proof fn lemma_quote_end_open(q: Seq<char>, i: int)
    requires
        0 <= i,
        forall|j: int| i <= j < q.len() ==> #[trigger] q[j] != '\'',
    ensures
        quote_end(q, i, false) is None,
    decreases q.len() - i,
{
    if i < q.len() {
        lemma_quote_end_open(q, i + 1);
    }
}

/// A string literal that the sentence ends before closing is an open quote, as is one
/// that a newline interrupts.
pub proof fn law_unclosed_string_is_open_quote(s: Seq<char>)
    requires
        s.len() >= 1,
        !s.contains('\''),
    ensures
        litstring_token(seq!['\''] + s) == Outcome::<(nat, WordV)>::Failure("open quote"@),
{
    let q = seq!['\''] + s;
    assert forall|j: int| 1 <= j < q.len() implies #[trigger] q[j] != '\'' by {
        assert(q[j] == s[j - 1]);
        assert(s.contains(s[j - 1]));
    }
    lemma_quote_end_open(q, 1);
}

/// A word that only the parser uses, as padding and as the left edge of a sentence.
pub open spec fn is_placeholder(w: WordV) -> bool {
    w is StartOfLine || w is Nothing
}

/// The value of a sentence is never one of the parser's placeholders.
pub proof fn law_eval_gives_no_placeholder(sentence: Seq<WordV>)
    ensures
        eval_spec(sentence) matches Outcome::Value(w) ==> !is_placeholder(w),
{
    broadcast use vstd::seq_lib::group_filter_ensures;
    if let Outcome::Value(s) = parse_loop(seq![WordV::StartOfLine] + sentence, seq![]) {
        let ws = without_placeholders(s);
        if ws.len() == 1 {
            let pred = |w: WordV| !(w is StartOfLine) && !(w is Nothing);
            assert(pred(s.filter(pred)[0]));
        }
    }
}

proof fn lemma_primitive_not_placeholder(t: Seq<char>)
    ensures
        primitive_word(t) matches Outcome::Value(w) ==> !is_placeholder(w),
{
}

proof fn lemma_name_end_not_placeholder(s: Seq<char>, i: int, p: Option<WordV>)
    requires
        p matches Some(w) ==> !is_placeholder(w),
    ensures
        name_end(s, i, p).1 matches Some(w) ==> !is_placeholder(w),
    decreases s.len() - i,
{
    if i < s.len() {
        let c = s[i];
        lemma_primitive_not_placeholder(s.take(i + 1));
        if c == '.' || c == ':' {
            match primitive_word(s.take(i + 1)) {
                Outcome::Value(w) => lemma_name_end_not_placeholder(s, i + 1, Some(w)),
                _ => lemma_name_end_not_placeholder(s, i + 1, p),
            }
        } else {
            lemma_name_end_not_placeholder(s, i + 1, p);
        }
    }
}

proof fn lemma_token_not_placeholder(kind: TokenKind, s: Seq<char>)
    ensures
        token(kind, s) matches Outcome::Value((_, w)) ==> !is_placeholder(w),
{
    match kind {
        TokenKind::Number => {},
        TokenKind::String => {},
        TokenKind::Name => {
            lemma_name_end_not_placeholder(s, 1, None);
        },
        TokenKind::Primitive => {
            if s.len() > 0 {
                let l = crate::text::lead_count(s.drop_first(), crate::scan::follows(s[0]));
                if let Some(j) = crate::text::char_at_byte(s, (l + 1) as int) {
                    lemma_primitive_not_placeholder(s.take(j));
                }
            }
        },
    }
}

proof fn lemma_scan_from_no_placeholder(cs: Seq<char>, i: int)
    ensures
        scan_from(cs, i) matches Outcome::Value(ws) ==> forall|k: int|
            0 <= k < ws.len() ==> !is_placeholder(#[trigger] ws[k]),
    decreases crate::scan::remaining(cs, i),
{
    if 0 <= i < cs.len() {
        let c = cs[i];
        if c == '(' || c == ')' || crate::text::is_white(c) {
            lemma_scan_from_no_placeholder(cs, i + 1);
        } else if let Some(j) = crate::text::char_at_byte(cs, i) {
            let kind = crate::scan::token_kind(c)->0;
            lemma_token_not_placeholder(kind, cs.skip(j));
            if let Outcome::Value((l, w)) = token(kind, cs.skip(j)) {
                lemma_scan_from_no_placeholder(cs, i + l + 1);
            }
        }
    }
}

/// The scanner never produces the parser's placeholders: every word of a scanned sentence
/// is a word of the language.
pub proof fn law_scan_gives_no_placeholders(sentence: Seq<char>)
    ensures
        scan_spec(sentence) matches Outcome::Value(ws) ==> forall|k: int|
            0 <= k < ws.len() ==> !is_placeholder(#[trigger] ws[k]),
{
    lemma_scan_from_no_placeholder(sentence, 0);
}

/// J evaluates right to left: in `x u y v z`, with nouns `x`, `y`, `z` and verbs `u`, `v`,
/// the verb `v` is applied first, to `y` and `z`, and `u` then to `x` and that result.
pub proof fn law_eval_right_to_left(
    x: ArrayV,
    un: Seq<char>,
    u: VerbV,
    y: ArrayV,
    vn: Seq<char>,
    v: VerbV,
    z: ArrayV,
)
    ensures
        eval_spec(
            seq![
                WordV::Noun(x),
                WordV::Verb(un, Box::new(u)),
                WordV::Noun(y),
                WordV::Verb(vn, Box::new(v)),
                WordV::Noun(z),
            ],
        ) == match exec_spec(v, Some(WordV::Noun(y)), WordV::Noun(z)) {
            Outcome::Value(r) => applied(exec_spec(u, Some(WordV::Noun(x)), r)),
            _ => Outcome::Abort,
        },
{
    let xw = WordV::Noun(x);
    let uw = WordV::Verb(un, Box::new(u));
    let yw = WordV::Noun(y);
    let vw = WordV::Verb(vn, Box::new(v));
    let zw = WordV::Noun(z);
    let q0 = seq![WordV::StartOfLine] + seq![xw, uw, yw, vw, zw];
    let s0 = Seq::<WordV>::empty();
    assert(step(q0, s0) is Shifted);
    let s1 = seq![zw] + nothings(4);
    assert(next_stack(step(q0, s0)) =~= s1);
    let q1 = q0.drop_last();
    assert(q1 =~= seq![WordV::StartOfLine, xw, uw, yw, vw]);
    assert(step(q1, s1) is Shifted);
    let s2 = seq![vw, zw] + nothings(4);
    assert(next_stack(step(q1, s1)) =~= s2);
    let q2 = q1.drop_last();
    assert(q2 =~= seq![WordV::StartOfLine, xw, uw, yw]);
    assert(step(q2, s2) is Shifted);
    let s3 = seq![yw, vw, zw] + nothings(4);
    assert(next_stack(step(q2, s2)) =~= s3);
    let q3 = q2.drop_last();
    assert(q3 =~= seq![WordV::StartOfLine, xw, uw]);
    assert(step(q3, s3) is Shifted);
    let s4 = seq![uw, yw, vw, zw] + nothings(4);
    assert(next_stack(step(q3, s3)) =~= s4);
    let q4 = q3.drop_last();
    assert(q4 =~= seq![WordV::StartOfLine, xw]);
    lemma_verb_results_are_nouns(v, Some(yw), zw);
    match exec_spec(v, Some(yw), zw) {
        Outcome::Value(r1) => {
            assert(step(q4, s4) is Reduced);
            let s5 = seq![uw, r1] + nothings(4);
            assert(next_stack(step(q4, s4)) =~= s5);
            assert(step(q4, s5) is Shifted);
            let s6 = seq![xw, uw, r1] + nothings(4);
            assert(next_stack(step(q4, s5)) =~= s6);
            let q5 = q4.drop_last();
            assert(q5 =~= seq![WordV::StartOfLine]);
            assert(step(q5, s6) is Shifted);
            let s7 = seq![WordV::StartOfLine, xw, uw, r1] + nothings(4);
            assert(next_stack(step(q5, s6)) =~= s7);
            let q6 = q5.drop_last();
            assert(q6 =~= Seq::<WordV>::empty());
            lemma_verb_results_are_nouns(u, Some(xw), r1);
            match exec_spec(u, Some(xw), r1) {
                Outcome::Value(r2) => {
                    assert(step(q6, s7) is Reduced);
                    let s8 = seq![WordV::StartOfLine, r2] + nothings(4);
                    assert(next_stack(step(q6, s7)) =~= s8);
                    assert(step(q6, s8) is Done);
                    assert(next_stack(step(q6, s8)) =~= s8);
                    assert(parse_loop(q6, s8) == Outcome::Value(s8));
                    assert(parse_loop(q6, s7) == Outcome::Value(s8));
                    lemma_without_placeholders(r2, 4);
                },
                _ => {
                    assert(step(q6, s7) is Abort);
                },
            }
            assert(parse_loop(q5, s6) == parse_loop(q6, s7));
            assert(parse_loop(q4, s5) == parse_loop(q6, s7));
            assert(parse_loop(q4, s4) == parse_loop(q6, s7));
        },
        _ => {
            assert(step(q4, s4) is Abort);
        },
    }
    assert(parse_loop(q3, s3) == parse_loop(q4, s4));
    assert(parse_loop(q2, s2) == parse_loop(q4, s4));
    assert(parse_loop(q1, s1) == parse_loop(q4, s4));
    assert(parse_loop(q0, s0) == parse_loop(q4, s4));
}

/// Monads chain to the right of a dyad: in `x u v w y`, with nouns `x`, `y` and verbs
/// `u`, `v`, `w`, the verb `w` is applied to `y`, then `v` to that result, both as monads,
/// and `u` then to `x` and the result of `v` as a dyad. (The rule for a verb, a verb and a
/// noun applies here with a verb to its left.)
pub proof fn law_eval_monads_after_dyad(
    x: ArrayV,
    un: Seq<char>,
    u: VerbV,
    vn: Seq<char>,
    v: VerbV,
    wn: Seq<char>,
    w: VerbV,
    y: ArrayV,
)
    ensures
        eval_spec(
            seq![
                WordV::Noun(x),
                WordV::Verb(un, Box::new(u)),
                WordV::Verb(vn, Box::new(v)),
                WordV::Verb(wn, Box::new(w)),
                WordV::Noun(y),
            ],
        ) == match exec_spec(w, None, WordV::Noun(y)) {
            Outcome::Value(r1) => match exec_spec(v, None, r1) {
                Outcome::Value(r2) => applied(exec_spec(u, Some(WordV::Noun(x)), r2)),
                _ => Outcome::Abort,
            },
            _ => Outcome::Abort,
        },
{
    let xw = WordV::Noun(x);
    let uw = WordV::Verb(un, Box::new(u));
    let vw = WordV::Verb(vn, Box::new(v));
    let ww = WordV::Verb(wn, Box::new(w));
    let yw = WordV::Noun(y);
    let q0 = seq![WordV::StartOfLine] + seq![xw, uw, vw, ww, yw];
    let s0 = Seq::<WordV>::empty();
    assert(step(q0, s0) is Shifted);
    let s1 = seq![yw] + nothings(4);
    assert(next_stack(step(q0, s0)) =~= s1);
    let q1 = q0.drop_last();
    assert(q1 =~= seq![WordV::StartOfLine, xw, uw, vw, ww]);
    assert(step(q1, s1) is Shifted);
    let s2 = seq![ww, yw] + nothings(4);
    assert(next_stack(step(q1, s1)) =~= s2);
    let q2 = q1.drop_last();
    assert(q2 =~= seq![WordV::StartOfLine, xw, uw, vw]);
    assert(step(q2, s2) is Shifted);
    let s3 = seq![vw, ww, yw] + nothings(4);
    assert(next_stack(step(q2, s2)) =~= s3);
    let q3 = q2.drop_last();
    assert(q3 =~= seq![WordV::StartOfLine, xw, uw]);
    assert(step(q3, s3) is Shifted);
    let s4 = seq![uw, vw, ww, yw] + nothings(4);
    assert(next_stack(step(q3, s3)) =~= s4);
    let q4 = q3.drop_last();
    assert(q4 =~= seq![WordV::StartOfLine, xw]);
    lemma_verb_results_are_nouns(w, None, yw);
    match exec_spec(w, None, yw) {
        Outcome::Value(r1) => {
            assert(step(q4, s4) is Reduced);
            let s5 = seq![uw, vw, r1] + nothings(4);
            assert(next_stack(step(q4, s4)) =~= s5);
            assert(step(q4, s5) is Shifted);
            let s6 = seq![xw, uw, vw, r1] + nothings(4);
            assert(next_stack(step(q4, s5)) =~= s6);
            let q5 = q4.drop_last();
            assert(q5 =~= seq![WordV::StartOfLine]);
            lemma_verb_results_are_nouns(v, None, r1);
            match exec_spec(v, None, r1) {
                Outcome::Value(r2) => {
                    assert(step(q5, s6) is Reduced);
                    let s7 = seq![xw, uw, r2] + nothings(4);
                    assert(next_stack(step(q5, s6)) =~= s7);
                    assert(step(q5, s7) is Shifted);
                    let s8 = seq![WordV::StartOfLine, xw, uw, r2] + nothings(4);
                    assert(next_stack(step(q5, s7)) =~= s8);
                    let q6 = q5.drop_last();
                    assert(q6 =~= Seq::<WordV>::empty());
                    lemma_verb_results_are_nouns(u, Some(xw), r2);
                    match exec_spec(u, Some(xw), r2) {
                        Outcome::Value(r3) => {
                            assert(step(q6, s8) is Reduced);
                            let s9 = seq![WordV::StartOfLine, r3] + nothings(4);
                            assert(next_stack(step(q6, s8)) =~= s9);
                            assert(step(q6, s9) is Done);
                            assert(next_stack(step(q6, s9)) =~= s9);
                            assert(parse_loop(q6, s9) == Outcome::Value(s9));
                            assert(parse_loop(q6, s8) == Outcome::Value(s9));
                            lemma_without_placeholders(r3, 4);
                        },
                        _ => {
                            assert(step(q6, s8) is Abort);
                        },
                    }
                    assert(parse_loop(q5, s7) == parse_loop(q6, s8));
                    assert(parse_loop(q5, s6) == parse_loop(q6, s8));
                },
                _ => {
                    assert(step(q5, s6) is Abort);
                },
            }
            assert(parse_loop(q4, s5) == parse_loop(q5, s6));
            assert(parse_loop(q4, s4) == parse_loop(q5, s6));
        },
        _ => {
            assert(step(q4, s4) is Abort);
        },
    }
    assert(parse_loop(q3, s3) == parse_loop(q4, s4));
    assert(parse_loop(q2, s2) == parse_loop(q4, s4));
    assert(parse_loop(q1, s1) == parse_loop(q4, s4));
    assert(parse_loop(q0, s0) == parse_loop(q4, s4));
}

/// A numeric literal written with a decimal point or an exponent, digits then `.` or `e`
/// then digits (such as `2.5` or `1e3`), is a floating-point number: the sentence made of
/// it scans to one floating-point noun holding that literal.
pub proof fn law_float_literal(d1: Seq<char>, sep: char, d2: Seq<char>)
    requires
        sep == '.' || sep == 'e',
        d1.len() > 0,
        d2.len() > 0,
        all_digits(d1),
        all_digits(d2),
    ensures
        scan_spec(d1 + seq![sep] + d2) == Outcome::Value(
            seq![WordV::Noun(ArrayV::Float(vector_view(seq![FloatV::Literal(d1 + seq![sep] + d2)])))],
        ),
{
    let t = d1 + seq![sep] + d2;
    let n = t.len() as int;
    let m = d1.len() as int;
    assert(t[m] == sep);
    assert forall|i: int| 0 <= i < n implies is_digit(#[trigger] t[i]) || t[i] == sep by {
        if i < m {
            assert(t[i] == d1[i]);
        } else if i > m {
            assert(t[i] == d2[i - m - 1]);
        }
    }
    // the whole sentence is one numeric literal
    let nc = num_char();
    assert forall|i: int| 0 <= i < n implies #[trigger] nc(t[i]) by {
        assert(is_digit(t[i]) || t[i] == sep);
    }
    lemma_lead_count(t, nc, n);
    assert(t.take(n) =~= t);
    assert(!t.contains('j')) by {
        if t.contains('j') {
            let i = choose|i: int| 0 <= i < n && t[i] == 'j';
            assert(is_digit(t[i]) || t[i] == sep);
        }
    }
    assert(!t.contains('r')) by {
        if t.contains('r') {
            let i = choose|i: int| 0 <= i < n && t[i] == 'r';
            assert(is_digit(t[i]) || t[i] == sep);
        }
    }
    assert(t.contains(sep));
    // one item, the literal itself
    let nw = |c: char| !is_white(c);
    assert forall|i: int| 0 <= i < n implies #[trigger] nw(t[i]) by {
        assert(is_digit(t[i]) || t[i] == sep);
    }
    lemma_lead_count(t, nw, n);
    assert(is_digit(t[0]));
    assert(!is_white(t[0]));
    assert(t.skip(n) =~= Seq::<char>::empty());
    assert(split_white(Seq::<char>::empty()) =~= Seq::<Seq<char>>::empty());
    assert(split_white(t) == seq![t.take(n)] + split_white(t.skip(n)));
    assert(split_white(t) =~= seq![t]);
    assert(dashes(t) =~= t) by {
        assert forall|i: int| 0 <= i < n implies dashes(t)[i] == t[i] by {
            assert(is_digit(t[i]) || t[i] == sep);
        }
    }
    assert(literal_items(t) =~= seq![t]);
    // which is a float literal
    assert(unsigned_part(t) == t);
    let dg = |c: char| is_digit(c);
    assert forall|i: int| 0 <= i < m implies #[trigger] dg(t[i]) by {
        assert(t[i] == d1[i]);
    }
    lemma_lead_count(t, dg, m);
    let r = t.skip(m);
    assert(r =~= seq![sep] + d2);
    assert(r.drop_first() =~= d2);
    assert(is_digit(d2[0]));
    assert(unsigned_part(d2) == d2);
    if sep == '.' {
        assert forall|i: int| 0 <= i < d2.len() implies #[trigger] dg(d2[i]) by {}
        lemma_lead_count(d2, dg, d2.len() as int);
        assert(d2.skip(d2.len() as int) =~= Seq::<char>::empty());
    }
    assert(decimal_ok(t));
    assert(float_syntax(t));
    let items = literal_items(t);
    assert(items.map_values(|u: Seq<char>| FloatV::Literal(u)) =~= seq![FloatV::Literal(t)]);
    assert(litnum_token(t) == Outcome::Value(
        (
            (n - 1) as nat,
            WordV::Noun(ArrayV::Float(vector_view(seq![FloatV::Literal(t)]))),
        ),
    ));
    // and the scanner reads it from the first character to the last
    assert(t.skip(0) =~= t);
    assert(scan_from(t, n) == Outcome::<Seq<WordV>>::Value(seq![]));
    let w = WordV::Noun(ArrayV::Float(vector_view(seq![FloatV::Literal(t)])));
    assert(seq![w] + Seq::<WordV>::empty() =~= seq![w]);
}

/// The shape that `x $ y` has: the entries of `x`, then the axes of `y` after the first.
pub open spec fn shape_after_reshape(x: Seq<i64>, y: Seq<usize>) -> Seq<usize> {
    x.map_values(|e: i64| e as usize) + (if y.len() == 0 {
        y
    } else {
        y.skip(1)
    })
}

/// Reshape of an integer noun repeats its elements cyclically: every element `k` of
/// `x $ y` is element `k` of `y` counted modulo the number of elements of `y` (0 when `y`
/// is empty); a negative length is a domain error; and every non-negative shape whose
/// array fits gives a result.
pub proof fn law_reshape_cycles(x: NdView<i64>, y: NdView<i64>)
    ensures
        ({
            let o = dollar_spec(Some(WordV::Noun(ArrayV::Int(x))), WordV::Noun(ArrayV::Int(y)));
            let t = shape_after_reshape(x.data, y.shape);
            &&& (exists|k: int| 0 <= k < x.data.len() && #[trigger] x.data[k] < 0) ==> o
                == Outcome::<WordV>::Failure("domain error"@)
            &&& ((forall|k: int| 0 <= k < x.data.len() ==> 0 <= #[trigger] x.data[k] <= isize::MAX)
                && shape_fits(t) && t.len() <= isize::MAX) ==> o is Value
            &&& o is Value ==> {
                &&& o->Value_0 matches WordV::Noun(ArrayV::Int(r))
                &&& o->Value_0->Noun_0->Int_0.shape == t
                &&& o->Value_0->Noun_0->Int_0.data.len() == shape_size(t)
                &&& forall|k: int|
                    0 <= k < shape_size(t) ==> #[trigger] o->Value_0->Noun_0->Int_0.data[k] == (
                    if y.data.len() > 0 {
                        y.data[k % (y.data.len() as int)]
                    } else {
                        0i64
                    })
            }
        }),
{
    let t = shape_after_reshape(x.data, y.shape);
    assert(t =~= reshape_shape(x.data, ArrayV::Int(y)));
}

/// A numeric literal made of decimal digits, with `_` in front for a negative number,
/// is an integer: the sentence made of it scans to one integer noun holding the value of
/// the digits (negated after `_`), whenever that value fits in `i64`.
pub proof fn law_integer_literal(negative: bool, d: Seq<char>)
    requires
        d.len() > 0,
        all_digits(d),
        (if negative {
            -(digits_value(d) as int)
        } else {
            digits_value(d) as int
        }) >= i64::MIN,
        digits_value(d) <= i64::MAX,
    ensures
        ({
            let t = if negative {
                seq!['_'] + d
            } else {
                d
            };
            let v = if negative {
                -(digits_value(d) as int)
            } else {
                digits_value(d) as int
            };
            scan_spec(t) == Outcome::Value(
                seq![WordV::Noun(ArrayV::Int(vector_view(seq![v as i64])))],
            )
        }),
{
    let t = if negative {
        seq!['_'] + d
    } else {
        d
    };
    let v = if negative {
        -(digits_value(d) as int)
    } else {
        digits_value(d) as int
    };
    let n = t.len() as int;
    let off: int = if negative {
        1
    } else {
        0
    };
    assert forall|i: int| 0 <= i < n implies is_digit(#[trigger] t[i]) || t[i] == '_' by {
        if i >= off {
            assert(t[i] == d[i - off]);
        }
    }
    let nc = num_char();
    assert forall|i: int| 0 <= i < n implies #[trigger] nc(t[i]) by {
        assert(is_digit(t[i]) || t[i] == '_');
    }
    lemma_lead_count(t, nc, n);
    assert(t.take(n) =~= t);
    assert(!t.contains('j') && !t.contains('r') && !t.contains('.') && !t.contains('e')) by {
        if t.contains('j') || t.contains('r') || t.contains('.') || t.contains('e') {
            let i = choose|i: int|
                0 <= i < n && (t[i] == 'j' || t[i] == 'r' || t[i] == '.' || t[i] == 'e');
            assert(is_digit(t[i]) || t[i] == '_');
        }
    }
    let nw = |c: char| !is_white(c);
    assert forall|i: int| 0 <= i < n implies #[trigger] nw(t[i]) by {
        assert(is_digit(t[i]) || t[i] == '_');
    }
    lemma_lead_count(t, nw, n);
    assert(is_digit(t[0]) || t[0] == '_');
    assert(!is_white(t[0]));
    assert(t.skip(n) =~= Seq::<char>::empty());
    assert(split_white(Seq::<char>::empty()) =~= Seq::<Seq<char>>::empty());
    assert(split_white(t) == seq![t.take(n)] + split_white(t.skip(n)));
    assert(split_white(t) =~= seq![t]);
    let u = dashes(t);
    if negative {
        assert(u =~= seq!['-'] + d) by {
            assert forall|i: int| 0 <= i < n implies u[i] == (seq!['-'] + d)[i] by {
                if i > 0 {
                    assert(t[i] == d[i - 1]);
                    assert(is_digit(d[i - 1]));
                }
            }
        }
        assert(u.drop_first() =~= d);
    } else {
        assert(u =~= d) by {
            assert forall|i: int| 0 <= i < n implies u[i] == d[i] by {
                assert(is_digit(d[i]));
            }
        }
    }
    assert(literal_items(t) =~= seq![u]);
    assert(is_digit(d[0]));
    assert(parse_i64(u) == Some(v as i64));
    let items = literal_items(t);
    assert(items.map_values(|w: Seq<char>| parse_i64(w)->0) =~= seq![v as i64]);
    assert(litnum_token(t) == Outcome::Value(
        ((n - 1) as nat, WordV::Noun(ArrayV::Int(vector_view(seq![v as i64])))),
    ));
    assert(t.skip(0) =~= t);
    assert(scan_from(t, n) == Outcome::<Seq<WordV>>::Value(seq![]));
    let w = WordV::Noun(ArrayV::Int(vector_view(seq![v as i64])));
    assert(seq![w] + Seq::<WordV>::empty() =~= seq![w]);
}

/// Evaluating a verb followed by an adverb derives a verb: its name is the verb's name
/// followed by the adverb's, and it records the verb, no noun, and the adverb.
pub proof fn law_eval_adverb_derives_verb(
    vn: Seq<char>,
    v: VerbV,
    an: Seq<char>,
    a: crate::word::AdverbImpl,
)
    ensures
        eval_spec(seq![WordV::Verb(vn, Box::new(v)), WordV::Adverb(an, a)]) == Outcome::Value(
            WordV::Verb(
                vn + an,
                Box::new(
                    VerbV::DerivedVerb(
                        Box::new(WordV::Verb(vn, Box::new(v))),
                        Box::new(WordV::Nothing),
                        Box::new(WordV::Adverb(an, a)),
                    ),
                ),
            ),
        ),
{
    let vw = WordV::Verb(vn, Box::new(v));
    let aw = WordV::Adverb(an, a);
    let d = WordV::Verb(
        vn + an,
        Box::new(VerbV::DerivedVerb(Box::new(vw), Box::new(WordV::Nothing), Box::new(aw))),
    );
    let q0 = seq![WordV::StartOfLine] + seq![vw, aw];
    let s0 = Seq::<WordV>::empty();
    assert(step(q0, s0) is Shifted);
    let s1 = seq![aw] + nothings(4);
    assert(next_stack(step(q0, s0)) =~= s1);
    let q1 = q0.drop_last();
    assert(q1 =~= seq![WordV::StartOfLine, vw]);
    assert(step(q1, s1) is Shifted);
    let s2 = seq![vw, aw] + nothings(4);
    assert(next_stack(step(q1, s1)) =~= s2);
    let q2 = q1.drop_last();
    assert(q2 =~= seq![WordV::StartOfLine]);
    assert(step(q2, s2) is Shifted);
    let s3 = seq![WordV::StartOfLine, vw, aw] + nothings(4);
    assert(next_stack(step(q2, s2)) =~= s3);
    let q3 = q2.drop_last();
    assert(q3 =~= Seq::<WordV>::empty());
    assert(step(q3, s3) is Reduced);
    let s4 = seq![WordV::StartOfLine, d] + nothings(4);
    assert(next_stack(step(q3, s3)) =~= s4);
    assert(step(q3, s4) is Done);
    assert(next_stack(step(q3, s4)) =~= s4);
    assert(parse_loop(q3, s4) == Outcome::Value(s4));
    assert(parse_loop(q3, s3) == Outcome::Value(s4));
    assert(parse_loop(q2, s2) == parse_loop(q3, s3));
    assert(parse_loop(q1, s1) == parse_loop(q3, s3));
    assert(parse_loop(q0, s0) == parse_loop(q3, s3));
    lemma_without_placeholders(d, 4);
}

} // verus!
