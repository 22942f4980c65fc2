//! The cells of a noun: its items along the first axis (ndarray's `outer_iter`).
use vstd::prelude::*;
use crate::array::{NdArray, NdView, nonzero_size, shape_fits, shape_size, shape_size_checked};
use crate::word::{
    ArrayV, FloatItem, FloatV, JArray, JError, Word, WordV, copy_float_items, float_items_view,
    float_nd, word_wf, words_view, words_wf,
};

verus! {

/// The factor that the first axis contributes to `nonzero_size`.
pub open spec fn nonzero_factor(d: usize) -> nat {
    if d == 0 {
        1
    } else {
        d as nat
    }
}

/// Both products split into the first axis length and the product of the others.
pub proof fn lemma_size_first(s: Seq<usize>)
    requires
        s.len() >= 1,
    ensures
        shape_size(s) == (s[0] as nat) * shape_size(s.skip(1)),
        nonzero_size(s) == nonzero_factor(s[0]) * nonzero_size(s.skip(1)),
    decreases s.len(),
{
    if s.len() == 1 {
        assert(s.skip(1) =~= Seq::<usize>::empty());
        assert(s.drop_last() =~= Seq::<usize>::empty());
        assert((s[0] as nat) * 1 == 1 * (s[0] as nat)) by (nonlinear_arith);
    } else {
        let r = s.drop_last();
        lemma_size_first(r);
        assert(r.skip(1) =~= s.skip(1).drop_last());
        assert(s.skip(1).last() == s.last());
        let a = s[0] as nat;
        let l = s.last() as nat;
        let m = shape_size(r.skip(1));
        assert(a * m * l == a * (m * l)) by (nonlinear_arith);
        let fa = nonzero_factor(s[0]);
        let nm = nonzero_size(r.skip(1));
        assert(fa * nm * l == fa * (nm * l)) by (nonlinear_arith);
    }
}

/// Number of elements of each cell of an array of shape `s`.
pub open spec fn cell_size(s: Seq<usize>) -> nat {
    shape_size(s.skip(1))
}

/// The cells of an array: for each position along the first axis, the sub-array of the
/// remaining axes.
pub open spec fn cells_nd<T>(a: NdView<T>) -> Seq<NdView<T>> {
    let c = cell_size(a.shape) as int;
    Seq::new(
        a.shape[0] as nat,
        |k: int| NdView { shape: a.shape.skip(1), data: a.data.subrange(k * c, (k + 1) * c) },
    )
}

/// The cells of a noun, as nouns of the same element type.
pub open spec fn cells_spec(a: ArrayV) -> Seq<WordV> {
    match a {
        ArrayV::Int(x) => cells_nd(x).map_values(|c: NdView<i64>| WordV::Noun(ArrayV::Int(c))),
        ArrayV::ExtInt(x) => cells_nd(x).map_values(
            |c: NdView<i128>| WordV::Noun(ArrayV::ExtInt(c)),
        ),
        ArrayV::Float(x) => cells_nd(x).map_values(
            |c: NdView<FloatV>| WordV::Noun(ArrayV::Float(c)),
        ),
        ArrayV::Bool(x) => cells_nd(x).map_values(|c: NdView<u8>| WordV::Noun(ArrayV::Bool(c))),
        ArrayV::Char(x) => cells_nd(x).map_values(|c: NdView<char>| WordV::Noun(ArrayV::Char(c))),
    }
}

/// The shape of the cells, their number of elements, and the facts that bound the
/// positions of the cells inside the data.
fn cell_shape<T>(a: &NdArray<T>) -> (r: (Vec<usize>, usize))
    requires
        a.wf(),
        a.shape@.len() >= 1,
    ensures
        r.0@ == a.shape@.skip(1),
        r.1 == cell_size(a.shape@),
        shape_fits(r.0@),
        a.data@.len() == (a.shape@[0] as nat) * (r.1 as nat),
{
    let mut rest: Vec<usize> = Vec::new();
    let mut i: usize = 1;
    while i < a.shape.len()
        invariant
            1 <= i <= a.shape@.len(),
            rest@ =~= a.shape@.subrange(1, i as int),
        decreases a.shape.len() - i,
    {
        rest.push(a.shape[i]);
        i = i + 1;
    }
    assert(rest@ =~= a.shape@.skip(1));
    proof {
        lemma_size_first(a.shape@);
        let f = nonzero_factor(a.shape@[0]);
        let n = nonzero_size(rest@);
        assert(n <= f * n) by (nonlinear_arith)
            requires
                f >= 1,
        ;
    }
    let c = match shape_size_checked(&rest) {
        Some(c) => c,
        None => 0,  // unreachable: the rest of a fitting shape fits
    };
    (rest, c)
}

/// A copy of an array of plain elements.
fn copy_nd<T: Copy>(a: &NdArray<T>) -> (r: NdArray<T>)
    ensures
        r@ == a@,
{
    let shape = a.shape.clone();
    assert(shape@ =~= a.shape@);
    let mut data: Vec<T> = Vec::new();
    let mut i: usize = 0;
    while i < a.data.len()
        invariant
            i <= a.data@.len(),
            data@ =~= a.data@.take(i as int),
        decreases a.data.len() - i,
    {
        data.push(a.data[i]);
        i = i + 1;
    }
    assert(a.data@.take(a.data@.len() as int) =~= a.data@);
    NdArray { shape, data }
}

/// The cells of a non-float array.
fn cells_of<T: Copy>(a: &NdArray<T>) -> (r: Vec<NdArray<T>>)
    requires
        a.wf(),
        a.shape@.len() >= 1,
    ensures
        r@.len() == a.shape@[0],
        forall|k: int| 0 <= k < r@.len() ==> #[trigger] r@[k]@ == cells_nd(a@)[k] && r@[k].wf(),
{
    let (rest, c) = cell_shape(a);
    let n0 = a.shape[0];
    let dlen = a.data.len();
    let mut out: Vec<NdArray<T>> = Vec::new();
    let mut k: usize = 0;
    while k < n0
        invariant
            k <= n0,
            n0 == a.shape@[0],
            rest@ == a.shape@.skip(1),
            c == cell_size(a.shape@),
            shape_fits(rest@),
            a.wf(),
            a.shape@.len() >= 1,
            dlen == a.data@.len(),
            a.data@.len() == (n0 as nat) * (c as nat),
            out@.len() == k,
            forall|u: int| 0 <= u < k ==> #[trigger] out@[u]@ == cells_nd(a@)[u] && out@[u].wf(),
        decreases n0 - k,
    {
        assert((k as nat) * (c as nat) + (c as nat) <= (dlen as nat)) by (nonlinear_arith)
            requires
                k < n0,
                (dlen as nat) == (n0 as nat) * (c as nat),
        ;
        let start = k * c;
        let end = start + c;
        let mut data: Vec<T> = Vec::new();
        let mut i: usize = start;
        while i < end
            invariant
                start <= i <= end,
                end <= a.data@.len(),
                data@ =~= a.data@.subrange(start as int, i as int),
            decreases end - i,
        {
            data.push(a.data[i]);
            i = i + 1;
        }
        let cell = NdArray { shape: rest.clone(), data };
        assert(cell.shape@ =~= rest@);
        assert((k as int + 1) * (c as int) == (k as int) * (c as int) + (c as int))
            by (nonlinear_arith);
        assert(cell@ == cells_nd(a@)[k as int]);
        out.push(cell);
        k = k + 1;
    }
    out
}

/// The cells of a float array.
fn cells_of_floats(a: &NdArray<FloatItem>) -> (r: Vec<NdArray<FloatItem>>)
    requires
        a.wf(),
        a.shape@.len() >= 1,
    ensures
        r@.len() == a.shape@[0],
        forall|k: int|
            0 <= k < r@.len() ==> #[trigger] float_nd(r@[k]@) == cells_nd(float_nd(a@))[k],
        forall|k: int| 0 <= k < r@.len() ==> #[trigger] r@[k].wf(),
{
    let (rest, c) = cell_shape(a);
    let n0 = a.shape[0];
    let dlen = a.data.len();
    let mut out: Vec<NdArray<FloatItem>> = Vec::new();
    let mut k: usize = 0;
    while k < n0
        invariant
            k <= n0,
            n0 == a.shape@[0],
            rest@ == a.shape@.skip(1),
            c == cell_size(a.shape@),
            shape_fits(rest@),
            a.wf(),
            a.shape@.len() >= 1,
            dlen == a.data@.len(),
            a.data@.len() == (n0 as nat) * (c as nat),
            out@.len() == k,
            forall|u: int|
                0 <= u < k ==> #[trigger] float_nd(out@[u]@) == cells_nd(float_nd(a@))[u],
            forall|u: int| 0 <= u < k ==> #[trigger] out@[u].wf(),
        decreases n0 - k,
    {
        assert((k as nat) * (c as nat) + (c as nat) <= (dlen as nat)) by (nonlinear_arith)
            requires
                k < n0,
                (dlen as nat) == (n0 as nat) * (c as nat),
        ;
        let start = k * c;
        let end = start + c;
        let mut data: Vec<FloatItem> = Vec::new();
        let mut i: usize = start;
        while i < end
            invariant
                start <= i <= end,
                end <= a.data@.len(),
                float_items_view(data@) =~= float_items_view(
                    a.data@.subrange(start as int, i as int),
                ),
                data@.len() == i - start,
            decreases end - i,
        {
            let item = a.data[i].copy();
            let ghost before = data@;
            data.push(item);
            assert(float_items_view(data@) =~= float_items_view(before).push(item@));
            assert(a.data@.subrange(start as int, i + 1) =~= a.data@.subrange(
                start as int,
                i as int,
            ).push(a.data@[i as int]));
            i = i + 1;
        }
        let cell = NdArray { shape: rest.clone(), data };
        assert(cell.shape@ =~= rest@);
        assert((k as int + 1) * (c as int) == (k as int) * (c as int) + (c as int))
            by (nonlinear_arith);
        assert(float_items_view(a.data@.subrange(start as int, end as int)) =~= float_items_view(
            a.data@,
        ).subrange(start as int, end as int));
        assert(float_nd(cell@) == cells_nd(float_nd(a@))[k as int]);
        out.push(cell);
        k = k + 1;
    }
    out
}

impl Word {
    /// The cells of a noun: its items along the first axis. Splitting a word that is not
    /// a noun, or a noun without axes, is a panic, which the precondition rules out.
    pub fn to_cells(&self) -> (r: Result<Vec<Word>, JError>)
        requires
            word_wf(self@),
            self@ is Noun,
            self@->Noun_0.shape().len() >= 1,
        ensures
            r matches Ok(cs) && words_view(cs@) == cells_spec(self@->Noun_0) && words_wf(
                words_view(cs@),
            ),
    {
        let mut out: Vec<Word> = Vec::new();
        match self {
            Word::Noun(ja) => match ja {
                JArray::IntArray { a } => {
                    let cs = cells_of(a);
                    let mut k: usize = 0;
                    while k < cs.len()
                        invariant
                            k <= cs@.len(),
                            cs@.len() == cells_nd(a@).len(),
                            forall|u: int|
                                0 <= u < cs@.len() ==> #[trigger] cs@[u]@ == cells_nd(a@)[u]
                                    && cs@[u].wf(),
                            words_view(out@) =~= cells_nd(a@).take(k as int).map_values(
                                |c: NdView<i64>| WordV::Noun(ArrayV::Int(c)),
                            ),
                            words_wf(words_view(out@)),
                        decreases cs.len() - k,
                    {
                        let w = Word::Noun(
                            JArray::IntArray {
                                a: copy_nd(&cs[k]),
                            },
                        );
                        let ghost before = out@;
                        out.push(w);
                        proof {
                            assert(words_view(out@) =~= words_view(before).push(w@));
                            assert(cells_nd(a@).take(k + 1) =~= cells_nd(a@).take(k as int).push(
                                cells_nd(a@)[k as int],
                            ));
                            assert(word_wf(w@));
                        }
                        k = k + 1;
                    }
                    assert(cells_nd(a@).take(cs.len() as int) =~= cells_nd(a@));
                },
                JArray::ExtIntArray { a } => {
                    let cs = cells_of(a);
                    let mut k: usize = 0;
                    while k < cs.len()
                        invariant
                            k <= cs@.len(),
                            cs@.len() == cells_nd(a@).len(),
                            forall|u: int|
                                0 <= u < cs@.len() ==> #[trigger] cs@[u]@ == cells_nd(a@)[u]
                                    && cs@[u].wf(),
                            words_view(out@) =~= cells_nd(a@).take(k as int).map_values(
                                |c: NdView<i128>| WordV::Noun(ArrayV::ExtInt(c)),
                            ),
                            words_wf(words_view(out@)),
                        decreases cs.len() - k,
                    {
                        let w = Word::Noun(
                            JArray::ExtIntArray {
                                a: copy_nd(&cs[k]),
                            },
                        );
                        let ghost before = out@;
                        out.push(w);
                        proof {
                            assert(words_view(out@) =~= words_view(before).push(w@));
                            assert(cells_nd(a@).take(k + 1) =~= cells_nd(a@).take(k as int).push(
                                cells_nd(a@)[k as int],
                            ));
                            assert(word_wf(w@));
                        }
                        k = k + 1;
                    }
                    assert(cells_nd(a@).take(cs.len() as int) =~= cells_nd(a@));
                },
                JArray::BoolArray { a } => {
                    let cs = cells_of(a);
                    let mut k: usize = 0;
                    while k < cs.len()
                        invariant
                            k <= cs@.len(),
                            cs@.len() == cells_nd(a@).len(),
                            forall|u: int|
                                0 <= u < cs@.len() ==> #[trigger] cs@[u]@ == cells_nd(a@)[u]
                                    && cs@[u].wf(),
                            words_view(out@) =~= cells_nd(a@).take(k as int).map_values(
                                |c: NdView<u8>| WordV::Noun(ArrayV::Bool(c)),
                            ),
                            words_wf(words_view(out@)),
                        decreases cs.len() - k,
                    {
                        let w = Word::Noun(
                            JArray::BoolArray {
                                a: copy_nd(&cs[k]),
                            },
                        );
                        let ghost before = out@;
                        out.push(w);
                        proof {
                            assert(words_view(out@) =~= words_view(before).push(w@));
                            assert(cells_nd(a@).take(k + 1) =~= cells_nd(a@).take(k as int).push(
                                cells_nd(a@)[k as int],
                            ));
                            assert(word_wf(w@));
                        }
                        k = k + 1;
                    }
                    assert(cells_nd(a@).take(cs.len() as int) =~= cells_nd(a@));
                },
                JArray::CharArray { a } => {
                    let cs = cells_of(a);
                    let mut k: usize = 0;
                    while k < cs.len()
                        invariant
                            k <= cs@.len(),
                            cs@.len() == cells_nd(a@).len(),
                            forall|u: int|
                                0 <= u < cs@.len() ==> #[trigger] cs@[u]@ == cells_nd(a@)[u]
                                    && cs@[u].wf(),
                            words_view(out@) =~= cells_nd(a@).take(k as int).map_values(
                                |c: NdView<char>| WordV::Noun(ArrayV::Char(c)),
                            ),
                            words_wf(words_view(out@)),
                        decreases cs.len() - k,
                    {
                        let w = Word::Noun(
                            JArray::CharArray {
                                a: copy_nd(&cs[k]),
                            },
                        );
                        let ghost before = out@;
                        out.push(w);
                        proof {
                            assert(words_view(out@) =~= words_view(before).push(w@));
                            assert(cells_nd(a@).take(k + 1) =~= cells_nd(a@).take(k as int).push(
                                cells_nd(a@)[k as int],
                            ));
                            assert(word_wf(w@));
                        }
                        k = k + 1;
                    }
                    assert(cells_nd(a@).take(cs.len() as int) =~= cells_nd(a@));
                },
                JArray::FloatArray { a } => {
                    let cs = cells_of_floats(a);
                    let ghost fa = float_nd(a@);
                    let mut k: usize = 0;
                    while k < cs.len()
                        invariant
                            k <= cs@.len(),
                            fa == float_nd(a@),
                            cs@.len() == cells_nd(fa).len(),
                            forall|u: int|
                                0 <= u < cs@.len() ==> #[trigger] float_nd(cs@[u]@) == cells_nd(
                                    fa,
                                )[u] && cs@[u].wf(),
                            words_view(out@) =~= cells_nd(fa).take(k as int).map_values(
                                |c: NdView<FloatV>| WordV::Noun(ArrayV::Float(c)),
                            ),
                            words_wf(words_view(out@)),
                        decreases cs.len() - k,
                    {
                        let data = copy_float_items(&cs[k].data);
                        let shape = cs[k].shape.clone();
                        assert(shape@ =~= cs@[k as int].shape@);
                        let w = Word::Noun(JArray::FloatArray { a: NdArray { shape, data } });
                        assert(float_nd(cs@[k as int]@) == cells_nd(fa)[k as int]);
                        let ghost before = out@;
                        out.push(w);
                        proof {
                            assert(words_view(out@) =~= words_view(before).push(w@));
                            assert(cells_nd(fa).take(k + 1) =~= cells_nd(fa).take(k as int).push(
                                cells_nd(fa)[k as int],
                            ));
                            assert(word_wf(w@));
                        }
                        k = k + 1;
                    }
                    assert(cells_nd(fa).take(cs.len() as int) =~= cells_nd(fa));
                },
            },
            _ => {},  // unreachable: only nouns have cells
        }
        Ok(out)
    }
}

} // verus!
