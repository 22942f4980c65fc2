//! Dense n-dimensional arrays in row-major order, and the ndarray operations
//! that the interpreter relies on: shape checks, broadcasting and reshaping.
use vstd::prelude::*;

verus! {

/// Number of elements of an array of the given shape: the product of its axis lengths.
pub open spec fn shape_size(shape: Seq<usize>) -> nat
    decreases shape.len(),
{
    if shape.len() == 0 {
        1
    } else {
        shape_size(shape.drop_last()) * (shape.last() as nat)
    }
}

/// Product of the non-zero axis lengths of a shape.
pub open spec fn nonzero_size(shape: Seq<usize>) -> nat
    decreases shape.len(),
{
    if shape.len() == 0 {
        1
    } else if shape.last() == 0 {
        nonzero_size(shape.drop_last())
    } else {
        nonzero_size(shape.drop_last()) * (shape.last() as nat)
    }
}

/// ndarray accepts a shape when the product of its non-zero axis lengths is at most `isize::MAX`.
pub open spec fn shape_fits(shape: Seq<usize>) -> bool {
    nonzero_size(shape) <= isize::MAX
}

/// An owned array: its shape and its elements in row-major (standard) order.
#[derive(Debug, Clone, PartialEq)]
pub struct NdArray<T> {
    pub shape: Vec<usize>,
    pub data: Vec<T>,
}

/// The mathematical value of an array.
pub struct NdView<T> {
    pub shape: Seq<usize>,
    pub data: Seq<T>,
}

impl<T> NdView<T> {
    /// The shape is one that ndarray accepts and the data has one element per position.
    pub open spec fn wf(self) -> bool {
        &&& shape_fits(self.shape)
        &&& shape_size(self.shape) == self.data.len()
        &&& self.shape.len() <= isize::MAX
    }
}

impl<T> View for NdArray<T> {
    type V = NdView<T>;

    open spec fn view(&self) -> NdView<T> {
        NdView { shape: self.shape@, data: self.data@ }
    }
}

impl<T> NdArray<T> {
    pub open spec fn wf(&self) -> bool {
        self@.wf()
    }
}

/// The shape of a one-dimensional array of `n` elements.
pub open spec fn vector_shape(n: nat) -> Seq<usize> {
    seq![n as usize]
}

/// A one-dimensional array holding `data`.
pub open spec fn vector_view<T>(data: Seq<T>) -> NdView<T> {
    NdView { shape: vector_shape(data.len()), data }
}

impl<T> NdArray<T> {
    /// A one-dimensional array holding `data` (ndarray's `from_shape_vec` with shape `[n]`).
    pub fn vector(data: Vec<T>) -> (r: NdArray<T>)
        requires
            data@.len() <= isize::MAX,
        ensures
            r@ == vector_view(data@),
            r.wf(),
    {
        let n = data.len();
        let mut shape: Vec<usize> = Vec::new();
        shape.push(n);
        proof {
            assert(shape@ =~= vector_shape(data@.len()));
            assert(shape@.drop_last() =~= Seq::<usize>::empty());
            lemma_vector_shape(n as nat);
        }
        NdArray { shape, data }
    }
}

pub proof fn lemma_vector_shape(n: nat)
    requires
        n <= isize::MAX,
    ensures
        shape_size(vector_shape(n)) == n,
        shape_fits(vector_shape(n)),
{
    let s = vector_shape(n);
    assert(s.drop_last() =~= Seq::<usize>::empty());
    assert(shape_size(s.drop_last()) == 1);
    assert(nonzero_size(s.drop_last()) == 1);
    assert(s.last() as nat == n);
    assert(1 * n == n) by (nonlinear_arith);
}

/// Length of axis `p` of `s` when `s` is aligned to the right within `len` axes;
/// the missing leading axes count as length 1.
pub open spec fn aligned_dim(s: Seq<usize>, len: int, p: int) -> usize {
    let off = len - s.len();
    if p >= off {
        s[p - off]
    } else {
        1
    }
}

/// Two axis lengths broadcast together when they are equal or one of them is 1.
pub open spec fn dims_compatible(x: usize, y: usize) -> bool {
    x == y || x == 1 || y == 1
}

/// The axis length that two compatible axis lengths broadcast to.
pub open spec fn merged_dim(x: usize, y: usize) -> usize {
    if x == 1 {
        y
    } else {
        x
    }
}

pub open spec fn max_len(a: Seq<usize>, b: Seq<usize>) -> int {
    if a.len() >= b.len() {
        a.len() as int
    } else {
        b.len() as int
    }
}

/// ndarray's co-broadcasting of two shapes: aligned to the right, each pair of axis
/// lengths must be equal or contain a 1; the result takes the larger of each pair.
pub open spec fn co_broadcast(a: Seq<usize>, b: Seq<usize>) -> Option<Seq<usize>> {
    let len = max_len(a, b);
    if shapes_compatible(a, b) {
        Some(Seq::new(len as nat, |p: int| merged_dim(aligned_dim(a, len, p), aligned_dim(b, len, p))))
    } else {
        None
    }
}

/// Aligned to the right, every pair of axis lengths of the two shapes is compatible.
pub open spec fn shapes_compatible(a: Seq<usize>, b: Seq<usize>) -> bool {
    let len = max_len(a, b);
    forall|p: int|
        0 <= p < len ==> #[trigger] dims_compatible(aligned_dim(a, len, p), aligned_dim(b, len, p))
}

pub proof fn lemma_compatible_at(a: Seq<usize>, b: Seq<usize>, p: int)
    requires
        shapes_compatible(a, b),
        0 <= p < max_len(a, b),
    ensures
        dims_compatible(aligned_dim(a, max_len(a, b), p), aligned_dim(b, max_len(a, b), p)),
{
}

/// ndarray's rule for viewing an array of shape `from` as one of shape `to`:
/// `to` has at least as many axes, and aligned to the right each axis of `from`
/// is either as long as the one of `to` or of length 1.
pub open spec fn upcast_ok(from: Seq<usize>, to: Seq<usize>) -> bool {
    &&& from.len() <= to.len()
    &&& forall|i: int|
        0 <= i < from.len() ==> (#[trigger] from[i] == to[i + to.len() - from.len()] || from[i] == 1)
}

/// Position in an array of shape `from` of the element that lands at row-major position `k`
/// when the array is broadcast to shape `to`.
pub open spec fn bsrc(from: Seq<usize>, to: Seq<usize>, k: int) -> int
    decreases to.len(),
{
    if to.len() == 0 || from.len() == 0 {
        0
    } else {
        let t = to.last() as int;
        let f = from.last() as int;
        let c = if f == 1 {
            0
        } else {
            k % t
        };
        bsrc(from.drop_last(), to.drop_last(), k / t) * f + c
    }
}

/// The shape that `x op y` has in ndarray, or `None` where ndarray panics.
pub open spec fn bcast_shape(a: Seq<usize>, b: Seq<usize>) -> Option<Seq<usize>> {
    if a == b {
        Some(a)
    } else {
        match co_broadcast(a, b) {
            Some(t) => if shape_fits(t) {
                Some(t)
            } else {
                None
            },
            None => None,
        }
    }
}

/// Position in the operand of shape `a` (the other operand having shape `b`) that
/// feeds position `k` of an elementwise operation whose result has shape `t`.
pub open spec fn bcast_index(a: Seq<usize>, b: Seq<usize>, t: Seq<usize>, k: int) -> int {
    if a == b {
        k
    } else {
        bsrc(a, t, k)
    }
}

/// The elementwise pairing that ndarray's arithmetic operators perform, with broadcasting.
pub open spec fn zip_view<A, B>(x: NdView<A>, y: NdView<B>) -> Option<NdView<(A, B)>> {
    match bcast_shape(x.shape, y.shape) {
        Some(t) => Some(
            NdView {
                shape: t,
                data: Seq::new(
                    shape_size(t),
                    |k: int|
                        (
                            x.data[bcast_index(x.shape, y.shape, t, k)],
                            y.data[bcast_index(y.shape, x.shape, t, k)],
                        ),
                ),
            },
        ),
        None => None,
    }
}

pub proof fn lemma_size_le_nonzero(s: Seq<usize>)
    ensures
        shape_size(s) <= nonzero_size(s),
        shape_size(s) == 0 || shape_size(s) == nonzero_size(s),
    decreases s.len(),
{
    if s.len() > 0 {
        lemma_size_le_nonzero(s.drop_last());
        let r = s.drop_last();
        assert(shape_size(s) == shape_size(r) * (s.last() as nat));
        if shape_size(r) == 0 {
            assert(0 * (s.last() as nat) == 0) by (nonlinear_arith);
        }
        if s.last() == 0 {
            assert(shape_size(r) * 0 == 0) by (nonlinear_arith);
        } else {
            assert(shape_size(r) * (s.last() as nat) <= nonzero_size(r) * (s.last() as nat))
                by (nonlinear_arith)
                requires
                    shape_size(r) <= nonzero_size(r),
            ;
        }
    }
}

pub proof fn lemma_nonzero_positive(s: Seq<usize>)
    ensures
        nonzero_size(s) >= 1,
    decreases s.len(),
{
    if s.len() > 0 {
        lemma_nonzero_positive(s.drop_last());
        let r = s.drop_last();
        if s.last() != 0 {
            assert(nonzero_size(r) * (s.last() as nat) >= 1) by (nonlinear_arith)
                requires
                    nonzero_size(r) >= 1,
                    s.last() >= 1,
            ;
        }
    }
}

/// Computes whether a shape fits, and its number of elements when it does.
pub fn shape_size_checked(shape: &Vec<usize>) -> (r: Option<usize>)
    ensures
        r is Some <==> shape_fits(shape@),
        r matches Some(n) ==> n as nat == shape_size(shape@),
{
    let mut nz: usize = 1;
    let mut total: usize = 1;
    let mut i: usize = 0;
    while i < shape.len()
        invariant
            i <= shape.len(),
            nz as nat == nonzero_size(shape@.take(i as int)),
            total as nat == shape_size(shape@.take(i as int)),
            nz <= isize::MAX,
        decreases shape.len() - i,
    {
        let d = shape[i];
        let ghost pre = shape@.take(i as int);
        let ghost cur = shape@.take(i + 1);
        assert(cur.drop_last() =~= pre);
        proof {
            lemma_size_le_nonzero(pre);
        }
        if d == 0 {
            total = 0;
            assert(shape_size(pre) * 0 == 0) by (nonlinear_arith);
        } else {
            if nz > (isize::MAX as usize) / d {
                // the non-zero product already exceeds isize::MAX
                assert(nz * d > isize::MAX) by (nonlinear_arith)
                    requires
                        nz > (isize::MAX as usize) / d,
                        d > 0,
                ;
                proof {
                    lemma_nonzero_grows(shape@, i as int);
                }
                return None;
            }
            assert(nz * d <= isize::MAX) by (nonlinear_arith)
                requires
                    nz <= (isize::MAX as usize) / d,
                    d > 0,
            ;
            assert(total * d <= nz * d) by (nonlinear_arith)
                requires
                    total <= nz,
            ;
            nz = nz * d;
            total = total * d;
        }
        i = i + 1;
    }
    assert(shape@.take(shape@.len() as int) =~= shape@);
    Some(total)
}

/// Once the non-zero product of a prefix exceeds a bound, so does that of the whole shape.
pub proof fn lemma_nonzero_grows(s: Seq<usize>, i: int)
    requires
        0 <= i < s.len(),
        s[i] > 0,
        nonzero_size(s.take(i)) * (s[i] as nat) > isize::MAX,
    ensures
        !shape_fits(s),
{
    lemma_nonzero_prefix_le(s, i + 1);
    assert(s.take(i + 1).drop_last() =~= s.take(i));
}

pub proof fn lemma_nonzero_prefix_le(s: Seq<usize>, i: int)
    requires
        0 <= i <= s.len(),
    ensures
        nonzero_size(s.take(i)) <= nonzero_size(s),
    decreases s.len() - i,
{
    if i < s.len() {
        lemma_nonzero_prefix_le(s, i + 1);
        assert(s.take(i + 1).drop_last() =~= s.take(i));
        lemma_nonzero_positive(s.take(i));
        if s[i] != 0 {
            assert(nonzero_size(s.take(i)) <= nonzero_size(s.take(i)) * (s[i] as nat))
                by (nonlinear_arith)
                requires
                    s[i] >= 1,
            ;
        }
    } else {
        assert(s.take(i) =~= s);
    }
}


/// Checks whether two shapes are identical.
pub fn same_shape(a: &Vec<usize>, b: &Vec<usize>) -> (r: bool)
    ensures
        r == (a@ == b@),
{
    if a.len() != b.len() {
        return false;
    }
    let mut i: usize = 0;
    while i < a.len()
        invariant
            a@.len() == b@.len(),
            i <= a.len(),
            forall|j: int| 0 <= j < i ==> a@[j] == b@[j],
        decreases a.len() - i,
    {
        if a[i] != b[i] {
            return false;
        }
        i = i + 1;
    }
    assert(a@ =~= b@);
    true
}

/// ndarray's co-broadcasting of two shapes.
pub fn co_broadcast_shapes(a: &Vec<usize>, b: &Vec<usize>) -> (r: Option<Vec<usize>>)
    ensures
        r is None <==> co_broadcast(a@, b@) is None,
        r matches Some(t) ==> co_broadcast(a@, b@) == Some(t@),
{
    let len = if a.len() >= b.len() {
        a.len()
    } else {
        b.len()
    };
    let ghost glen = max_len(a@, b@);
    assert(glen == len);
    let offa = len - a.len();
    let offb = len - b.len();
    let mut out: Vec<usize> = Vec::new();
    let mut p: usize = 0;
    while p < len
        invariant
            glen == len,
            glen == max_len(a@, b@),
            offa == len - a@.len(),
            offb == len - b@.len(),
            p <= len,
            out@.len() == p,
            forall|q: int|
                0 <= q < p ==> #[trigger] dims_compatible(
                    aligned_dim(a@, glen, q),
                    aligned_dim(b@, glen, q),
                ),
            forall|q: int|
                0 <= q < p ==> out@[q] == merged_dim(
                    aligned_dim(a@, glen, q),
                    aligned_dim(b@, glen, q),
                ),
        decreases len - p,
    {
        let x = if p >= offa {
            a[p - offa]
        } else {
            1
        };
        let y = if p >= offb {
            b[p - offb]
        } else {
            1
        };
        assert(x == aligned_dim(a@, glen, p as int));
        assert(y == aligned_dim(b@, glen, p as int));
        if !(x == y || x == 1 || y == 1) {
            assert(!dims_compatible(aligned_dim(a@, glen, p as int), aligned_dim(b@, glen, p as int)));
            proof {
                if shapes_compatible(a@, b@) {
                    lemma_compatible_at(a@, b@, p as int);
                }
            }
            return None;
        }
        out.push(if x == 1 {
            y
        } else {
            x
        });
        p = p + 1;
    }
    assert(out@ =~= Seq::new(
        len as nat,
        |q: int| merged_dim(aligned_dim(a@, glen, q), aligned_dim(b@, glen, q)),
    ));
    Some(out)
}

/// Both shapes can be viewed as their co-broadcast shape.
pub proof fn lemma_co_broadcast_upcast(a: Seq<usize>, b: Seq<usize>)
    requires
        co_broadcast(a, b) is Some,
    ensures
        upcast_ok(a, co_broadcast(a, b)->0),
        upcast_ok(b, co_broadcast(a, b)->0),
{
    let len = max_len(a, b);
    let t = co_broadcast(a, b)->0;
    assert forall|i: int| 0 <= i < a.len() implies (#[trigger] a[i] == t[i + t.len() - a.len()]
        || a[i] == 1) by {
        let p = i + len - a.len();
        assert(dims_compatible(aligned_dim(a, len, p), aligned_dim(b, len, p)));
    }
    assert forall|i: int| 0 <= i < b.len() implies (#[trigger] b[i] == t[i + t.len() - b.len()]
        || b[i] == 1) by {
        let p = i + len - b.len();
        assert(dims_compatible(aligned_dim(a, len, p), aligned_dim(b, len, p)));
    }
}

/// Co-broadcasting does not depend on the order of the operands.
pub proof fn lemma_co_broadcast_symmetric(a: Seq<usize>, b: Seq<usize>)
    ensures
        co_broadcast(a, b) == co_broadcast(b, a),
{
    let len = max_len(a, b);
    assert(len == max_len(b, a));
    if co_broadcast(a, b) is Some {
        assert forall|p: int| 0 <= p < len implies #[trigger] dims_compatible(
            aligned_dim(b, len, p),
            aligned_dim(a, len, p),
        ) by {
            assert(dims_compatible(aligned_dim(a, len, p), aligned_dim(b, len, p)));
        }
        assert forall|p: int| 0 <= p < len implies merged_dim(
            aligned_dim(a, len, p),
            aligned_dim(b, len, p),
        ) == merged_dim(aligned_dim(b, len, p), aligned_dim(a, len, p)) by {
            assert(dims_compatible(aligned_dim(a, len, p), aligned_dim(b, len, p)));
        }
        assert(co_broadcast(a, b)->0 =~= co_broadcast(b, a)->0);
    } else {
        if co_broadcast(b, a) is Some {
            assert forall|p: int| 0 <= p < len implies #[trigger] dims_compatible(
                aligned_dim(a, len, p),
                aligned_dim(b, len, p),
            ) by {
                assert(dims_compatible(aligned_dim(b, len, p), aligned_dim(a, len, p)));
            }
        }
    }
}

/// A broadcast position lies inside the source array.
pub proof fn lemma_bsrc_bound(from: Seq<usize>, to: Seq<usize>, k: int)
    requires
        upcast_ok(from, to),
        0 <= k < shape_size(to),
    ensures
        0 <= bsrc(from, to, k) < shape_size(from),
    decreases to.len(),
{
    if to.len() == 0 {
        assert(from.len() == 0);
    } else if from.len() == 0 {
    } else {
        let t = to.last() as int;
        let f = from.last() as int;
        let fr = from.drop_last();
        let tr = to.drop_last();
        assert(upcast_ok(fr, tr)) by {
            assert forall|i: int| 0 <= i < fr.len() implies (#[trigger] fr[i] == tr[i + tr.len()
                - fr.len()] || fr[i] == 1) by {
                assert(from[i] == to[i + to.len() - from.len()] || from[i] == 1);
            }
        }
        assert(from[from.len() - 1] == to[to.len() - 1] || from[from.len() - 1] == 1);
        let st = shape_size(tr) as int;
        let sf = shape_size(fr) as int;
        assert(k < st * t);
        assert(t > 0 && k / t < st && 0 <= k % t < t && k / t >= 0) by (nonlinear_arith)
            requires
                0 <= k < st * t,
                st >= 0,
                t >= 0,
        ;
        lemma_bsrc_bound(fr, tr, k / t);
        let b = bsrc(fr, tr, k / t);
        let c = if f == 1 {
            0
        } else {
            k % t
        };
        assert(0 <= c < f);
        assert(0 <= b * f + c < sf * f) by (nonlinear_arith)
            requires
                0 <= b < sf,
                0 <= c < f,
        ;
    }
}

/// The positions 0, 1, ..., n - 1.
pub fn iota(n: usize) -> (r: Vec<usize>)
    ensures
        r@.len() == n,
        forall|k: int| 0 <= k < n ==> r@[k] == k,
{
    let mut r: Vec<usize> = Vec::new();
    let mut i: usize = 0;
    while i < n
        invariant
            i <= n,
            r@.len() == i,
            forall|k: int| 0 <= k < i ==> r@[k] == k,
        decreases n - i,
    {
        r.push(i);
        i = i + 1;
    }
    r
}

/// Views the array `items` of shape `shape` as an array of shape `to` and returns
/// its elements in row-major order (ndarray's `ArrayBase::broadcast`, then `iter`).
/// ndarray returns `None` when `to` does not fit or `shape` cannot be upcast to it;
/// otherwise each position `k` of the broadcast view shows the element at `bsrc(shape, to, k)`.
#[verifier::external_body]
fn broadcast_items(shape: &Vec<usize>, items: Vec<usize>, to: &Vec<usize>) -> (res: Option<Vec<usize>>)
    requires
        shape_fits(shape@),
        shape_size(shape@) == items@.len(),
    ensures
        res is Some <==> (shape_fits(to@) && upcast_ok(shape@, to@)),
        res is Some ==> res->0@.len() == shape_size(to@),
        res is Some ==> (forall|k: int|
            0 <= k < shape_size(to@) ==> res->0@[k] == items@[bsrc(shape@, to@, k)]),
{
    let a = ndarray::ArrayD::from_shape_vec(ndarray::IxDyn(shape.as_slice()), items).unwrap();
    a.broadcast(ndarray::IxDyn(to.as_slice())).map(|v| v.iter().cloned().collect())
}

/// Positions of the broadcast form of a source array of shape `from` within it.
fn broadcast_positions(from: &Vec<usize>, to: &Vec<usize>) -> (r: Vec<usize>)
    requires
        shape_fits(from@),
        shape_fits(to@),
        upcast_ok(from@, to@),
    ensures
        r@.len() == shape_size(to@),
        forall|k: int|
            0 <= k < r@.len() ==> r@[k] == bsrc(from@, to@, k) && r@[k] < shape_size(from@),
{
    let n = shape_size_checked(from);
    let n = match n {
        Some(n) => n,
        None => {
            return Vec::new();  // unreachable: the shape fits
        },
    };
    let items = iota(n);
    match broadcast_items(from, items, to) {
        Some(v) => {
            assert forall|k: int| 0 <= k < v@.len() implies v@[k] == bsrc(from@, to@, k) && v@[k]
                < shape_size(from@) by {
                lemma_bsrc_bound(from@, to@, k);
            }
            v
        },
        None => Vec::new(),  // unreachable: the upcast is allowed
    }
}

/// The shape of an elementwise operation between arrays of shapes `xs` and `ys`, and for
/// each position of the result the positions in the two operands that feed it.
/// `None` exactly where ndarray's arithmetic operators panic.
pub fn zip_positions(xs: &Vec<usize>, ys: &Vec<usize>) -> (r: Option<
    (Vec<usize>, Vec<usize>, Vec<usize>),
>)
    requires
        shape_fits(xs@),
        shape_fits(ys@),
    ensures
        r is None <==> bcast_shape(xs@, ys@) is None,
        r matches Some((t, px, py)) ==> {
            &&& bcast_shape(xs@, ys@) == Some(t@)
            &&& shape_fits(t@)
            &&& (t@.len() <= xs@.len() || t@.len() <= ys@.len())
            &&& px@.len() == shape_size(t@)
            &&& py@.len() == shape_size(t@)
            &&& forall|k: int|
                0 <= k < px@.len() ==> {
                    &&& px@[k] == bcast_index(xs@, ys@, t@, k)
                    &&& py@[k] == bcast_index(ys@, xs@, t@, k)
                    &&& px@[k] < shape_size(xs@)
                    &&& py@[k] < shape_size(ys@)
                }
        },
{
    if same_shape(xs, ys) {
        let n = match shape_size_checked(xs) {
            Some(n) => n,
            None => {
                return None;  // unreachable: the shape fits
            },
        };
        let px = iota(n);
        let py = iota(n);
        return Some((xs.clone(), px, py));
    }
    match co_broadcast_shapes(xs, ys) {
        None => None,
        Some(t) => {
            match shape_size_checked(&t) {
                None => None,
                Some(_) => {
                    proof {
                        lemma_co_broadcast_upcast(xs@, ys@);
                        lemma_co_broadcast_upcast(ys@, xs@);
                        lemma_co_broadcast_symmetric(xs@, ys@);
                    }
                    let px = broadcast_positions(xs, &t);
                    let py = broadcast_positions(ys, &t);
                    Some((t, px, py))
                },
            }
        },
    }
}

} // verus!
