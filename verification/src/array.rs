//! Reading a hyperrectangle of an array.
//!
//! A read request names one `(start, stop)` range per dimension. The request is
//! widened to whole chunks before it goes to the store, because whole chunks
//! that are missing there come back as the fill value; what comes back is then
//! cut down to what was asked for. This module checks and widens the request
//! ([`plan_array_read`]) and cuts the result ([`finish_read`]).

use crate::dtype_dispatch;
use crate::dtype_dispatch::{DtypeInfo, ElementType};
use crate::error::PyException;
use crate::text;
use crate::zarr;
use crate::zarr::ArrayFacts;
use vstd::prelude::*;
use vstd::string::*;
use zarrs::array::Array;

verus! {

// ---------------------------------------------------------------------------
// Row-major buffers
// ---------------------------------------------------------------------------

/// The number of elements of an array with this shape.
pub open spec fn product(shape: Seq<u64>) -> nat
    decreases shape.len(),
{
    if shape.len() == 0 {
        1
    } else {
        shape[0] as nat * product(shape.skip(1))
    }
}

/// `idx` is the position of an element in an array with this shape.
pub open spec fn in_bounds(idx: Seq<int>, shape: Seq<u64>) -> bool {
    idx.len() == shape.len() && forall|i: int|
        #![trigger idx[i]]
        0 <= i < idx.len() ==> 0 <= idx[i] < shape[i]
}

/// Where the element at `idx` stands in the row-major buffer of an array with
/// this shape.
pub open spec fn ravel(shape: Seq<u64>, idx: Seq<int>) -> int
    decreases shape.len(),
{
    if shape.len() == 0 {
        0
    } else {
        idx[0] * product(shape.skip(1)) + ravel(shape.skip(1), idx.skip(1))
    }
}

/// The position `idx` counted from `origin`.
pub open spec fn shifted(origin: Seq<u64>, idx: Seq<int>) -> Seq<int> {
    Seq::new(idx.len(), |i: int| origin[i] + idx[i])
}

/// A block of shape `inner` at `origin` lies within an array of shape `outer`.
pub open spec fn fits(outer: Seq<u64>, origin: Seq<u64>, inner: Seq<u64>) -> bool {
    &&& origin.len() == outer.len()
    &&& inner.len() == outer.len()
    &&& forall|i: int|
        #![trigger outer[i]]
        #![trigger origin[i]]
        #![trigger inner[i]]
        0 <= i < outer.len() ==> origin[i] + inner[i] <= outer[i]
}

/// `part` is the row-major buffer of the block of shape `inner` at `origin`,
/// cut from `whole`, the row-major buffer of an array of shape `outer`.
pub open spec fn is_block<T>(
    part: Seq<T>,
    whole: Seq<T>,
    outer: Seq<u64>,
    origin: Seq<u64>,
    inner: Seq<u64>,
) -> bool {
    &&& part.len() == product(inner)
    &&& forall|idx: Seq<int>|
        in_bounds(idx, inner) ==> part[#[trigger] ravel(inner, idx)] == whole[ravel(
            outer,
            shifted(origin, idx),
        )]
}

/// An element's place lies within the buffer.
pub proof fn lemma_ravel_in_buffer(shape: Seq<u64>, idx: Seq<int>)
    requires
        in_bounds(idx, shape),
    ensures
        0 <= ravel(shape, idx) < product(shape),
    decreases shape.len(),
{
    if shape.len() > 0 {
        let rest = shape.skip(1);
        let tail = idx.skip(1);
        assert forall|i: int| 0 <= i < tail.len() implies 0 <= #[trigger] tail[i] < rest[i] by {
            assert(tail[i] == idx[i + 1]);
        }
        lemma_ravel_in_buffer(rest, tail);
        let n = shape[0] as int;
        let p = product(rest) as int;
        let a = idx[0];
        assert(a * p + p <= n * p) by (nonlinear_arith)
            requires
                0 <= a < n,
                p >= 0,
        ;
        assert(0 <= a * p) by (nonlinear_arith)
            requires
                0 <= a,
                p >= 0,
        ;
        assert(shape[0] as nat * product(rest) == n * p);
    }
}

/// The number of elements is positive exactly when every extent is.
proof fn lemma_product_positive(shape: Seq<u64>)
    ensures
        product(shape) > 0 <==> forall|i: int| 0 <= i < shape.len() ==> #[trigger] shape[i] > 0,
    decreases shape.len(),
{
    if shape.len() > 0 {
        let rest = shape.skip(1);
        lemma_product_positive(rest);
        let n = shape[0] as int;
        let p = product(rest) as int;
        assert((n * p > 0) <==> (n > 0 && p > 0)) by (nonlinear_arith)
            requires
                n >= 0,
                p >= 0,
        ;
        if product(shape) > 0 {
            assert forall|i: int| 0 <= i < shape.len() implies #[trigger] shape[i] > 0 by {
                if i > 0 {
                    assert(rest[i - 1] == shape[i]);
                }
            }
        }
        if forall|i: int| 0 <= i < shape.len() ==> #[trigger] shape[i] > 0 {
            assert forall|i: int| 0 <= i < rest.len() implies #[trigger] rest[i] > 0 by {
                assert(rest[i] == shape[i + 1]);
            }
            assert(shape[0] > 0);
        }
    }
}

/// A buffer holds at least as many elements as any trailing part of its shape.
proof fn lemma_product_suffix(shape: Seq<u64>, k: int)
    requires
        0 <= k <= shape.len(),
        product(shape) > 0,
    ensures
        0 < product(shape.skip(k)) <= product(shape),
    decreases k,
{
    if k == 0 {
        assert(shape.skip(0) =~= shape);
    } else {
        lemma_product_positive(shape);
        let rest = shape.skip(1);
        let n = shape[0] as int;
        let p = product(rest) as int;
        assert(n > 0);
        assert(p > 0 && p <= n * p) by (nonlinear_arith)
            requires
                n > 0,
                p >= 0,
                n * p > 0,
        ;
        lemma_product_suffix(rest, k - 1);
        assert(rest.skip(k - 1) =~= shape.skip(k));
    }
}

/// The number of elements of an array with this shape, if it is at most `limit`.
pub fn element_count(shape: &[u64], limit: u64) -> (r: Option<u64>)
    ensures
        match r {
            Some(n) => n == product(shape@) && n <= limit,
            None => product(shape@) > limit,
        },
{
    proof {
        lemma_product_positive(shape@);
    }
    let mut i: usize = 0;
    while i < shape.len()
        invariant
            i <= shape.len(),
            product(shape@) > 0 <==> forall|j: int|
                0 <= j < shape@.len() ==> #[trigger] shape@[j] > 0,
            forall|j: int| 0 <= j < i ==> #[trigger] shape@[j] > 0,
        decreases shape.len() - i,
    {
        if shape[i] == 0 {
            return Some(0);
        }
        i += 1;
    }
    let mut k: usize = shape.len();
    let mut count: u64 = 1;
    proof {
        assert(shape@.skip(k as int) =~= Seq::<u64>::empty());
    }
    while k > 0
        invariant
            k <= shape.len(),
            product(shape@) > 0,
            count == product(shape@.skip(k as int)),
        decreases k,
    {
        k -= 1;
        let ghost n = shape@[k as int] as int;
        proof {
            lemma_product_suffix(shape@, k as int);
            assert(shape@.skip(k as int).skip(1) =~= shape@.skip(k + 1));
            assert(n * count as int <= u64::MAX as int * u64::MAX as int) by (nonlinear_arith)
                requires
                    0 <= n <= u64::MAX,
                    0 <= count <= u64::MAX,
            ;
        }
        let next: u128 = shape[k] as u128 * count as u128;
        if next > limit as u128 {
            return None;
        }
        count = next as u64;
    }
    assert(shape@.skip(0) =~= shape@);
    if count > limit {
        return None;
    }
    Some(count)
}

/// Row-major strides: how far apart two elements stand that differ by one in a
/// dimension.
fn strides_of(shape: &[u64]) -> (r: Vec<u64>)
    requires
        0 < product(shape@) <= u64::MAX,
    ensures
        r.len() == shape.len(),
        forall|i: int| 0 <= i < r.len() ==> #[trigger] r@[i] == product(shape@.skip(i + 1)),
{
    let n: usize = shape.len();
    let mut out: Vec<u64> = Vec::new();
    let mut i: usize = 0;
    while i < n
        invariant
            n == shape.len(),
            out.len() == i,
            i <= n,
        decreases n - i,
    {
        out.push(1);
        i += 1;
    }
    let mut k: usize = n;
    let mut stride: u64 = 1;
    proof {
        assert(shape@.skip(n as int) =~= Seq::<u64>::empty());
    }
    while k > 0
        invariant
            n == shape.len(),
            out.len() == n,
            k <= n,
            0 < product(shape@) <= u64::MAX,
            stride == product(shape@.skip(k as int)),
            forall|i: int| k <= i < n ==> #[trigger] out@[i] == product(shape@.skip(i + 1)),
        decreases k,
    {
        k -= 1;
        out.set(k, stride);
        proof {
            lemma_product_suffix(shape@, k as int);
            assert(shape@.skip(k as int).skip(1) =~= shape@.skip(k + 1));
        }
        stride = shape[k] * stride;
    }
    out
}

/// Appends, in row-major order, the elements of the block that `offsets` and
/// `out_shape` describe in the dimensions from `axis` on; `start` is where the
/// enclosing block begins in `elements`.
fn copy_block<T: Copy>(
    elements: &Vec<T>,
    aligned_shape: &[u64],
    strides: &Vec<u64>,
    offsets: &[u64],
    out_shape: &[u64],
    axis: usize,
    start: u64,
    out: &mut Vec<T>,
)
    requires
        axis <= aligned_shape.len(),
        fits(aligned_shape@, offsets@, out_shape@),
        strides.len() == aligned_shape.len(),
        forall|i: int|
            0 <= i < strides.len() ==> #[trigger] strides@[i] == product(
                aligned_shape@.skip(i + 1),
            ),
        start + product(aligned_shape@.skip(axis as int)) <= elements.len(),
    ensures
        final(out)@.len() == old(out)@.len() + product(out_shape@.skip(axis as int)),
        final(out)@.take(old(out)@.len() as int) == old(out)@,
        forall|idx: Seq<int>|
            in_bounds(idx, out_shape@.skip(axis as int)) ==> final(out)@[old(out)@.len()
                + #[trigger] ravel(out_shape@.skip(axis as int), idx)] == elements@[start + ravel(
                aligned_shape@.skip(axis as int),
                shifted(offsets@.skip(axis as int), idx),
            )],
    decreases aligned_shape.len() - axis,
{
    let ghost inner = out_shape@.skip(axis as int);
    let ghost outer = aligned_shape@.skip(axis as int);
    let ghost origin = offsets@.skip(axis as int);
    let ghost before = out@;
    if axis == aligned_shape.len() {
        proof {
            assert(inner =~= Seq::<u64>::empty());
            assert(outer =~= Seq::<u64>::empty());
        }
        out.push(elements[start as usize]);
        assert(out@.take(before.len() as int) =~= before);
        return;
    }
    let n: u64 = out_shape[axis];
    let stride: u64 = strides[axis];
    let ghost inner_rest = out_shape@.skip(axis + 1);
    let ghost outer_rest = aligned_shape@.skip(axis + 1);
    let ghost origin_rest = offsets@.skip(axis + 1);
    let ghost p = product(inner_rest) as int;
    let ghost q = product(outer_rest) as int;
    proof {
        assert(inner.skip(1) =~= inner_rest);
        assert(outer.skip(1) =~= outer_rest);
        assert(origin.skip(1) =~= origin_rest);
        assert(product(inner) == n as int * p);
        assert(product(outer) == aligned_shape@[axis as int] as int * q);
        assert(0 * p == 0);
        assert(out@.take(before.len() as int) =~= before);
    }
    let mut i: u64 = 0;
    while i < n
        invariant
            axis < aligned_shape.len(),
            fits(aligned_shape@, offsets@, out_shape@),
            strides.len() == aligned_shape.len(),
            forall|i: int|
                0 <= i < strides.len() ==> #[trigger] strides@[i] == product(
                    aligned_shape@.skip(i + 1),
                ),
            inner == out_shape@.skip(axis as int),
            outer == aligned_shape@.skip(axis as int),
            origin == offsets@.skip(axis as int),
            inner_rest == out_shape@.skip(axis + 1),
            outer_rest == aligned_shape@.skip(axis + 1),
            origin_rest == offsets@.skip(axis + 1),
            inner.skip(1) == inner_rest,
            outer.skip(1) == outer_rest,
            origin.skip(1) == origin_rest,
            p == product(inner_rest),
            q == product(outer_rest),
            stride == q,
            n == out_shape@[axis as int],
            product(outer) == aligned_shape@[axis as int] as int * q,
            start + product(outer) <= elements.len(),
            i <= n,
            out@.len() == before.len() + i as int * p,
            out@.take(before.len() as int) == before,
            forall|idx: Seq<int>|
                in_bounds(idx, inner) && idx[0] < i ==> out@[before.len() + #[trigger] ravel(
                    inner,
                    idx,
                )] == elements@[start + ravel(outer, shifted(origin, idx))],
        decreases n - i,
    {
        let ghost sofar = out@;
        let ghost a = aligned_shape@[axis as int] as int;
        let ghost at = offsets@[axis as int] as int + i as int;
        proof {
            assert(at * q + q <= a * q && 0 <= at * q) by (nonlinear_arith)
                requires
                    0 <= at < a,
                    q >= 0,
            ;
        }
        let inner_start: u64 = start + (offsets[axis] + i) * stride;
        copy_block(elements, aligned_shape, strides, offsets, out_shape, axis + 1, inner_start, out);
        proof {
            assert((i as int + 1) * p == i as int * p + p) by (nonlinear_arith);
            assert(out@.take(before.len() as int) =~= sofar.take(before.len() as int)) by {
                assert(0 <= i as int * p) by (nonlinear_arith)
                    requires
                        0 <= i as int,
                        p >= 0,
                ;
                assert forall|j: int| 0 <= j < before.len() implies out@[j] == sofar[j] by {
                    assert(out@.take(sofar.len() as int)[j] == sofar[j]);
                }
            }
            assert forall|idx: Seq<int>| in_bounds(idx, inner) && idx[0] < i + 1 implies out@[
                before.len() + #[trigger] ravel(inner, idx)
            ] == elements@[start + ravel(outer, shifted(origin, idx))] by {
                let tail = idx.skip(1);
                assert(in_bounds(tail, inner_rest)) by {
                    assert forall|j: int| 0 <= j < tail.len() implies 0 <= #[trigger] tail[j]
                        < inner_rest[j] by {
                        assert(tail[j] == idx[j + 1]);
                        assert(inner_rest[j] == inner[j + 1]);
                    }
                }
                lemma_ravel_in_buffer(inner_rest, tail);
                let r = ravel(inner_rest, tail);
                assert(ravel(inner, idx) == idx[0] * p + r);
                assert(idx[0] >= 0);
                if idx[0] < i {
                    let b = idx[0];
                    assert(0 <= b * p && b * p + p <= i as int * p) by (nonlinear_arith)
                        requires
                            0 <= b < i as int,
                            p >= 0,
                    ;
                    let j = before.len() + ravel(inner, idx);
                    assert(0 <= j < sofar.len());
                    assert(out@.take(sofar.len() as int)[j] == sofar[j]);
                } else {
                    assert(idx[0] == i);
                    let moved = shifted(origin, idx);
                    assert(moved.skip(1) =~= shifted(origin_rest, tail));
                    assert(moved[0] == at);
                    assert(ravel(outer, moved) == at * q + ravel(
                        outer_rest,
                        shifted(origin_rest, tail),
                    ));
                    assert(sofar.len() + r == before.len() + ravel(inner, idx));
                }
            }
        }
        i += 1;
    }
    proof {
        assert forall|idx: Seq<int>| in_bounds(idx, inner) implies out@[before.len()
            + #[trigger] ravel(inner, idx)] == elements@[start + ravel(
            outer,
            shifted(origin, idx),
        )] by {
            assert(idx[0] < n);
        }
    }
}

/// Slice an N-dimensional row-major buffer down to a hyperrectangle.
///
/// `elements` is a flat row-major buffer of shape `aligned_shape`; the result
/// is the row-major buffer of the block of shape `out_shape` at `offsets`.
pub fn slice_nd<T: Copy>(
    elements: Vec<T>,
    aligned_shape: &[u64],
    offsets: &[u64],
    out_shape: &[u64],
) -> (r: Vec<T>)
    requires
        fits(aligned_shape@, offsets@, out_shape@),
        elements.len() == product(aligned_shape@),
    ensures
        is_block(r@, elements@, aligned_shape@, offsets@, out_shape@),
{
    let n: usize = aligned_shape.len();
    let mut identity: bool = true;
    let mut empty: bool = false;
    let mut i: usize = 0;
    while i < n
        invariant
            n == aligned_shape.len(),
            fits(aligned_shape@, offsets@, out_shape@),
            i <= n,
            identity <==> forall|j: int|
                0 <= j < i ==> #[trigger] offsets@[j] == 0 && out_shape@[j] == aligned_shape@[j],
            empty <==> exists|j: int| 0 <= j < i && #[trigger] out_shape@[j] == 0,
        decreases n - i,
    {
        if offsets[i] != 0 || out_shape[i] != aligned_shape[i] {
            identity = false;
        }
        if out_shape[i] == 0 {
            empty = true;
        }
        i += 1;
    }
    if identity {
        proof {
            assert(out_shape@ =~= aligned_shape@);
            assert forall|idx: Seq<int>| in_bounds(idx, out_shape@) implies elements@[
                #[trigger] ravel(out_shape@, idx)
            ] == elements@[ravel(aligned_shape@, shifted(offsets@, idx))] by {
                assert(shifted(offsets@, idx) =~= idx) by {
                    assert forall|j: int| 0 <= j < idx.len() implies shifted(offsets@, idx)[j]
                        == idx[j] by {
                        assert(offsets@[j] == 0);
                    }
                }
            }
        }
        return elements;
    }
    let mut out: Vec<T> = Vec::new();
    proof {
        lemma_product_positive(out_shape@);
        lemma_product_positive(aligned_shape@);
    }
    if empty {
        proof {
            assert forall|idx: Seq<int>| in_bounds(idx, out_shape@) implies false by {
                lemma_ravel_in_buffer(out_shape@, idx);
            }
        }
        return out;
    }
    proof {
        assert forall|j: int| 0 <= j < n implies #[trigger] aligned_shape@[j] > 0 by {
            assert(out_shape@[j] != 0);
        }
        assert(aligned_shape@.skip(0) =~= aligned_shape@);
        assert(offsets@.skip(0) =~= offsets@);
        assert(out_shape@.skip(0) =~= out_shape@);
    }
    let strides: Vec<u64> = strides_of(aligned_shape);
    copy_block(&elements, aligned_shape, &strides, offsets, out_shape, 0, 0, &mut out);
    proof {
        assert forall|idx: Seq<int>| in_bounds(idx, out_shape@) implies out@[#[trigger] ravel(
            out_shape@,
            idx,
        )] == elements@[ravel(aligned_shape@, shifted(offsets@, idx))] by {
            assert(out@[0 + ravel(out_shape@, idx)] == elements@[0 + ravel(
                aligned_shape@,
                shifted(offsets@, idx),
            )]);
        }
    }
    out
}

// ---------------------------------------------------------------------------
// The request
// ---------------------------------------------------------------------------

/// Why a read request is refused.
#[derive(Debug)]
pub enum ReadError {
    /// The request does not fit the array; an `IndexError` in Python.
    Index(String),
    /// The request is malformed, or the store fails it; a `ValueError` in
    /// Python.
    Value(String),
    /// The elements are of a kind that is not read; a `NotImplementedError` in
    /// Python.
    Unsupported(String),
}

/// A [`ReadError`] with its message.
pub enum ReadErrorModel {
    Index(Seq<char>),
    Value(Seq<char>),
    Unsupported(Seq<char>),
}

impl View for ReadError {
    type V = ReadErrorModel;

    open spec fn view(&self) -> ReadErrorModel {
        match *self {
            ReadError::Index(m) => ReadErrorModel::Index(m@),
            ReadError::Value(m) => ReadErrorModel::Value(m@),
            ReadError::Unsupported(m) => ReadErrorModel::Unsupported(m@),
        }
    }
}

impl ReadError {
    /// The Python exception that the error becomes.
    pub fn py_exception(&self) -> (r: PyException)
        ensures
            r == (match self@ {
                ReadErrorModel::Index(_) => PyException::IndexError,
                ReadErrorModel::Value(_) => PyException::ValueError,
                ReadErrorModel::Unsupported(_) => PyException::NotImplementedError,
            }),
    {
        match self {
            ReadError::Index(_) => PyException::IndexError,
            ReadError::Value(_) => PyException::ValueError,
            ReadError::Unsupported(_) => PyException::NotImplementedError,
        }
    }

    /// The message of the error.
    pub fn message(&self) -> (r: String)
        ensures
            r@ == (match self@ {
                ReadErrorModel::Index(m) => m,
                ReadErrorModel::Value(m) => m,
                ReadErrorModel::Unsupported(m) => m,
            }),
    {
        match self {
            ReadError::Index(m) => m.clone(),
            ReadError::Value(m) => m.clone(),
            ReadError::Unsupported(m) => m.clone(),
        }
    }
}

/// The complaint about a request with `got` ranges for `expected` dimensions.
pub open spec fn wrong_count(expected: nat, got: nat) -> ReadErrorModel {
    ReadErrorModel::Index(
        "expected "@ + text::decimal(expected) + " ranges, got "@ + text::decimal(got),
    )
}

/// The complaint about the range of dimension `i`, if there is one: `start`
/// must not exceed `stop`, nor `stop` the extent of the dimension.
pub open spec fn range_complaint(i: nat, range: (u64, u64), size: u64) -> Option<ReadErrorModel> {
    let (start, stop) = range;
    if start > stop {
        Some(
            ReadErrorModel::Value(
                "range["@ + text::decimal(i) + "]: start "@ + text::decimal(start as nat)
                    + " > stop "@ + text::decimal(stop as nat),
            ),
        )
    } else if stop > size {
        Some(
            ReadErrorModel::Index(
                "range["@ + text::decimal(i) + "] stop "@ + text::decimal(stop as nat)
                    + " exceeds dim size "@ + text::decimal(size as nat),
            ),
        )
    } else {
        None
    }
}

/// The complaint about a request, if there is one: about the number of ranges,
/// or about the first range that is at fault.
pub open spec fn request_complaint(shape: Seq<u64>, ranges: Seq<(u64, u64)>) -> Option<
    ReadErrorModel,
> {
    if ranges.len() != shape.len() {
        Some(wrong_count(shape.len(), ranges.len()))
    } else {
        first_complaint(shape, ranges, 0)
    }
}

/// The complaint about the first range at fault from dimension `i` on.
pub open spec fn first_complaint(shape: Seq<u64>, ranges: Seq<(u64, u64)>, i: nat) -> Option<
    ReadErrorModel,
>
    decreases ranges.len() - i,
{
    if i >= ranges.len() {
        None
    } else {
        match range_complaint(i, ranges[i as int], shape[i as int]) {
            Some(e) => Some(e),
            None => first_complaint(shape, ranges, i + 1),
        }
    }
}

/// The greatest multiple of `chunk` up to `x`.
pub open spec fn align_down(x: int, chunk: int) -> int {
    x / chunk * chunk
}

/// The least multiple of `chunk` from `x` on.
pub open spec fn align_up(x: int, chunk: int) -> int {
    (x + chunk - 1) / chunk * chunk
}

/// The extent of a chunk in a dimension, which counts as at least one.
pub open spec fn chunk_extent(chunk: u64) -> int {
    if chunk == 0 {
        1
    } else {
        chunk as int
    }
}

/// A range widened to chunk boundaries, but not past the end of the array.
pub open spec fn widened(range: (u64, u64), chunk: u64, size: u64) -> (int, int) {
    let up = align_up(range.1 as int, chunk_extent(chunk));
    (
        align_down(range.0 as int, chunk_extent(chunk)),
        if up < size {
            up
        } else {
            size as int
        },
    )
}

/// A read request in terms of whole chunks, and how to get from the chunks to
/// what was asked for.
pub struct ReadPlan {
    /// The widened `(start, stop)` ranges, which the store is asked for.
    pub aligned_ranges: Vec<(u64, u64)>,
    /// Where the request begins within the widened block.
    pub offsets: Vec<u64>,
    /// The shape of the request.
    pub request_shape: Vec<u64>,
    /// The shape of the widened block.
    pub aligned_shape: Vec<u64>,
}

impl ReadPlan {
    /// The request lies within the widened block.
    pub open spec fn well_formed(&self) -> bool {
        fits(self.aligned_shape@, self.offsets@, self.request_shape@)
    }

    /// The plan is the one for these ranges of an array with this shape, stored
    /// in chunks of this shape.
    pub open spec fn serves(
        &self,
        shape: Seq<u64>,
        chunk_shape: Seq<u64>,
        ranges: Seq<(u64, u64)>,
    ) -> bool {
        &&& self.aligned_ranges@.len() == ranges.len()
        &&& self.offsets@.len() == ranges.len()
        &&& self.request_shape@.len() == ranges.len()
        &&& self.aligned_shape@.len() == ranges.len()
        &&& forall|i: int|
            0 <= i < ranges.len() ==> self.serves_at(
                i,
                #[trigger] ranges[i],
                chunk_shape[i],
                shape[i],
            )
    }

    /// The plan is right in dimension `i`.
    pub open spec fn serves_at(&self, i: int, range: (u64, u64), chunk: u64, size: u64) -> bool {
        let (low, high) = widened(range, chunk, size);
        &&& self.aligned_ranges@[i].0 == low
        &&& self.aligned_ranges@[i].1 == high
        &&& self.offsets@[i] == range.0 - low
        &&& self.request_shape@[i] == range.1 - range.0
        &&& self.aligned_shape@[i] == high - low
    }
}

/// A widened range encloses the range and ends within the array.
pub proof fn lemma_widened_encloses(range: (u64, u64), chunk: u64, size: u64)
    requires
        range.0 <= range.1 <= size,
    ensures
        0 <= widened(range, chunk, size).0 <= range.0,
        range.1 <= widened(range, chunk, size).1 <= size,
        range.0 - widened(range, chunk, size).0 < chunk_extent(chunk),
{
    let c = chunk_extent(chunk);
    let a = range.0 as int;
    let b = range.1 as int;
    assert(0 <= a / c * c <= a && a - a / c * c < c) by (nonlinear_arith)
        requires
            c > 0,
            a >= 0,
    ;
    assert((b + c - 1) / c * c >= b) by (nonlinear_arith)
        requires
            c > 0,
            b >= 0,
    ;
}

/// Checks one range and builds the complaint about it.
fn check_range(i: usize, start: u64, stop: u64, size: u64) -> (r: Result<(), ReadError>)
    ensures
        match r {
            Ok(_) => range_complaint(i as nat, (start, stop), size) is None,
            Err(e) => range_complaint(i as nat, (start, stop), size) == Some(e@),
        },
{
    if start > stop {
        let mut m: String = "range[".to_owned();
        m.append(text::decimal_text(i as u64).as_str());
        m.append("]: start ");
        m.append(text::decimal_text(start).as_str());
        m.append(" > stop ");
        m.append(text::decimal_text(stop).as_str());
        return Err(ReadError::Value(m));
    }
    if stop > size {
        let mut m: String = "range[".to_owned();
        m.append(text::decimal_text(i as u64).as_str());
        m.append("] stop ");
        m.append(text::decimal_text(stop).as_str());
        m.append(" exceeds dim size ");
        m.append(text::decimal_text(size).as_str());
        return Err(ReadError::Index(m));
    }
    Ok(())
}

/// Checks a read request against the shape of the array.
pub fn check_request(shape: &[u64], ranges: &[(u64, u64)]) -> (r: Result<(), ReadError>)
    ensures
        match r {
            Ok(_) => {
                &&& request_complaint(shape@, ranges@) is None
                &&& ranges@.len() == shape@.len()
                &&& forall|j: int|
                    0 <= j < ranges@.len() ==> (#[trigger] ranges@[j]).0 <= ranges@[j].1
                        <= shape@[j]
            },
            Err(e) => request_complaint(shape@, ranges@) == Some(e@),
        },
{
    if ranges.len() != shape.len() {
        let mut m: String = "expected ".to_owned();
        m.append(text::decimal_text(shape.len() as u64).as_str());
        m.append(" ranges, got ");
        m.append(text::decimal_text(ranges.len() as u64).as_str());
        return Err(ReadError::Index(m));
    }
    let mut i: usize = 0;
    while i < ranges.len()
        invariant
            ranges.len() == shape.len(),
            i <= ranges.len(),
            request_complaint(shape@, ranges@) == first_complaint(shape@, ranges@, i as nat),
            forall|j: int| 0 <= j < i ==> (#[trigger] ranges@[j]).0 <= ranges@[j].1 <= shape@[j],
        decreases ranges.len() - i,
    {
        match check_range(i, ranges[i].0, ranges[i].1, shape[i]) {
            Ok(_) => {},
            Err(e) => {
                return Err(e);
            },
        }
        i += 1;
    }
    Ok(())
}

/// Checks a read request and widens it to chunk-grid boundaries.
///
/// `ranges` holds one `(start, stop)` pair per dimension, with `stop` exclusive.
/// Reading whole chunks makes the store give the fill value for chunks that it
/// does not hold; [`finish_read`] then cuts the request out of what was read.
pub fn plan_read(shape: &[u64], chunk_shape: &[u64], ranges: &[(u64, u64)]) -> (r: Result<
    ReadPlan,
    ReadError,
>)
    requires
        chunk_shape.len() == shape.len(),
    ensures
        match r {
            Ok(plan) => {
                &&& request_complaint(shape@, ranges@) is None
                &&& plan.serves(shape@, chunk_shape@, ranges@)
                &&& plan.well_formed()
            },
            Err(e) => request_complaint(shape@, ranges@) == Some(e@),
        },
{
    match check_request(shape, ranges) {
        Ok(_) => {},
        Err(e) => {
            return Err(e);
        },
    }
    let mut plan: ReadPlan = ReadPlan {
        aligned_ranges: Vec::new(),
        offsets: Vec::new(),
        request_shape: Vec::new(),
        aligned_shape: Vec::new(),
    };
    let mut k: usize = 0;
    while k < ranges.len()
        invariant
            ranges.len() == shape.len(),
            chunk_shape.len() == shape.len(),
            k <= ranges.len(),
            forall|j: int|
                0 <= j < ranges.len() ==> (#[trigger] ranges@[j]).0 <= ranges@[j].1 <= shape@[j],
            plan.aligned_ranges.len() == k,
            plan.offsets.len() == k,
            plan.request_shape.len() == k,
            plan.aligned_shape.len() == k,
            forall|j: int|
                0 <= j < k ==> plan.serves_at(j, #[trigger] ranges@[j], chunk_shape@[j], shape@[j]),
        decreases ranges.len() - k,
    {
        let start: u64 = ranges[k].0;
        let stop: u64 = ranges[k].1;
        let size: u64 = shape[k];
        let chunk: u64 = if chunk_shape[k] == 0 {
            1
        } else {
            chunk_shape[k]
        };
        proof {
            assert(ranges@[k as int] == (start, stop));
            lemma_widened_encloses((start, stop), chunk_shape@[k as int], size);
        }
        let low: u64 = start / chunk * chunk;
        let wide: u128 = chunk as u128;
        proof {
            let b = stop as int;
            let c = chunk as int;
            assert((b + c - 1) / c * c <= b + c - 1) by (nonlinear_arith)
                requires
                    c > 0,
                    b >= 0,
            ;
        }
        let up: u128 = (stop as u128 + wide - 1) / wide * wide;
        let high: u64 = if up < size as u128 {
            up as u64
        } else {
            size
        };
        plan.aligned_ranges.push((low, high));
        plan.offsets.push(start - low);
        plan.request_shape.push(stop - start);
        plan.aligned_shape.push(high - low);
        k += 1;
    }
    proof {
        assert forall|j: int| 0 <= j < ranges.len() implies plan.offsets@[j]
            + plan.request_shape@[j] <= #[trigger] plan.aligned_shape@[j] by {
            assert(plan.serves_at(j, ranges@[j], chunk_shape@[j], shape@[j]));
            lemma_widened_encloses(ranges@[j], chunk_shape@[j], shape@[j]);
        }
    }
    Ok(plan)
}

/// The complaint about elements of a kind that is not read.
pub open spec fn unreadable(facts: ArrayFacts) -> ReadErrorModel {
    ReadErrorModel::Unsupported(
        dtype_dispatch::unsupported_dtype(dtype_dispatch::zarr_name(facts.dtype)),
    )
}

/// `t` is the first type that elements of the array can be read as.
pub open spec fn is_first_type(t: ElementType, facts: ArrayFacts) -> bool {
    &&& dtype_dispatch::is_read_as(facts.dtype.markers, t)
    &&& forall|u: ElementType| #[trigger]
        dtype_dispatch::is_read_as(facts.dtype.markers, u) ==> dtype_dispatch::dispatch_rank(t)
            <= dtype_dispatch::dispatch_rank(u)
}

/// The complaint about a request to an array, if there is one: about the ranges,
/// about an array that has no chunk shape, or about elements of a kind that is
/// not read.
pub open spec fn read_complaint(facts: ArrayFacts, ranges: Seq<(u64, u64)>) -> Option<
    ReadErrorModel,
> {
    match request_complaint(facts.shape, ranges) {
        Some(e) => Some(e),
        None => match facts.origin_chunk {
            Err(cause) => Some(
                ReadErrorModel::Value("zarrs: chunk_shape lookup failed: "@ + cause),
            ),
            Ok(_) => if exists|t: ElementType| #[trigger]
                dtype_dispatch::is_read_as(facts.dtype.markers, t) {
                None
            } else {
                Some(unreadable(facts))
            },
        },
    }
}

/// `plan` is for the request to the array, and its elements are read as `t`.
pub open spec fn is_read_plan(
    plan: ReadPlan,
    t: ElementType,
    facts: ArrayFacts,
    ranges: Seq<(u64, u64)>,
) -> bool {
    &&& plan.well_formed()
    &&& facts.origin_chunk matches Ok(chunk)
    &&& plan.serves(facts.shape, chunk, ranges)
    &&& is_first_type(t, facts)
}

/// Checks a request to an array: what to read for it, and as what.
pub fn plan_array_read(array: &Array<()>, ranges: &[(u64, u64)]) -> (r: Result<
    (ReadPlan, ElementType),
    ReadError,
>)
    ensures
        match r {
            Ok((plan, t)) => {
                &&& read_complaint(zarr::array_facts(*array), ranges@) is None
                &&& is_read_plan(plan, t, zarr::array_facts(*array), ranges@)
            },
            Err(e) => read_complaint(zarr::array_facts(*array), ranges@) == Some(e@),
        },
{
    let shape: Vec<u64> = zarr::array_shape(array);
    match check_request(shape.as_slice(), ranges) {
        Ok(_) => {},
        Err(e) => {
            return Err(e);
        },
    }
    let chunk_shape: Vec<u64> = match zarr::origin_chunk_shape(array) {
        Ok(chunk_shape) => chunk_shape,
        Err(m) => {
            return Err(ReadError::Value(m));
        },
    };
    let plan: ReadPlan = match plan_read(shape.as_slice(), chunk_shape.as_slice(), ranges) {
        Ok(plan) => plan,
        Err(e) => {
            return Err(e);
        },
    };
    match array_element_type(array) {
        Ok(t) => Ok((plan, t)),
        Err(e) => Err(e),
    }
}

/// What the elements of an array are read as.
fn array_element_type(array: &Array<()>) -> (r: Result<ElementType, ReadError>)
    ensures
        match r {
            Ok(t) => is_first_type(t, zarr::array_facts(*array)),
            Err(e) => {
                &&& forall|u: ElementType| !#[trigger]
                    dtype_dispatch::is_read_as(zarr::array_facts(*array).dtype.markers, u)
                &&& e@ == unreadable(zarr::array_facts(*array))
            },
        },
{
    let dtype: DtypeInfo = zarr::array_dtype(array);
    assert(dtype.markers == zarr::array_facts(*array).dtype.markers) by {
        assert(dtype@ == zarr::array_facts(*array).dtype);
    }
    match dtype_dispatch::readable_as(&dtype) {
        Ok(t) => Ok(t),
        Err(m) => Err(ReadError::Unsupported(m)),
    }
}

/// The ranges that take in a whole array.
pub open spec fn whole_ranges(shape: Seq<u64>) -> Seq<(u64, u64)> {
    shape.map_values(|size: u64| (0u64, size))
}

/// `plan` reads a whole array of the given shape and cuts nothing off.
pub open spec fn is_whole_plan(plan: ReadPlan, shape: Seq<u64>) -> bool {
    &&& plan.aligned_ranges@ == whole_ranges(shape)
    &&& plan.offsets@ == Seq::new(shape.len(), |i: int| 0u64)
    &&& plan.request_shape@ == shape
    &&& plan.aligned_shape@ == shape
}

/// How to read a whole array, and as what. The chunks of the array do not
/// matter, and nothing but elements of a kind that is not read stands in the
/// way.
pub fn plan_whole_read(array: &Array<()>) -> (r: Result<(ReadPlan, ElementType), ReadError>)
    ensures
        match r {
            Ok((plan, t)) => {
                &&& plan.well_formed()
                &&& is_whole_plan(plan, zarr::array_facts(*array).shape)
                &&& is_first_type(t, zarr::array_facts(*array))
            },
            Err(e) => {
                &&& forall|u: ElementType| !#[trigger]
                    dtype_dispatch::is_read_as(zarr::array_facts(*array).dtype.markers, u)
                &&& e@ == unreadable(zarr::array_facts(*array))
            },
        },
{
    let element: ElementType = match array_element_type(array) {
        Ok(t) => t,
        Err(e) => {
            return Err(e);
        },
    };
    let shape: Vec<u64> = zarr::array_shape(array);
    let mut plan: ReadPlan = ReadPlan {
        aligned_ranges: Vec::new(),
        offsets: Vec::new(),
        request_shape: Vec::new(),
        aligned_shape: Vec::new(),
    };
    let mut i: usize = 0;
    proof {
        let seen = shape@.take(0);
        assert(plan.aligned_ranges@ =~= whole_ranges(seen));
        assert(plan.offsets@ =~= Seq::new(seen.len(), |k: int| 0u64));
        assert(plan.request_shape@ =~= seen);
        assert(plan.aligned_shape@ =~= seen);
    }
    while i < shape.len()
        invariant
            i <= shape.len(),
            is_whole_plan(plan, shape@.take(i as int)),
        decreases shape.len() - i,
    {
        plan.aligned_ranges.push((0, shape[i]));
        plan.offsets.push(0);
        plan.request_shape.push(shape[i]);
        plan.aligned_shape.push(shape[i]);
        i += 1;
        proof {
            let seen = shape@.take(i as int);
            assert(plan.aligned_ranges@ =~= whole_ranges(seen));
            assert(plan.offsets@ =~= Seq::new(seen.len(), |k: int| 0u64));
            assert(plan.request_shape@ =~= seen);
            assert(plan.aligned_shape@ =~= seen);
        }
    }
    assert(shape@.take(shape@.len() as int) =~= shape@);
    Ok((plan, element))
}

/// The error for a read that the store failed.
pub fn read_failure(err: &str) -> (r: ReadError)
    ensures
        r@ == ReadErrorModel::Value("zarrs read failed: "@ + err@),
{
    ReadError::Value(text::joined("zarrs read failed: ", err))
}

/// Cuts the request out of the widened block that was read for it.
pub fn finish_read<T: Copy>(plan: &ReadPlan, elements: Vec<T>) -> (r: Vec<T>)
    requires
        plan.well_formed(),
        elements.len() == product(plan.aligned_shape@),
    ensures
        is_block(
            r@,
            elements@,
            plan.aligned_shape@,
            plan.offsets@,
            plan.request_shape@,
        ),
{
    slice_nd(
        elements,
        plan.aligned_shape.as_slice(),
        plan.offsets.as_slice(),
        plan.request_shape.as_slice(),
    )
}

impl ReadPlan {
    /// Whether a read that gave `len` elements gave the whole widened block.
    pub fn expects(&self, len: usize) -> (r: bool)
        ensures
            r == (len == product(self.aligned_shape@)),
    {
        match element_count(self.aligned_shape.as_slice(), len as u64) {
            Some(n) => n == len as u64,
            None => false,
        }
    }
}

// ---------------------------------------------------------------------------
// The handle
// ---------------------------------------------------------------------------

/// The numbers with a comma and a space between them.
pub open spec fn listing(numbers: Seq<u64>) -> Seq<char>
    decreases numbers.len(),
{
    if numbers.len() == 0 {
        Seq::<char>::empty()
    } else if numbers.len() == 1 {
        text::decimal(numbers[0] as nat)
    } else {
        listing(numbers.drop_last()) + ", "@ + text::decimal(numbers.last() as nat)
    }
}

/// What a handle of an array with that metadata shows itself as.
pub open spec fn handle_text(facts: ArrayFacts) -> Seq<char> {
    "ZarrsArrayHandle(shape=["@ + listing(facts.shape) + "], dtype="@ + dtype_dispatch::numpy_name(
        facts.dtype,
    ) + ")"@
}

/// What the handle of an array shows itself as.
pub fn handle_repr(array: &Array<()>) -> (r: String)
    ensures
        r@ == "ZarrsArrayHandle(shape=["@ + listing(zarr::array_facts(*array).shape)
            + "], dtype="@ + dtype_dispatch::numpy_name(zarr::array_facts(*array).dtype) + ")"@,
        r@ == handle_text(zarr::array_facts(*array)),
{
    let shape: Vec<u64> = zarr::array_shape(array);
    let mut m: String = "ZarrsArrayHandle(shape=[".to_owned();
    let mut i: usize = 0;
    proof {
        assert(shape@.take(0) =~= Seq::<u64>::empty());
        assert(m@ + listing(shape@.take(0)) =~= m@);
    }
    while i < shape.len()
        invariant
            i <= shape.len(),
            m@ == "ZarrsArrayHandle(shape=["@ + listing(shape@.take(i as int)),
        decreases shape.len() - i,
    {
        if i > 0 {
            m.append(", ");
        }
        m.append(text::decimal_text(shape[i]).as_str());
        proof {
            assert(shape@.take(i + 1).drop_last() =~= shape@.take(i as int));
            assert(shape@.take(i + 1).last() == shape@[i as int]);
            assert(m@ =~= "ZarrsArrayHandle(shape=["@ + listing(shape@.take(i + 1)));
        }
        i += 1;
    }
    proof {
        assert(shape@.take(shape@.len() as int) =~= shape@);
    }
    m.append("], dtype=");
    m.append(dtype_dispatch::zarrs_dtype_to_numpy_str(&zarr::array_dtype(array)).as_str());
    m.append(")");
    m
}

/// The message for a handle that cannot be pickled, because its store cannot be
/// reopened elsewhere.
pub fn not_picklable() -> (r: &'static str)
    ensures
        r@ == "rustytree: this array is not picklable — pickling (e.g. for dask.distributed) is currently supported only for stores opened via an icechunk Session, not vanilla s3:// / local Zarr stores. Either open the store through an icechunk Session, or compute with the threaded scheduler (`dask.config.set(scheduler=\"threads\")`)."@,
{
    "rustytree: this array is not picklable — pickling (e.g. for dask.distributed) is currently supported only for stores opened via an icechunk Session, not vanilla s3:// / local Zarr stores. Either open the store through an icechunk Session, or compute with the threaded scheduler (`dask.config.set(scheduler=\"threads\")`)."
}

// ---------------------------------------------------------------------------
// Laws
// ---------------------------------------------------------------------------

/// Every place in a row-major buffer belongs to a position, so what is said of
/// every position says everything about the buffer.
pub proof fn law_every_place_has_a_position(shape: Seq<u64>, place: int) -> (idx: Seq<int>)
    requires
        0 <= place < product(shape),
    ensures
        in_bounds(idx, shape),
        ravel(shape, idx) == place,
    decreases shape.len(),
{
    if shape.len() == 0 {
        Seq::<int>::empty()
    } else {
        let rest = shape.skip(1);
        let n = shape[0] as int;
        let p = product(rest) as int;
        assert(product(shape) == n * p);
        assert(p > 0) by (nonlinear_arith)
            requires
                0 <= place < n * p,
                p >= 0,
                n >= 0,
        ;
        let head = place / p;
        let below = place % p;
        assert(0 <= head < n && head * p + below == place && 0 <= below < p) by (nonlinear_arith)
            requires
                0 <= place < n * p,
                p > 0,
                head == place / p,
                below == place % p,
        ;
        let tail = law_every_place_has_a_position(rest, below);
        let idx = seq![head] + tail;
        assert(idx.skip(1) =~= tail);
        assert forall|i: int| 0 <= i < idx.len() implies 0 <= #[trigger] idx[i] < shape[i] by {
            if i > 0 {
                assert(idx[i] == tail[i - 1]);
                assert(rest[i - 1] == shape[i]);
            }
        }
        idx
    }
}

/// Two different positions have different places, so the buffer keeps the
/// elements apart.
pub proof fn law_positions_do_not_collide(shape: Seq<u64>, a: Seq<int>, b: Seq<int>)
    requires
        in_bounds(a, shape),
        in_bounds(b, shape),
        ravel(shape, a) == ravel(shape, b),
    ensures
        a == b,
    decreases shape.len(),
{
    if shape.len() == 0 {
        assert(a =~= b);
    } else {
        let rest = shape.skip(1);
        let p = product(rest) as int;
        let s = a.skip(1);
        let t = b.skip(1);
        assert forall|i: int| 0 <= i < s.len() implies 0 <= #[trigger] s[i] < rest[i] by {
            assert(s[i] == a[i + 1]);
        }
        assert forall|i: int| 0 <= i < t.len() implies 0 <= #[trigger] t[i] < rest[i] by {
            assert(t[i] == b[i + 1]);
        }
        lemma_ravel_in_buffer(rest, s);
        lemma_ravel_in_buffer(rest, t);
        let x = a[0];
        let y = b[0];
        let u = ravel(rest, s);
        let v = ravel(rest, t);
        assert(x == y) by (nonlinear_arith)
            requires
                x * p + u == y * p + v,
                0 <= u < p,
                0 <= v < p,
        ;
        law_positions_do_not_collide(rest, s, t);
        assert forall|i: int| 0 <= i < a.len() implies a[i] == b[i] by {
            if i > 0 {
                assert(s[i - 1] == a[i]);
                assert(t[i - 1] == b[i]);
            }
        }
        assert(a =~= b);
    }
}

/// The answer to a request has one element for each position that the request
/// names, and none where a range is empty.
pub proof fn law_answer_has_the_length_of_the_request<T>(
    plan: ReadPlan,
    shape: Seq<u64>,
    chunk_shape: Seq<u64>,
    ranges: Seq<(u64, u64)>,
    read: Seq<T>,
    answer: Seq<T>,
)
    requires
        request_complaint(shape, ranges) is None,
        plan.serves(shape, chunk_shape, ranges),
        is_block(answer, read, plan.aligned_shape@, plan.offsets@, plan.request_shape@),
    ensures
        plan.request_shape@ == extents(ranges),
        answer.len() == product(extents(ranges)),
{
    lemma_no_complaint(shape, ranges, 0);
    assert forall|i: int| 0 <= i < ranges.len() implies plan.request_shape@[i] == extents(
        ranges,
    )[i] by {
        assert(plan.serves_at(i, ranges[i], chunk_shape[i], shape[i]));
    }
    assert(plan.request_shape@ =~= extents(ranges));
}

/// A read gives back what the array holds: when the store answers the widened
/// ranges of a plan with the elements of the array in those ranges, then what
/// is cut out holds, at every position of the request, the element of the array
/// that the request names.
pub proof fn law_read_gives_what_was_asked<T>(
    plan: ReadPlan,
    shape: Seq<u64>,
    chunk_shape: Seq<u64>,
    ranges: Seq<(u64, u64)>,
    array: spec_fn(Seq<int>) -> T,
    read: Seq<T>,
    answer: Seq<T>,
    idx: Seq<int>,
)
    requires
        request_complaint(shape, ranges) is None,
        plan.serves(shape, chunk_shape, ranges),
        forall|j: Seq<int>|
            in_bounds(j, plan.aligned_shape@) ==> read[#[trigger] ravel(plan.aligned_shape@, j)]
                == array(shifted(starts(plan.aligned_ranges@), j)),
        is_block(answer, read, plan.aligned_shape@, plan.offsets@, plan.request_shape@),
        in_bounds(idx, extents(ranges)),
    ensures
        answer[ravel(extents(ranges), idx)] == array(shifted(starts(ranges), idx)),
{
    lemma_no_complaint(shape, ranges, 0);
    law_answer_has_the_length_of_the_request(
        plan,
        shape,
        chunk_shape,
        ranges,
        read,
        answer,
    );
    let moved = shifted(plan.offsets@, idx);
    assert forall|i: int| 0 <= i < moved.len() implies 0 <= #[trigger] moved[i]
        < plan.aligned_shape@[i] by {
        assert(plan.serves_at(i, ranges[i], chunk_shape[i], shape[i]));
        lemma_widened_encloses(ranges[i], chunk_shape[i], shape[i]);
        assert(0 <= idx[i] < plan.request_shape@[i]);
    }
    assert(in_bounds(moved, plan.aligned_shape@));
    assert(shifted(starts(plan.aligned_ranges@), moved) =~= shifted(starts(ranges), idx)) by {
        assert forall|i: int| 0 <= i < idx.len() implies shifted(
            starts(plan.aligned_ranges@),
            moved,
        )[i] == shifted(starts(ranges), idx)[i] by {
            assert(plan.serves_at(i, ranges[i], chunk_shape[i], shape[i]));
        }
    }
}

/// Where each range starts.
pub open spec fn starts(ranges: Seq<(u64, u64)>) -> Seq<u64> {
    ranges.map_values(|r: (u64, u64)| r.0)
}

/// How many positions each range has.
pub open spec fn extents(ranges: Seq<(u64, u64)>) -> Seq<u64> {
    ranges.map_values(|r: (u64, u64)| (r.1 - r.0) as u64)
}

/// Without a complaint every range is in order and within the array.
proof fn lemma_no_complaint(shape: Seq<u64>, ranges: Seq<(u64, u64)>, i: nat)
    requires
        ranges.len() == shape.len(),
        i <= ranges.len(),
        first_complaint(shape, ranges, i) is None,
    ensures
        forall|j: int|
            i <= j < ranges.len() ==> (#[trigger] ranges[j]).0 <= ranges[j].1 <= shape[j],
    decreases ranges.len() - i,
{
    if i < ranges.len() {
        lemma_no_complaint(shape, ranges, i + 1);
    }
}

/// A request is accepted exactly when it has one range per dimension and every
/// range is in order and ends within the array.
pub proof fn law_accepted_requests(shape: Seq<u64>, ranges: Seq<(u64, u64)>)
    ensures
        request_complaint(shape, ranges) is None <==> ranges.len() == shape.len() && forall|j: int|
            0 <= j < ranges.len() ==> (#[trigger] ranges[j]).0 <= ranges[j].1 <= shape[j],
{
    if ranges.len() == shape.len() {
        if request_complaint(shape, ranges) is None {
            lemma_no_complaint(shape, ranges, 0);
        }
        if forall|j: int|
            0 <= j < ranges.len() ==> (#[trigger] ranges[j]).0 <= ranges[j].1 <= shape[j] {
            lemma_accepted(shape, ranges, 0);
        }
    }
}

proof fn lemma_accepted(shape: Seq<u64>, ranges: Seq<(u64, u64)>, i: nat)
    requires
        ranges.len() == shape.len(),
        forall|j: int|
            0 <= j < ranges.len() ==> (#[trigger] ranges[j]).0 <= ranges[j].1 <= shape[j],
    ensures
        first_complaint(shape, ranges, i) is None,
    decreases ranges.len() - i,
{
    if i < ranges.len() {
        assert(ranges[i as int].0 <= ranges[i as int].1 <= shape[i as int]);
        lemma_accepted(shape, ranges, i + 1);
    }
}

/// What the store is asked for is made of whole chunks: a widened range starts
/// on a chunk boundary, and ends on one or at the end of the array. It encloses
/// the range that was asked for and stays within the array.
pub proof fn law_reads_are_whole_chunks(range: (u64, u64), chunk: u64, size: u64)
    requires
        range.0 <= range.1 <= size,
    ensures
        widened(range, chunk, size).0 % chunk_extent(chunk) == 0,
        widened(range, chunk, size).1 % chunk_extent(chunk) == 0 || widened(range, chunk, size).1
            == size,
        0 <= widened(range, chunk, size).0 <= range.0,
        range.1 <= widened(range, chunk, size).1 <= size,
{
    lemma_widened_encloses(range, chunk, size);
    let c = chunk_extent(chunk);
    let x = range.0 as int / c;
    let y = (range.1 as int + c - 1) / c;
    assert((x * c) % c == 0) by (nonlinear_arith)
        requires
            c > 0,
    ;
    assert((y * c) % c == 0) by (nonlinear_arith)
        requires
            c > 0,
    ;
}

/// A read of a whole dimension needs no cutting.
pub proof fn law_full_range_is_its_own_widening(chunk: u64, size: u64)
    ensures
        widened((0, size), chunk, size) == (0int, size as int),
{
    lemma_widened_encloses((0, size), chunk, size);
}

/// Cutting a block from a block is cutting one block.
pub proof fn law_blocks_compose<T>(
    whole: Seq<T>,
    middle: Seq<T>,
    part: Seq<T>,
    outer: Seq<u64>,
    origin: Seq<u64>,
    inner: Seq<u64>,
    inset: Seq<u64>,
    core: Seq<u64>,
    idx: Seq<int>,
)
    requires
        is_block(middle, whole, outer, origin, inner),
        is_block(part, middle, inner, inset, core),
        fits(outer, origin, inner),
        fits(inner, inset, core),
        in_bounds(idx, core),
    ensures
        part[ravel(core, idx)] == whole[ravel(outer, shifted(origin, shifted(inset, idx)))],
{
    let moved = shifted(inset, idx);
    assert forall|i: int| 0 <= i < moved.len() implies 0 <= #[trigger] moved[i] < inner[i] by {
        assert(0 <= idx[i] < core[i]);
    }
    assert(in_bounds(moved, inner));
}

/// Elements are counted axis by axis: a shape without axes has one, a single axis
/// has as many as it is long, and axes side by side multiply.
pub proof fn law_elements_are_counted_by_axis(a: Seq<u64>, b: Seq<u64>, n: u64)
    ensures
        product(Seq::<u64>::empty()) == 1,
        product(seq![n]) == n,
        product(a + b) == product(a) * product(b),
    decreases a.len(),
{
    assert(seq![n].skip(1) =~= Seq::<u64>::empty());
    assert(product(seq![n].skip(1)) == 1);
    if a.len() == 0 {
        assert(a + b =~= b);
        assert(1 * product(b) == product(b));
    } else {
        assert((a + b).skip(1) =~= a.skip(1) + b);
        law_elements_are_counted_by_axis(a.skip(1), b, n);
        let x = a[0] as nat;
        let y = product(a.skip(1));
        let z = product(b);
        assert(x * (y * z) == (x * y) * z) by (nonlinear_arith);
    }
}

/// A position is within a shape when it has one number for each axis, and each is
/// within that axis.
pub proof fn law_positions_are_judged_by_axis(idx: Seq<int>, shape: Seq<u64>, k: int, n: u64)
    ensures
        in_bounds(Seq::<int>::empty(), Seq::<u64>::empty()),
        in_bounds(idx, shape) ==> idx.len() == shape.len(),
        in_bounds(idx.push(k), shape.push(n)) <==> in_bounds(idx, shape) && 0 <= k < n,
{
    let more = idx.push(k);
    let longer = shape.push(n);
    if in_bounds(more, longer) {
        assert(0 <= more[idx.len() as int] < longer[idx.len() as int]);
        assert forall|i: int| 0 <= i < idx.len() implies 0 <= #[trigger] idx[i] < shape[i] by {
            assert(0 <= more[i] < longer[i]);
        }
    }
}

/// Along the last axis elements stand next to each other: with one more axis of
/// `n` elements every place becomes `n` places, in their order.
pub proof fn law_last_axis_runs_fastest(shape: Seq<u64>, idx: Seq<int>, n: u64, k: int)
    requires
        idx.len() == shape.len(),
    ensures
        ravel(Seq::<u64>::empty(), Seq::<int>::empty()) == 0,
        ravel(shape.push(n), idx.push(k)) == ravel(shape, idx) * n + k,
    decreases shape.len(),
{
    let longer = shape.push(n);
    let more = idx.push(k);
    if shape.len() == 0 {
        assert(longer.skip(1) =~= Seq::<u64>::empty());
        assert(product(longer.skip(1)) == 1);
        assert(ravel(longer.skip(1), more.skip(1)) == 0);
        assert(ravel(shape, idx) * n == 0);
    } else {
        assert(longer.skip(1) =~= shape.skip(1).push(n));
        assert(more.skip(1) =~= idx.skip(1).push(k));
        law_last_axis_runs_fastest(shape.skip(1), idx.skip(1), n, k);
        law_elements_are_counted_by_axis(shape.skip(1), seq![n], n);
        assert(shape.skip(1).push(n) =~= shape.skip(1) + seq![n]);
        let a = idx[0];
        let p = product(shape.skip(1)) as int;
        let r = ravel(shape.skip(1), idx.skip(1));
        let m = n as int;
        assert(product(longer.skip(1)) == p * m);
        assert(a * (p * m) + (r * m + k) == (a * p + r) * m + k) by (nonlinear_arith);
    }
}

/// Elements stand in row-major order: of two positions the one that is smaller
/// on the first axis on which they differ stands first.
pub proof fn law_elements_stand_in_row_major_order(
    shape: Seq<u64>,
    a: Seq<int>,
    b: Seq<int>,
    axis: int,
)
    requires
        a.len() == shape.len(),
        b.len() == shape.len(),
        forall|i: int| 0 <= i < shape.len() ==> 0 <= #[trigger] a[i] < shape[i],
        forall|i: int| 0 <= i < shape.len() ==> 0 <= #[trigger] b[i] < shape[i],
        0 <= axis < shape.len(),
        forall|i: int| 0 <= i < axis ==> #[trigger] a[i] == b[i],
        a[axis] < b[axis],
    ensures
        0 <= ravel(shape, a) < ravel(shape, b) < product(shape),
    decreases shape.len(),
{
    lemma_ravel_in_buffer(shape, a);
    lemma_ravel_in_buffer(shape, b);
    let rest = shape.skip(1);
    let s = a.skip(1);
    let t = b.skip(1);
    assert forall|i: int| 0 <= i < rest.len() implies 0 <= #[trigger] s[i] < rest[i] by {
        assert(s[i] == a[i + 1]);
    }
    assert forall|i: int| 0 <= i < rest.len() implies 0 <= #[trigger] t[i] < rest[i] by {
        assert(t[i] == b[i + 1]);
    }
    lemma_ravel_in_buffer(rest, s);
    lemma_ravel_in_buffer(rest, t);
    if axis == 0 {
        let p = product(rest) as int;
        let x = a[0];
        let y = b[0];
        assert(x * p + p <= y * p) by (nonlinear_arith)
            requires
                x < y,
                p >= 0,
        ;
    } else {
        assert(a[0] == b[0]);
        assert forall|i: int| 0 <= i < axis - 1 implies #[trigger] s[i] == t[i] by {
            assert(a[i + 1] == b[i + 1]);
        }
        assert(s[axis - 1] == a[axis] && t[axis - 1] == b[axis]);
        law_elements_stand_in_row_major_order(rest, s, t, axis - 1);
    }
}

/// To count a position from an origin is to add the origin on every axis, however
/// many there are.
pub proof fn law_origin_is_added_on_every_axis(origin: Seq<u64>, idx: Seq<int>)
    requires
        origin.len() == idx.len(),
    ensures
        shifted(origin, idx).len() == idx.len(),
        forall|i: int| 0 <= i < idx.len() ==> #[trigger] shifted(origin, idx)[i] - idx[i] == origin[i],
{
}

/// A position counted from two different origins is two different positions.
pub proof fn law_origins_tell_positions_apart(a: Seq<u64>, b: Seq<u64>, idx: Seq<int>)
    requires
        a.len() == idx.len(),
        b.len() == idx.len(),
        a != b,
    ensures
        shifted(a, idx) != shifted(b, idx),
{
    if shifted(a, idx) == shifted(b, idx) {
        assert forall|i: int| 0 <= i < a.len() implies a[i] == b[i] by {
            assert(shifted(a, idx)[i] == shifted(b, idx)[i]);
        }
        assert(a =~= b);
    }
}

/// A block fits when it ends within the array on every axis; each of its
/// positions is then one of the array.
pub proof fn law_block_fits_on_every_axis(outer: Seq<u64>, origin: Seq<u64>, inner: Seq<u64>)
    ensures
        fits(outer, origin, inner) <==> origin.len() == outer.len() && inner.len() == outer.len()
            && forall|i: int| 0 <= i < outer.len() ==> origin[i] + #[trigger] inner[i] <= outer[i],
{
}

/// What is cut out is the block that was asked for. The result has one element
/// for each position of the block, and at position `idx` stands what stands in the
/// whole at `at`, which lies `origin` further on every axis.
pub proof fn law_cut_takes_the_block<T>(
    part: Seq<T>,
    whole: Seq<T>,
    outer: Seq<u64>,
    origin: Seq<u64>,
    inner: Seq<u64>,
    idx: Seq<int>,
    at: Seq<int>,
)
    requires
        is_block(part, whole, outer, origin, inner),
        origin.len() == outer.len(),
        inner.len() == outer.len(),
        idx.len() == outer.len(),
        at.len() == outer.len(),
        forall|i: int| 0 <= i < outer.len() ==> 0 <= #[trigger] idx[i] < inner[i],
        forall|i: int| 0 <= i < outer.len() ==> #[trigger] at[i] == origin[i] + idx[i],
    ensures
        part.len() == product(inner),
        0 <= ravel(inner, idx) < part.len(),
        part[ravel(inner, idx)] == whole[ravel(outer, at)],
{
    assert(in_bounds(idx, inner));
    lemma_ravel_in_buffer(inner, idx);
    assert(at =~= shifted(origin, idx));
}

/// Of an array with one axis the cut is a stretch.
pub proof fn law_cut_of_one_axis_is_a_stretch<T>(
    part: Seq<T>,
    whole: Seq<T>,
    size: u64,
    start: u64,
    len: u64,
)
    requires
        is_block(part, whole, seq![size], seq![start], seq![len]),
        whole.len() == size,
        start + len <= size,
    ensures
        part == whole.subrange(start as int, start + len),
{
    law_elements_are_counted_by_axis(Seq::<u64>::empty(), Seq::<u64>::empty(), len);
    assert forall|k: int| 0 <= k < part.len() implies part[k] == whole[start + k] by {
        let idx = seq![k];
        let at = seq![start + k];
        law_cut_takes_the_block(part, whole, seq![size], seq![start], seq![len], idx, at);
        let none = Seq::<u64>::empty();
        let nowhere = Seq::<int>::empty();
        law_last_axis_runs_fastest(none, nowhere, len, k);
        law_last_axis_runs_fastest(none, nowhere, size, start + k);
        assert(none.push(len) =~= seq![len] && none.push(size) =~= seq![size]);
        assert(nowhere.push(k) =~= idx && nowhere.push(start + k) =~= at);
    }
    assert(part =~= whole.subrange(start as int, start + len));
}

/// A range is widened by as little as will do: it starts at the last chunk
/// boundary up to its start, and ends at the first one from its stop on, or at
/// the end of the array where that comes first. Chunks without extent widen
/// nothing.
pub proof fn law_range_is_widened_to_the_next_chunks(
    range: (u64, u64),
    chunk: u64,
    size: u64,
    x: int,
)
    requires
        range.0 <= range.1 <= size,
    ensures
        chunk == 0 ==> widened(range, chunk, size) == (range.0 as int, range.1 as int),
        chunk > 0 ==> {
            let (low, high) = widened(range, chunk, size);
            &&& low % (chunk as int) == 0
            &&& 0 <= low <= range.0
            &&& x % (chunk as int) == 0 && x <= range.0 ==> x <= low
            &&& range.1 <= high <= size
            &&& high % (chunk as int) == 0 || high == size
            &&& x >= range.1 && (x % (chunk as int) == 0 || x == size) ==> high <= x
        },
{
    law_reads_are_whole_chunks(range, chunk, size);
    lemma_widened_encloses(range, chunk, size);
    let a = range.0 as int;
    let b = range.1 as int;
    if chunk == 0 {
        assert(a / 1 * 1 == a);
        assert((b + 1 - 1) / 1 * 1 == b) by (nonlinear_arith);
    } else {
        let c = chunk as int;
        let q = x / c;
        if x % c == 0 {
            assert(x == q * c) by (nonlinear_arith)
                requires
                    q == x / c,
                    x % c == 0,
                    c > 0,
            ;
            if x <= a {
                assert(q * c <= a / c * c) by (nonlinear_arith)
                    requires
                        q * c <= a,
                        c > 0,
                ;
            }
            if x >= b {
                assert((b + c - 1) / c * c <= q * c) by (nonlinear_arith)
                    requires
                        q * c >= b,
                        c > 0,
                ;
            }
        }
    }
}

/// A plan asks for the widened ranges and knows its way back: on every axis the
/// widened block starts where it was asked for, the request starts `offsets`
/// further on, and each shape is what lies between start and stop.
pub proof fn law_plan_knows_its_way_back(
    plan: ReadPlan,
    shape: Seq<u64>,
    chunk_shape: Seq<u64>,
    ranges: Seq<(u64, u64)>,
    i: int,
)
    requires
        plan.serves(shape, chunk_shape, ranges),
        0 <= i < ranges.len(),
        ranges[i].0 <= ranges[i].1 <= shape[i],
    ensures
        plan.aligned_ranges@.len() == ranges.len(),
        plan.offsets@.len() == ranges.len(),
        plan.request_shape@.len() == ranges.len(),
        plan.aligned_shape@.len() == ranges.len(),
        plan.aligned_ranges@[i].0 + plan.offsets@[i] == ranges[i].0,
        plan.request_shape@[i] + ranges[i].0 == ranges[i].1,
        plan.aligned_shape@[i] + plan.aligned_ranges@[i].0 == plan.aligned_ranges@[i].1,
        ranges[i].1 <= plan.aligned_ranges@[i].1 <= shape[i],
        chunk_shape[i] == 0 ==> plan.aligned_ranges@[i] == ranges[i],
        chunk_shape[i] > 0 ==> {
            &&& plan.aligned_ranges@[i].0 % chunk_shape[i] == 0
            &&& plan.offsets@[i] < chunk_shape[i]
            &&& plan.aligned_ranges@[i].1 % chunk_shape[i] == 0 || plan.aligned_ranges@[i].1
                == shape[i]
            &&& plan.aligned_ranges@[i].1 - ranges[i].1 < chunk_shape[i]
        },
{
    assert(plan.serves_at(i, ranges[i], chunk_shape[i], shape[i]));
    lemma_widened_encloses(ranges[i], chunk_shape[i], shape[i]);
    law_reads_are_whole_chunks(ranges[i], chunk_shape[i], shape[i]);
    let b = ranges[i].1 as int;
    law_range_is_widened_to_the_next_chunks(ranges[i], chunk_shape[i], shape[i], 0);
    let c = chunk_extent(chunk_shape[i]);
    assert((b + c - 1) / c * c - b < c) by (nonlinear_arith)
        requires
            c > 0,
    ;
}

/// The starts and the extents of ranges are those of each.
pub proof fn law_ranges_are_taken_one_by_one(ranges: Seq<(u64, u64)>)
    ensures
        starts(ranges).len() == ranges.len(),
        extents(ranges).len() == ranges.len(),
        forall|i: int|
            #![trigger starts(ranges)[i]]
            #![trigger extents(ranges)[i]]
            0 <= i < ranges.len() && ranges[i].0 <= ranges[i].1 ==> starts(ranges)[i] == ranges[i].0
                && starts(ranges)[i] + extents(ranges)[i] == ranges[i].1,
{
}

/// A refused request is told what is wrong with it: how many ranges were
/// expected, or which range is the first at fault and in which way.
pub proof fn law_refusal_names_the_first_fault(
    shape: Seq<u64>,
    ranges: Seq<(u64, u64)>,
    i: int,
)
    requires
        ranges.len() == shape.len() ==> {
            &&& 0 <= i < ranges.len()
            &&& !(ranges[i].0 <= ranges[i].1 <= shape[i])
            &&& forall|j: int|
                0 <= j < i ==> (#[trigger] ranges[j]).0 <= ranges[j].1 <= shape[j]
        },
    ensures
        request_complaint(shape, ranges) == Some(
            if ranges.len() != shape.len() {
                ReadErrorModel::Index(
                    "expected "@ + text::decimal(shape.len()) + " ranges, got "@ + text::decimal(
                        ranges.len(),
                    ),
                )
            } else if ranges[i].0 > ranges[i].1 {
                ReadErrorModel::Value(
                    "range["@ + text::decimal(i as nat) + "]: start "@ + text::decimal(
                        ranges[i].0 as nat,
                    ) + " > stop "@ + text::decimal(ranges[i].1 as nat),
                )
            } else {
                ReadErrorModel::Index(
                    "range["@ + text::decimal(i as nat) + "] stop "@ + text::decimal(
                        ranges[i].1 as nat,
                    ) + " exceeds dim size "@ + text::decimal(shape[i] as nat),
                )
            },
        ),
{
    if ranges.len() == shape.len() {
        lemma_complaint_reaches(shape, ranges, 0, i as nat);
    }
}

/// Ranges that are in order are passed over.
proof fn lemma_complaint_reaches(shape: Seq<u64>, ranges: Seq<(u64, u64)>, from: nat, to: nat)
    requires
        from <= to < ranges.len(),
        forall|j: int| 0 <= j < to ==> (#[trigger] ranges[j]).0 <= ranges[j].1 <= shape[j],
    ensures
        first_complaint(shape, ranges, from) == first_complaint(shape, ranges, to),
    decreases to - from,
{
    if from < to {
        assert(ranges[from as int].0 <= ranges[from as int].1 <= shape[from as int]);
        lemma_complaint_reaches(shape, ranges, from + 1, to);
    }
}

/// A read of an array is refused for its ranges first, then for want of a chunk
/// shape, then for elements of a kind that is not read; nothing else stands in
/// its way.
pub proof fn law_read_is_refused_in_order(facts: ArrayFacts, ranges: Seq<(u64, u64)>)
    ensures
        request_complaint(facts.shape, ranges) is Some ==> read_complaint(facts, ranges)
            == request_complaint(facts.shape, ranges),
        request_complaint(facts.shape, ranges) is None ==> match facts.origin_chunk {
            Err(cause) => read_complaint(facts, ranges) == Some(
                ReadErrorModel::Value("zarrs: chunk_shape lookup failed: "@ + cause),
            ),
            Ok(_) => {
                let m = facts.dtype.markers;
                if m.boolean || m.int8 || m.int16 || m.int32 || m.int64 || m.uint8 || m.uint16
                    || m.uint32 || m.uint64 || m.float32 || m.float64 {
                    read_complaint(facts, ranges) is None
                } else {
                    read_complaint(facts, ranges) == Some(
                        ReadErrorModel::Unsupported(
                            dtype_dispatch::unsupported_dtype(
                                dtype_dispatch::zarr_name(facts.dtype),
                            ),
                        ),
                    )
                }
            },
        },
{
    let m = facts.dtype.markers;
    assert(dtype_dispatch::is_read_as(m, ElementType::Bool) == m.boolean);
    assert(dtype_dispatch::is_read_as(m, ElementType::I8) == m.int8);
    assert(dtype_dispatch::is_read_as(m, ElementType::I16) == m.int16);
    assert(dtype_dispatch::is_read_as(m, ElementType::I32) == m.int32);
    assert(dtype_dispatch::is_read_as(m, ElementType::I64) == m.int64);
    assert(dtype_dispatch::is_read_as(m, ElementType::U8) == m.uint8);
    assert(dtype_dispatch::is_read_as(m, ElementType::U16) == m.uint16);
    assert(dtype_dispatch::is_read_as(m, ElementType::U32) == m.uint32);
    assert(dtype_dispatch::is_read_as(m, ElementType::U64) == m.uint64);
    assert(dtype_dispatch::is_read_as(m, ElementType::F32) == m.float32);
    assert(dtype_dispatch::is_read_as(m, ElementType::F64) == m.float64);
}

/// A read of a whole array asks for every element, has the shape of the array and
/// gives back all that was read, as it was read.
pub proof fn law_whole_read_cuts_nothing<T>(
    plan: ReadPlan,
    shape: Seq<u64>,
    read: Seq<T>,
    answer: Seq<T>,
)
    requires
        is_whole_plan(plan, shape),
        read.len() == product(shape),
        is_block(answer, read, plan.aligned_shape@, plan.offsets@, plan.request_shape@),
    ensures
        plan.aligned_ranges@.len() == shape.len(),
        forall|i: int|
            0 <= i < shape.len() ==> #[trigger] plan.aligned_ranges@[i] == (0u64, shape[i]),
        plan.request_shape@ == shape,
        plan.aligned_shape@ == shape,
        plan.offsets@.len() == shape.len(),
        forall|i: int| 0 <= i < shape.len() ==> #[trigger] plan.offsets@[i] == 0,
        answer == read,
{
    assert forall|k: int| 0 <= k < answer.len() implies answer[k] == read[k] by {
        let idx = law_every_place_has_a_position(shape, k);
        law_cut_takes_the_block(
            answer,
            read,
            plan.aligned_shape@,
            plan.offsets@,
            plan.request_shape@,
            idx,
            idx,
        );
    }
    assert(answer =~= read);
}

/// A shape is shown number by number, with a comma and a space between two.
pub proof fn law_listing_is_joined(a: Seq<u64>, b: Seq<u64>, n: u64)
    requires
        a.len() > 0,
        b.len() > 0,
    ensures
        listing(Seq::<u64>::empty()) == Seq::<char>::empty(),
        listing(seq![n]) == text::decimal(n as nat),
        listing(a + b) == listing(a) + ", "@ + listing(b),
    decreases b.len(),
{
    assert((a + b).drop_last() =~= a + b.drop_last());
    if b.len() == 1 {
        assert(a + b.drop_last() =~= a);
        assert((a + b).last() == b[0]);
    } else {
        law_listing_is_joined(a, b.drop_last(), n);
        assert(listing(a + b) =~= listing(a) + ", "@ + listing(b));
    }
}

/// Elements are read as the first type that fits: that type does, and none that is
/// tried before it does.
pub proof fn law_first_type_is_taken(t: ElementType, facts: ArrayFacts)
    requires
        is_first_type(t, facts),
    ensures
        ({
            let m = facts.dtype.markers;
            let signed = m.int8 || m.int16 || m.int32 || m.int64;
            let unsigned = m.uint8 || m.uint16 || m.uint32 || m.uint64;
            &&& m.boolean ==> t == ElementType::Bool
            &&& !m.boolean ==> {
                &&& m.int8 ==> t == ElementType::I8
                &&& m.int16 && !m.int8 ==> t == ElementType::I16
                &&& m.int32 && !m.int8 && !m.int16 ==> t == ElementType::I32
                &&& m.int64 && !m.int8 && !m.int16 && !m.int32 ==> t == ElementType::I64
            }
            &&& !m.boolean && !signed ==> {
                &&& m.uint8 ==> t == ElementType::U8
                &&& m.uint16 && !m.uint8 ==> t == ElementType::U16
                &&& m.uint32 && !m.uint8 && !m.uint16 ==> t == ElementType::U32
                &&& m.uint64 && !m.uint8 && !m.uint16 && !m.uint32 ==> t == ElementType::U64
            }
            &&& !m.boolean && !signed && !unsigned ==> {
                &&& m.float32 ==> t == ElementType::F32
                &&& m.float64 && !m.float32 ==> t == ElementType::F64
            }
        }),
{
    let m = facts.dtype.markers;
    assert(dtype_dispatch::is_read_as(m, ElementType::Bool) == m.boolean);
    assert(dtype_dispatch::is_read_as(m, ElementType::I8) == m.int8);
    assert(dtype_dispatch::is_read_as(m, ElementType::I16) == m.int16);
    assert(dtype_dispatch::is_read_as(m, ElementType::I32) == m.int32);
    assert(dtype_dispatch::is_read_as(m, ElementType::I64) == m.int64);
    assert(dtype_dispatch::is_read_as(m, ElementType::U8) == m.uint8);
    assert(dtype_dispatch::is_read_as(m, ElementType::U16) == m.uint16);
    assert(dtype_dispatch::is_read_as(m, ElementType::U32) == m.uint32);
    assert(dtype_dispatch::is_read_as(m, ElementType::U64) == m.uint64);
    assert(dtype_dispatch::is_read_as(m, ElementType::F32) == m.float32);
    assert(dtype_dispatch::is_read_as(m, ElementType::F64) == m.float64);
}

/// A plan for an array is one for its shape and chunks and for the ranges that were
/// asked for; the request lies within what it asks for, and its elements are read
/// as the first type that fits.
pub proof fn law_plan_is_for_the_request(
    plan: ReadPlan,
    t: ElementType,
    facts: ArrayFacts,
    ranges: Seq<(u64, u64)>,
)
    requires
        is_read_plan(plan, t, facts, ranges),
    ensures
        facts.origin_chunk matches Ok(chunk) && plan.serves(facts.shape, chunk, ranges),
        fits(plan.aligned_shape@, plan.offsets@, plan.request_shape@),
        plan.well_formed(),
        is_first_type(t, facts),
{
}

/// The view of an error keeps its kind and its message.
pub proof fn law_error_keeps_kind_and_message(m: String)
    ensures
        ReadError::Index(m)@ == ReadErrorModel::Index(m@),
        ReadError::Value(m)@ == ReadErrorModel::Value(m@),
        ReadError::Unsupported(m)@ == ReadErrorModel::Unsupported(m@),
{
}

/// A handle shows the shape and the data type of its array, and what is around
/// them is the same for all.
pub proof fn law_handles_have_one_form() -> (around: (Seq<char>, Seq<char>, Seq<char>))
    ensures
        forall|facts: ArrayFacts| #[trigger]
            handle_text(facts) == around.0 + listing(facts.shape) + around.1
                + dtype_dispatch::numpy_name(facts.dtype) + around.2,
{
    ("ZarrsArrayHandle(shape=["@, "], dtype="@, ")"@)
}

} // verus!
