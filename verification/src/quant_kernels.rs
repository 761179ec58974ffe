//! Matrix products and conversions of quantised tensors.
//!
//! The arithmetic on single-precision numbers is given by functions: the product of a block of
//! weights and a stretch of activations, the sum of two numbers, the numbers of a block. What is
//! decided here is which blocks are combined with which activations, in which order, and where the
//! results go. Numbers are held by their bits.

use crate::quant;
use crate::quant::{QData, QTensor, QTensors};
use vstd::prelude::*;

verus! {

// ---------------------------------------------------------------------------
// Shapes
// ---------------------------------------------------------------------------

/// Shape of a tensor of single-precision or other numbers.
pub struct TensorHead {
    pub shape: Vec<usize>,
    pub strides: Vec<usize>,
    /// 0 for single-precision numbers.
    pub dtype: u8,
}

/// Shape and format of a matrix of weights.
#[derive(Clone, Copy, PartialEq, Eq, Structural, Debug)]
pub struct Weights {
    pub scheme: u8,
    pub rows: usize,
    pub cols: usize,
}

/// Sizes of a product of activations `[batch, k]` and the transpose of weights `[n, k]`.
#[derive(Clone, Copy, PartialEq, Eq, Structural, Debug)]
pub struct Product {
    pub batch: usize,
    pub n: usize,
    pub k: usize,
    pub block_size: usize,
    pub block_bytes: usize,
}

/// Whether a tensor is a matrix of single-precision numbers.
pub open spec fn is_matrix(x: TensorHead) -> bool {
    x.shape@.len() == 2 && x.dtype == 0
}

/// Bytes of a super-block of a format.
pub open spec fn block_bytes_of(scheme: u8) -> usize {
    if scheme == quant::QSCHEME_Q4_K_M {
        quant::Q4_K_M_BLOCK_BYTES
    } else {
        quant::Q6_K_BLOCK_BYTES
    }
}

/// Whether activations and weights can be multiplied: the weights are in super-blocks along their
/// rows, and the rows of both are equally long.
pub open spec fn multiplies(x: TensorHead, w: Weights) -> bool {
    &&& w.scheme == quant::QSCHEME_Q4_K_M || w.scheme == quant::QSCHEME_Q6_K
    &&& is_matrix(x)
    &&& x.shape@[1] == w.cols
    &&& w.cols % 256 == 0
}

/// Sizes of the product of activations and weights.
pub open spec fn product_of(x: TensorHead, w: Weights) -> Product {
    Product {
        batch: x.shape@[0],
        n: w.rows,
        k: w.cols,
        block_size: 256,
        block_bytes: block_bytes_of(w.scheme),
    }
}

/// Sizes of the product of activations and weights; none where they do not fit.
pub fn qmatmul_prep(x: &TensorHead, w: Weights) -> (p: Option<Product>)
    ensures
        p == if multiplies(*x, w) {
            Some(product_of(*x, w))
        } else {
            None
        },
{
    let block_bytes: usize = match w.scheme {
        quant::QSCHEME_Q4_K_M => quant::Q4_K_M_BLOCK_BYTES,
        quant::QSCHEME_Q6_K => quant::Q6_K_BLOCK_BYTES,
        _ => {
            return None;
        },
    };
    if x.shape.len() != 2 || x.dtype != 0 {
        return None;
    }
    let batch: usize = x.shape[0];
    let k: usize = x.shape[1];
    if k != w.cols || k % 256 != 0 {
        return None;
    }
    Some(Product { batch, n: w.rows, k, block_size: 256, block_bytes })
}

/// Whether the rows of a matrix of single-precision numbers are without gaps.
pub fn x_is_contiguous(x: &TensorHead) -> (r: bool)
    requires
        x.strides@.len() == x.shape@.len(),
    ensures
        r == (is_matrix(*x) && x.strides@[1] == 1),
{
    if x.shape.len() != 2 || x.dtype != 0 {
        return false;
    }
    x.strides[1] == 1
}

/// Most threads that can be asked for.
pub const MAX_THREADS: i64 = 64;

/// Number of threads where none is asked for.
pub const AUTO_THREADS: usize = 6;

/// Threads for so many rows: as many as are asked for, or six, but no more than rows, and at least
/// one.
pub open spec fn workers(threads: i64, rows: int) -> int {
    let asked = if threads <= 0 {
        6
    } else if threads > 64 {
        64
    } else {
        threads as int
    };
    if asked <= rows {
        asked
    } else if rows == 0 {
        1
    } else {
        rows
    }
}

/// Threads for so many rows.
pub fn worker_count(threads: i64, rows: usize) -> (t: usize)
    ensures
        t == workers(threads, rows as int),
        t >= 1,
{
    let asked: usize = if threads <= 0 {
        AUTO_THREADS
    } else if threads > MAX_THREADS {
        MAX_THREADS as usize
    } else {
        threads as usize
    };
    if asked > rows {
        if rows > 1 {
            rows
        } else {
            1
        }
    } else {
        asked
    }
}

/// A range of rows that is cut to the rows that there are.
pub open spec fn cut(i: i64, n: int) -> int {
    if i < 0 {
        0
    } else if i > n {
        n
    } else {
        i as int
    }
}

fn cut_row(i: i64, n: usize) -> (r: usize)
    ensures
        r == cut(i, n as int),
{
    if i < 0 {
        0
    } else if i as u64 > n as u64 {
        n
    } else {
        i as usize
    }
}

// ---------------------------------------------------------------------------
// Which way a product is computed
// ---------------------------------------------------------------------------

/// Whether the 8-bit dot instruction is used: it was compiled for, the processor has it, and the
/// setting is not empty and not `0`.
pub fn sdot_enabled(compiled: bool, detected: bool, setting: Option<&[u8]>) -> (r: bool)
    ensures
        r == (compiled && detected && (setting matches Some(v) ==> v@.len() > 0 && v@
            != crate::text::lit("0"))),
{
    if !compiled || !detected {
        return false;
    }
    match setting {
        None => true,
        Some(v) => v.len() > 0 && !crate::text::equal(v, "0".as_bytes()),
    }
}

/// Whether activations are quantised once for all rows: the 8-bit dot instruction is used, there is
/// one row of activations without gaps, and the weights are Q4_K_M.
pub open spec fn shares_activations(sdot: bool, x: TensorHead, w: Weights) -> bool {
    sdot && x.shape@[0] == 1 && w.scheme == quant::QSCHEME_Q4_K_M && is_matrix(x)
        && x.strides@[1] == 1
}

/// How a product is computed.
#[derive(Clone, Copy, PartialEq, Eq, Structural, Debug)]
pub enum Route {
    /// With activations that are quantised once.
    SharedActivations,
    /// Each thread on its own.
    Separate,
}

/// A product that is to be computed: the sizes, the number of threads and the way.
#[derive(Clone, Copy, PartialEq, Eq, Structural, Debug)]
pub struct Plan {
    pub product: Product,
    pub threads: usize,
    pub route: Route,
}

/// Plan of a product on several threads; none where activations and weights do not fit.
pub fn rayzor_tensor_matmul_qt_t_f32_threaded(
    x: Option<&TensorHead>,
    w: Option<Weights>,
    threads: i64,
    sdot: bool,
) -> (plan: Option<Plan>)
    requires
        x matches Some(h) ==> h.strides@.len() == h.shape@.len(),
    ensures
        match (x, w) {
            (Some(h), Some(t)) if multiplies(*h, t) => plan == Some(
                Plan {
                    product: product_of(*h, t),
                    threads: workers(threads, t.rows as int) as usize,
                    route: if shares_activations(sdot, *h, t) {
                        Route::SharedActivations
                    } else {
                        Route::Separate
                    },
                },
            ),
            _ => plan is None,
        },
{
    match (x, w) {
        (Some(h), Some(t)) => {
            let product: Product = match qmatmul_prep(h, t) {
                Some(p) => p,
                None => {
                    return None;
                },
            };
            let shared: bool = sdot && product.batch == 1 && t.scheme == quant::QSCHEME_Q4_K_M
                && x_is_contiguous(h);
            let route: Route = if shared {
                Route::SharedActivations
            } else {
                Route::Separate
            };
            Some(Plan { product, threads: worker_count(threads, product.n), route })
        },
        _ => None,
    }
}

/// Whether there is a way to compute a part of a product: 1, or 0 where a tensor is null or
/// activations and weights do not fit.
pub fn rayzor_tensor_matmul_qt_t_f32_chunk(
    x: Option<&TensorHead>,
    w: Option<Weights>,
    y_given: bool,
    sdot: bool,
) -> (r: (i64, Route))
    requires
        x matches Some(h) ==> h.strides@.len() == h.shape@.len(),
    ensures
        match (x, w) {
            (Some(h), Some(t)) if y_given && multiplies(*h, t) => {
                &&& r.0 == 1
                &&& r.1 == if shares_activations(sdot, *h, t) {
                    Route::SharedActivations
                } else {
                    Route::Separate
                }
            },
            _ => r.0 == 0,
        },
{
    if !y_given {
        return (0, Route::Separate);
    }
    match rayzor_tensor_matmul_qt_t_f32_threaded(x, w, 1, sdot) {
        Some(plan) => (1, plan.route),
        None => (0, Route::Separate),
    }
}

/// Three products of the same activations, for queries, keys and values.
#[derive(Clone, Copy, PartialEq, Eq, Structural, Debug)]
pub struct QkvPlan {
    pub batch: usize,
    pub k: usize,
    pub q_n: usize,
    pub k_n: usize,
    pub v_n: usize,
    pub threads: usize,
}

/// What is answered to a request for three products: a plan, or why there is none.
#[derive(Clone, Copy, PartialEq, Eq, Structural, Debug)]
pub enum QkvAnswer {
    Ready(QkvPlan),
    /// 1: something is null; 2: activations and weights do not fit; 4: there is no fast way.
    Refused(i64),
}

/// Plan of three products of the same activations, or the reason for which there is none. (That
/// the products differ in batch or depth cannot be: both are those of the activations.)
pub fn rayzor_tensor_matmul_qkv_qt_t_f32_threaded(
    x: Option<&TensorHead>,
    q_w: Option<Weights>,
    k_w: Option<Weights>,
    v_w: Option<Weights>,
    outputs_given: bool,
    threads: i64,
    sdot: bool,
) -> (a: QkvAnswer)
    requires
        x matches Some(h) ==> h.strides@.len() == h.shape@.len(),
        (q_w matches Some(q) ==> k_w matches Some(k) ==> v_w matches Some(v) ==> q.rows + k.rows
            + v.rows <= usize::MAX),
    ensures
        match (x, q_w, k_w, v_w) {
            (Some(h), Some(q), Some(k), Some(v)) if outputs_given => {
                if !multiplies(*h, q) || !multiplies(*h, k) || !multiplies(*h, v) {
                    a == QkvAnswer::Refused(2)
                } else if !shares_activations(sdot, *h, q) || !shares_activations(sdot, *h, k)
                    || !shares_activations(sdot, *h, v) {
                    a == QkvAnswer::Refused(4)
                } else {
                    a == QkvAnswer::Ready(
                        QkvPlan {
                            batch: 1,
                            k: q.cols,
                            q_n: q.rows,
                            k_n: k.rows,
                            v_n: v.rows,
                            threads: workers(threads, q.rows + k.rows + v.rows) as usize,
                        },
                    )
                }
            },
            _ => a == QkvAnswer::Refused(1),
        },
{
    if !outputs_given {
        return QkvAnswer::Refused(1);
    }
    match (x, q_w, k_w, v_w) {
        (Some(h), Some(q), Some(k), Some(v)) => match (
            qmatmul_prep(h, q),
            qmatmul_prep(h, k),
            qmatmul_prep(h, v),
        ) {
            (Some(pq), Some(pk), Some(pv)) => {
                let fast: bool = sdot && pq.batch == 1 && q.scheme == quant::QSCHEME_Q4_K_M
                    && k.scheme == quant::QSCHEME_Q4_K_M && v.scheme == quant::QSCHEME_Q4_K_M
                    && x_is_contiguous(h);
                if !fast {
                    return QkvAnswer::Refused(4);
                }
                QkvAnswer::Ready(
                    QkvPlan {
                        batch: pq.batch,
                        k: pq.k,
                        q_n: pq.n,
                        k_n: pk.n,
                        v_n: pv.n,
                        threads: worker_count(threads, pq.n + pk.n + pv.n),
                    },
                )
            },
            _ => QkvAnswer::Refused(2),
        },
        _ => QkvAnswer::Refused(1),
    }
}

/// Rows of one product that a stretch of the rows of all three covers.
#[derive(Clone, Copy, PartialEq, Eq, Structural, Debug)]
pub struct Band {
    pub lo: usize,
    pub hi: usize,
}

/// Whether a row of a product that starts at a place among all rows is in a stretch of them.
pub open spec fn covers(lo: int, hi: int, start: int, len: int, row: int) -> bool {
    0 <= row < len && lo <= start + row < hi
}

/// Whether a band is exactly the rows of a product that a stretch covers.
pub open spec fn is_band(b: Option<Band>, lo: int, hi: int, start: int, len: int) -> bool {
    match b {
        None => forall|row: int| !#[trigger] covers(lo, hi, start, len, row),
        Some(r) => {
            &&& r.lo < r.hi
            &&& forall|row: int|
                #[trigger] covers(lo, hi, start, len, row) <==> r.lo <= row < r.hi
        },
    }
}

fn band(lo: usize, hi: usize, start: usize, len: usize) -> (b: Option<Band>)
    requires
        start + len <= usize::MAX,
    ensures
        is_band(b, lo as int, hi as int, start as int, len as int),
{
    let end: usize = start + len;
    let from: usize = if lo > start {
        lo
    } else {
        start
    };
    let to: usize = if hi < end {
        hi
    } else {
        end
    };
    if from < to {
        Some(Band { lo: from - start, hi: to - start })
    } else {
        None
    }
}

/// The rows of the three products, one after another, that a stretch of them covers.
pub fn split_qkv(plan: QkvPlan, lo: usize, hi: usize) -> (r: (
    Option<Band>,
    Option<Band>,
    Option<Band>,
))
    requires
        plan.q_n + plan.k_n + plan.v_n <= usize::MAX,
    ensures
        is_band(r.0, lo as int, hi as int, 0, plan.q_n as int),
        is_band(r.1, lo as int, hi as int, plan.q_n as int, plan.k_n as int),
        is_band(r.2, lo as int, hi as int, plan.q_n + plan.k_n, plan.v_n as int),
{
    (
        band(lo, hi, 0, plan.q_n),
        band(lo, hi, plan.q_n, plan.k_n),
        band(lo, hi, plan.q_n + plan.k_n, plan.v_n),
    )
}

/// Two stretches that do not overlap cover no row of a product both; so threads with stretches of
/// their own write to places of their own.
pub proof fn law_bands_are_disjoint(
    lo1: int,
    hi1: int,
    lo2: int,
    hi2: int,
    start: int,
    len: int,
    row: int,
)
    requires
        hi1 <= lo2 || hi2 <= lo1,
    ensures
        !(covers(lo1, hi1, start, len, row) && covers(lo2, hi2, start, len, row)),
{
}

/// Stretches that together make up all rows cover each row of each product.
pub proof fn law_bands_cover(lo: int, mid: int, hi: int, start: int, len: int, row: int)
    requires
        lo <= mid <= hi,
        covers(lo, hi, start, len, row),
    ensures
        covers(lo, mid, start, len, row) || covers(mid, hi, start, len, row),
{
}

// ---------------------------------------------------------------------------
// Products
// ---------------------------------------------------------------------------

/// Offset of a block of weights among the bytes of a matrix.
pub open spec fn block_at(p: Product, row: int, i: int) -> int {
    row * ((p.k / 256) * p.block_bytes) + i * p.block_bytes
}

/// Offset of the activations that go with a block, among the numbers of a matrix with strides.
pub open spec fn x_at(b: int, i: int, row_stride: int, stride: int) -> int {
    b * row_stride + i * (256 * stride)
}

/// Place of a result in a matrix with so many columns.
pub open spec fn cell(n: int, b: int, j: int) -> int {
    b * n + j
}

/// Partial sums of a start and terms, in their order.
pub open spec fn partial_sums<A: Fn(u32, u32) -> u32>(
    plus: A,
    start: u32,
    terms: Seq<u32>,
    sums: Seq<u32>,
) -> bool {
    &&& sums.len() == terms.len() + 1
    &&& sums[0] == start
    &&& forall|i: int|
        0 <= i < terms.len() ==> call_ensures(plus, (sums[i], #[trigger] terms[i]), sums[i + 1])
}

/// Whether a total is what the repeated sum of a start and terms gives, in their order.
pub open spec fn sums_up<A: Fn(u32, u32) -> u32>(
    plus: A,
    start: u32,
    terms: Seq<u32>,
    total: u32,
) -> bool {
    exists|sums: Seq<u32>| #[trigger]
        partial_sums(plus, start, terms, sums) && sums.last() == total
}

proof fn lemma_sums_none<A: Fn(u32, u32) -> u32>(plus: A, start: u32)
    ensures
        sums_up(plus, start, Seq::empty(), start),
{
    assert(partial_sums(plus, start, Seq::empty(), seq![start]));
}

proof fn lemma_sums_push<A: Fn(u32, u32) -> u32>(
    plus: A,
    start: u32,
    terms: Seq<u32>,
    mid: u32,
    term: u32,
    total: u32,
)
    requires
        sums_up(plus, start, terms, mid),
        call_ensures(plus, (mid, term), total),
    ensures
        sums_up(plus, start, terms.push(term), total),
{
    let sums = choose|sums: Seq<u32>| #[trigger]
        partial_sums(plus, start, terms, sums) && sums.last() == mid;
    let more = sums.push(total);
    assert forall|i: int| 0 <= i < terms.push(term).len() implies call_ensures(
        plus,
        (more[i], #[trigger] terms.push(term)[i]),
        more[i + 1],
    ) by {
        if i < terms.len() {
            assert(terms.push(term)[i] == terms[i]);
        }
    }
    assert(partial_sums(plus, start, terms.push(term), more));
}

/// Terms of a row of weights and a row of activations: the products of the first blocks.
pub open spec fn are_terms<D: Fn(usize, usize, usize) -> u32>(
    dot: D,
    p: Product,
    row_stride: usize,
    stride: usize,
    b: int,
    row: int,
    terms: Seq<u32>,
) -> bool {
    forall|i: int|
        0 <= i < terms.len() ==> call_ensures(
            dot,
            (
                block_at(p, row, i) as usize,
                x_at(b, i, row_stride as int, stride as int) as usize,
                stride,
            ),
            #[trigger] terms[i],
        )
}

/// Whether a number is the product of a row of weights and a row of activations: the sum, from 0
/// and in their order, of the products of the blocks.
pub open spec fn is_product<D: Fn(usize, usize, usize) -> u32, A: Fn(u32, u32) -> u32>(
    dot: D,
    plus: A,
    p: Product,
    row_stride: usize,
    stride: usize,
    b: int,
    row: int,
    v: u32,
) -> bool {
    exists|terms: Seq<u32>|
        {
            &&& terms.len() == p.k / 256
            &&& are_terms(dot, p, row_stride, stride, b, row, terms)
            &&& #[trigger] sums_up(plus, 0, terms, v)
        }
}

/// Offsets that occur in a product: those of the blocks and the activations that go with them.
pub open spec fn can_compute<D: Fn(usize, usize, usize) -> u32, A: Fn(u32, u32) -> u32>(
    dot: D,
    plus: A,
    p: Product,
    row_stride: usize,
    stride: usize,
) -> bool {
    &&& forall|row: int, b: int, i: int|
        0 <= row < p.n && 0 <= b < p.batch && 0 <= i < p.k / 256 ==> call_requires(
            dot,
            (
                #[trigger] block_at(p, row, i) as usize,
                #[trigger] x_at(b, i, row_stride as int, stride as int) as usize,
                stride,
            ),
        )
    &&& forall|a: u32, b: u32| #[trigger] call_requires(plus, (a, b))
}

/// Whether the matrices of a product fit in memory.
pub open spec fn product_fits(p: Product, row_stride: usize, stride: usize) -> bool {
    &&& p.k % 256 == 0
    &&& 0 < p.block_bytes
    &&& p.n * ((p.k / 256) * p.block_bytes) <= usize::MAX
    &&& (p.k / 256) * p.block_bytes <= usize::MAX
    &&& p.batch * row_stride + p.k * stride <= usize::MAX
    &&& p.k * stride <= usize::MAX
    &&& p.batch * row_stride <= usize::MAX
    &&& p.batch * p.n <= usize::MAX
}

proof fn lemma_block_bounds(p: Product, row: int, i: int)
    requires
        0 <= row < p.n,
        0 <= i < p.k / 256,
        p.n * ((p.k / 256) * p.block_bytes) <= usize::MAX,
    ensures
        0 <= row * ((p.k / 256) * p.block_bytes) <= usize::MAX,
        0 <= i * p.block_bytes <= (p.k / 256) * p.block_bytes,
        0 <= block_at(p, row, i) <= usize::MAX,
{
    let w = (p.k as int / 256) * p.block_bytes;
    assert(i * p.block_bytes <= (p.k as int / 256) * p.block_bytes) by (nonlinear_arith)
        requires
            0 <= i < p.k as int / 256,
            p.block_bytes >= 0,
    ;
    assert(i * p.block_bytes >= 0) by (nonlinear_arith)
        requires
            0 <= i,
            p.block_bytes >= 0,
    ;
    assert(row * w + w <= p.n * w) by (nonlinear_arith)
        requires
            0 <= row < p.n,
            w >= 0,
    ;
    assert(row * w >= 0) by (nonlinear_arith)
        requires
            0 <= row,
            w >= 0,
    ;
}

proof fn lemma_x_bounds(p: Product, b: int, i: int, row_stride: int, stride: int)
    requires
        0 <= b < p.batch,
        0 <= i < p.k / 256,
        0 <= row_stride,
        0 <= stride,
        p.k % 256 == 0,
        p.batch * row_stride + p.k * stride <= usize::MAX,
    ensures
        0 <= b * row_stride <= p.batch * row_stride,
        0 <= i * (256 * stride) <= p.k * stride,
        0 <= x_at(b, i, row_stride, stride) <= usize::MAX,
{
    let m = p.k as int / 256;
    assert(p.k == m * 256);
    assert(0 <= b * row_stride <= p.batch * row_stride) by (nonlinear_arith)
        requires
            0 <= b < p.batch,
            0 <= row_stride,
    ;
    assert(0 <= i * (256 * stride) <= m * (256 * stride)) by (nonlinear_arith)
        requires
            0 <= i < m,
            0 <= stride,
    ;
    assert(m * (256 * stride) == (m * 256) * stride) by (nonlinear_arith);
}

/// A term of a row: the product of a block and the activations that go with it.
fn term<D: Fn(usize, usize, usize) -> u32, A: Fn(u32, u32) -> u32>(
    dot: &D,
    plus: &A,
    p: Product,
    row_stride: usize,
    stride: usize,
    b: usize,
    row: usize,
    i: usize,
    sum: u32,
) -> (r: (u32, Ghost<u32>))
    requires
        product_fits(p, row_stride, stride),
        can_compute(*dot, *plus, p, row_stride, stride),
        b < p.batch,
        row < p.n,
        i < p.k / 256,
    ensures
        call_ensures(
            *dot,
            (
                block_at(p, row as int, i as int) as usize,
                x_at(b as int, i as int, row_stride as int, stride as int) as usize,
                stride,
            ),
            r.1@,
        ),
        call_ensures(*plus, (sum, r.1@), r.0),
{
    proof {
        lemma_block_bounds(p, row as int, i as int);
        lemma_x_bounds(p, b as int, i as int, row_stride as int, stride as int);
        assert(256 * stride <= p.k * stride) by (nonlinear_arith)
            requires
                p.k >= 256,
                stride >= 0,
        ;
    }
    let block: usize = row * ((p.k / 256) * p.block_bytes) + i * p.block_bytes;
    let x: usize = b * row_stride + i * (256 * stride);
    assert(block == block_at(p, row as int, i as int));
    assert(x == x_at(b as int, i as int, row_stride as int, stride as int));
    let t: u32 = dot(block, x, stride);
    let total: u32 = plus(sum, t);
    (total, Ghost(t))
}

/// The product of a row of weights and a row of activations.
fn row_product<D: Fn(usize, usize, usize) -> u32, A: Fn(u32, u32) -> u32>(
    dot: &D,
    plus: &A,
    p: Product,
    row_stride: usize,
    stride: usize,
    row: usize,
) -> (v: u32)
    requires
        product_fits(p, row_stride, stride),
        can_compute(*dot, *plus, p, row_stride, stride),
        p.batch == 1,
        row < p.n,
    ensures
        is_product(*dot, *plus, p, row_stride, stride, 0, row as int, v),
{
    let blocks: usize = p.k / 256;
    let mut sum: u32 = 0;
    let ghost mut terms: Seq<u32> = Seq::empty();
    let mut i: usize = 0;
    proof {
        lemma_sums_none(*plus, 0);
    }
    while i < blocks
        invariant
            i <= blocks,
            blocks == p.k / 256,
            product_fits(p, row_stride, stride),
            can_compute(*dot, *plus, p, row_stride, stride),
            p.batch == 1,
            row < p.n,
            terms.len() == i,
            are_terms(*dot, p, row_stride, stride, 0, row as int, terms),
            sums_up(*plus, 0, terms, sum),
        decreases blocks - i,
    {
        let (total, Ghost(t)): (u32, Ghost<u32>) = term(
            dot,
            plus,
            p,
            row_stride,
            stride,
            0,
            row,
            i,
            sum,
        );
        proof {
            lemma_sums_push(*plus, 0, terms, sum, t, total);
            terms = terms.push(t);
        }
        sum = total;
        i = i + 1;
    }
    sum
}

/// The products of two rows of weights and a row of activations, block by block.
fn row_pair_product<D: Fn(usize, usize, usize) -> u32, A: Fn(u32, u32) -> u32>(
    dot: &D,
    plus: &A,
    p: Product,
    row_stride: usize,
    stride: usize,
    row: usize,
) -> (v: (u32, u32))
    requires
        product_fits(p, row_stride, stride),
        can_compute(*dot, *plus, p, row_stride, stride),
        p.batch == 1,
        row + 1 < p.n,
    ensures
        is_product(*dot, *plus, p, row_stride, stride, 0, row as int, v.0),
        is_product(*dot, *plus, p, row_stride, stride, 0, row + 1, v.1),
{
    let blocks: usize = p.k / 256;
    let mut sum0: u32 = 0;
    let mut sum1: u32 = 0;
    let ghost mut terms0: Seq<u32> = Seq::empty();
    let ghost mut terms1: Seq<u32> = Seq::empty();
    let mut i: usize = 0;
    proof {
        lemma_sums_none(*plus, 0);
    }
    while i < blocks
        invariant
            i <= blocks,
            blocks == p.k / 256,
            product_fits(p, row_stride, stride),
            can_compute(*dot, *plus, p, row_stride, stride),
            p.batch == 1,
            row + 1 < p.n,
            terms0.len() == i,
            terms1.len() == i,
            are_terms(*dot, p, row_stride, stride, 0, row as int, terms0),
            are_terms(*dot, p, row_stride, stride, 0, row + 1, terms1),
            sums_up(*plus, 0, terms0, sum0),
            sums_up(*plus, 0, terms1, sum1),
        decreases blocks - i,
    {
        let (total0, Ghost(t0)): (u32, Ghost<u32>) = term(
            dot,
            plus,
            p,
            row_stride,
            stride,
            0,
            row,
            i,
            sum0,
        );
        let (total1, Ghost(t1)): (u32, Ghost<u32>) = term(
            dot,
            plus,
            p,
            row_stride,
            stride,
            0,
            row + 1,
            i,
            sum1,
        );
        proof {
            lemma_sums_push(*plus, 0, terms0, sum0, t0, total0);
            lemma_sums_push(*plus, 0, terms1, sum1, t1, total1);
            terms0 = terms0.push(t0);
            terms1 = terms1.push(t1);
        }
        sum0 = total0;
        sum1 = total1;
        i = i + 1;
    }
    (sum0, sum1)
}

/// The products of a row of weights and all rows of activations, block by block.
fn row_products<D: Fn(usize, usize, usize) -> u32, A: Fn(u32, u32) -> u32>(
    dot: &D,
    plus: &A,
    p: Product,
    row_stride: usize,
    stride: usize,
    row: usize,
) -> (sums: Vec<u32>)
    requires
        product_fits(p, row_stride, stride),
        can_compute(*dot, *plus, p, row_stride, stride),
        row < p.n,
    ensures
        sums@.len() == p.batch,
        forall|b: int|
            0 <= b < p.batch ==> is_product(
                *dot,
                *plus,
                p,
                row_stride,
                stride,
                b,
                row as int,
                #[trigger] sums@[b],
            ),
{
    let blocks: usize = p.k / 256;
    let mut sums: Vec<u32> = quant::zeros_u32(p.batch);
    let ghost mut terms: Seq<Seq<u32>> = Seq::new(p.batch as nat, |b: int| Seq::<u32>::empty());
    let mut i: usize = 0;
    proof {
        lemma_sums_none(*plus, 0);
    }
    while i < blocks
        invariant
            i <= blocks,
            blocks == p.k / 256,
            product_fits(p, row_stride, stride),
            can_compute(*dot, *plus, p, row_stride, stride),
            row < p.n,
            sums@.len() == p.batch,
            terms.len() == p.batch,
            forall|b: int|
                0 <= b < p.batch ==> {
                    &&& (#[trigger] terms[b]).len() == i
                    &&& are_terms(*dot, p, row_stride, stride, b, row as int, terms[b])
                    &&& sums_up(*plus, 0, terms[b], sums@[b])
                },
        decreases blocks - i,
    {
        let mut b: usize = 0;
        while b < p.batch
            invariant
                b <= p.batch,
                i < blocks,
                blocks == p.k / 256,
                product_fits(p, row_stride, stride),
                can_compute(*dot, *plus, p, row_stride, stride),
                row < p.n,
                sums@.len() == p.batch,
                terms.len() == p.batch,
                forall|c: int|
                    0 <= c < p.batch ==> {
                        &&& (#[trigger] terms[c]).len() == if c < b {
                            i + 1
                        } else {
                            i as int
                        }
                        &&& are_terms(*dot, p, row_stride, stride, c, row as int, terms[c])
                        &&& sums_up(*plus, 0, terms[c], sums@[c])
                    },
            decreases p.batch - b,
        {
            let before: u32 = sums[b];
            let (total, Ghost(t)): (u32, Ghost<u32>) = term(
                dot,
                plus,
                p,
                row_stride,
                stride,
                b,
                row,
                i,
                before,
            );
            proof {
                assert(terms[b as int].len() == i);
                lemma_sums_push(*plus, 0, terms[b as int], before, t, total);
                let more = terms[b as int].push(t);
                assert(are_terms(*dot, p, row_stride, stride, b as int, row as int, more));
                terms = terms.update(b as int, more);
            }
            sums.set(b, total);
            b = b + 1;
        }
        i = i + 1;
    }
    assert forall|b: int| 0 <= b < p.batch implies is_product(
        *dot,
        *plus,
        p,
        row_stride,
        stride,
        b,
        row as int,
        #[trigger] sums@[b],
    ) by {
        assert(terms[b].len() == p.k / 256);
        assert(sums_up(*plus, 0, terms[b], sums@[b]));
    }
    sums
}

proof fn lemma_cells(n: int, b: int, j: int, c: int, k: int)
    requires
        0 <= j < n,
        0 <= k < n,
        cell(n, b, j) == cell(n, c, k),
    ensures
        b == c,
        j == k,
{
    vstd::arithmetic::div_mod::lemma_fundamental_div_mod_converse(b * n + j, n, b, j);
    vstd::arithmetic::div_mod::lemma_fundamental_div_mod_converse(c * n + k, n, c, k);
}

proof fn lemma_cell_bounds(n: int, batch: int, b: int, j: int)
    requires
        0 <= j < n,
        0 <= b < batch,
    ensures
        0 <= cell(n, b, j) < batch * n,
        0 <= b * n,
{
    assert(b * n + n <= batch * n) by (nonlinear_arith)
        requires
            0 <= b < batch,
            0 <= n,
    ;
    assert(0 <= b * n) by (nonlinear_arith)
        requires
            0 <= b,
            0 <= n,
    ;
}

/// What a part of a product leaves in the matrix of results: the products of the rows of the part,
/// and what was there elsewhere.
pub open spec fn rows_done<D: Fn(usize, usize, usize) -> u32, A: Fn(u32, u32) -> u32>(
    dot: D,
    plus: A,
    p: Product,
    row_stride: usize,
    stride: usize,
    lo: int,
    hi: int,
    before: Seq<u32>,
    after: Seq<u32>,
) -> bool {
    &&& after.len() == before.len()
    &&& forall|b: int, j: int|
        0 <= b < p.batch && 0 <= j < p.n ==> if lo <= j < hi {
            is_product(
                dot,
                plus,
                p,
                row_stride,
                stride,
                b,
                j,
                #[trigger] after[cell(p.n as int, b, j)],
            )
        } else {
            after[cell(p.n as int, b, j)] == before[cell(p.n as int, b, j)]
        }
    &&& forall|i: int| p.batch * p.n <= i < before.len() ==> #[trigger] after[i] == before[i]
}

/// Writes the products of a row into its column.
fn store_row<D: Fn(usize, usize, usize) -> u32, A: Fn(u32, u32) -> u32>(
    dot: &D,
    plus: &A,
    p: Product,
    row_stride: usize,
    stride: usize,
    lo: Ghost<int>,
    before: Ghost<Seq<u32>>,
    y: &mut Vec<u32>,
    row: usize,
    sums: &Vec<u32>,
)
    requires
        row < p.n,
        p.batch * p.n <= old(y)@.len(),
        lo@ <= row,
        rows_done(*dot, *plus, p, row_stride, stride, lo@, row as int, before@, old(y)@),
        sums@.len() == p.batch,
        forall|b: int|
            0 <= b < p.batch ==> is_product(
                *dot,
                *plus,
                p,
                row_stride,
                stride,
                b,
                row as int,
                #[trigger] sums@[b],
            ),
    ensures
        rows_done(*dot, *plus, p, row_stride, stride, lo@, row + 1, before@, final(y)@),
{
    let ghost start = y@;
    let len: usize = y.len();
    let mut b: usize = 0;
    while b < p.batch
        invariant
            b <= p.batch,
            row < p.n,
            p.batch * p.n <= y@.len(),
            y@.len() == len,
            y@.len() == start.len(),
            sums@.len() == p.batch,
            forall|c: int|
                0 <= c < b ==> #[trigger] y@[cell(p.n as int, c, row as int)] == sums@[c],
            forall|c: int, j: int|
                0 <= c < p.batch && 0 <= j < p.n && (j != row || c >= b) ==> #[trigger] y@[cell(
                    p.n as int,
                    c,
                    j,
                )] == start[cell(p.n as int, c, j)],
            forall|i: int| p.batch * p.n <= i < start.len() ==> #[trigger] y@[i] == start[i],
        decreases p.batch - b,
    {
        proof {
            lemma_cell_bounds(p.n as int, p.batch as int, b as int, row as int);
        }
        let at: usize = b * p.n + row;
        assert(at == cell(p.n as int, b as int, row as int));
        let ghost prior = y@;
        y.set(at, sums[b]);
        proof {
            assert forall|c: int| 0 <= c < b + 1 implies #[trigger] y@[cell(
                p.n as int,
                c,
                row as int,
            )] == sums@[c] by {
                if c != b {
                    if cell(p.n as int, c, row as int) == at {
                        lemma_cells(p.n as int, c, row as int, b as int, row as int);
                    }
                    lemma_cell_bounds(p.n as int, p.batch as int, c, row as int);
                    assert(y@[cell(p.n as int, c, row as int)] == prior[cell(
                        p.n as int,
                        c,
                        row as int,
                    )]);
                }
            }
            assert forall|c: int, j: int|
                0 <= c < p.batch && 0 <= j < p.n && (j != row || c >= b
                    + 1) implies #[trigger] y@[cell(p.n as int, c, j)] == start[cell(
                p.n as int,
                c,
                j,
            )] by {
                if cell(p.n as int, c, j) == at {
                    lemma_cells(p.n as int, c, j, b as int, row as int);
                }
                lemma_cell_bounds(p.n as int, p.batch as int, c, j);
                assert(y@[cell(p.n as int, c, j)] == prior[cell(p.n as int, c, j)]);
            }
        }
        b = b + 1;
    }
    assert forall|c: int, j: int| 0 <= c < p.batch && 0 <= j < p.n implies if lo@ <= j < row + 1 {
        is_product(
            *dot,
            *plus,
            p,
            row_stride,
            stride,
            c,
            j,
            #[trigger] y@[cell(p.n as int, c, j)],
        )
    } else {
        y@[cell(p.n as int, c, j)] == before@[cell(p.n as int, c, j)]
    } by {
        if j == row {
            assert(y@[cell(p.n as int, c, row as int)] == sums@[c]);
        } else {
            assert(y@[cell(p.n as int, c, j)] == start[cell(p.n as int, c, j)]);
        }
    }
}

/// Whether weights of a format are multiplied block by block.
pub open spec fn has_blocks(scheme: u8) -> bool {
    scheme == quant::QSCHEME_Q4_K_M || scheme == quant::QSCHEME_Q6_K
}

/// Computes the rows of a part of a product into the matrix of results. With one row of activations
/// without gaps and Q6_K weights, rows are taken two at a time. Weights of a format without blocks
/// leave the results as they are.
pub fn qmatmul_chunk_impl<D: Fn(usize, usize, usize) -> u32, A: Fn(u32, u32) -> u32>(
    dot: &D,
    plus: &A,
    p: Product,
    scheme: u8,
    row_stride: usize,
    stride: usize,
    y: &mut Vec<u32>,
    n_start: i64,
    n_end: i64,
)
    requires
        has_blocks(scheme) ==> {
            &&& product_fits(p, row_stride, stride)
            &&& can_compute(*dot, *plus, p, row_stride, stride)
            &&& p.batch * p.n <= old(y)@.len()
        },
    ensures
        has_blocks(scheme) ==> rows_done(
            *dot,
            *plus,
            p,
            row_stride,
            stride,
            cut(n_start, p.n as int),
            cut(n_end, p.n as int),
            old(y)@,
            final(y)@,
        ),
        !has_blocks(scheme) ==> final(y)@ == old(y)@,
{
    if scheme != quant::QSCHEME_Q4_K_M && scheme != quant::QSCHEME_Q6_K {
        return;
    }
    let lo: usize = cut_row(n_start, p.n);
    let hi: usize = cut_row(n_end, p.n);
    let ghost before = y@;
    if lo >= hi {
        return;
    }
    let contiguous: bool = stride == 1;
    let mut r: usize = lo;
    if p.batch == 1 && contiguous && scheme == quant::QSCHEME_Q6_K {
        let tiled: usize = lo + (hi - lo) / 2 * 2;
        while r < tiled
            invariant
                lo <= r <= tiled <= hi <= p.n,
                (tiled - r) % 2 == 0,
                p.batch == 1,
                product_fits(p, row_stride, stride),
                can_compute(*dot, *plus, p, row_stride, stride),
                p.batch * p.n <= y@.len(),
                rows_done(
                    *dot,
                    *plus,
                    p,
                    row_stride,
                    stride,
                    lo as int,
                    r as int,
                    before,
                    y@,
                ),
            decreases tiled - r,
        {
            let (s0, s1): (u32, u32) = row_pair_product(dot, plus, p, row_stride, stride, r);
            store_row(
                dot,
                plus,
                p,
                row_stride,
                stride,
                Ghost(lo as int),
                Ghost(before),
                y,
                r,
                &vec![s0],
            );
            store_row(
                dot,
                plus,
                p,
                row_stride,
                stride,
                Ghost(lo as int),
                Ghost(before),
                y,
                r + 1,
                &vec![s1],
            );
            r = r + 2;
        }
    }
    while r < hi
        invariant
            lo <= r <= hi <= p.n,
            product_fits(p, row_stride, stride),
            can_compute(*dot, *plus, p, row_stride, stride),
            p.batch * p.n <= y@.len(),
            rows_done(*dot, *plus, p, row_stride, stride, lo as int, r as int, before, y@),
        decreases hi - r,
    {
        let sums: Vec<u32> = if p.batch == 1 && contiguous {
            vec![row_product(dot, plus, p, row_stride, stride, r)]
        } else {
            row_products(dot, plus, p, row_stride, stride, r)
        };
        store_row(
            dot,
            plus,
            p,
            row_stride,
            stride,
            Ghost(lo as int),
            Ghost(before),
            y,
            r,
            &sums,
        );
        r = r + 1;
    }
}

/// The product of activations and the transpose of weights, on one thread; none where they do not
/// fit.
pub fn rayzor_tensor_matmul_qt_t_f32<D: Fn(usize, usize, usize) -> u32, A: Fn(u32, u32) -> u32>(
    dot: &D,
    plus: &A,
    x: Option<&TensorHead>,
    w: Option<Weights>,
) -> (y: Option<Vec<u32>>)
    requires
        x matches Some(h) ==> h.strides@.len() == h.shape@.len(),
        x matches Some(h) ==> (w matches Some(t) ==> (multiplies(*h, t) ==> {
            let p = product_of(*h, t);
            product_fits(p, h.strides@[0], h.strides@[1]) && can_compute(
                *dot,
                *plus,
                p,
                h.strides@[0],
                h.strides@[1],
            ) && p.n <= i64::MAX
        })),
    ensures
        match (x, w) {
            (Some(h), Some(t)) if multiplies(*h, t) => {
                let p = product_of(*h, t);
                &&& y is Some
                &&& y->Some_0@.len() == p.batch * p.n
                &&& forall|b: int, j: int|
                    0 <= b < p.batch && 0 <= j < p.n ==> is_product(
                        *dot,
                        *plus,
                        p,
                        h.strides@[0],
                        h.strides@[1],
                        b,
                        j,
                        #[trigger] y->Some_0@[cell(p.n as int, b, j)],
                    )
            },
            _ => y is None,
        },
{
    match (x, w) {
        (Some(h), Some(t)) => {
            let p: Product = match qmatmul_prep(h, t) {
                Some(p) => p,
                None => {
                    return None;
                },
            };
            let mut y: Vec<u32> = quant::zeros_u32(p.batch * p.n);
            qmatmul_chunk_impl(
                dot,
                plus,
                p,
                t.scheme,
                h.strides[0],
                h.strides[1],
                &mut y,
                0,
                p.n as i64,
            );
            Some(y)
        },
        _ => None,
    }
}

/// How the blocks of a row are combined with activations that are quantised once.
#[derive(Clone, Copy, PartialEq, Eq, Structural, Debug)]
pub enum Kernel {
    /// One block after another.
    Single,
    /// Two blocks at a time; the two are summed before the rest.
    Paired,
}

/// How the blocks of a row are combined: two at a time if that is asked for, the 8-bit dot
/// instruction is used, and there is an even number of at least two.
pub fn choose_kernel(sdot: bool, legacy: Option<&[u8]>, blocks: usize) -> (k: Kernel)
    ensures
        k == if sdot && (legacy matches Some(v) && v@ == crate::text::lit("1")) && blocks >= 2
            && blocks % 2 == 0 {
            Kernel::Paired
        } else {
            Kernel::Single
        },
{
    let asked: bool = match legacy {
        Some(v) => crate::text::equal(v, "1".as_bytes()),
        None => false,
    };
    if sdot && asked && blocks >= 2 && blocks % 2 == 0 {
        Kernel::Paired
    } else {
        Kernel::Single
    }
}

/// Whether terms are those of a row with activations that are quantised once.
pub open spec fn are_shared_terms<D: Fn(usize, usize) -> u32>(
    dot: D,
    p: Product,
    row: int,
    terms: Seq<u32>,
) -> bool {
    forall|i: int|
        0 <= i < terms.len() ==> call_ensures(
            dot,
            (block_at(p, row, i) as usize, i as usize),
            #[trigger] terms[i],
        )
}

/// Whether numbers are the sums of each two of some terms.
pub open spec fn are_pair_sums<A: Fn(u32, u32) -> u32>(
    plus: A,
    terms: Seq<u32>,
    pairs: Seq<u32>,
) -> bool {
    &&& terms.len() == 2 * pairs.len()
    &&& forall|i: int|
        0 <= i < pairs.len() ==> call_ensures(
            plus,
            (terms[2 * i], terms[2 * i + 1]),
            #[trigger] pairs[i],
        )
}

/// Whether a number is the product of a row of weights and activations that are quantised once.
pub open spec fn is_shared_product<D: Fn(usize, usize) -> u32, A: Fn(u32, u32) -> u32>(
    dot: D,
    plus: A,
    p: Product,
    kernel: Kernel,
    row: int,
    v: u32,
) -> bool {
    exists|terms: Seq<u32>|
        {
            &&& terms.len() == p.k / 256
            &&& #[trigger] are_shared_terms(dot, p, row, terms)
            &&& match kernel {
                Kernel::Single => sums_up(plus, 0, terms, v),
                Kernel::Paired => exists|pairs: Seq<u32>| #[trigger]
                    are_pair_sums(plus, terms, pairs) && sums_up(plus, 0, pairs, v),
            }
        }
}

/// Whether the products of the blocks that occur can be computed.
pub open spec fn can_share<D: Fn(usize, usize) -> u32, A: Fn(u32, u32) -> u32>(
    dot: D,
    plus: A,
    p: Product,
) -> bool {
    &&& forall|row: int, i: int|
        0 <= row < p.n && 0 <= i < p.k / 256 ==> call_requires(
            dot,
            (#[trigger] block_at(p, row, i) as usize, i as usize),
        )
    &&& forall|a: u32, b: u32| #[trigger] call_requires(plus, (a, b))
}

fn shared_term<D: Fn(usize, usize) -> u32, A: Fn(u32, u32) -> u32>(
    dot: &D,
    plus: &A,
    p: Product,
    row: usize,
    i: usize,
) -> (t: u32)
    requires
        p.n * ((p.k / 256) * p.block_bytes) <= usize::MAX,
        (p.k / 256) * p.block_bytes <= usize::MAX,
        can_share(*dot, *plus, p),
        row < p.n,
        i < p.k / 256,
    ensures
        call_ensures(*dot, (block_at(p, row as int, i as int) as usize, i), t),
{
    proof {
        lemma_block_bounds(p, row as int, i as int);
    }
    let block: usize = row * ((p.k / 256) * p.block_bytes) + i * p.block_bytes;
    assert(block == block_at(p, row as int, i as int));
    dot(block, i)
}

fn shared_row<D: Fn(usize, usize) -> u32, A: Fn(u32, u32) -> u32>(
    dot: &D,
    plus: &A,
    p: Product,
    kernel: Kernel,
    row: usize,
) -> (v: u32)
    requires
        p.n * ((p.k / 256) * p.block_bytes) <= usize::MAX,
        (p.k / 256) * p.block_bytes <= usize::MAX,
        can_share(*dot, *plus, p),
        row < p.n,
        kernel is Paired ==> (p.k / 256) % 2 == 0,
    ensures
        is_shared_product(*dot, *plus, p, kernel, row as int, v),
{
    let blocks: usize = p.k / 256;
    let mut sum: u32 = 0;
    let ghost mut terms: Seq<u32> = Seq::empty();
    let ghost mut pairs: Seq<u32> = Seq::empty();
    let mut i: usize = 0;
    proof {
        lemma_sums_none(*plus, 0);
    }
    match kernel {
        Kernel::Single => {
            while i < blocks
                invariant
                    i <= blocks == p.k / 256,
                    p.n * ((p.k / 256) * p.block_bytes) <= usize::MAX,
                    (p.k / 256) * p.block_bytes <= usize::MAX,
                    can_share(*dot, *plus, p),
                    row < p.n,
                    terms.len() == i,
                    are_shared_terms(*dot, p, row as int, terms),
                    sums_up(*plus, 0, terms, sum),
                decreases blocks - i,
            {
                let t: u32 = shared_term(dot, plus, p, row, i);
                let total: u32 = plus(sum, t);
                proof {
                    lemma_sums_push(*plus, 0, terms, sum, t, total);
                    terms = terms.push(t);
                }
                sum = total;
                i = i + 1;
            }
        },
        Kernel::Paired => {
            while i < blocks
                invariant
                    i <= blocks == p.k / 256,
                    i % 2 == 0,
                    blocks % 2 == 0,
                    p.n * ((p.k / 256) * p.block_bytes) <= usize::MAX,
                    (p.k / 256) * p.block_bytes <= usize::MAX,
                    can_share(*dot, *plus, p),
                    row < p.n,
                    terms.len() == i,
                    are_shared_terms(*dot, p, row as int, terms),
                    are_pair_sums(*plus, terms, pairs),
                    sums_up(*plus, 0, pairs, sum),
                decreases blocks - i,
            {
                let a: u32 = shared_term(dot, plus, p, row, i);
                let b: u32 = shared_term(dot, plus, p, row, i + 1);
                let pair: u32 = plus(a, b);
                let total: u32 = plus(sum, pair);
                proof {
                    lemma_sums_push(*plus, 0, pairs, sum, pair, total);
                    let more = terms.push(a).push(b);
                    let more_pairs = pairs.push(pair);
                    assert forall|j: int| 0 <= j < more_pairs.len() implies call_ensures(
                        *plus,
                        (more[2 * j], more[2 * j + 1]),
                        #[trigger] more_pairs[j],
                    ) by {
                        if j < pairs.len() {
                            assert(more_pairs[j] == pairs[j]);
                            assert(more[2 * j] == terms[2 * j]);
                            assert(more[2 * j + 1] == terms[2 * j + 1]);
                        }
                    }
                    terms = more;
                    pairs = more_pairs;
                }
                sum = total;
                i = i + 2;
            }
        },
    }
    assert(are_shared_terms(*dot, p, row as int, terms));
    sum
}

/// Computes the rows of a part of a product with one row of activations that is quantised once.
pub fn qmatmul_chunk_impl_sdot_q4km<D: Fn(usize, usize) -> u32, A: Fn(u32, u32) -> u32>(
    dot: &D,
    plus: &A,
    p: Product,
    kernel: Kernel,
    y: &mut Vec<u32>,
    n_start: i64,
    n_end: i64,
)
    requires
        p.n * ((p.k / 256) * p.block_bytes) <= usize::MAX,
        (p.k / 256) * p.block_bytes <= usize::MAX,
        can_share(*dot, *plus, p),
        kernel is Paired ==> (p.k / 256) % 2 == 0,
        p.n <= old(y)@.len(),
    ensures
        final(y)@.len() == old(y)@.len(),
        forall|j: int|
            0 <= j < old(y)@.len() ==> if cut(n_start, p.n as int) <= j < cut(n_end, p.n as int) {
                is_shared_product(*dot, *plus, p, kernel, j, #[trigger] final(y)@[j])
            } else {
                final(y)@[j] == old(y)@[j]
            },
{
    let lo: usize = cut_row(n_start, p.n);
    let hi: usize = cut_row(n_end, p.n);
    let mut r: usize = lo;
    while r < hi
        invariant
            lo <= r,
            lo <= hi ==> r <= hi,
            hi < lo ==> r == lo,
            hi <= p.n <= y@.len(),
            y@.len() == old(y)@.len(),
            p.n * ((p.k / 256) * p.block_bytes) <= usize::MAX,
            (p.k / 256) * p.block_bytes <= usize::MAX,
            can_share(*dot, *plus, p),
            kernel is Paired ==> (p.k / 256) % 2 == 0,
            forall|j: int|
                0 <= j < y@.len() ==> if lo <= j < r {
                    is_shared_product(*dot, *plus, p, kernel, j, #[trigger] y@[j])
                } else {
                    y@[j] == old(y)@[j]
                },
        decreases (if r < hi {
            hi - r
        } else {
            0
        }),
    {
        let v: u32 = shared_row(dot, plus, p, kernel, r);
        y.set(r, v);
        r = r + 1;
    }
}

// ---------------------------------------------------------------------------
// Conversions
// ---------------------------------------------------------------------------

/// A row of a matrix.
pub open spec fn row_of<T>(s: Seq<T>, cols: int, r: int) -> Seq<T> {
    s.subrange(r * cols, r * cols + cols)
}

proof fn lemma_rows_apart(cols: int, a: int, b: int)
    requires
        0 <= cols,
        0 <= a < b,
    ensures
        0 <= a * cols,
        a * cols + cols <= b * cols,
        (a + 1) * cols == a * cols + cols,
{
    assert(0 <= a * cols && a * cols + cols <= b * cols && (a + 1) * cols == a * cols + cols)
        by (nonlinear_arith)
        requires
            0 <= cols,
            0 <= a < b,
    ;
}

/// Appending a row leaves the rows before it, and adds it.
proof fn lemma_append_row<T>(s: Seq<T>, cols: int, rows: int, row: Seq<T>)
    requires
        0 <= cols,
        0 <= rows,
        s.len() == rows * cols,
        row.len() == cols,
    ensures
        (s + row).len() == (rows + 1) * cols,
        row_of(s + row, cols, rows) == row,
        forall|r: int|
            0 <= r < rows ==> #[trigger] row_of(s + row, cols, r) == row_of(s, cols, r),
{
    lemma_rows_apart(cols, rows, rows + 1);
    assert(row_of(s + row, cols, rows) =~= row);
    assert forall|r: int| 0 <= r < rows implies #[trigger] row_of(s + row, cols, r) == row_of(
        s,
        cols,
        r,
    ) by {
        lemma_rows_apart(cols, r, rows);
        assert(row_of(s + row, cols, r) =~= row_of(s, cols, r));
    }
}

/// Whether numbers are those of a block at an offset.
pub open spec fn is_block<F: Fn(usize) -> Vec<u32>>(decode: F, offset: int, s: Seq<u32>) -> bool {
    exists|v: Vec<u32>| #[trigger] call_ensures(decode, (offset as usize,), v) && v@ == s
}

/// Whether a row starts with the numbers of blocks, one after another from an offset, and holds
/// zeros from there on.
pub open spec fn is_decoded_row<F: Fn(usize) -> Vec<u32>>(
    decode: F,
    offset: int,
    block_bytes: int,
    blocks: int,
    s: Seq<u32>,
) -> bool {
    &&& forall|b: int|
        0 <= b < blocks ==> #[trigger] is_block(
            decode,
            offset + b * block_bytes,
            s.subrange(b * 256, b * 256 + 256),
        )
    &&& forall|i: int| blocks * 256 <= i < s.len() ==> #[trigger] s[i] == 0
}

/// Whether the blocks of rows can be decoded, each to 256 numbers.
pub open spec fn can_decode<F: Fn(usize) -> Vec<u32>>(decode: F, len: int) -> bool {
    &&& forall|offset: usize| offset < len ==> #[trigger] call_requires(decode, (offset,))
    &&& forall|offset: usize, v: Vec<u32>| #[trigger]
        call_ensures(decode, (offset,), v) ==> v@.len() == 256
}

fn append_u32(out: &mut Vec<u32>, v: &Vec<u32>)
    ensures
        final(out)@ == old(out)@ + v@,
{
    let ghost start = out@;
    let mut i: usize = 0;
    while i < v.len()
        invariant
            i <= v@.len(),
            out@ == start + v@.take(i as int),
        decreases v@.len() - i,
    {
        out.push(v[i]);
        assert(v@.take(i as int).push(v@[i as int]) =~= v@.take(i + 1));
        i = i + 1;
    }
    assert(v@.take(v@.len() as int) =~= v@);
}

/// The numbers of a row of blocks.
fn decode_row<F: Fn(usize) -> Vec<u32>>(
    decode: &F,
    offset: usize,
    block_bytes: usize,
    cols: usize,
    len: usize,
) -> (row: Vec<u32>)
    requires
        can_decode(*decode, len as int),
        block_bytes > 0,
        offset + (cols / 256) * block_bytes <= len,
    ensures
        row@.len() == cols,
        is_decoded_row(*decode, offset as int, block_bytes as int, cols as int / 256, row@),
{
    let blocks: usize = cols / 256;
    let mut row: Vec<u32> = Vec::new();
    let mut b: usize = 0;
    while b < blocks
        invariant
            b <= blocks == cols / 256,
            can_decode(*decode, len as int),
            block_bytes > 0,
            offset + blocks * block_bytes <= len,
            row@.len() == b * 256,
            forall|c: int|
                0 <= c < b ==> #[trigger] is_block(
                    *decode,
                    offset + c * block_bytes,
                    row@.subrange(c * 256, c * 256 + 256),
                ),
        decreases blocks - b,
    {
        assert(b * block_bytes + block_bytes <= blocks * block_bytes) by (nonlinear_arith)
            requires
                b < blocks,
                block_bytes > 0,
        ;
        let v: Vec<u32> = decode(offset + b * block_bytes);
        let ghost before = row@;
        append_u32(&mut row, &v);
        assert forall|c: int| 0 <= c < b + 1 implies #[trigger] is_block(
            *decode,
            offset + c * block_bytes,
            row@.subrange(c * 256, c * 256 + 256),
        ) by {
            if c < b {
                assert(row@.subrange(c * 256, c * 256 + 256) =~= before.subrange(
                    c * 256,
                    c * 256 + 256,
                ));
            } else {
                assert(row@.subrange(c * 256, c * 256 + 256) =~= v@);
            }
        }
        b = b + 1;
    }
    let ghost done = row@;
    while row.len() < cols
        invariant
            done.len() == blocks * 256,
            blocks == cols / 256,
            done.len() <= row@.len() <= cols,
            row@.take(done.len() as int) == done,
            forall|i: int| done.len() <= i < row@.len() ==> #[trigger] row@[i] == 0,
        decreases cols - row@.len(),
    {
        let ghost prior = row@;
        row.push(0);
        assert(row@.take(done.len() as int) =~= prior.take(done.len() as int));
    }
    assert forall|c: int| 0 <= c < blocks implies #[trigger] is_block(
        *decode,
        offset + c * block_bytes,
        row@.subrange(c * 256, c * 256 + 256),
    ) by {
        assert(row@.subrange(c * 256, c * 256 + 256) =~= done.subrange(c * 256, c * 256 + 256));
    }
    row
}

/// The number at a place of a matrix that is filled with blocks, row by row: each row takes as many
/// whole blocks as it has room for, and holds zeros behind them.
pub open spec fn laid_at(blocks: Seq<Seq<u32>>, cols: int, r: int, c: int) -> u32 {
    let per_row = cols / 256;
    if c < per_row * 256 {
        blocks[r * per_row + c / 256][c % 256]
    } else {
        0
    }
}

/// A matrix that is filled with blocks.
pub open spec fn laid_out(blocks: Seq<Seq<u32>>, rows: int, cols: int) -> Seq<u32> {
    Seq::new((rows * cols) as nat, |i: int| laid_at(blocks, cols, i / cols, i % cols))
}

/// Whether there is one block for each place of a matrix, of 256 numbers each.
pub open spec fn fills(blocks: Seq<Seq<u32>>, rows: int, cols: int) -> bool {
    &&& blocks.len() == rows * (cols / 256)
    &&& forall|k: int| 0 <= k < blocks.len() ==> (#[trigger] blocks[k]).len() == 256
}

/// Numbers of each block of a list.
pub open spec fn block_views(blocks: Seq<Vec<u32>>) -> Seq<Seq<u32>> {
    blocks.map_values(|v: Vec<u32>| v@)
}

/// Fills a matrix with the numbers of blocks.
pub fn lay_out(blocks: &Vec<Vec<u32>>, rows: usize, cols: usize) -> (out: Vec<u32>)
    requires
        fills(block_views(blocks@), rows as int, cols as int),
    ensures
        out@ == laid_out(block_views(blocks@), rows as int, cols as int),
{
    let per_row: usize = cols / 256;
    let total: usize = blocks.len();
    let ghost all = block_views(blocks@);
    let ghost want = laid_out(all, rows as int, cols as int);
    let mut out: Vec<u32> = Vec::new();
    let mut r: usize = 0;
    assert(0 <= rows * cols) by (nonlinear_arith);
    assert(want.take(0) =~= Seq::empty());
    while r < rows
        invariant
            r <= rows,
            per_row == cols / 256,
            all == block_views(blocks@),
            all.len() == blocks@.len() == total == rows * per_row,
            fills(all, rows as int, cols as int),
            want == laid_out(all, rows as int, cols as int),
            want.len() == rows * cols,
            out@.len() == r * cols,
            out@ == want.take(r * cols),
        decreases rows - r,
    {
        proof {
            lemma_rows_apart(cols as int, r as int, rows as int);
            lemma_rows_apart(per_row as int, r as int, rows as int);
        }
        let mut c: usize = 0;
        while c < cols
            invariant
                c <= cols,
                r < rows,
                per_row == cols / 256,
                all == block_views(blocks@),
                all.len() == blocks@.len() == total == rows * per_row,
                fills(all, rows as int, cols as int),
                want == laid_out(all, rows as int, cols as int),
                want.len() == rows * cols,
                0 <= r * cols,
                r * cols + cols <= rows * cols,
                0 <= r * per_row,
                r * per_row + per_row <= rows * per_row,
                out@.len() == r * cols + c,
                out@ == want.take(r * cols + c),
            decreases cols - c,
        {
            let v: u32 = if c < per_row * 256 {
                assert(all[r * per_row + c as int / 256] == blocks@[r * per_row + c as int / 256]@);
                blocks[r * per_row + c / 256][c % 256]
            } else {
                0
            };
            let ghost i = r * cols + c;
            proof {
                vstd::arithmetic::div_mod::lemma_fundamental_div_mod_converse(
                    i,
                    cols as int,
                    r as int,
                    c as int,
                );
                assert(want[i] == laid_at(all, cols as int, r as int, c as int));
                assert(want.take(i).push(v) =~= want.take(i + 1));
            }
            out.push(v);
            c = c + 1;
        }
        r = r + 1;
    }
    assert(want.take(rows * cols) =~= want);
    out
}

/// Whether these are the numbers of the first `n` blocks, in the order of the blocks.
pub open spec fn are_blocks<F: Fn(usize) -> Vec<u32>>(
    decode: F,
    block_bytes: int,
    n: int,
    blocks: Seq<Seq<u32>>,
) -> bool {
    &&& blocks.len() == n
    &&& forall|k: int| 0 <= k < n ==> is_block(decode, k * block_bytes, #[trigger] blocks[k])
}

fn decode_blocks<F: Fn(usize) -> Vec<u32>>(decode: &F, block_bytes: usize, n: usize) -> (blocks: Vec<
    Vec<u32>,
>)
    requires
        block_bytes > 0,
        n * block_bytes <= usize::MAX,
        can_decode(*decode, n * block_bytes),
    ensures
        are_blocks(*decode, block_bytes as int, n as int, block_views(blocks@)),
        forall|k: int| 0 <= k < n ==> (#[trigger] blocks@[k])@.len() == 256,
{
    let mut blocks: Vec<Vec<u32>> = Vec::new();
    let mut k: usize = 0;
    while k < n
        invariant
            k <= n,
            block_bytes > 0,
            n * block_bytes <= usize::MAX,
            can_decode(*decode, n * block_bytes),
            blocks@.len() == k,
            forall|i: int|
                0 <= i < k ==> is_block(*decode, i * block_bytes, (#[trigger] blocks@[i])@),
            forall|i: int| 0 <= i < k ==> (#[trigger] blocks@[i])@.len() == 256,
        decreases n - k,
    {
        proof {
            lemma_rows_apart(block_bytes as int, k as int, n as int);
        }
        let v: Vec<u32> = decode(k * block_bytes);
        blocks.push(v);
        k = k + 1;
    }
    blocks
}

/// Whether a matrix holds the numbers of blocks, in the order of the blocks.
pub open spec fn holds_decoded<F: Fn(usize) -> Vec<u32>>(
    decode: F,
    block_bytes: int,
    rows: int,
    cols: int,
    out: Seq<u32>,
) -> bool {
    exists|blocks: Seq<Seq<u32>>| #[trigger]
        are_blocks(decode, block_bytes, rows * (cols / 256), blocks) && fills(blocks, rows, cols)
            && out == laid_out(blocks, rows, cols)
}

/// The numbers of a tensor in super-blocks: each row from its blocks.
pub fn dequant_blocks<F: Fn(usize) -> Vec<u32>>(
    decode: &F,
    w: Weights,
    block_bytes: usize,
) -> (out: Vec<u32>)
    requires
        block_bytes > 0,
        w.rows * ((w.cols / 256) * block_bytes) <= usize::MAX,
        can_decode(*decode, w.rows * ((w.cols / 256) * block_bytes)),
    ensures
        holds_decoded(*decode, block_bytes as int, w.rows as int, w.cols as int, out@),
{
    let per_row: usize = w.cols / 256;
    assert(w.rows * (per_row * block_bytes) == (w.rows * per_row) * block_bytes)
        by (nonlinear_arith);
    assert(0 <= w.rows * per_row <= (w.rows * per_row) * block_bytes) by (nonlinear_arith)
        requires
            block_bytes > 0,
    ;
    let n: usize = w.rows * per_row;
    let blocks: Vec<Vec<u32>> = decode_blocks(decode, block_bytes, n);
    lay_out(&blocks, w.rows, w.cols)
}

/// The numbers of an INT8 tensor: each byte times the scale of its row.
pub fn dequant_int8<F: Fn(i8, u32) -> u32>(
    scale: &F,
    w: Weights,
    data: &Vec<u8>,
    meta: &Vec<u32>,
) -> (out: Vec<u32>)
    requires
        data@.len() == w.rows * w.cols,
        meta@.len() >= w.rows,
        forall|q: i8, s: u32| #[trigger] call_requires(*scale, (q, s)),
    ensures
        out@.len() == w.rows * w.cols,
        forall|r: int, c: int|
            0 <= r < w.rows && 0 <= c < w.cols ==> call_ensures(
                *scale,
                (quant::signed(data@[cell(w.cols as int, r, c)]) as i8, meta@[r]),
                #[trigger] out@[cell(w.cols as int, r, c)],
            ),
{
    let total: usize = data.len();
    let mut out: Vec<u32> = Vec::new();
    let mut r: usize = 0;
    while r < w.rows
        invariant
            r <= w.rows <= meta@.len(),
            total == data@.len() == w.rows * w.cols,
            forall|q: i8, s: u32| #[trigger] call_requires(*scale, (q, s)),
            out@.len() == r * w.cols,
            forall|q: int, c: int|
                0 <= q < r && 0 <= c < w.cols ==> call_ensures(
                    *scale,
                    (quant::signed(data@[cell(w.cols as int, q, c)]) as i8, meta@[q]),
                    #[trigger] out@[cell(w.cols as int, q, c)],
                ),
        decreases w.rows - r,
    {
        let mut c: usize = 0;
        proof {
            lemma_rows_apart(w.cols as int, r as int, w.rows as int);
        }
        while c < w.cols
            invariant
                c <= w.cols,
                r < w.rows <= meta@.len(),
                total == data@.len() == w.rows * w.cols,
                0 <= r * w.cols,
                r * w.cols + w.cols <= w.rows * w.cols,
                (r + 1) * w.cols == r * w.cols + w.cols,
                forall|q: i8, s: u32| #[trigger] call_requires(*scale, (q, s)),
                out@.len() == r * w.cols + c,
                forall|q: int, d: int|
                    0 <= d < w.cols && (0 <= q < r || (q == r && d < c)) ==> call_ensures(
                        *scale,
                        (quant::signed(data@[cell(w.cols as int, q, d)]) as i8, meta@[q]),
                        #[trigger] out@[cell(w.cols as int, q, d)],
                    ),
            decreases w.cols - c,
        {
            let byte: u8 = data[r * w.cols + c];
            let q: i8 = if byte < 128 {
                byte as i8
            } else {
                (byte as i32 - 256) as i8
            };
            let v: u32 = scale(q, meta[r]);
            let ghost before = out@;
            out.push(v);
            assert forall|k: int, d: int|
                0 <= d < w.cols && (0 <= k < r || (k == r && d < c + 1)) implies call_ensures(
                *scale,
                (quant::signed(data@[cell(w.cols as int, k, d)]) as i8, meta@[k]),
                #[trigger] out@[cell(w.cols as int, k, d)],
            ) by {
                if k == r && d == c {
                } else {
                    if k < r {
                        lemma_rows_apart(w.cols as int, k, r as int);
                    }
                    assert(out@[cell(w.cols as int, k, d)] == before[cell(w.cols as int, k, d)]);
                }
            }
            c = c + 1;
        }
        r = r + 1;
    }
    out
}

/// Whether an index names a row.
pub open spec fn names_row(index: i64, rows: usize) -> bool {
    0 <= index < rows
}

/// The numbers of selected rows of a Q6_K tensor, zeros for an index that names no row; none for
/// another format or rows that are not whole super-blocks, and where nothing is selected.
pub fn rayzor_tensor_gather_rows_q6_k<F: Fn(usize) -> Vec<u32>>(
    decode: &F,
    w: Option<Weights>,
    indices: Option<&Vec<i64>>,
) -> (out: Option<Vec<u32>>)
    requires
        w matches Some(t) ==> {
            &&& t.rows * ((t.cols / 256) * quant::Q6_K_BLOCK_BYTES) <= usize::MAX
            &&& (t.cols / 256) * quant::Q6_K_BLOCK_BYTES <= usize::MAX
            &&& can_decode(*decode, t.rows * ((t.cols / 256) * quant::Q6_K_BLOCK_BYTES))
        },
    ensures
        match (w, indices) {
            (Some(t), Some(ix)) if ix@.len() > 0 && t.scheme == quant::QSCHEME_Q6_K && t.cols % 256
                == 0 => {
                &&& out is Some
                &&& out->Some_0@.len() == ix@.len() * t.cols
                &&& forall|i: int|
                    0 <= i < ix@.len() ==> {
                        let row = #[trigger] row_of(out->Some_0@, t.cols as int, i);
                        if names_row(ix@[i], t.rows) {
                            is_decoded_row(
                                *decode,
                                ix@[i] * ((t.cols / 256) * quant::Q6_K_BLOCK_BYTES),
                                quant::Q6_K_BLOCK_BYTES as int,
                                t.cols as int / 256,
                                row,
                            )
                        } else {
                            forall|c: int| 0 <= c < t.cols ==> row[c] == 0
                        }
                    }
            },
            _ => out is None,
        },
{
    let (t, ix): (Weights, &Vec<i64>) = match (w, indices) {
        (Some(t), Some(ix)) => (t, ix),
        _ => {
            return None;
        },
    };
    if ix.len() == 0 || t.scheme != quant::QSCHEME_Q6_K || t.cols % 256 != 0 {
        return None;
    }
    let row_bytes: usize = (t.cols / 256) * quant::Q6_K_BLOCK_BYTES;
    let len: usize = t.rows * row_bytes;
    let mut out: Vec<u32> = Vec::new();
    let mut i: usize = 0;
    while i < ix.len()
        invariant
            i <= ix@.len(),
            row_bytes == (t.cols / 256) * quant::Q6_K_BLOCK_BYTES,
            len == t.rows * row_bytes,
            can_decode(*decode, len as int),
            out@.len() == i * t.cols,
            forall|k: int|
                0 <= k < i ==> {
                    let row = #[trigger] row_of(out@, t.cols as int, k);
                    if names_row(ix@[k], t.rows) {
                        is_decoded_row(
                            *decode,
                            ix@[k] * row_bytes,
                            quant::Q6_K_BLOCK_BYTES as int,
                            t.cols as int / 256,
                            row,
                        )
                    } else {
                        forall|c: int| 0 <= c < t.cols ==> row[c] == 0
                    }
                },
        decreases ix@.len() - i,
    {
        let index: i64 = ix[i];
        let row: Vec<u32> = if index < 0 || index as u64 >= t.rows as u64 {
            quant::zeros_u32(t.cols)
        } else {
            proof {
                lemma_rows_apart(row_bytes as int, index as int, t.rows as int);
            }
            decode_row(
                decode,
                index as usize * row_bytes,
                quant::Q6_K_BLOCK_BYTES,
                t.cols,
                len,
            )
        };
        proof {
            lemma_append_row(out@, t.cols as int, i as int, row@);
        }
        append_u32(&mut out, &row);
        i = i + 1;
    }
    Some(out)
}

/// Shape and format of a tensor.
pub open spec fn weights_of(t: QTensor) -> Weights {
    Weights { scheme: t.scheme, rows: t.rows, cols: t.cols }
}

/// Whether numbers are those of a tensor.
pub open spec fn is_dequantised<F: Fn(usize) -> Vec<u32>, S: Fn(i8, u32) -> u32>(
    decode: F,
    scale: S,
    t: QTensor,
    out: Seq<u32>,
) -> bool {
    &&& out.len() == t.rows * t.cols
    &&& if t.scheme == quant::QSCHEME_INT8 {
        forall|r: int, c: int|
            0 <= r < t.rows && 0 <= c < t.cols ==> call_ensures(
                scale,
                (
                    quant::signed(t.data->Owned_0@[cell(t.cols as int, r, c)]) as i8,
                    t.meta->Some_0@[r],
                ),
                #[trigger] out[cell(t.cols as int, r, c)],
            )
    } else {
        holds_decoded(
            decode,
            block_bytes_of(t.scheme) as int,
            t.rows as int,
            t.cols as int,
            out,
        )
    }
}

/// The numbers of a tensor, row by row; none for null.
pub fn rayzor_qtensor_dequant<F: Fn(usize) -> Vec<u32>, S: Fn(i8, u32) -> u32>(
    store: &QTensors,
    qt: i64,
    decode: &F,
    scale: &S,
) -> (out: Option<Vec<u32>>)
    requires
        store.wf(),
        store.at(qt) matches Some(t) ==> {
            let row_bytes = (t.cols / 256) * block_bytes_of(t.scheme);
            if t.scheme == quant::QSCHEME_INT8 {
                t.meta->Some_0@.len() >= t.rows && forall|q: i8, s: u32| #[trigger]
                    call_requires(*scale, (q, s))
            } else {
                t.rows * row_bytes <= usize::MAX && can_decode(*decode, t.rows * row_bytes)
            }
        },
    ensures
        match store.at(qt) {
            None => out is None,
            Some(t) => out is Some && is_dequantised(*decode, *scale, t, out->Some_0@),
        },
{
    let k: usize = match quant::lookup(store, qt) {
        Some(k) => k,
        None => {
            return None;
        },
    };
    assert(store.slots@[k as int]->Some_0.wf());
    match &store.slots[k] {
        None => None,
        Some(t) => {
            let w: Weights = Weights { scheme: t.scheme, rows: t.rows, cols: t.cols };
            match t.scheme {
                quant::QSCHEME_INT8 => match (&t.data, &t.meta) {
                    (QData::Owned(data), Some(meta)) => Some(dequant_int8(scale, w, data, meta)),
                    _ => None,
                },
                quant::QSCHEME_Q4_K_M => Some(
                    dequant_blocks(decode, w, quant::Q4_K_M_BLOCK_BYTES),
                ),
                _ => Some(dequant_blocks(decode, w, quant::Q6_K_BLOCK_BYTES)),
            }
        },
    }
}

/// A matrix of whole blocks holds the numbers of the blocks one after another, in the order of
/// the blocks.
pub proof fn law_blocks_keep_their_order(blocks: Seq<Seq<u32>>, rows: int, cols: int, k: int)
    requires
        0 <= rows,
        0 <= cols,
        fills(blocks, rows, cols),
        cols % 256 == 0,
        0 <= k < blocks.len(),
    ensures
        laid_out(blocks, rows, cols).len() == 256 * blocks.len(),
        laid_out(blocks, rows, cols).subrange(256 * k, 256 * k + 256) == blocks[k],
{
    let per_row = cols / 256;
    let out = laid_out(blocks, rows, cols);
    assert(rows * cols == 256 * (rows * per_row)) by (nonlinear_arith)
        requires
            cols == 256 * per_row,
    ;
    if per_row == 0 {
        assert(rows * per_row == 0) by (nonlinear_arith)
            requires
                per_row == 0,
        ;
    }
    let r = k / per_row;
    let b = k % per_row;
    vstd::arithmetic::div_mod::lemma_fundamental_div_mod(k, per_row);
    vstd::arithmetic::div_mod::lemma_mod_bound(k, per_row);
    assert(r * cols == 256 * (per_row * r)) by (nonlinear_arith)
        requires
            cols == 256 * per_row,
    ;
    assert(per_row * r == r * per_row) by (nonlinear_arith);
    assert(0 <= rows * per_row) by (nonlinear_arith)
        requires
            0 <= rows,
            0 <= per_row,
    ;
    let part = out.subrange(256 * k, 256 * k + 256);
    assert forall|j: int| 0 <= j < 256 implies #[trigger] part[j] == blocks[k][j] by {
        vstd::arithmetic::div_mod::lemma_fundamental_div_mod_converse(
            256 * k + j,
            cols,
            r,
            256 * b + j,
        );
        assert((256 * b + j) / 256 == b && (256 * b + j) % 256 == j);
        assert(part[j] == out[256 * k + j]);
    }
    assert(part =~= blocks[k]);
}

/// The same blocks give the same numbers in the same order, whatever the shape.
pub proof fn law_shape_does_not_matter(
    blocks: Seq<Seq<u32>>,
    rows: int,
    cols: int,
    other_rows: int,
    other_cols: int,
)
    requires
        0 <= rows,
        0 <= cols,
        0 <= other_rows,
        0 <= other_cols,
        fills(blocks, rows, cols),
        cols % 256 == 0,
        other_cols % 256 == 0,
        rows * cols == other_rows * other_cols,
    ensures
        fills(blocks, other_rows, other_cols),
        laid_out(blocks, rows, cols) == laid_out(blocks, other_rows, other_cols),
{
    let out = laid_out(blocks, rows, cols);
    let other = laid_out(blocks, other_rows, other_cols);
    assert(rows * cols == 256 * (rows * (cols / 256))) by (nonlinear_arith)
        requires
            cols == 256 * (cols / 256),
    ;
    assert(other_rows * other_cols == 256 * (other_rows * (other_cols / 256))) by (nonlinear_arith)
        requires
            other_cols == 256 * (other_cols / 256),
    ;
    assert(0 <= rows * cols) by (nonlinear_arith)
        requires
            0 <= rows,
            0 <= cols,
    ;
    assert forall|i: int| 0 <= i < out.len() implies out[i] == other[i] by {
        let k = i / 256;
        law_blocks_keep_their_order(blocks, rows, cols, k);
        law_blocks_keep_their_order(blocks, other_rows, other_cols, k);
        assert(out.subrange(256 * k, 256 * k + 256)[i - 256 * k] == other.subrange(
            256 * k,
            256 * k + 256,
        )[i - 256 * k]);
    }
    assert(out =~= other);
}

/// What dequantising a tensor of whole blocks gives: the numbers of block `k`, which stands at its
/// place in the bytes, are the `k`-th 256 numbers of the result.
pub proof fn law_dequantised_in_block_order<F: Fn(usize) -> Vec<u32>, S: Fn(i8, u32) -> u32>(
    decode: F,
    scale: S,
    t: QTensor,
    out: Seq<u32>,
    k: int,
)
    requires
        is_dequantised(decode, scale, t, out),
        t.scheme != quant::QSCHEME_INT8,
        t.cols % 256 == 0,
        0 <= k < t.rows * (t.cols / 256),
    ensures
        256 * k + 256 <= out.len(),
        is_block(decode, k * block_bytes_of(t.scheme), out.subrange(256 * k, 256 * k + 256)),
{
    let bytes = block_bytes_of(t.scheme) as int;
    let rows = t.rows as int;
    let cols = t.cols as int;
    let blocks = choose|blocks: Seq<Seq<u32>>| #[trigger]
        are_blocks(decode, bytes, rows * (cols / 256), blocks) && fills(blocks, rows, cols) && out
            == laid_out(blocks, rows, cols);
    law_blocks_keep_their_order(blocks, rows, cols, k);
    assert(is_block(decode, k * bytes, blocks[k]));
}

/// Overwrites bytes from an offset on.
fn put(data: &mut Vec<u8>, at: usize, row: &Vec<u8>)
    requires
        at + row@.len() <= old(data)@.len(),
    ensures
        final(data)@.len() == old(data)@.len(),
        forall|i: int|
            0 <= i < old(data)@.len() ==> #[trigger] final(data)@[i] == if at <= i < at
                + row@.len() {
                row@[i - at]
            } else {
                old(data)@[i]
            },
{
    let ghost start = data@;
    let len: usize = data.len();
    let mut i: usize = 0;
    while i < row.len()
        invariant
            i <= row@.len(),
            at + row@.len() <= data@.len() == len,
            data@.len() == start.len(),
            forall|j: int|
                0 <= j < start.len() ==> #[trigger] data@[j] == if at <= j < at + i {
                    row@[j - at]
                } else {
                    start[j]
                },
        decreases row@.len() - i,
    {
        data.set(at + i, row[i]);
        i = i + 1;
    }
}

/// Whether a row of bytes and its scale are what quantising it gave.
pub open spec fn is_quantised_row<F: Fn(usize) -> (Vec<u8>, u32)>(
    quantise: F,
    data: Seq<u8>,
    meta: Seq<u32>,
    cols: int,
    r: int,
) -> bool {
    exists|q: (Vec<u8>, u32)| #[trigger]
        call_ensures(quantise, (r as usize,), q) && q.0@ == row_of(data, cols, r) && q.1 == meta[r]
}

/// Whether a tensor holds rows that were quantised one by one.
pub open spec fn holds_rows<F: Fn(usize) -> (Vec<u8>, u32)>(
    quantise: F,
    data: Seq<u8>,
    meta: Seq<u32>,
    cols: int,
    count: int,
) -> bool {
    forall|r: int|
        0 <= r < count ==> #[trigger] is_quantised_row(quantise, data, meta, cols, r)
}

/// A new INT8 tensor of rows that are quantised one by one, each to bytes and a scale; null where
/// there is no source or a side is not positive.
pub fn rayzor_qtensor_from_f32_int8<F: Fn(usize) -> (Vec<u8>, u32)>(
    store: &mut QTensors,
    source_given: bool,
    quantise: &F,
    rows: i64,
    cols: i64,
) -> (qt: i64)
    requires
        old(store).wf(),
        old(store).has_room(),
        quant::in_memory(rows, cols),
        forall|r: usize| r < rows ==> #[trigger] call_requires(*quantise, (r,)),
        forall|r: usize, q: (Vec<u8>, u32)| #[trigger]
            call_ensures(*quantise, (r,), q) ==> q.0@.len() == cols,
    ensures
        final(store).wf(),
        if !source_given || rows <= 0 || cols <= 0 {
            qt == 0 && *final(store) == *old(store)
        } else {
            &&& qt == old(store).slots@.len() + 1
            &&& final(store).slots@.len() == qt
            &&& final(store).slots@.drop_last() == old(store).slots@
            &&& final(store).at(qt) matches Some(t) && {
                &&& weights_of(t) == (Weights {
                    scheme: quant::QSCHEME_INT8,
                    rows: rows as usize,
                    cols: cols as usize,
                })
                &&& t.group_size == cols
                &&& t.refcount == 1
                &&& t.data is Owned
                &&& t.meta is Some
                &&& holds_rows(
                    *quantise,
                    t.data->Owned_0@,
                    t.meta->Some_0@,
                    cols as int,
                    rows as int,
                )
            }
        },
{
    if !source_given || rows <= 0 || cols <= 0 {
        return 0;
    }
    proof {
        quant::lemma_sides(rows, cols);
    }
    let n: usize = rows as usize;
    let m: usize = cols as usize;
    let qt: i64 = quant::alloc_qtensor(store, quant::QSCHEME_INT8, n, m, m);
    let k: usize = store.slots.len() - 1;
    let ghost base = store.slots@;
    let mut t: QTensor = quant::take_slot(store, k);
    proof {
        vstd::arithmetic::div_mod::lemma_div_by_multiple(n as int, m as int);
    }
    let mut data: Vec<u8> = match t.data {
        QData::Owned(v) => v,
        QData::Shared(_) => Vec::new(),
    };
    let mut meta: Vec<u32> = match t.meta {
        Some(v) => v,
        None => Vec::new(),
    };
    let mut r: usize = 0;
    while r < n
        invariant
            r <= n == rows,
            m == cols,
            0 < m,
            n * m <= usize::MAX,
            data@.len() == n * m,
            meta@.len() == n,
            forall|q: usize| q < rows ==> #[trigger] call_requires(*quantise, (q,)),
            forall|q: usize, p: (Vec<u8>, u32)| #[trigger]
                call_ensures(*quantise, (q,), p) ==> p.0@.len() == cols,
            holds_rows(*quantise, data@, meta@, m as int, r as int),
        decreases n - r,
    {
        proof {
            lemma_rows_apart(m as int, r as int, n as int);
        }
        let q: (Vec<u8>, u32) = quantise(r);
        let ghost before = data@;
        let ghost scales = meta@;
        put(&mut data, r * m, &q.0);
        meta.set(r, q.1);
        proof {
            assert(row_of(data@, m as int, r as int) =~= q.0@);
            assert forall|i: int| 0 <= i < r + 1 implies #[trigger] is_quantised_row(
                *quantise,
                data@,
                meta@,
                m as int,
                i,
            ) by {
                if i < r {
                    lemma_rows_apart(m as int, i, r as int);
                    assert(is_quantised_row(*quantise, before, scales, m as int, i));
                    assert(row_of(data@, m as int, i) =~= row_of(before, m as int, i));
                } else {
                    assert(call_ensures(*quantise, (i as usize,), q));
                }
            }
        }
        r = r + 1;
    }
    t.data = QData::Owned(data);
    t.meta = Some(meta);
    store.slots.set(k, Some(t));
    assert(store.slots@.drop_last() =~= base.drop_last());
    qt
}

/// Whether a block of bytes is what converting another gave.
pub open spec fn is_recoded<F: Fn(usize) -> Vec<u8>>(recode: F, data: Seq<u8>, i: int) -> bool {
    exists|v: Vec<u8>| #[trigger]
        call_ensures(recode, ((i * 210) as usize,), v) && v@ == row_of(data, 144, i)
}

/// Whether the bytes of a tensor start with blocks that were converted one by one.
pub open spec fn holds_blocks<F: Fn(usize) -> Vec<u8>>(
    recode: F,
    data: Seq<u8>,
    count: int,
) -> bool {
    forall|i: int| 0 <= i < count ==> #[trigger] is_recoded(recode, data, i)
}

/// Number of whole blocks of the rows of a matrix.
pub open spec fn whole_blocks(rows: int, cols: int) -> int {
    rows * (cols / 256)
}

/// A new Q4_K_M tensor with the blocks of a Q6_K tensor, converted one by one; null for null, for
/// another format, and where the elements are not whole super-blocks.
pub fn rayzor_qtensor_requant_q6k_to_q4km<F: Fn(usize) -> Vec<u8>>(
    store: &mut QTensors,
    src: i64,
    recode: &F,
) -> (qt: i64)
    requires
        old(store).wf(),
        old(store).has_room(),
        old(store).at(src) matches Some(t) ==> forall|i: usize|
            i < t.numel ==> #[trigger] call_requires(*recode, (i,)),
        forall|i: usize, v: Vec<u8>| #[trigger]
            call_ensures(*recode, (i,), v) ==> v@.len() == quant::Q4_K_M_BLOCK_BYTES,
    ensures
        final(store).wf(),
        match old(store).at(src) {
            Some(s) if s.scheme == quant::QSCHEME_Q6_K && (s.rows * s.cols) % 256 == 0 => {
                &&& qt == old(store).slots@.len() + 1
                &&& final(store).slots@.len() == qt
                &&& final(store).slots@.drop_last() == old(store).slots@
                &&& final(store).at(qt) matches Some(t) && {
                    &&& weights_of(t) == (Weights {
                        scheme: quant::QSCHEME_Q4_K_M,
                        rows: s.rows,
                        cols: s.cols,
                    })
                    &&& t.refcount == 1
                    &&& t.data is Owned
                    &&& holds_blocks(
                        *recode,
                        t.data->Owned_0@,
                        whole_blocks(s.rows as int, s.cols as int),
                    )
                }
            },
            _ => qt == 0 && *final(store) == *old(store),
        },
{
    let k: usize = match quant::lookup(store, src) {
        Some(k) => k,
        None => {
            return 0;
        },
    };
    assert(store.slots@[k as int]->Some_0.wf());
    let (scheme, rows, cols, numel): (u8, usize, usize, usize) = match &store.slots[k] {
        Some(t) => (t.scheme, t.rows, t.cols, t.numel),
        None => {
            return 0;
        },
    };
    if scheme != quant::QSCHEME_Q6_K || numel % quant::Q6_K_BLOCK_SIZE != 0 {
        return 0;
    }
    let qt: i64 = quant::alloc_qtensor(
        store,
        quant::QSCHEME_Q4_K_M,
        rows,
        cols,
        quant::Q4_K_M_BLOCK_SIZE,
    );
    let at: usize = store.slots.len() - 1;
    let ghost base = store.slots@;
    let mut t: QTensor = quant::take_slot(store, at);
    let mut data: Vec<u8> = match t.data {
        QData::Owned(v) => v,
        QData::Shared(_) => Vec::new(),
    };
    proof {
        assert(rows * (cols as int / 256) <= (rows * cols) / 256) by (nonlinear_arith)
            requires
                rows >= 0,
                cols >= 0,
        ;
    }
    let count: usize = rows * (cols / 256);
    let mut i: usize = 0;
    while i < count
        invariant
            i <= count,
            count <= numel / 256,
            data@.len() == (numel / 256) * 144,
            forall|j: usize| j < numel ==> #[trigger] call_requires(*recode, (j,)),
            forall|j: usize, v: Vec<u8>| #[trigger]
                call_ensures(*recode, (j,), v) ==> v@.len() == quant::Q4_K_M_BLOCK_BYTES,
            holds_blocks(*recode, data@, i as int),
        decreases count - i,
    {
        let v: Vec<u8> = recode(i * quant::Q6_K_BLOCK_BYTES);
        let ghost before = data@;
        put(&mut data, i * quant::Q4_K_M_BLOCK_BYTES, &v);
        proof {
            assert(row_of(data@, 144, i as int) =~= v@);
            assert forall|j: int| 0 <= j < i + 1 implies #[trigger] is_recoded(
                *recode,
                data@,
                j,
            ) by {
                if j < i {
                    assert(is_recoded(*recode, before, j));
                    assert(row_of(data@, 144, j) =~= row_of(before, 144, j));
                } else {
                    assert(call_ensures(*recode, ((j * 210) as usize,), v));
                }
            }
        }
        i = i + 1;
    }
    t.data = QData::Owned(data);
    store.slots.set(at, Some(t));
    assert(store.slots@.drop_last() =~= base.drop_last());
    qt
}

/// Format in which a matrix of weights is multiplied.
#[derive(Clone, Copy, PartialEq, Eq, Structural, Debug)]
pub enum Format {
    Int8,
    Q4KM,
}

/// Sizes and format of the product of weights `[m, k]` and a matrix `[k, n]`; none where something
/// is null, the matrix is not one of single-precision numbers with `k` rows, or the format is not
/// multiplied so.
pub fn rayzor_qtensor_matmul_f32(w: Option<Weights>, b: Option<&TensorHead>) -> (r: Option<
    (usize, usize, usize, Format),
>)
    ensures
        r == match (w, b) {
            (Some(t), Some(h)) if is_matrix(*h) && h.shape@[0] == t.cols && (t.scheme
                == quant::QSCHEME_INT8 || t.scheme == quant::QSCHEME_Q4_K_M) => Some(
                (
                    t.rows,
                    t.cols,
                    h.shape@[1],
                    if t.scheme == quant::QSCHEME_INT8 {
                        Format::Int8
                    } else {
                        Format::Q4KM
                    },
                ),
            ),
            _ => None,
        },
{
    match (w, b) {
        (Some(t), Some(h)) => {
            if h.shape.len() != 2 || h.dtype != 0 || h.shape[0] != t.cols {
                return None;
            }
            match t.scheme {
                quant::QSCHEME_INT8 => Some((t.rows, t.cols, h.shape[1], Format::Int8)),
                quant::QSCHEME_Q4_K_M => Some((t.rows, t.cols, h.shape[1], Format::Q4KM)),
                _ => None,
            }
        },
        _ => None,
    }
}

/// Blocks of weights stand one behind another in their rows, and rows one behind another.
pub proof fn law_blocks_stand_in_order(p: Product, row: int, i: int)
    requires
        0 <= row,
        0 <= i,
    ensures
        block_at(p, 0, 0) == 0,
        block_at(p, row, i + 1) == block_at(p, row, i) + p.block_bytes,
        block_at(p, row + 1, 0) == block_at(p, row, p.k as int / 256),
{
    let n = p.k as int / 256;
    let c = p.block_bytes as int;
    assert((i + 1) * c == i * c + c) by (nonlinear_arith);
    assert((row + 1) * (n * c) == row * (n * c) + n * c) by (nonlinear_arith);
    assert(0 * (n * c) == 0 && 0 * c == 0) by (nonlinear_arith);
}

/// Activations that go with neighbouring blocks are 256 elements apart, and rows as far as their
/// stride says.
pub proof fn law_activations_stand_in_order(b: int, i: int, row_stride: int, stride: int)
    ensures
        x_at(0, 0, row_stride, stride) == 0,
        x_at(b, i + 1, row_stride, stride) == x_at(b, i, row_stride, stride) + 256 * stride,
        x_at(b + 1, i, row_stride, stride) == x_at(b, i, row_stride, stride) + row_stride,
{
    assert((i + 1) * (256 * stride) == i * (256 * stride) + 256 * stride) by (nonlinear_arith);
    assert((b + 1) * row_stride == b * row_stride + row_stride) by (nonlinear_arith);
    assert(0 * row_stride == 0 && 0 * (256 * stride) == 0) by (nonlinear_arith);
}

/// Results stand row by row, each at a place of its own.
pub proof fn law_results_stand_in_order(n: int, b: int, j: int)
    ensures
        cell(n, 0, 0) == 0,
        cell(n, b, j + 1) == cell(n, b, j) + 1,
        cell(n, b + 1, 0) == cell(n, b, n),
{
    assert((b + 1) * n == b * n + n) by (nonlinear_arith);
    assert(0 * n == 0) by (nonlinear_arith);
}

/// The number of threads: what is asked for between 1 and 64, six where nothing is asked for, but
/// never more than there are rows and never none.
pub proof fn law_thread_counts(threads: i64, rows: int)
    requires
        0 <= rows,
    ensures
        1 <= workers(threads, rows),
        rows > 0 ==> workers(threads, rows) == vstd::math::min(
            rows,
            if threads <= 0 {
                6
            } else {
                vstd::math::min(threads as int, 64)
            },
        ),
        rows == 0 ==> workers(threads, rows) == 1,
{
}

/// Bounds of a range of rows are moved to the nearest row.
pub proof fn law_ranges_are_cut(i: i64, n: int)
    requires
        0 <= n,
    ensures
        cut(i, n) == vstd::math::max(0, vstd::math::min(i as int, n)),
{
}

/// Activations and weights can be multiplied where the activations are a matrix of single-precision
/// numbers whose rows are as long as those of the weights, in whole blocks of one of the two block
/// formats; the product has a row for each row of activations and a column for each of weights.
pub proof fn law_what_can_be_multiplied(x: TensorHead, w: Weights)
    ensures
        multiplies(x, w) <==> (w.scheme == 1 || w.scheme == 2) && x.shape@.len() == 2 && x.dtype == 0
            && x.shape@[1] == w.cols && w.cols % 256 == 0,
        multiplies(x, w) ==> {
            let p = product_of(x, w);
            &&& p.batch == x.shape@[0]
            &&& p.n == w.rows
            &&& p.k == w.cols
            &&& p.block_size == 256
            &&& w.scheme == 1 ==> p.block_bytes == 144
            &&& w.scheme == 2 ==> p.block_bytes == 210
        },
        has_blocks(w.scheme) <==> w.scheme == 1 || w.scheme == 2,
{
}

/// Activations are quantised once for all rows where the dot instruction is used on one row without
/// gaps and Q4_K_M weights.
pub proof fn law_when_activations_are_shared(sdot: bool, x: TensorHead, w: Weights)
    requires
        x.shape@.len() == 2,
        x.strides@.len() == 2,
        x.dtype == 0,
    ensures
        shares_activations(sdot, x, w) <==> sdot && x.shape@[0] == 1 && w.scheme == 1
            && x.strides@[1] == 1,
{
}

/// A repeated sum adds the terms to the start from left to right.
pub proof fn law_sums_go_from_left_to_right<A: Fn(u32, u32) -> u32>(
    plus: A,
    f: spec_fn(u32, u32) -> u32,
    start: u32,
    terms: Seq<u32>,
    total: u32,
)
    requires
        forall|a: u32, b: u32, r: u32| #[trigger] call_ensures(plus, (a, b), r) ==> r == f(a, b),
        sums_up(plus, start, terms, total),
    ensures
        total == terms.fold_left(start, f),
{
    let sums = choose|sums: Seq<u32>| #[trigger]
        partial_sums(plus, start, terms, sums) && sums.last() == total;
    lemma_partial_sum(plus, f, start, terms, sums, terms.len() as int);
    assert(terms.take(terms.len() as int) =~= terms);
}

proof fn lemma_partial_sum<A: Fn(u32, u32) -> u32>(
    plus: A,
    f: spec_fn(u32, u32) -> u32,
    start: u32,
    terms: Seq<u32>,
    sums: Seq<u32>,
    n: int,
)
    requires
        forall|a: u32, b: u32, r: u32| #[trigger] call_ensures(plus, (a, b), r) ==> r == f(a, b),
        partial_sums(plus, start, terms, sums),
        0 <= n <= terms.len(),
    ensures
        sums[n] == terms.take(n).fold_left(start, f),
    decreases n,
{
    if n > 0 {
        lemma_partial_sum(plus, f, start, terms, sums, n - 1);
        assert(terms.take(n).drop_last() =~= terms.take(n - 1));
        assert(call_ensures(plus, (sums[n - 1], terms[n - 1]), sums[n - 1 + 1]));
    }
}

/// A product of a row of activations and a row of weights is the sum of the products of their
/// blocks of 256, in their order and from 0; block `i` of a row of weights stands `i` blocks behind
/// the start of the row, and the activations that go with it `256 * i` strides.
pub proof fn law_product_adds_up_blocks<D: Fn(usize, usize, usize) -> u32, A: Fn(u32, u32) -> u32>(
    dot: D,
    plus: A,
    g: spec_fn(usize, usize, usize) -> u32,
    f: spec_fn(u32, u32) -> u32,
    p: Product,
    row_stride: usize,
    stride: usize,
    b: int,
    row: int,
    v: u32,
)
    requires
        forall|x: usize, y: usize, z: usize, r: u32| #[trigger]
            call_ensures(dot, (x, y, z), r) ==> r == g(x, y, z),
        forall|x: u32, y: u32, r: u32| #[trigger] call_ensures(plus, (x, y), r) ==> r == f(x, y),
        is_product(dot, plus, p, row_stride, stride, b, row, v),
    ensures
        v == Seq::new(
            (p.k / 256) as nat,
            |i: int|
                g(
                    (row * ((p.k / 256) * p.block_bytes) + i * p.block_bytes) as usize,
                    (b * row_stride + i * (256 * stride)) as usize,
                    stride,
                ),
        ).fold_left(0u32, f),
{
    let terms = choose|terms: Seq<u32>|
        {
            &&& terms.len() == p.k / 256
            &&& are_terms(dot, p, row_stride, stride, b, row, terms)
            &&& #[trigger] sums_up(plus, 0, terms, v)
        };
    let all = Seq::new(
        (p.k / 256) as nat,
        |i: int|
            g(
                (row * ((p.k / 256) * p.block_bytes) + i * p.block_bytes) as usize,
                (b * row_stride + i * (256 * stride)) as usize,
                stride,
            ),
    );
    assert forall|i: int| 0 <= i < terms.len() implies #[trigger] terms[i] == all[i] by {
        assert(call_ensures(
            dot,
            (
                block_at(p, row, i) as usize,
                x_at(b, i, row_stride as int, stride as int) as usize,
                stride,
            ),
            terms[i],
        ));
    }
    assert(terms =~= all);
    law_sums_go_from_left_to_right(plus, f, 0, terms, v);
}

/// With activations that are quantised once, a product adds up the products of the blocks in the
/// same way, one by one, or first each two neighbours.
pub proof fn law_shared_product_adds_up_blocks<D: Fn(usize, usize) -> u32, A: Fn(u32, u32) -> u32>(
    dot: D,
    plus: A,
    g: spec_fn(usize, usize) -> u32,
    f: spec_fn(u32, u32) -> u32,
    p: Product,
    kernel: Kernel,
    row: int,
    v: u32,
)
    requires
        forall|x: usize, y: usize, r: u32| #[trigger]
            call_ensures(dot, (x, y), r) ==> r == g(x, y),
        forall|x: u32, y: u32, r: u32| #[trigger] call_ensures(plus, (x, y), r) ==> r == f(x, y),
        is_shared_product(dot, plus, p, kernel, row, v),
    ensures
        ({
            let terms = Seq::new(
                (p.k / 256) as nat,
                |i: int|
                    g(
                        (row * ((p.k / 256) * p.block_bytes) + i * p.block_bytes) as usize,
                        i as usize,
                    ),
            );
            match kernel {
                Kernel::Single => v == terms.fold_left(0u32, f),
                Kernel::Paired => v == Seq::new(
                    (p.k / 512) as nat,
                    |i: int| f(terms[2 * i], terms[2 * i + 1]),
                ).fold_left(0u32, f),
            }
        }),
{
    let terms = choose|terms: Seq<u32>|
        {
            &&& terms.len() == p.k / 256
            &&& #[trigger] are_shared_terms(dot, p, row, terms)
            &&& match kernel {
                Kernel::Single => sums_up(plus, 0, terms, v),
                Kernel::Paired => exists|pairs: Seq<u32>| #[trigger]
                    are_pair_sums(plus, terms, pairs) && sums_up(plus, 0, pairs, v),
            }
        };
    let all = Seq::new(
        (p.k / 256) as nat,
        |i: int|
            g((row * ((p.k / 256) * p.block_bytes) + i * p.block_bytes) as usize, i as usize),
    );
    assert forall|i: int| 0 <= i < terms.len() implies #[trigger] terms[i] == all[i] by {
        assert(call_ensures(dot, (block_at(p, row, i) as usize, i as usize), terms[i]));
    }
    assert(terms =~= all);
    match kernel {
        Kernel::Single => {
            law_sums_go_from_left_to_right(plus, f, 0, terms, v);
        },
        Kernel::Paired => {
            let pairs = choose|pairs: Seq<u32>| #[trigger]
                are_pair_sums(plus, terms, pairs) && sums_up(plus, 0, pairs, v);
            let both = Seq::new((p.k / 512) as nat, |i: int| f(all[2 * i], all[2 * i + 1]));
            assert(pairs.len() == p.k / 512);
            assert forall|i: int| 0 <= i < pairs.len() implies #[trigger] pairs[i] == both[i] by {
                assert(call_ensures(plus, (terms[2 * i], terms[2 * i + 1]), pairs[i]));
            }
            assert(pairs =~= both);
            law_sums_go_from_left_to_right(plus, f, 0, pairs, v);
        },
    }
}

/// A part of a product fills in the results of its own rows of weights, for every row of
/// activations, and leaves all other results as they were.
pub proof fn law_parts_fill_in_their_rows<D: Fn(usize, usize, usize) -> u32, A: Fn(u32, u32) -> u32>(
    dot: D,
    plus: A,
    p: Product,
    row_stride: usize,
    stride: usize,
    lo: int,
    hi: int,
    before: Seq<u32>,
    after: Seq<u32>,
    b: int,
    j: int,
)
    requires
        rows_done(dot, plus, p, row_stride, stride, lo, hi, before, after),
        0 <= b < p.batch,
        0 <= j < p.n,
    ensures
        after.len() == before.len(),
        lo <= j < hi ==> is_product(dot, plus, p, row_stride, stride, b, j, after[b * p.n + j]),
        j < lo || j >= hi ==> after[b * p.n + j] == before[b * p.n + j],
{
    assert(cell(p.n as int, b, j) == b * p.n + j);
    let v = after[cell(p.n as int, b, j)];
}

/// Numbers of an INT8 tensor are its signed bytes times the scale of their row.
pub proof fn law_int8_is_scaled_by_row<F: Fn(usize) -> Vec<u32>, S: Fn(i8, u32) -> u32>(
    decode: F,
    scale: S,
    g: spec_fn(i8, u32) -> u32,
    t: QTensor,
    out: Seq<u32>,
    r: int,
    c: int,
)
    requires
        is_dequantised(decode, scale, t, out),
        t.scheme == 0,
        forall|x: i8, y: u32, z: u32| #[trigger] call_ensures(scale, (x, y), z) ==> z == g(x, y),
        0 <= r < t.rows,
        0 <= c < t.cols,
    ensures
        ({
            let byte = t.data->Owned_0@[r * t.cols + c];
            let x: int = if byte < 128 {
                byte as int
            } else {
                byte - 256
            };
            out[r * t.cols + c] == g(x as i8, t.meta->Some_0@[r])
        }),
{
    assert(cell(t.cols as int, r, c) == r * t.cols + c);
    let v = out[cell(t.cols as int, r, c)];
    assert(call_ensures(
        scale,
        (quant::signed(t.data->Owned_0@[cell(t.cols as int, r, c)]) as i8, t.meta->Some_0@[r]),
        v,
    ));
}

/// A matrix that is filled with blocks has in each row as many whole blocks as fit, one behind
/// another, and zeros behind them.
pub proof fn law_rows_are_filled_with_blocks(blocks: Seq<Seq<u32>>, cols: int, r: int, k: int, i: int)
    requires
        0 <= i < 256,
        0 <= k < cols / 256,
        0 <= r,
    ensures
        laid_at(blocks, cols, r, 256 * k + i) == blocks[r * (cols / 256) + k][i],
        laid_at(blocks, cols, r, 256 * (cols / 256) + i) == 0,
{
    assert((256 * k + i) / 256 == k && (256 * k + i) % 256 == i);
}

/// A row that was decoded has the 256 numbers of each of its blocks one behind another, and zeros
/// behind them.
pub proof fn law_decoded_rows<F: Fn(usize) -> Vec<u32>>(
    decode: F,
    g: spec_fn(usize) -> Seq<u32>,
    offset: int,
    block_bytes: int,
    blocks: int,
    s: Seq<u32>,
    b: int,
    i: int,
)
    requires
        is_decoded_row(decode, offset, block_bytes, blocks, s),
        forall|o: usize, v: Vec<u32>| #[trigger] call_ensures(decode, (o,), v) ==> v@ == g(o),
    ensures
        0 <= b < blocks ==> s.subrange(256 * b, 256 * b + 256) == g(
            (offset + b * block_bytes) as usize,
        ),
        256 * blocks <= i < s.len() ==> s[i] == 0,
{
    if 0 <= b < blocks {
        assert(is_block(decode, offset + b * block_bytes, s.subrange(b * 256, b * 256 + 256)));
    }
}

/// Rows that were quantised one by one stand one behind another, each with its own scale.
pub proof fn law_quantised_rows<F: Fn(usize) -> (Vec<u8>, u32)>(
    quantise: F,
    g: spec_fn(usize) -> (Seq<u8>, u32),
    data: Seq<u8>,
    meta: Seq<u32>,
    cols: int,
    count: int,
    r: int,
)
    requires
        holds_rows(quantise, data, meta, cols, count),
        forall|o: usize, q: (Vec<u8>, u32)| #[trigger]
            call_ensures(quantise, (o,), q) ==> q.0@ == g(o).0 && q.1 == g(o).1,
        0 <= r < count,
    ensures
        data.subrange(r * cols, r * cols + cols) == g(r as usize).0,
        meta[r] == g(r as usize).1,
{
    assert(is_quantised_row(quantise, data, meta, cols, r));
}

/// Blocks that were converted one by one stand one behind another: 144 bytes for each 210.
pub proof fn law_recoded_blocks<F: Fn(usize) -> Vec<u8>>(
    recode: F,
    g: spec_fn(usize) -> Seq<u8>,
    data: Seq<u8>,
    count: int,
    i: int,
)
    requires
        holds_blocks(recode, data, count),
        forall|o: usize, v: Vec<u8>| #[trigger] call_ensures(recode, (o,), v) ==> v@ == g(o),
        0 <= i < count,
    ensures
        data.subrange(144 * i, 144 * i + 144) == g((210 * i) as usize),
{
    assert(is_recoded(recode, data, i));
}

} // verus!
