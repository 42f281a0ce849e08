//! No row of an attention layer's output depends on a later row of what the layer is given.
use crate::nn::attention::{
    attention_tensors, heads_forward, lemma_heads_fill_dim, shared_at, AttentionPorts,
    AttentionShape,
};
use crate::nn::attention_laws::{ids_fit, law_heads_tile_the_columns};
use crate::nn::attention_meaning::{
    columns_of, given, head_output, head_weights, joined, law_forward_computes_attention,
    law_joining_fills_every_column, narrow, scale_of, source_of_column, Given,
};
use crate::nn::meaning::{after_all, State, Value};
use crate::nn::plan::{AttnScaleMeta, Contents, TensorId};
use vstd::prelude::*;

verus! {

/// How the kernels compute with numbers, whatever these are and however they are rounded. A sum
/// or a softmax is taken over terms at the places of a row; a place may have none.
#[verifier::reject_recursive_types(N)]
pub ghost struct Arithmetic<N> {
    pub zero: N,
    pub plus: spec_fn(N, N) -> N,
    pub sum_of_products: spec_fn(spec_fn(int) -> Option<(N, N)>) -> N,
    pub scaled: spec_fn(N, AttnScaleMeta) -> N,
    pub softmax: spec_fn(spec_fn(int) -> Option<N>, int) -> N,
    pub softmax_grad: spec_fn(spec_fn(int) -> Option<(N, N)>, int, AttnScaleMeta) -> N,
}

/// Numbers by row and column.
pub type Matrix<N> = spec_fn(int, int) -> N;

/// What the tensors held before a graph ran.
pub type Numbers<N> = spec_fn(TensorId) -> Matrix<N>;

/// Column `c` counts in row `r` of a matrix. A mask hides the columns ahead of a row: their scores
/// are no part of the softmax, and so their weights are no part of a product. A device holds these
/// weights as zeros, which add nothing to a sum of finite numbers.
pub open spec fn counts(value: Value, r: int, c: int) -> bool
    decreases value,
{
    match value {
        Value::Masked(scores, _) => 0 <= c <= r && counts(*scores, r, c),
        Value::Softmax(scores) => counts(*scores, r, c),
        Value::SoftmaxGrad(weights, _, _) => counts(*weights, r, c),
        Value::Columns(_, columns) => 0 <= c < columns.head_dim,
        _ => true,
    }
}

/// Terms of row `r` of `a` and column `c` of `b`.
pub open spec fn row_by_column<N>(
    value: Value,
    a: Matrix<N>,
    b: Matrix<N>,
    r: int,
    c: int,
) -> spec_fn(int) -> Option<(N, N)> {
    |k: int|
        if counts(value, r, k) {
            Some((a(r, k), b(k, c)))
        } else {
            None
        }
}

/// Terms of row `r` of `a` and row `c` of `b`.
pub open spec fn row_by_row<N>(
    value: Value,
    other: Value,
    a: Matrix<N>,
    b: Matrix<N>,
    r: int,
    c: int,
) -> spec_fn(int) -> Option<(N, N)> {
    |k: int|
        if counts(value, r, k) && counts(other, c, k) {
            Some((a(r, k), b(c, k)))
        } else {
            None
        }
}

/// Terms of column `r` of `a` and column `c` of `b`.
pub open spec fn column_by_column<N>(
    value: Value,
    a: Matrix<N>,
    b: Matrix<N>,
    r: int,
    c: int,
) -> spec_fn(int) -> Option<(N, N)> {
    |k: int|
        if counts(value, k, r) {
            Some((a(k, r), b(k, c)))
        } else {
            None
        }
}

/// Row `r` of a matrix.
pub open spec fn row_of<N>(value: Value, a: Matrix<N>, r: int) -> spec_fn(int) -> Option<N> {
    |k: int|
        if counts(value, r, k) {
            Some(a(r, k))
        } else {
            None
        }
}

/// Row `r` of two matrices.
pub open spec fn rows_of<N>(
    value: Value,
    a: Matrix<N>,
    b: Matrix<N>,
    r: int,
) -> spec_fn(int) -> Option<(N, N)> {
    |k: int|
        if counts(value, r, k) {
            Some((a(r, k), b(r, k)))
        } else {
            None
        }
}

/// The matrix that a formula stands for.
pub open spec fn matrix_of<N>(how: Arithmetic<N>, held: Numbers<N>, value: Value) -> Matrix<N>
    decreases value,
{
    match value {
        Value::Zeros => |r: int, c: int| how.zero,
        Value::Before(t) => held(t),
        Value::Product(a, b) => {
            let (x, y) = (matrix_of(how, held, *a), matrix_of(how, held, *b));
            |r: int, c: int| (how.sum_of_products)(row_by_column(*a, x, y, r, c))
        },
        Value::ProductTrp(a, b) => {
            let (x, y) = (matrix_of(how, held, *a), matrix_of(how, held, *b));
            |r: int, c: int| (how.sum_of_products)(row_by_row(*a, *b, x, y, r, c))
        },
        Value::PlusTrpProduct(base, a, b) => {
            let (x, y) = (matrix_of(how, held, *a), matrix_of(how, held, *b));
            let z = matrix_of(how, held, *base);
            |r: int, c: int|
                (how.plus)(z(r, c), (how.sum_of_products)(column_by_column(*a, x, y, r, c)))
        },
        Value::Masked(scores, meta) => {
            let x = matrix_of(how, held, *scores);
            |r: int, c: int| (how.scaled)(x(r, c), meta)
        },
        Value::Softmax(scores) => {
            let x = matrix_of(how, held, *scores);
            |r: int, c: int| (how.softmax)(row_of(*scores, x, r), c)
        },
        Value::SoftmaxGrad(weights, grad, meta) => {
            let (x, y) = (matrix_of(how, held, *weights), matrix_of(how, held, *grad));
            |r: int, c: int| (how.softmax_grad)(rows_of(*weights, x, y, r), c, meta)
        },
        Value::Columns(wide, columns) => {
            let x = matrix_of(how, held, *wide);
            |r: int, c: int| x(r, columns.head_offset + c)
        },
        Value::WithColumns(rest, part, columns) => {
            let (x, y) = (matrix_of(how, held, *rest), matrix_of(how, held, *part));
            |r: int, c: int|
                if columns.head_offset <= c < columns.head_offset + columns.head_dim {
                    y(r, c - columns.head_offset)
                } else {
                    x(r, c)
                }
        },
    }
}

/// The number in row `r` and column `c` of what a formula stands for.
pub open spec fn number_at<N>(
    how: Arithmetic<N>,
    held: Numbers<N>,
    value: Value,
    r: int,
    c: int,
) -> N {
    matrix_of(how, held, value)(r, c)
}

/// Two matrices of `width` columns hold the same numbers in the rows up to `last`.
pub open spec fn agree<N>(
    how: Arithmetic<N>,
    held: Numbers<N>,
    value: Value,
    other_held: Numbers<N>,
    other: Value,
    last: int,
    width: int,
) -> bool {
    forall|r: int, c: int|
        0 <= r <= last && 0 <= c < width ==> #[trigger] number_at(how, held, value, r, c)
            == number_at(how, other_held, other, r, c)
}

/// What two layers are given agrees in the rows up to `last`.
pub open spec fn agree_on_given<N>(
    how: Arithmetic<N>,
    held: Numbers<N>,
    x: Given,
    other_held: Numbers<N>,
    other: Given,
    last: int,
    width: int,
) -> bool {
    &&& agree(how, held, x.q, other_held, other.q, last, width)
    &&& agree(how, held, x.k, other_held, other.k, last, width)
    &&& agree(how, held, x.v, other_held, other.v, last, width)
}

/// A number stands where it was scattered to.
proof fn lemma_number_at_source<N>(
    how: Arithmetic<N>,
    held: Numbers<N>,
    wide: Value,
    r: int,
    c: int,
)
    ensures
        number_at(how, held, wide, r, c) == number_at(
            how,
            held,
            source_of_column(wide, c).0,
            r,
            source_of_column(wide, c).1,
        ),
    decreases wide,
{
    match wide {
        Value::WithColumns(rest, part, columns) => {
            if !(columns.head_offset <= c < columns.head_offset + columns.head_dim) {
                lemma_number_at_source(how, held, *rest, r, c);
            }
        },
        _ => {},
    }
}

proof fn lemma_narrow_agrees<N>(
    how: Arithmetic<N>,
    held: Numbers<N>,
    wide: Value,
    other_held: Numbers<N>,
    other: Value,
    last: int,
    shape: AttentionShape,
    h: int,
)
    requires
        shape.wf(),
        0 <= h < shape.num_heads,
        agree(how, held, wide, other_held, other, last, shape.dim as int),
    ensures
        agree(
            how,
            held,
            narrow(shape, h, wide),
            other_held,
            narrow(shape, h, other),
            last,
            shape.head_dim() as int,
        ),
{
    lemma_head_columns(shape, h);
    let offset = columns_of(shape, h).head_offset as int;
    assert forall|r: int, c: int| 0 <= r <= last && 0 <= c < shape.head_dim() implies #[trigger]
        number_at(how, held, narrow(shape, h, wide), r, c) == number_at(
        how,
        other_held,
        narrow(shape, h, other),
        r,
        c,
    ) by {
        assert(number_at(how, held, wide, r, offset + c) == number_at(
            how,
            other_held,
            other,
            r,
            offset + c,
        ));
    }
}

proof fn lemma_head_columns(shape: AttentionShape, h: int)
    requires
        shape.wf(),
        0 <= h < shape.num_heads,
    ensures
        columns_of(shape, h).head_dim == shape.head_dim(),
        columns_of(shape, h).head_offset == shape.head_offset(h),
        0 <= shape.head_offset(h),
        shape.head_offset(h) + shape.head_dim() <= shape.dim,
{
    lemma_heads_fill_dim(shape);
    let w = shape.head_dim() as int;
    assert(0 <= h * w && h * w + w <= shape.num_heads * w) by (nonlinear_arith)
        requires
            0 <= h,
            h + 1 <= shape.num_heads,
            0 <= w,
    ;
}

/// The weights of the rows up to `last` agree, in the columns that count.
proof fn lemma_weights_agree<N>(
    how: Arithmetic<N>,
    held: Numbers<N>,
    x: Given,
    other_held: Numbers<N>,
    other: Given,
    last: int,
    shape: AttentionShape,
    h: int,
    r: int,
    c: int,
)
    requires
        shape.wf(),
        0 <= h < shape.num_heads,
        agree_on_given(how, held, x, other_held, other, last, shape.dim as int),
        0 <= r <= last,
    ensures
        number_at(how, held, head_weights(shape, h, x), r, c) == number_at(
            how,
            other_held,
            head_weights(shape, h, other),
            r,
            c,
        ),
{
    lemma_head_columns(shape, h);
    lemma_narrow_agrees(how, held, x.q, other_held, other.q, last, shape, h);
    lemma_narrow_agrees(how, held, x.k, other_held, other.k, last, shape, h);
    let (q, k) = (narrow(shape, h, x.q), narrow(shape, h, x.k));
    let (q2, k2) = (narrow(shape, h, other.q), narrow(shape, h, other.k));
    let scores = Value::ProductTrp(Box::new(q), Box::new(k));
    let scores2 = Value::ProductTrp(Box::new(q2), Box::new(k2));
    let masked = Value::Masked(Box::new(scores), scale_of(shape));
    let masked2 = Value::Masked(Box::new(scores2), scale_of(shape));
    let (mq, mk) = (matrix_of(how, held, q), matrix_of(how, held, k));
    let (mq2, mk2) = (matrix_of(how, other_held, q2), matrix_of(how, other_held, k2));
    assert forall|j: int| 0 <= j <= r implies #[trigger] number_at(how, held, masked, r, j)
        == number_at(how, other_held, masked2, r, j) by {
        let terms = row_by_row(q, k, mq, mk, r, j);
        let terms2 = row_by_row(q2, k2, mq2, mk2, r, j);
        assert forall|i: int| #[trigger] terms(i) == terms2(i) by {
            if counts(q, r, i) {
                assert(number_at(how, held, q, r, i) == number_at(how, other_held, q2, r, i));
                assert(number_at(how, held, k, j, i) == number_at(how, other_held, k2, j, i));
            }
        }
        assert(terms =~= terms2);
        assert(number_at(how, held, scores, r, j) == (how.sum_of_products)(terms));
        assert(number_at(how, other_held, scores2, r, j) == (how.sum_of_products)(terms2));
    }
    let row = row_of(masked, matrix_of(how, held, masked), r);
    let row2 = row_of(masked2, matrix_of(how, other_held, masked2), r);
    assert forall|i: int| #[trigger] row(i) == row2(i) by {
        assert(counts(scores, r, i) && counts(scores2, r, i));
        if 0 <= i <= r {
            assert(number_at(how, held, masked, r, i) == number_at(how, other_held, masked2, r, i));
        }
    }
    assert(row =~= row2);
    assert(number_at(how, held, head_weights(shape, h, x), r, c) == (how.softmax)(row, c));
    assert(number_at(how, other_held, head_weights(shape, h, other), r, c) == (how.softmax)(
        row2,
        c,
    ));
}

/// In row `r` of the weights the columns up to `r` count.
proof fn lemma_weights_count(shape: AttentionShape, h: int, x: Given, r: int, c: int)
    ensures
        counts(head_weights(shape, h, x), r, c) == (0 <= c <= r),
{
    reveal_with_fuel(counts, 4);
}

/// The rows of a head's output up to `last` take no more than the rows up to `last` of the queries,
/// keys and values.
pub proof fn law_head_is_causal<N>(
    how: Arithmetic<N>,
    held: Numbers<N>,
    x: Given,
    other_held: Numbers<N>,
    other: Given,
    last: int,
    shape: AttentionShape,
    h: int,
)
    requires
        shape.wf(),
        0 <= h < shape.num_heads,
        agree_on_given(how, held, x, other_held, other, last, shape.dim as int),
    ensures
        agree(
            how,
            held,
            head_output(shape, h, x),
            other_held,
            head_output(shape, h, other),
            last,
            shape.head_dim() as int,
        ),
{
    lemma_narrow_agrees(how, held, x.v, other_held, other.v, last, shape, h);
    let (w, w2) = (head_weights(shape, h, x), head_weights(shape, h, other));
    let (v, v2) = (narrow(shape, h, x.v), narrow(shape, h, other.v));
    assert forall|r: int, c: int| 0 <= r <= last && 0 <= c < shape.head_dim() implies #[trigger]
        number_at(how, held, head_output(shape, h, x), r, c) == number_at(
        how,
        other_held,
        head_output(shape, h, other),
        r,
        c,
    ) by {
        let terms = row_by_column(w, matrix_of(how, held, w), matrix_of(how, held, v), r, c);
        let terms2 = row_by_column(
            w2,
            matrix_of(how, other_held, w2),
            matrix_of(how, other_held, v2),
            r,
            c,
        );
        assert forall|i: int| #[trigger] terms(i) == terms2(i) by {
            lemma_weights_agree(how, held, x, other_held, other, last, shape, h, r, i);
            lemma_weights_count(shape, h, x, r, i);
            lemma_weights_count(shape, h, other, r, i);
            if 0 <= i <= r {
                assert(number_at(how, held, v, i, c) == number_at(how, other_held, v2, i, c));
            }
        }
        assert(terms =~= terms2);
        assert(number_at(how, held, head_output(shape, h, x), r, c) == (how.sum_of_products)(
            terms,
        ));
        assert(number_at(how, other_held, head_output(shape, h, other), r, c) == (
        how.sum_of_products)(terms2));
    }
}

/// A layer and what its plan holds before a forward pass.
pub ghost struct Setting<N> {
    pub plan: Seq<Contents>,
    pub ports: AttentionPorts,
    pub state: State,
    pub held: Numbers<N>,
}

/// What a forward pass leaves in the output.
pub open spec fn output_of<N>(shape: AttentionShape, s: Setting<N>) -> Value {
    let base = s.plan.len() as int;
    after_all(
        s.plan + attention_tensors(shape),
        s.state,
        heads_forward(shape, s.ports, base, shape.num_heads as nat),
    )(shared_at(base).out_buffer)
}

pub open spec fn is_set_up<N>(shape: AttentionShape, s: Setting<N>) -> bool {
    &&& ids_fit(s.plan.len() as int, shape)
    &&& s.ports.q.index < s.plan.len()
    &&& s.ports.k.index < s.plan.len()
    &&& s.ports.v.index < s.plan.len()
}

/// No output row depends on a later position. Of two layers of one size, whose queries, keys and
/// values agree in the rows up to `last` and may differ behind, forward passes leave outputs that
/// agree in the rows up to `last`, whatever the outputs held before.
pub proof fn law_attention_is_causal<N>(
    how: Arithmetic<N>,
    shape: AttentionShape,
    a: Setting<N>,
    b: Setting<N>,
    last: int,
)
    requires
        shape.wf(),
        is_set_up(shape, a),
        is_set_up(shape, b),
        agree_on_given(
            how,
            a.held,
            given(a.state, a.ports),
            b.held,
            given(b.state, b.ports),
            last,
            shape.dim as int,
        ),
    ensures
        agree(
            how,
            a.held,
            output_of(shape, a),
            b.held,
            output_of(shape, b),
            last,
            shape.dim as int,
        ),
{
    let (x, y) = (given(a.state, a.ports), given(b.state, b.ports));
    law_forward_computes_attention(a.plan, shape, a.ports, a.state);
    law_forward_computes_attention(b.plan, shape, b.ports, b.state);
    let old_a = (a.state)(shared_at(a.plan.len() as int).out_buffer);
    let old_b = (b.state)(shared_at(b.plan.len() as int).out_buffer);
    let part_a = |h: int| head_output(shape, h, x);
    let part_b = |h: int| head_output(shape, h, y);
    let heads = shape.num_heads as nat;
    let (out_a, out_b) = (
        joined(shape, heads, old_a, part_a),
        joined(shape, heads, old_b, part_b),
    );
    assert(output_of(shape, a) == out_a && output_of(shape, b) == out_b);
    assert forall|r: int, c: int| 0 <= r <= last && 0 <= c < shape.dim implies #[trigger]
        number_at(how, a.held, out_a, r, c) == number_at(how, b.held, out_b, r, c) by {
        law_heads_tile_the_columns(shape, c, 0);
        let w = shape.head_dim() as int;
        let (h, i) = (c / w, c % w);
        law_joining_fills_every_column(shape, old_a, part_a, c);
        law_joining_fills_every_column(shape, old_b, part_b, c);
        lemma_number_at_source(how, a.held, out_a, r, c);
        lemma_number_at_source(how, b.held, out_b, r, c);
        law_head_is_causal(how, a.held, x, b.held, y, last, shape, h);
        vstd::arithmetic::div_mod::lemma_mod_bound(c, w);
        assert(number_at(how, a.held, head_output(shape, h, x), r, i) == number_at(
            how,
            b.held,
            head_output(shape, h, y),
            r,
            i,
        ));
    }
}

} // verus!
