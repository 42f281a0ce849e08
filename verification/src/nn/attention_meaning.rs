//! What the passes of an attention layer compute.
use crate::nn::attention::{
    attention_tensors, head_at, head_backward, head_base, head_contents, head_forward,
    heads_backward, heads_forward, lemma_heads_fill_dim, shared_at, shared_contents,
    AttentionPorts, AttentionShape, PER_HEAD,
};
use crate::nn::attention_laws::{ids_fit, law_heads_tile_the_columns, lemma_lookup};
use crate::nn::init::inverse_root;
use crate::nn::meaning::{after, after_all, lemma_after_both, lemma_after_step, State, Value};
use crate::nn::plan::{AttnScaleMeta, Contents, HeadMoveMeta, TensorId};
use vstd::prelude::*;

verus! {

/// The columns of head `h`.
pub open spec fn columns_of(shape: AttentionShape, h: int) -> HeadMoveMeta {
    head_contents(shape, h)[0]->HeadMove_0
}

pub open spec fn scale_of(shape: AttentionShape) -> AttnScaleMeta {
    shared_contents(shape)[1]->AttnScale_0
}

/// What an attention layer is given.
pub ghost struct Given {
    pub q: Value,
    pub k: Value,
    pub v: Value,
}

pub open spec fn given(state: State, ports: AttentionPorts) -> Given {
    Given { q: state(ports.q), k: state(ports.k), v: state(ports.v) }
}

/// The columns of head `h` of a wide matrix.
pub open spec fn narrow(shape: AttentionShape, h: int, wide: Value) -> Value {
    Value::Columns(Box::new(wide), columns_of(shape, h))
}

/// `softmax(mask(q * k^T))`, how much each row heeds each row.
pub open spec fn head_weights(shape: AttentionShape, h: int, x: Given) -> Value {
    let scores = Value::ProductTrp(
        Box::new(narrow(shape, h, x.q)),
        Box::new(narrow(shape, h, x.k)),
    );
    Value::Softmax(Box::new(Value::Masked(Box::new(scores), scale_of(shape))))
}

/// `weights * v`.
pub open spec fn head_output(shape: AttentionShape, h: int, x: Given) -> Value {
    Value::Product(Box::new(head_weights(shape, h, x)), Box::new(narrow(shape, h, x.v)))
}

/// Gradient of the scores before mask and softmax, from `dout * v^T`, that of the weights.
pub open spec fn head_grad_scores(shape: AttentionShape, h: int, x: Given, dout: Value) -> Value {
    let grad_weights = Value::ProductTrp(
        Box::new(narrow(shape, h, dout)),
        Box::new(narrow(shape, h, x.v)),
    );
    Value::SoftmaxGrad(
        Box::new(head_weights(shape, h, x)),
        Box::new(grad_weights),
        scale_of(shape),
    )
}

/// `grad_scores * k`.
pub open spec fn head_grad_q(shape: AttentionShape, h: int, x: Given, dout: Value) -> Value {
    Value::Product(
        Box::new(head_grad_scores(shape, h, x, dout)),
        Box::new(narrow(shape, h, x.k)),
    )
}

/// `grad_scores^T * q`.
pub open spec fn head_grad_k(shape: AttentionShape, h: int, x: Given, dout: Value) -> Value {
    Value::PlusTrpProduct(
        Box::new(Value::Zeros),
        Box::new(head_grad_scores(shape, h, x, dout)),
        Box::new(narrow(shape, h, x.q)),
    )
}

/// `weights^T * dout`.
pub open spec fn head_grad_v(shape: AttentionShape, h: int, x: Given, dout: Value) -> Value {
    Value::PlusTrpProduct(
        Box::new(Value::Zeros),
        Box::new(head_weights(shape, h, x)),
        Box::new(narrow(shape, h, dout)),
    )
}

/// A wide matrix that was `old`, in which the columns of the first `heads` heads are those of
/// `part(0)`, `part(1)` and so on.
pub open spec fn joined(
    shape: AttentionShape,
    heads: nat,
    old: Value,
    part: spec_fn(int) -> Value,
) -> Value
    decreases heads,
{
    if heads == 0 {
        old
    } else {
        Value::WithColumns(
            Box::new(joined(shape, (heads - 1) as nat, old, part)),
            Box::new(part(heads - 1)),
            columns_of(shape, heads - 1),
        )
    }
}

/// Where column `c` of a matrix comes from: the matrix that was scattered there last, and the
/// column of that one.
pub open spec fn source_of_column(wide: Value, c: int) -> (Value, int)
    decreases wide,
{
    match wide {
        Value::WithColumns(rest, part, columns) => if columns.head_offset <= c
            < columns.head_offset + columns.head_dim {
            (*part, c - columns.head_offset)
        } else {
            source_of_column(*rest, c)
        },
        _ => (wide, c),
    }
}

/// Joining all heads leaves nothing of what was there before: each column is the right one of the
/// one head that it belongs to.
pub proof fn law_joining_fills_every_column(
    shape: AttentionShape,
    old: Value,
    part: spec_fn(int) -> Value,
    c: int,
)
    requires
        shape.wf(),
        0 <= c < shape.dim,
    ensures
        source_of_column(joined(shape, shape.num_heads as nat, old, part), c) == (
            part(c / (shape.head_dim() as int)),
            c % (shape.head_dim() as int),
        ),
{
    law_heads_tile_the_columns(shape, c, 0);
    lemma_joined_column(shape, shape.num_heads as nat, old, part, c);
}

proof fn lemma_joined_column(
    shape: AttentionShape,
    heads: nat,
    old: Value,
    part: spec_fn(int) -> Value,
    c: int,
)
    requires
        shape.wf(),
        0 <= c < shape.dim,
        c / (shape.head_dim() as int) < heads <= shape.num_heads,
    ensures
        source_of_column(joined(shape, heads, old, part), c) == (
            part(c / (shape.head_dim() as int)),
            c % (shape.head_dim() as int),
        ),
    decreases heads,
{
    let w = shape.head_dim() as int;
    let h = heads - 1;
    law_heads_tile_the_columns(shape, c, 0);
    law_heads_tile_the_columns(shape, c, h);
    assert(shape.head_offset(h) >= 0) by (nonlinear_arith)
        requires
            shape.head_offset(h) == h * w,
            h >= 0,
            w > 0,
    ;
    assert(columns_of(shape, h).head_offset == shape.head_offset(h));
    if c / w == h {
        vstd::arithmetic::div_mod::lemma_fundamental_div_mod(c, w);
        assert(w * h == h * w) by (nonlinear_arith);
    } else {
        lemma_joined_column(shape, (heads - 1) as nat, old, part, c);
    }
}

/// What the forward pass of head `h` leaves for its backward pass.
pub open spec fn keeps(shape: AttentionShape, base: int, h: int, state: State, x: Given) -> bool {
    let own = head_at(head_base(base, h));
    &&& state(own.q_head) == narrow(shape, h, x.q)
    &&& state(own.k_head) == narrow(shape, h, x.k)
    &&& state(own.v_head) == narrow(shape, h, x.v)
    &&& state(own.scores) == head_weights(shape, h, x)
}

proof fn lemma_head_forward(
    plan: Seq<Contents>,
    shape: AttentionShape,
    ports: AttentionPorts,
    h: int,
    state: State,
)
    requires
        ids_fit(plan.len() as int, shape),
        ports.q.index < plan.len(),
        ports.k.index < plan.len(),
        ports.v.index < plan.len(),
        0 <= h < shape.num_heads,
    ensures
        ({
            let tensors = plan + attention_tensors(shape);
            let base = plan.len() as int;
            let all = shared_at(base);
            let x = given(state, ports);
            let end = after_all(
                tensors,
                state,
                head_forward(shape, ports, all, head_at(head_base(base, h))),
            );
            &&& keeps(shape, base, h, end, x)
            &&& end(all.out_buffer) == Value::WithColumns(
                Box::new(state(all.out_buffer)),
                Box::new(head_output(shape, h, x)),
                columns_of(shape, h),
            )
            &&& forall|t: TensorId|
                t.index < base || base + 10 <= t.index < head_base(base, h) || head_base(base, h)
                    + PER_HEAD <= t.index ==> #[trigger] end(t) == state(t)
        }),
{
    let tensors = plan + attention_tensors(shape);
    let base = plan.len() as int;
    let all = shared_at(base);
    let at = head_base(base, h);
    let own = head_at(at);
    let f = head_forward(shape, ports, all, own);
    lemma_lookup(plan, shape, h);
    assert(tensors[base + 1] == shared_contents(shape)[1]);
    assert(tensors[at + 0] == head_contents(shape, h)[0]);
    assert(at + PER_HEAD <= usize::MAX);
    let s1 = after(tensors, state, f[0]);
    let s2 = after(tensors, s1, f[1]);
    let s3 = after(tensors, s2, f[2]);
    let s4 = after(tensors, s3, f[3]);
    let s5 = after(tensors, s4, f[4]);
    let s6 = after(tensors, s5, f[5]);
    let s7 = after(tensors, s6, f[6]);
    let s8 = after(tensors, s7, f[7]);
    assert(after_all(tensors, state, f) == s8) by {
        lemma_after_step(tensors, state, f, 0);
        lemma_after_step(tensors, state, f, 1);
        lemma_after_step(tensors, state, f, 2);
        lemma_after_step(tensors, state, f, 3);
        lemma_after_step(tensors, state, f, 4);
        lemma_after_step(tensors, state, f, 5);
        lemma_after_step(tensors, state, f, 6);
        lemma_after_step(tensors, state, f, 7);
        assert(f.take(8) == f);
    }
    let x = given(state, ports);
    assert(s1(own.q_head) == narrow(shape, h, x.q));
    assert(s2(own.k_head) == narrow(shape, h, x.k));
    assert(s3(own.v_head) == narrow(shape, h, x.v));
    assert(s6(own.scores) == head_weights(shape, h, x));
    assert(s7(all.out_head) == head_output(shape, h, x));
}

/// Gradients are handed on in tensors of their own, and the layer is given all its tensors.
pub open spec fn ports_apart(base: int, ports: AttentionPorts) -> bool {
    &&& ports.q.index < base
    &&& ports.k.index < base
    &&& ports.v.index < base
    &&& ports.grad_output.index < base
    &&& ports.grad_q.index < base
    &&& ports.grad_k.index < base
    &&& ports.grad_v.index < base
    &&& ports.grad_q != ports.grad_output
    &&& ports.grad_k != ports.grad_output
    &&& ports.grad_v != ports.grad_output
    &&& ports.grad_q != ports.grad_k
    &&& ports.grad_q != ports.grad_v
    &&& ports.grad_k != ports.grad_v
}

proof fn lemma_head_backward(
    plan: Seq<Contents>,
    shape: AttentionShape,
    ports: AttentionPorts,
    h: int,
    state: State,
    x: Given,
)
    requires
        ids_fit(plan.len() as int, shape),
        ports_apart(plan.len() as int, ports),
        0 <= h < shape.num_heads,
        keeps(shape, plan.len() as int, h, state, x),
    ensures
        ({
            let tensors = plan + attention_tensors(shape);
            let base = plan.len() as int;
            let all = shared_at(base);
            let dout = state(ports.grad_output);
            let end = after_all(
                tensors,
                state,
                head_backward(shape, ports, all, head_at(head_base(base, h))),
            );
            &&& end(ports.grad_q) == Value::WithColumns(
                Box::new(state(ports.grad_q)),
                Box::new(head_grad_q(shape, h, x, dout)),
                columns_of(shape, h),
            )
            &&& end(ports.grad_k) == Value::WithColumns(
                Box::new(state(ports.grad_k)),
                Box::new(head_grad_k(shape, h, x, dout)),
                columns_of(shape, h),
            )
            &&& end(ports.grad_v) == Value::WithColumns(
                Box::new(state(ports.grad_v)),
                Box::new(head_grad_v(shape, h, x, dout)),
                columns_of(shape, h),
            )
            &&& forall|t: TensorId|
                (t.index <= base && t != ports.grad_q && t != ports.grad_k && t != ports.grad_v)
                    || base + 10 <= t.index ==> #[trigger] end(t) == state(t)
        }),
{
    let tensors = plan + attention_tensors(shape);
    let base = plan.len() as int;
    let all = shared_at(base);
    let at = head_base(base, h);
    let own = head_at(at);
    let b = head_backward(shape, ports, all, own);
    lemma_lookup(plan, shape, h);
    assert(tensors[base + 1] == shared_contents(shape)[1]);
    assert(tensors[at + 0] == head_contents(shape, h)[0]);
    assert(at + PER_HEAD <= usize::MAX);
    let s1 = after(tensors, state, b[0]);
    let s2 = after(tensors, s1, b[1]);
    let s3 = after(tensors, s2, b[2]);
    let s4 = after(tensors, s3, b[3]);
    let s5 = after(tensors, s4, b[4]);
    let s6 = after(tensors, s5, b[5]);
    let s7 = after(tensors, s6, b[6]);
    let s8 = after(tensors, s7, b[7]);
    let s9 = after(tensors, s8, b[8]);
    let s10 = after(tensors, s9, b[9]);
    let s11 = after(tensors, s10, b[10]);
    assert(after_all(tensors, state, b) == s11) by {
        lemma_after_step(tensors, state, b, 0);
        lemma_after_step(tensors, state, b, 1);
        lemma_after_step(tensors, state, b, 2);
        lemma_after_step(tensors, state, b, 3);
        lemma_after_step(tensors, state, b, 4);
        lemma_after_step(tensors, state, b, 5);
        lemma_after_step(tensors, state, b, 6);
        lemma_after_step(tensors, state, b, 7);
        lemma_after_step(tensors, state, b, 8);
        lemma_after_step(tensors, state, b, 9);
        lemma_after_step(tensors, state, b, 10);
        assert(b.take(11) == b);
    }
    let dout = state(ports.grad_output);
    assert(s1(all.grad_out_head) == narrow(shape, h, dout));
    assert(s3(all.grad_v_head) == head_grad_v(shape, h, x, dout));
    assert(s5(all.grad_raw) == head_grad_scores(shape, h, x, dout));
    assert(s6(all.grad_q_head) == head_grad_q(shape, h, x, dout));
    assert(s8(all.grad_k_head) == head_grad_k(shape, h, x, dout));
    assert(s8(all.grad_v_head) == head_grad_v(shape, h, x, dout));
}

proof fn lemma_heads_forward(
    plan: Seq<Contents>,
    shape: AttentionShape,
    ports: AttentionPorts,
    heads: nat,
    state: State,
)
    requires
        ids_fit(plan.len() as int, shape),
        ports.q.index < plan.len(),
        ports.k.index < plan.len(),
        ports.v.index < plan.len(),
        heads <= shape.num_heads,
    ensures
        ({
            let tensors = plan + attention_tensors(shape);
            let base = plan.len() as int;
            let x = given(state, ports);
            let out = shared_at(base).out_buffer;
            let end = after_all(tensors, state, heads_forward(shape, ports, base, heads));
            &&& end(out) == joined(shape, heads, state(out), |h: int| head_output(shape, h, x))
            &&& forall|h: int| 0 <= h < heads ==> #[trigger] keeps(shape, base, h, end, x)
            &&& forall|t: TensorId| t.index < base ==> #[trigger] end(t) == state(t)
        }),
    decreases heads,
{
    if heads > 0 {
        let tensors = plan + attention_tensors(shape);
        let base = plan.len() as int;
        let all = shared_at(base);
        let x = given(state, ports);
        let h = heads - 1;
        let first = heads_forward(shape, ports, base, h as nat);
        let second = head_forward(shape, ports, all, head_at(head_base(base, h)));
        let middle = after_all(tensors, state, first);
        lemma_heads_forward(plan, shape, ports, h as nat, state);
        lemma_head_forward(plan, shape, ports, h, middle);
        lemma_after_both(tensors, state, first, second);
        let end = after_all(tensors, state, first + second);
        assert(given(middle, ports) == x);
        assert forall|i: int| 0 <= i < heads implies #[trigger] keeps(shape, base, i, end, x) by {
            if i < h {
                assert(keeps(shape, base, i, middle, x));
                assert(head_base(base, i) + PER_HEAD <= head_base(base, h) <= usize::MAX);
            }
        }
    }
}

proof fn lemma_heads_backward(
    plan: Seq<Contents>,
    shape: AttentionShape,
    ports: AttentionPorts,
    heads: nat,
    state: State,
    x: Given,
)
    requires
        ids_fit(plan.len() as int, shape),
        ports_apart(plan.len() as int, ports),
        heads <= shape.num_heads,
        forall|h: int|
            0 <= h < shape.num_heads ==> #[trigger] keeps(shape, plan.len() as int, h, state, x),
    ensures
        ({
            let tensors = plan + attention_tensors(shape);
            let base = plan.len() as int;
            let (dq, dk, dv) = (ports.grad_q, ports.grad_k, ports.grad_v);
            let dout = state(ports.grad_output);
            let end = after_all(tensors, state, heads_backward(shape, ports, base, heads));
            &&& end(dq) == joined(shape, heads, state(dq), |h: int| head_grad_q(shape, h, x, dout))
            &&& end(dk) == joined(shape, heads, state(dk), |h: int| head_grad_k(shape, h, x, dout))
            &&& end(dv) == joined(shape, heads, state(dv), |h: int| head_grad_v(shape, h, x, dout))
            &&& forall|t: TensorId|
                (t.index <= base && t != dq && t != dk && t != dv) || base + 10 <= t.index
                    ==> #[trigger] end(t) == state(t)
        }),
    decreases heads,
{
    if heads > 0 {
        let tensors = plan + attention_tensors(shape);
        let base = plan.len() as int;
        let h = heads - 1;
        let first = heads_backward(shape, ports, base, h as nat);
        let second = head_backward(shape, ports, shared_at(base), head_at(head_base(base, h)));
        let middle = after_all(tensors, state, first);
        lemma_heads_backward(plan, shape, ports, h as nat, state, x);
        assert(keeps(shape, base, h, state, x));
        assert(head_base(base, h) + PER_HEAD <= usize::MAX);
        assert(keeps(shape, base, h, middle, x));
        lemma_head_backward(plan, shape, ports, h, middle, x);
        lemma_after_both(tensors, state, first, second);
    }
}

/// A forward pass leaves in the output, in the columns of each head, that head's
/// `softmax(mask(q * k^T)) * v`, and leaves the tensors that it was given as they were.
pub proof fn law_forward_computes_attention(
    plan: Seq<Contents>,
    shape: AttentionShape,
    ports: AttentionPorts,
    state: State,
)
    requires
        ids_fit(plan.len() as int, shape),
        ports.q.index < plan.len(),
        ports.k.index < plan.len(),
        ports.v.index < plan.len(),
    ensures
        ({
            let (base, heads) = (plan.len() as int, shape.num_heads as nat);
            let x = given(state, ports);
            let out = shared_at(base).out_buffer;
            let end = after_all(
                plan + attention_tensors(shape),
                state,
                heads_forward(shape, ports, base, heads),
            );
            &&& end(out) == joined(shape, heads, state(out), |h: int| head_output(shape, h, x))
            &&& forall|h: int| 0 <= h < heads ==> #[trigger] keeps(shape, base, h, end, x)
            &&& forall|t: TensorId| t.index < base ==> #[trigger] end(t) == state(t)
            &&& scale_of(shape).seq_len == shape.seq_len
            &&& scale_of(shape).scale == inverse_root(
                (shape.dim as int / shape.num_heads as int) as u32,
            )
        }),
{
    lemma_heads_forward(plan, shape, ports, shape.num_heads as nat, state);
}

/// A backward pass, run while the heads still hold what a forward pass on `x` kept, leaves in each
/// gradient, in the columns of each head, that head's gradient for `x`. It disturbs neither
/// the output nor anything that the forward pass kept, so running it again does the same.
pub proof fn law_backward_computes_gradients(
    plan: Seq<Contents>,
    shape: AttentionShape,
    ports: AttentionPorts,
    state: State,
    x: Given,
)
    requires
        ids_fit(plan.len() as int, shape),
        ports_apart(plan.len() as int, ports),
        forall|h: int|
            0 <= h < shape.num_heads ==> #[trigger] keeps(shape, plan.len() as int, h, state, x),
    ensures
        ({
            let (base, heads) = (plan.len() as int, shape.num_heads as nat);
            let (dq, dk, dv) = (ports.grad_q, ports.grad_k, ports.grad_v);
            let dout = state(ports.grad_output);
            let end = after_all(
                plan + attention_tensors(shape),
                state,
                heads_backward(shape, ports, base, heads),
            );
            &&& end(dq) == joined(shape, heads, state(dq), |h: int| head_grad_q(shape, h, x, dout))
            &&& end(dk) == joined(shape, heads, state(dk), |h: int| head_grad_k(shape, h, x, dout))
            &&& end(dv) == joined(shape, heads, state(dv), |h: int| head_grad_v(shape, h, x, dout))
            &&& forall|h: int| 0 <= h < heads ==> #[trigger] keeps(shape, base, h, end, x)
            &&& forall|t: TensorId|
                t.index <= base && t != dq && t != dk && t != dv ==> #[trigger] end(t) == state(t)
            &&& scale_of(shape).seq_len == shape.seq_len
            &&& scale_of(shape).scale == inverse_root(
                (shape.dim as int / shape.num_heads as int) as u32,
            )
        }),
{
    let (base, heads) = (plan.len() as int, shape.num_heads as nat);
    lemma_heads_backward(plan, shape, ports, heads, state, x);
    let end = after_all(
        plan + attention_tensors(shape),
        state,
        heads_backward(shape, ports, base, heads),
    );
    assert forall|h: int| 0 <= h < heads implies #[trigger] keeps(shape, base, h, end, x) by {
        assert(keeps(shape, base, h, state, x));
        assert(head_base(base, h) + PER_HEAD <= usize::MAX);
    }
}

/// A forward pass and then a backward pass give, in each column, the gradients for the queries,
/// keys and values that the layer was given and for the output's gradient. What the tensors of the
/// layer and those of the gradients held before does not matter.
pub proof fn law_training_step(
    plan: Seq<Contents>,
    shape: AttentionShape,
    ports: AttentionPorts,
    state: State,
    c: int,
)
    requires
        shape.wf(),
        ids_fit(plan.len() as int, shape),
        ports_apart(plan.len() as int, ports),
        0 <= c < shape.dim,
    ensures
        ({
            let (base, heads) = (plan.len() as int, shape.num_heads as nat);
            let x = given(state, ports);
            let dout = state(ports.grad_output);
            let end = after_all(
                plan + attention_tensors(shape),
                state,
                heads_forward(shape, ports, base, heads) + heads_backward(
                    shape,
                    ports,
                    base,
                    heads,
                ),
            );
            let (h, i) = (c / (shape.head_dim() as int), c % (shape.head_dim() as int));
            &&& source_of_column(end(shared_at(base).out_buffer), c) == (
                head_output(shape, h, x),
                i,
            )
            &&& source_of_column(end(ports.grad_q), c) == (head_grad_q(shape, h, x, dout), i)
            &&& source_of_column(end(ports.grad_k), c) == (head_grad_k(shape, h, x, dout), i)
            &&& source_of_column(end(ports.grad_v), c) == (head_grad_v(shape, h, x, dout), i)
            &&& scale_of(shape).seq_len == shape.seq_len
            &&& scale_of(shape).scale == inverse_root(
                (shape.dim as int / shape.num_heads as int) as u32,
            )
        }),
{
    let tensors = plan + attention_tensors(shape);
    let (base, heads) = (plan.len() as int, shape.num_heads as nat);
    let x = given(state, ports);
    let dout = state(ports.grad_output);
    let forward = heads_forward(shape, ports, base, heads);
    let middle = after_all(tensors, state, forward);
    lemma_after_both(tensors, state, forward, heads_backward(shape, ports, base, heads));
    law_forward_computes_attention(plan, shape, ports, state);
    law_backward_computes_gradients(plan, shape, ports, middle, x);
    let (dq, dk, dv) = (ports.grad_q, ports.grad_k, ports.grad_v);
    let out = shared_at(base).out_buffer;
    law_joining_fills_every_column(shape, state(out), |h: int| head_output(shape, h, x), c);
    law_joining_fills_every_column(shape, middle(dq), |h: int| head_grad_q(shape, h, x, dout), c);
    law_joining_fills_every_column(shape, middle(dk), |h: int| head_grad_k(shape, h, x, dout), c);
    law_joining_fills_every_column(shape, middle(dv), |h: int| head_grad_v(shape, h, x, dout), c);
}

/// Scores are scaled by one over the root of a head's width, whatever that width is, and masked
/// over all rows. The columns of head `h` are the `h`th of equal parts of the layer's width.
pub proof fn law_scale_and_columns(shape: AttentionShape, h: int)
    requires
        shape.wf(),
        0 <= h < shape.num_heads,
    ensures
        scale_of(shape).seq_len == shape.seq_len,
        scale_of(shape).scale == inverse_root((shape.dim as int / shape.num_heads as int) as u32),
        columns_of(shape, h).seq_len == shape.seq_len,
        columns_of(shape, h).full_dim == shape.dim,
        columns_of(shape, h).head_dim * shape.num_heads == shape.dim,
        columns_of(shape, h).head_offset == h * columns_of(shape, h).head_dim,
{
    lemma_heads_fill_dim(shape);
    let w = shape.head_dim() as int;
    assert(0 <= h * w <= shape.num_heads * w && w * shape.num_heads == shape.num_heads * w)
        by (nonlinear_arith)
        requires
            0 <= h <= shape.num_heads,
            0 <= w,
    ;
}

/// The output of head `h` and its gradients, written out: with `q`, `k`, `v` and `d` for its
/// columns of the queries, keys, values and the output's gradient, the weights are
/// `y = softmax(mask(q * k^T))`, the output is `y * v`, the gradient `s` of the scores comes from
/// `y` and `d * v^T`, and the gradients are `s * k`, `s^T * q` and `y^T * d`.
pub proof fn law_heads_in_full(shape: AttentionShape, h: int, x: Given, dout: Value)
    requires
        shape.wf(),
        0 <= h < shape.num_heads,
    ensures
        ({
            let width = (shape.dim as int / shape.num_heads as int) as u32;
            let columns = HeadMoveMeta {
                seq_len: shape.seq_len,
                full_dim: shape.dim,
                head_dim: width,
                head_offset: (h * width) as u32,
            };
            let scale = AttnScaleMeta { seq_len: shape.seq_len, scale: inverse_root(width) };
            let q = Box::new(Value::Columns(Box::new(x.q), columns));
            let k = Box::new(Value::Columns(Box::new(x.k), columns));
            let v = Box::new(Value::Columns(Box::new(x.v), columns));
            let d = Box::new(Value::Columns(Box::new(dout), columns));
            let masked = Value::Masked(Box::new(Value::ProductTrp(q, k)), scale);
            let y = Box::new(Value::Softmax(Box::new(masked)));
            let s = Box::new(Value::SoftmaxGrad(y, Box::new(Value::ProductTrp(d, v)), scale));
            &&& head_output(shape, h, x) == Value::Product(y, v)
            &&& head_grad_q(shape, h, x, dout) == Value::Product(s, k)
            &&& head_grad_k(shape, h, x, dout) == Value::PlusTrpProduct(
                Box::new(Value::Zeros),
                s,
                q,
            )
            &&& head_grad_v(shape, h, x, dout) == Value::PlusTrpProduct(
                Box::new(Value::Zeros),
                y,
                d,
            )
        }),
{
}

} // verus!
