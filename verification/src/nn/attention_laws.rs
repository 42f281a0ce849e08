//! What holds of every attention layer.
use crate::nn::attention::{
    attention_tensors, gather, head_at, head_backward, head_base, head_contents, head_forward,
    heads_backward, heads_contents, heads_forward, lemma_heads_contents_len, lemma_heads_fill_dim,
    masked, product, scatter, shared_at, shared_contents, softmax_grad, softmaxed, zeroed,
    AttentionPorts, AttentionShape, HeadTensors, SharedTensors, PER_HEAD, SHARED,
};
use crate::nn::init::inverse_root;
use crate::nn::plan::{
    all_fit, fills, fits, has_len, law_blocks_cover, lemma_combine_uses, lemma_move_uses,
    lemma_reads_only_joined, lemma_single_uses, reads, reads_only, writes, AttnScaleMeta,
    BuiltInShader, Contents, Dispatch, HeadMoveMeta, TensorId, TensorMode,
};
use vstd::prelude::*;

verus! {

/// Every column belongs to one head: to the one whose number is the column divided by the width of
/// a head, and to no other.
pub proof fn law_heads_tile_the_columns(shape: AttentionShape, column: int, h: int)
    requires
        shape.wf(),
        0 <= column < shape.dim,
        0 <= h < shape.num_heads,
    ensures
        shape.head_dim() > 0,
        0 <= column / (shape.head_dim() as int) < shape.num_heads,
        shape.head_offset(h) <= column < shape.head_offset(h) + shape.head_dim() <==> h == column
            / (shape.head_dim() as int),
        shape.head_offset(h) + shape.head_dim() <= shape.dim,
{
    lemma_heads_fill_dim(shape);
    let w = shape.head_dim() as int;
    let n = shape.num_heads as int;
    assert(w > 0) by (nonlinear_arith)
        requires
            n * w == shape.dim,
            shape.dim > 0,
            n > 0,
            w >= 0,
    ;
    let q = column / w;
    vstd::arithmetic::div_mod::lemma_fundamental_div_mod(column, w);
    let r = column % w;
    assert(0 <= q < n) by (nonlinear_arith)
        requires
            column == w * q + r,
            0 <= r < w,
            0 <= column < n * w,
            w > 0,
    ;
    assert(h * w <= column < h * w + w <==> h == q) by (nonlinear_arith)
        requires
            column == w * q + r,
            0 <= r < w,
    ;
    assert(h * w + w <= n * w) by (nonlinear_arith)
        requires
            h + 1 <= n,
            w > 0,
    ;
}

/// What an attention layer adds to a plan is found where its ids say.
pub proof fn lemma_lookup(plan: Seq<Contents>, shape: AttentionShape, h: int)
    requires
        0 <= h < shape.num_heads,
    ensures
        ({
            let all = plan + attention_tensors(shape);
            let base = plan.len() as int;
            &&& all.len() == base + SHARED + PER_HEAD * shape.num_heads
            &&& forall|i: int|
                0 <= i < SHARED ==> #[trigger] all[base + i] == shared_contents(shape)[i]
            &&& forall|i: int|
                0 <= i < PER_HEAD ==> #[trigger] all[head_base(base, h) + i] == head_contents(
                    shape,
                    h,
                )[i]
        }),
{
    lemma_heads_contents_len(shape, shape.num_heads as nat);
    lemma_heads_lookup(shape, shape.num_heads as nat, h);
    let all = plan + attention_tensors(shape);
    let base = plan.len() as int;
    let heads = heads_contents(shape, shape.num_heads as nat);
    assert forall|i: int| 0 <= i < PER_HEAD implies #[trigger] all[head_base(base, h) + i]
        == head_contents(shape, h)[i] by {
        assert(all[head_base(base, h) + i] == heads[PER_HEAD * h + i]);
    }
}

proof fn lemma_heads_lookup(shape: AttentionShape, heads: nat, h: int)
    requires
        0 <= h < heads,
    ensures
        heads_contents(shape, heads).len() == PER_HEAD * heads,
        forall|i: int|
            0 <= i < PER_HEAD ==> #[trigger] heads_contents(shape, heads)[PER_HEAD * h + i]
                == head_contents(shape, h)[i],
    decreases heads,
{
    lemma_heads_contents_len(shape, heads);
    lemma_heads_contents_len(shape, (heads - 1) as nat);
    if h < heads - 1 {
        lemma_heads_lookup(shape, (heads - 1) as nat, h);
        assert forall|i: int| 0 <= i < PER_HEAD implies #[trigger] heads_contents(
            shape,
            heads,
        )[PER_HEAD * h + i] == head_contents(shape, h)[i] by {
            assert(heads_contents(shape, (heads - 1) as nat)[PER_HEAD * h + i] == head_contents(
                shape,
                h,
            )[i]);
        }
    }
}

/// The tensors that a layer is given are in the plan and have the shape `[seq_len, dim]`.
pub open spec fn ports_fit(
    plan: Seq<Contents>,
    shape: AttentionShape,
    ports: AttentionPorts,
) -> bool {
    let len = shape.seq_len * shape.dim;
    &&& has_len(plan, ports.q, len)
    &&& has_len(plan, ports.k, len)
    &&& has_len(plan, ports.v, len)
    &&& has_len(plan, ports.grad_output, len)
    &&& has_len(plan, ports.grad_q, len)
    &&& has_len(plan, ports.grad_k, len)
    &&& has_len(plan, ports.grad_v, len)
}

/// Every id of a layer is a machine number.
pub open spec fn ids_fit(base: int, shape: AttentionShape) -> bool {
    0 <= base && head_base(base, shape.num_heads as int) <= usize::MAX
}

/// A tensor of a plan that holds `contents` at first.
spec fn holds(tensors: Seq<Contents>, t: TensorId, contents: Contents) -> bool {
    t.index < tensors.len() && tensors[t.index as int] == contents
}

proof fn lemma_moves_fit(
    tensors: Seq<Contents>,
    shape: AttentionShape,
    h: int,
    wide: TensorId,
    narrow: TensorId,
    meta: TensorId,
)
    requires
        shape.wf(),
        0 <= h < shape.num_heads,
        has_len(tensors, wide, shape.seq_len * shape.dim),
        has_len(tensors, narrow, shape.head_size()),
        holds(tensors, meta, head_contents(shape, h)[0]),
    ensures
        fits(tensors, gather(shape, wide, narrow, meta)),
        fits(tensors, scatter(shape, narrow, wide, meta)),
{
    reveal(fits);
    let w = shape.head_dim() as int;
    lemma_heads_fill_dim(shape);
    law_blocks_cover(shape.seq_len as int, 16);
    law_blocks_cover(w, 16);
    assert(0 <= shape.head_offset(h) && shape.head_offset(h) + w <= shape.dim) by (nonlinear_arith)
        requires
            shape.head_offset(h) == h * w,
            0 <= h,
            h + 1 <= shape.num_heads,
            shape.num_heads * w == shape.dim,
            0 <= w,
    ;
}

proof fn lemma_zeroed_fits(
    tensors: Seq<Contents>,
    shape: AttentionShape,
    x: TensorId,
    meta: TensorId,
)
    requires
        shape.wf(),
        has_len(tensors, x, shape.head_size()),
        holds(tensors, meta, shared_contents(shape)[9]),
    ensures
        fits(tensors, zeroed(shape, x, meta)),
{
    reveal(fits);
    law_blocks_cover(shape.head_size(), 256);
    assert(shape.head_size() >= 0) by (nonlinear_arith)
        requires
            shape.head_size() == shape.seq_len * shape.head_dim(),
    ;
}

/// Products of two matrices of which one is `seq_len` by `seq_len` and the other `seq_len` by
/// `head_dim`.
proof fn lemma_narrow_products_fit(
    tensors: Seq<Contents>,
    shape: AttentionShape,
    square: TensorId,
    narrow: TensorId,
    c: TensorId,
    meta: TensorId,
)
    requires
        shape.wf(),
        has_len(tensors, square, shape.scores_size()),
        has_len(tensors, narrow, shape.head_size()),
        has_len(tensors, c, shape.head_size()),
        holds(tensors, meta, head_contents(shape, 0)[6]),
    ensures
        fits(
            tensors,
            product(shape, BuiltInShader::MatMul, square, narrow, c, meta, shape.head_dim()),
        ),
        fits(
            tensors,
            product(
                shape,
                BuiltInShader::MatMulWeightBwd,
                square,
                narrow,
                c,
                meta,
                shape.head_dim(),
            ),
        ),
{
    reveal(fits);
    law_blocks_cover(shape.seq_len as int, 16);
    law_blocks_cover(shape.head_dim() as int, 16);
}

/// Products of one matrix of `seq_len` by `head_dim` with another one transposed.
proof fn lemma_square_product_fits(
    tensors: Seq<Contents>,
    shape: AttentionShape,
    a: TensorId,
    b: TensorId,
    c: TensorId,
    meta: TensorId,
)
    requires
        shape.wf(),
        has_len(tensors, a, shape.head_size()),
        has_len(tensors, b, shape.head_size()),
        has_len(tensors, c, shape.scores_size()),
        holds(tensors, meta, head_contents(shape, 0)[5]),
    ensures
        fits(tensors, product(shape, BuiltInShader::MatMulTrp, a, b, c, meta, shape.seq_len)),
{
    reveal(fits);
    law_blocks_cover(shape.seq_len as int, 16);
}

proof fn lemma_score_kernels_fit(
    tensors: Seq<Contents>,
    shape: AttentionShape,
    y: TensorId,
    dy: TensorId,
    draw: TensorId,
    meta: TensorId,
)
    requires
        shape.wf(),
        has_len(tensors, y, shape.scores_size()),
        has_len(tensors, dy, shape.scores_size()),
        has_len(tensors, draw, shape.scores_size()),
        holds(tensors, meta, shared_contents(shape)[1]),
    ensures
        fits(tensors, masked(shape, y, meta)),
        fits(tensors, softmaxed(shape, y, meta)),
        fits(tensors, softmax_grad(shape, y, dy, draw, meta)),
{
    reveal(fits);
    law_blocks_cover(shape.seq_len as int, 16);
    law_blocks_cover(shape.seq_len as int, 256);
}

/// The tensors of a head, and those that it shares, are where its ids say.
proof fn lemma_head_holds(plan: Seq<Contents>, shape: AttentionShape, h: int)
    requires
        shape.wf(),
        ids_fit(plan.len() as int, shape),
        0 <= h < shape.num_heads,
    ensures
        ({
            let tensors = plan + attention_tensors(shape);
            let all = shared_at(plan.len() as int);
            let own = head_at(head_base(plan.len() as int, h));
            &&& has_len(tensors, all.out_buffer, shape.seq_len * shape.dim)
            &&& holds(tensors, all.meta_seq, shared_contents(shape)[1])
            &&& has_len(tensors, all.out_head, shape.head_size())
            &&& has_len(tensors, all.grad_out_head, shape.head_size())
            &&& has_len(tensors, all.grad_q_head, shape.head_size())
            &&& has_len(tensors, all.grad_k_head, shape.head_size())
            &&& has_len(tensors, all.grad_v_head, shape.head_size())
            &&& has_len(tensors, all.grad_y, shape.scores_size())
            &&& has_len(tensors, all.grad_raw, shape.scores_size())
            &&& holds(tensors, all.zero_meta, shared_contents(shape)[9])
            &&& holds(tensors, own.meta_move, head_contents(shape, h)[0])
            &&& has_len(tensors, own.q_head, shape.head_size())
            &&& has_len(tensors, own.k_head, shape.head_size())
            &&& has_len(tensors, own.v_head, shape.head_size())
            &&& has_len(tensors, own.scores, shape.scores_size())
            &&& holds(tensors, own.meta_qkt, head_contents(shape, 0)[5])
            &&& holds(tensors, own.meta_out, head_contents(shape, 0)[6])
            &&& holds(tensors, own.meta_dv, head_contents(shape, 0)[6])
            &&& holds(tensors, own.meta_dy, head_contents(shape, 0)[5])
            &&& holds(tensors, own.meta_dq, head_contents(shape, 0)[6])
            &&& holds(tensors, own.meta_dk, head_contents(shape, 0)[6])
        }),
{
    let tensors = plan + attention_tensors(shape);
    let base = plan.len() as int;
    let at = head_base(base, h);
    lemma_lookup(plan, shape, h);
    assert(at + PER_HEAD <= head_base(base, shape.num_heads as int));
    assert(shape.seq_len * shape.dim >= 0 && shape.head_size() >= 0 && shape.scores_size() >= 0)
        by (nonlinear_arith)
        requires
            shape.head_size() == shape.seq_len * shape.head_dim(),
            shape.scores_size() == shape.seq_len * shape.seq_len,
    ;
    let shared = shared_contents(shape);
    let own = head_contents(shape, h);
    assert(tensors[base + 0] == shared[0]);
    assert(tensors[base + 1] == shared[1]);
    assert(tensors[base + 2] == shared[2]);
    assert(tensors[base + 3] == shared[3]);
    assert(tensors[base + 4] == shared[4]);
    assert(tensors[base + 5] == shared[5]);
    assert(tensors[base + 6] == shared[6]);
    assert(tensors[base + 7] == shared[7]);
    assert(tensors[base + 8] == shared[8]);
    assert(tensors[base + 9] == shared[9]);
    assert(tensors[at + 0] == own[0]);
    assert(tensors[at + 1] == own[1]);
    assert(tensors[at + 2] == own[2]);
    assert(tensors[at + 3] == own[3]);
    assert(tensors[at + 4] == own[4]);
    assert(tensors[at + 5] == own[5]);
    assert(tensors[at + 6] == own[6]);
    assert(tensors[at + 7] == own[7]);
    assert(tensors[at + 8] == own[8]);
    assert(tensors[at + 9] == own[9]);
    assert(tensors[at + 10] == own[10]);
}

#[verifier::rlimit(40)]
proof fn lemma_head_fits(
    plan: Seq<Contents>,
    shape: AttentionShape,
    ports: AttentionPorts,
    h: int,
)
    requires
        shape.wf(),
        ports_fit(plan, shape, ports),
        ids_fit(plan.len() as int, shape),
        0 <= h < shape.num_heads,
    ensures
        ({
            let tensors = plan + attention_tensors(shape);
            let base = plan.len() as int;
            let all = shared_at(base);
            let own = head_at(head_base(base, h));
            &&& all_fit(tensors, head_forward(shape, ports, all, own))
            &&& all_fit(tensors, head_backward(shape, ports, all, own))
        }),
{
    let tensors = plan + attention_tensors(shape);
    let all = shared_at(plan.len() as int);
    let own = head_at(head_base(plan.len() as int, h));
    lemma_head_holds(plan, shape, h);
    assert(ports_fit(tensors, shape, ports));
    lemma_moves_fit(tensors, shape, h, ports.q, own.q_head, own.meta_move);
    lemma_moves_fit(tensors, shape, h, ports.k, own.k_head, own.meta_move);
    lemma_moves_fit(tensors, shape, h, ports.v, own.v_head, own.meta_move);
    lemma_square_product_fits(tensors, shape, own.q_head, own.k_head, own.scores, own.meta_qkt);
    lemma_score_kernels_fit(tensors, shape, own.scores, all.grad_y, all.grad_raw, all.meta_seq);
    lemma_narrow_products_fit(
        tensors,
        shape,
        own.scores,
        own.v_head,
        all.out_head,
        own.meta_out,
    );
    lemma_moves_fit(tensors, shape, h, all.out_buffer, all.out_head, own.meta_move);
    lemma_moves_fit(tensors, shape, h, ports.grad_output, all.grad_out_head, own.meta_move);
    lemma_zeroed_fits(tensors, shape, all.grad_v_head, all.zero_meta);
    lemma_narrow_products_fit(
        tensors,
        shape,
        own.scores,
        all.grad_out_head,
        all.grad_v_head,
        own.meta_dv,
    );
    lemma_square_product_fits(
        tensors,
        shape,
        all.grad_out_head,
        own.v_head,
        all.grad_y,
        own.meta_dy,
    );
    lemma_narrow_products_fit(
        tensors,
        shape,
        all.grad_raw,
        own.k_head,
        all.grad_q_head,
        own.meta_dq,
    );
    lemma_zeroed_fits(tensors, shape, all.grad_k_head, all.zero_meta);
    lemma_narrow_products_fit(
        tensors,
        shape,
        all.grad_raw,
        own.q_head,
        all.grad_k_head,
        own.meta_dk,
    );
    lemma_moves_fit(tensors, shape, h, ports.grad_q, all.grad_q_head, own.meta_move);
    lemma_moves_fit(tensors, shape, h, ports.grad_k, all.grad_k_head, own.meta_move);
    lemma_moves_fit(tensors, shape, h, ports.grad_v, all.grad_v_head, own.meta_move);
}

/// Every kernel of a layer fits its tensors, if those that it is given have the shape of the layer.
pub proof fn law_attention_fits(plan: Seq<Contents>, shape: AttentionShape, ports: AttentionPorts)
    requires
        shape.wf(),
        ports_fit(plan, shape, ports),
        ids_fit(plan.len() as int, shape),
    ensures
        ({
            let tensors = plan + attention_tensors(shape);
            let (base, heads) = (plan.len() as int, shape.num_heads as nat);
            &&& all_fit(tensors, heads_forward(shape, ports, base, heads))
            &&& all_fit(tensors, heads_backward(shape, ports, base, heads))
        }),
{
    lemma_heads_fit(plan, shape, ports, shape.num_heads as nat);
}

proof fn lemma_heads_fit(
    plan: Seq<Contents>,
    shape: AttentionShape,
    ports: AttentionPorts,
    heads: nat,
)
    requires
        shape.wf(),
        ports_fit(plan, shape, ports),
        ids_fit(plan.len() as int, shape),
        heads <= shape.num_heads,
    ensures
        ({
            let tensors = plan + attention_tensors(shape);
            let base = plan.len() as int;
            &&& all_fit(tensors, heads_forward(shape, ports, base, heads))
            &&& all_fit(tensors, heads_backward(shape, ports, base, heads))
        }),
    decreases heads,
{
    if heads > 0 {
        lemma_heads_fit(plan, shape, ports, (heads - 1) as nat);
        lemma_head_fits(plan, shape, ports, heads - 1);
    }
}

/// What the forward pass of a head leaves for its backward pass.
pub open spec fn kept(own: HeadTensors) -> Set<TensorId> {
    set![own.q_head, own.k_head, own.v_head, own.scores]
}

pub open spec fn forward_given(ports: AttentionPorts) -> Set<TensorId> {
    set![ports.q, ports.k, ports.v]
}

/// What each dispatch of a head reads and fills.
proof fn lemma_head_uses(
    shape: AttentionShape,
    ports: AttentionPorts,
    all: SharedTensors,
    own: HeadTensors,
)
    ensures
        ({
            let f = head_forward(shape, ports, all, own);
            &&& forall|t: TensorId| #[trigger] reads(f[0], t) <==> t == ports.q
            &&& forall|t: TensorId| #[trigger] writes(f[0], t) <==> t == own.q_head
            &&& forall|t: TensorId| #[trigger] reads(f[1], t) <==> t == ports.k
            &&& forall|t: TensorId| #[trigger] writes(f[1], t) <==> t == own.k_head
            &&& forall|t: TensorId| #[trigger] reads(f[2], t) <==> t == ports.v
            &&& forall|t: TensorId| #[trigger] writes(f[2], t) <==> t == own.v_head
            &&& forall|t: TensorId| #[trigger]
                reads(f[3], t) <==> t == own.q_head || t == own.k_head
            &&& forall|t: TensorId| #[trigger] writes(f[3], t) <==> t == own.scores
            &&& forall|t: TensorId| #[trigger] reads(f[4], t) <==> t == own.scores
            &&& forall|t: TensorId| #[trigger] writes(f[4], t) <==> t == own.scores
            &&& forall|t: TensorId| #[trigger] reads(f[5], t) <==> t == own.scores
            &&& forall|t: TensorId| #[trigger] writes(f[5], t) <==> t == own.scores
            &&& forall|t: TensorId| #[trigger]
                reads(f[6], t) <==> t == own.scores || t == own.v_head
            &&& forall|t: TensorId| #[trigger] writes(f[6], t) <==> t == all.out_head
            &&& forall|t: TensorId| #[trigger] reads(f[7], t) <==> t == all.out_head
            &&& forall|t: TensorId| #[trigger] writes(f[7], t) <==> t == all.out_buffer
        }),
        ({
            let b = head_backward(shape, ports, all, own);
            &&& forall|t: TensorId| #[trigger] reads(b[0], t) <==> t == ports.grad_output
            &&& forall|t: TensorId| #[trigger] writes(b[0], t) <==> t == all.grad_out_head
            &&& forall|t: TensorId| !#[trigger] reads(b[1], t)
            &&& forall|t: TensorId| #[trigger] writes(b[1], t) <==> t == all.grad_v_head
            &&& forall|t: TensorId| #[trigger]
                reads(b[2], t) <==> t == own.scores || t == all.grad_out_head
            &&& forall|t: TensorId| #[trigger] writes(b[2], t) <==> t == all.grad_v_head
            &&& forall|t: TensorId| #[trigger]
                reads(b[3], t) <==> t == all.grad_out_head || t == own.v_head
            &&& forall|t: TensorId| #[trigger] writes(b[3], t) <==> t == all.grad_y
            &&& forall|t: TensorId| #[trigger]
                reads(b[4], t) <==> t == own.scores || t == all.grad_y
            &&& forall|t: TensorId| #[trigger] writes(b[4], t) <==> t == all.grad_raw
            &&& forall|t: TensorId| #[trigger]
                reads(b[5], t) <==> t == all.grad_raw || t == own.k_head
            &&& forall|t: TensorId| #[trigger] writes(b[5], t) <==> t == all.grad_q_head
            &&& forall|t: TensorId| !#[trigger] reads(b[6], t)
            &&& forall|t: TensorId| #[trigger] writes(b[6], t) <==> t == all.grad_k_head
            &&& forall|t: TensorId| #[trigger]
                reads(b[7], t) <==> t == all.grad_raw || t == own.q_head
            &&& forall|t: TensorId| #[trigger] writes(b[7], t) <==> t == all.grad_k_head
            &&& forall|t: TensorId| #[trigger] reads(b[8], t) <==> t == all.grad_q_head
            &&& forall|t: TensorId| #[trigger] writes(b[8], t) <==> t == ports.grad_q
            &&& forall|t: TensorId| #[trigger] reads(b[9], t) <==> t == all.grad_k_head
            &&& forall|t: TensorId| #[trigger] writes(b[9], t) <==> t == ports.grad_k
            &&& forall|t: TensorId| #[trigger] reads(b[10], t) <==> t == all.grad_v_head
            &&& forall|t: TensorId| #[trigger] writes(b[10], t) <==> t == ports.grad_v
        }),
{
    let f = head_forward(shape, ports, all, own);
    lemma_move_uses(f[0], ports.q, own.q_head, own.meta_move);
    lemma_move_uses(f[1], ports.k, own.k_head, own.meta_move);
    lemma_move_uses(f[2], ports.v, own.v_head, own.meta_move);
    lemma_combine_uses(f[3], own.q_head, own.k_head, own.scores, own.meta_qkt);
    lemma_single_uses(f[4], own.scores, TensorMode::InOut, all.meta_seq);
    lemma_single_uses(f[5], own.scores, TensorMode::InOut, all.meta_seq);
    lemma_combine_uses(f[6], own.scores, own.v_head, all.out_head, own.meta_out);
    lemma_move_uses(f[7], all.out_head, all.out_buffer, own.meta_move);
    let b = head_backward(shape, ports, all, own);
    lemma_move_uses(b[0], ports.grad_output, all.grad_out_head, own.meta_move);
    lemma_single_uses(b[1], all.grad_v_head, TensorMode::Output, all.zero_meta);
    lemma_combine_uses(b[2], own.scores, all.grad_out_head, all.grad_v_head, own.meta_dv);
    lemma_combine_uses(b[3], all.grad_out_head, own.v_head, all.grad_y, own.meta_dy);
    lemma_combine_uses(b[4], own.scores, all.grad_y, all.grad_raw, all.meta_seq);
    lemma_combine_uses(b[5], all.grad_raw, own.k_head, all.grad_q_head, own.meta_dq);
    lemma_single_uses(b[6], all.grad_k_head, TensorMode::Output, all.zero_meta);
    lemma_combine_uses(b[7], all.grad_raw, own.q_head, all.grad_k_head, own.meta_dk);
    lemma_move_uses(b[8], all.grad_q_head, ports.grad_q, own.meta_move);
    lemma_move_uses(b[9], all.grad_k_head, ports.grad_k, own.meta_move);
    lemma_move_uses(b[10], all.grad_v_head, ports.grad_v, own.meta_move);
}

/// Scratch space passes nothing from one head to another. The forward pass of a head reads only
/// the queries, keys and values and what it has itself filled before; its backward pass only the
/// output's gradient, what its own forward pass kept, and what it has itself filled before. Each
/// result that a kernel adds to is zeroed by the dispatch just before.
pub proof fn law_scratch_is_private(
    shape: AttentionShape,
    ports: AttentionPorts,
    all: SharedTensors,
    own: HeadTensors,
)
    ensures
        reads_only(forward_given(ports), head_forward(shape, ports, all, own)),
        reads_only(
            kept(own).insert(ports.grad_output),
            head_backward(shape, ports, all, own),
        ),
        forall|t: TensorId|
            kept(own).contains(t) ==> exists|i: int|
                0 <= i < 8 && #[trigger] writes(head_forward(shape, ports, all, own)[i], t),
        forall|i: int|
            0 <= i < 11 && (#[trigger] head_backward(shape, ports, all, own)[i]).shader
                == BuiltInShader::MatMulWeightBwd ==> {
                let before = head_backward(shape, ports, all, own)[i - 1];
                &&& 0 < i
                &&& before.shader == BuiltInShader::ZeroTensor
                &&& before.binds[0].tensor == head_backward(
                    shape,
                    ports,
                    all,
                    own,
                )[i].binds[2].tensor
            },
{
    lemma_head_uses(shape, ports, all, own);
    let f = head_forward(shape, ports, all, own);
    assert(writes(f[0], own.q_head));
    assert(writes(f[1], own.k_head));
    assert(writes(f[2], own.v_head));
    assert(writes(f[3], own.scores));
    assert(writes(f[6], all.out_head));
    assert forall|i: int, t: TensorId|
        0 <= i < f.len() && #[trigger] reads(f[i], t) implies forward_given(ports).contains(t)
        || exists|j: int| 0 <= j < i && #[trigger] writes(f[j], t) by {
        assert(i == 0 || i == 1 || i == 2 || i == 3 || i == 4 || i == 5 || i == 6 || i == 7);
    }
    let b = head_backward(shape, ports, all, own);
    assert(writes(b[0], all.grad_out_head));
    assert(writes(b[2], all.grad_v_head));
    assert(writes(b[3], all.grad_y));
    assert(writes(b[4], all.grad_raw));
    assert(writes(b[5], all.grad_q_head));
    assert(writes(b[7], all.grad_k_head));
    assert forall|i: int, t: TensorId|
        0 <= i < b.len() && #[trigger] reads(b[i], t) implies kept(own).insert(
        ports.grad_output,
    ).contains(t) || exists|j: int| 0 <= j < i && #[trigger] writes(b[j], t) by {
        assert(i == 0 || i == 1 || i == 2 || i == 3 || i == 4 || i == 5 || i == 6 || i == 7 || i
            == 8 || i == 9 || i == 10);
    }
}

/// What a head's forward pass keeps for its backward pass no other head writes to, forward or
/// backward, if the tensors that the layer is given were in the plan before.
pub proof fn law_heads_do_not_overwrite_each_other(
    shape: AttentionShape,
    ports: AttentionPorts,
    base: int,
    h: int,
    other: int,
    t: TensorId,
)
    requires
        ids_fit(base, shape),
        ports.grad_q.index < base,
        ports.grad_k.index < base,
        ports.grad_v.index < base,
        0 <= h < shape.num_heads,
        0 <= other < shape.num_heads,
        h != other,
        kept(head_at(head_base(base, h))).contains(t),
    ensures
        ({
            let own = head_at(head_base(base, other));
            &&& forall|i: int|
                0 <= i < 8 ==> !writes(
                    #[trigger] head_forward(shape, ports, shared_at(base), own)[i],
                    t,
                )
            &&& forall|i: int|
                0 <= i < 11 ==> !writes(
                    #[trigger] head_backward(shape, ports, shared_at(base), own)[i],
                    t,
                )
        }),
{
    let all = shared_at(base);
    let own = head_at(head_base(base, other));
    lemma_head_uses(shape, ports, all, own);
    let f = head_forward(shape, ports, all, own);
    let b = head_backward(shape, ports, all, own);
    assert(head_base(base, h) + 4 < usize::MAX && head_base(base, other) + 4 < usize::MAX);
    assert forall|i: int| 0 <= i < 8 implies !writes(#[trigger] f[i], t) by {
        assert(i == 0 || i == 1 || i == 2 || i == 3 || i == 4 || i == 5 || i == 6 || i == 7);
    }
    assert forall|i: int| 0 <= i < 11 implies !writes(#[trigger] b[i], t) by {
        assert(i == 0 || i == 1 || i == 2 || i == 3 || i == 4 || i == 5 || i == 6 || i == 7 || i
            == 8 || i == 9 || i == 10);
    }
}

/// What tells the kernels of a head the shapes that they work on.
pub open spec fn metas(all: SharedTensors, own: HeadTensors) -> Set<TensorId> {
    set![
        all.meta_seq,
        all.zero_meta,
        own.meta_move,
        own.meta_qkt,
        own.meta_out,
        own.meta_dv,
        own.meta_dy,
        own.meta_dq,
        own.meta_dk,
    ]
}

/// No kernel of a layer writes to a meta, so that each keeps what it held at first.
pub proof fn law_metas_stay(
    shape: AttentionShape,
    ports: AttentionPorts,
    base: int,
    h: int,
    other: int,
    t: TensorId,
)
    requires
        ids_fit(base, shape),
        ports.grad_q.index < base,
        ports.grad_k.index < base,
        ports.grad_v.index < base,
        0 <= h < shape.num_heads,
        0 <= other < shape.num_heads,
        metas(shared_at(base), head_at(head_base(base, h))).contains(t),
    ensures
        ({
            let own = head_at(head_base(base, other));
            &&& forall|i: int|
                0 <= i < 8 ==> !writes(
                    #[trigger] head_forward(shape, ports, shared_at(base), own)[i],
                    t,
                )
            &&& forall|i: int|
                0 <= i < 11 ==> !writes(
                    #[trigger] head_backward(shape, ports, shared_at(base), own)[i],
                    t,
                )
        }),
{
    let all = shared_at(base);
    let own = head_at(head_base(base, other));
    lemma_head_uses(shape, ports, all, own);
    let f = head_forward(shape, ports, all, own);
    let b = head_backward(shape, ports, all, own);
    assert(head_base(base, h) + 10 < usize::MAX && head_base(base, other) + 10 < usize::MAX);
    assert forall|i: int| 0 <= i < 8 implies !writes(#[trigger] f[i], t) by {
        assert(i == 0 || i == 1 || i == 2 || i == 3 || i == 4 || i == 5 || i == 6 || i == 7);
    }
    assert forall|i: int| 0 <= i < 11 implies !writes(#[trigger] b[i], t) by {
        assert(i == 0 || i == 1 || i == 2 || i == 3 || i == 4 || i == 5 || i == 6 || i == 7 || i
            == 8 || i == 9 || i == 10);
    }
}

proof fn lemma_forward_lookup(
    shape: AttentionShape,
    ports: AttentionPorts,
    base: int,
    heads: nat,
    h: int,
    i: int,
)
    requires
        0 <= h < heads,
        0 <= i < 8,
    ensures
        heads_forward(shape, ports, base, heads).len() == 8 * heads,
        heads_forward(shape, ports, base, heads)[8 * h + i] == head_forward(
            shape,
            ports,
            shared_at(base),
            head_at(head_base(base, h)),
        )[i],
    decreases heads,
{
    lemma_forward_len(shape, ports, base, (heads - 1) as nat);
    if h < heads - 1 {
        lemma_forward_lookup(shape, ports, base, (heads - 1) as nat, h, i);
    }
}

proof fn lemma_forward_len(shape: AttentionShape, ports: AttentionPorts, base: int, heads: nat)
    ensures
        heads_forward(shape, ports, base, heads).len() == 8 * heads,
    decreases heads,
{
    if heads > 0 {
        lemma_forward_len(shape, ports, base, (heads - 1) as nat);
    }
}

/// A forward pass reads, of what it has not filled itself, only the queries, keys and values. A
/// forward pass and the backward pass after it read besides these only the output's gradient.
pub proof fn law_attention_reads(shape: AttentionShape, ports: AttentionPorts, base: int)
    ensures
        ({
            let heads = shape.num_heads as nat;
            let forward = heads_forward(shape, ports, base, heads);
            let backward = heads_backward(shape, ports, base, heads);
            &&& reads_only(forward_given(ports), forward)
            &&& reads_only(forward_given(ports).insert(ports.grad_output), forward + backward)
        }),
{
    let heads = shape.num_heads as nat;
    lemma_forward_reads(shape, ports, base, heads);
    lemma_backward_reads(shape, ports, base, heads, heads);
}

proof fn lemma_forward_reads(shape: AttentionShape, ports: AttentionPorts, base: int, heads: nat)
    ensures
        reads_only(forward_given(ports), heads_forward(shape, ports, base, heads)),
    decreases heads,
{
    if heads > 0 {
        let own = head_at(head_base(base, heads - 1));
        lemma_forward_reads(shape, ports, base, (heads - 1) as nat);
        law_scratch_is_private(shape, ports, shared_at(base), own);
        lemma_reads_only_joined(
            forward_given(ports),
            heads_forward(shape, ports, base, (heads - 1) as nat),
            forward_given(ports),
            head_forward(shape, ports, shared_at(base), own),
        );
    }
}

proof fn lemma_kept_is_filled(
    shape: AttentionShape,
    ports: AttentionPorts,
    base: int,
    heads: nat,
    h: int,
    t: TensorId,
)
    requires
        0 <= h < heads,
        kept(head_at(head_base(base, h))).contains(t),
    ensures
        fills(heads_forward(shape, ports, base, heads), t),
{
    let own = head_at(head_base(base, h));
    let f = head_forward(shape, ports, shared_at(base), own);
    let forward = heads_forward(shape, ports, base, heads);
    law_scratch_is_private(shape, ports, shared_at(base), own);
    let i = choose|i: int| 0 <= i < 8 && #[trigger] writes(f[i], t);
    lemma_forward_lookup(shape, ports, base, heads, h, i);
    assert(writes(forward[8 * h + i], t));
}

proof fn lemma_still_filled(first: Seq<Dispatch>, later: Seq<Dispatch>, t: TensorId)
    requires
        fills(first, t),
    ensures
        fills(first + later, t),
{
    let j = choose|j: int| 0 <= j < first.len() && #[trigger] writes(first[j], t);
    assert((first + later)[j] == first[j]);
    assert(writes((first + later)[j], t));
}

/// What the backward pass of head `h` reads.
proof fn lemma_head_reads(shape: AttentionShape, ports: AttentionPorts, base: int, h: int)
    ensures
        ({
            let own = head_at(head_base(base, h));
            reads_only(
                kept(own).insert(ports.grad_output),
                head_backward(shape, ports, shared_at(base), own),
            )
        }),
{
    law_scratch_is_private(shape, ports, shared_at(base), head_at(head_base(base, h)));
}

/// What the backward pass of head `h` reads is given, or the forward pass has filled it.
proof fn lemma_needed_is_there(
    shape: AttentionShape,
    ports: AttentionPorts,
    base: int,
    heads: nat,
    h: int,
    later: Seq<Dispatch>,
    t: TensorId,
)
    requires
        0 <= h < heads,
        kept(head_at(head_base(base, h))).insert(ports.grad_output).contains(t),
    ensures
        forward_given(ports).insert(ports.grad_output).contains(t) || fills(
            heads_forward(shape, ports, base, heads) + later,
            t,
        ),
{
    if t != ports.grad_output {
        lemma_kept_is_filled(shape, ports, base, heads, h, t);
        lemma_still_filled(heads_forward(shape, ports, base, heads), later, t);
    }
}

proof fn lemma_backward_reads(
    shape: AttentionShape,
    ports: AttentionPorts,
    base: int,
    heads: nat,
    done: nat,
)
    requires
        done <= heads,
    ensures
        reads_only(
            forward_given(ports).insert(ports.grad_output),
            heads_forward(shape, ports, base, heads) + heads_backward(shape, ports, base, done),
        ),
    decreases done,
{
    let given = forward_given(ports).insert(ports.grad_output);
    let forward = heads_forward(shape, ports, base, heads);
    if done == 0 {
        lemma_forward_reads(shape, ports, base, heads);
        assert(forward + heads_backward(shape, ports, base, 0) == forward);
    } else {
        let h = done - 1;
        let own = head_at(head_base(base, h));
        let before = heads_backward(shape, ports, base, h as nat);
        let second = head_backward(shape, ports, shared_at(base), own);
        let needed = kept(own).insert(ports.grad_output);
        lemma_backward_reads(shape, ports, base, heads, h as nat);
        lemma_head_reads(shape, ports, base, h);
        assert forall|t: TensorId| #[trigger] needed.contains(t) implies given.contains(t) || fills(
            forward + before,
            t,
        ) by {
            lemma_needed_is_there(shape, ports, base, heads, h, before, t);
        }
        lemma_reads_only_joined(given, forward + before, needed, second);
        assert((forward + before) + second == forward + (before + second));
    }
}

/// What a layer adds behind the tensors of `plan`, which it leaves as they are: an output of
/// zeros, the scale of the scores, which is one over the root of a head's width, and for each head
/// the place of its columns. A layer has no weights of its own: everything else is sizes and zeros.
pub proof fn law_what_a_layer_holds(plan: Seq<Contents>, shape: AttentionShape, h: int)
    requires
        shape.wf(),
        0 <= h < shape.num_heads,
    ensures
        ({
            let all = plan + attention_tensors(shape);
            let base = plan.len() as int;
            let width = (shape.dim as int / shape.num_heads as int) as u32;
            &&& all.len() == base + 10 + 11 * shape.num_heads
            &&& all.take(base) == plan
            &&& all[base] == Contents::Zeros((shape.seq_len * shape.dim) as nat)
            &&& all[base + 1] == Contents::AttnScale(
                AttnScaleMeta { seq_len: shape.seq_len, scale: inverse_root(width) },
            )
            &&& all[base + 10 + 11 * h] == Contents::HeadMove(
                HeadMoveMeta {
                    seq_len: shape.seq_len,
                    full_dim: shape.dim,
                    head_dim: width,
                    head_offset: (h * width) as u32,
                },
            )
            &&& forall|i: int| base <= i < all.len() ==> !((#[trigger] all[i]) is Reals)
        }),
{
    let all = plan + attention_tensors(shape);
    let base = plan.len() as int;
    lemma_lookup(plan, shape, h);
    assert(all.take(base) == plan);
    assert(all[base + 0] == shared_contents(shape)[0]);
    assert(all[base + 1] == shared_contents(shape)[1]);
    assert(all[head_base(base, h) + 0] == head_contents(shape, h)[0]);
    assert forall|i: int| base <= i < all.len() implies !((#[trigger] all[i]) is Reals) by {
        if i < base + SHARED {
            assert(all[base + (i - base)] == shared_contents(shape)[i - base]);
        } else {
            let g = (i - base - SHARED) / PER_HEAD as int;
            let k = (i - base - SHARED) % PER_HEAD as int;
            lemma_lookup(plan, shape, g);
            assert(all[head_base(base, g) + k] == head_contents(shape, g)[k]);
        }
    }
}

} // verus!
