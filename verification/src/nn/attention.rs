//! Multi-head self-attention.
//!
//! The wide buffers (queries, keys, values and their gradients) have shape `[seq_len, dim]`. The
//! heads occupy disjoint column ranges of width `head_dim` in each row. The work of one head runs
//! on narrow `[seq_len, head_dim]` buffers, into which its columns are gathered and from which its
//! results are scattered back. Since the ranges are disjoint, scattering is also what joins the
//! heads' outputs.
use crate::binary32::Real;
use crate::nn::init::{inverse_root, xavier_std};
use crate::nn::plan::{
    cell_grid, cells, combine, combine_slots, elements, line_grid, move_slots, relocate, single,
    single_slots, AttnScaleMeta, BuiltInShader, ComputeGraph, Contents, Dispatch, HeadMoveMeta,
    TensorData, TensorId, TensorMode, Tensors,
};
use vstd::prelude::*;

verus! {

/// An attention layer: its output, and the work of its forward and backward passes.
pub struct SelfAttention {
    pub out_buffer: TensorId,
    pub forward_graph: ComputeGraph,
    pub backward_graph: ComputeGraph,
}

/// Size of an attention layer.
#[derive(Clone, Copy, Debug)]
pub struct AttentionShape {
    pub seq_len: u32,
    pub dim: u32,
    pub num_heads: u32,
}

impl AttentionShape {
    pub open spec fn head_dim(self) -> u32 {
        (self.dim as int / self.num_heads as int) as u32
    }

    /// First column of head `h`.
    pub open spec fn head_offset(self, h: int) -> int {
        h * self.head_dim()
    }

    /// Elements of a narrow buffer.
    pub open spec fn head_size(self) -> int {
        self.seq_len * self.head_dim()
    }

    /// Elements of one head's scores.
    pub open spec fn scores_size(self) -> int {
        self.seq_len * self.seq_len
    }

    /// The heads share the columns evenly, and no size or grid leaves 32 bits.
    pub open spec fn wf(self) -> bool {
        &&& 0 < self.num_heads
        &&& self.dim as int % self.num_heads as int == 0
        &&& self.seq_len * self.dim <= u32::MAX
        &&& self.scores_size() <= u32::MAX
        &&& self.head_size() + 255 <= u32::MAX
        &&& self.seq_len + 255 <= u32::MAX
        &&& self.head_dim() + 15 <= u32::MAX
    }

    /// Whether a layer of this size can be planned.
    pub fn is_valid(&self) -> (r: bool)
        ensures
            r == self.wf(),
            r <==> {
                &&& self.num_heads > 0
                &&& self.dim as int % self.num_heads as int == 0
                &&& self.seq_len * self.dim <= u32::MAX
                &&& self.seq_len * self.seq_len <= u32::MAX
                &&& self.seq_len * (self.dim as int / self.num_heads as int) + 255 <= u32::MAX
                &&& self.seq_len + 255 <= u32::MAX
                &&& self.dim as int / self.num_heads as int + 15 <= u32::MAX
            },
    {
        if self.num_heads == 0 || self.dim % self.num_heads != 0 {
            return false;
        }
        let max: u64 = u32::MAX as u64;
        let seq_len: u64 = self.seq_len as u64;
        let dim: u64 = self.dim as u64;
        let head_dim: u64 = (self.dim / self.num_heads) as u64;
        assert(seq_len * dim <= max * max && seq_len * seq_len <= max * max && seq_len * head_dim
            <= max * max) by (nonlinear_arith)
            requires
                seq_len <= max,
                dim <= max,
                head_dim <= max,
        ;
        seq_len * dim <= max && seq_len * seq_len <= max && seq_len * head_dim + 255 <= max
            && seq_len + 255 <= max && head_dim + 15 <= max
    }
}

/// Tensors that an attention layer is given.
#[derive(Clone, Copy, Debug)]
pub struct AttentionPorts {
    pub q: TensorId,
    pub k: TensorId,
    pub v: TensorId,
    pub grad_output: TensorId,
    pub grad_q: TensorId,
    pub grad_k: TensorId,
    pub grad_v: TensorId,
}

/// Tensors that the heads of a layer share. All but the first and the two metas are scratch
/// space: each head is done with it before the next begins.
#[derive(Clone, Copy, Debug)]
pub struct SharedTensors {
    pub out_buffer: TensorId,
    pub meta_seq: TensorId,
    pub out_head: TensorId,
    pub grad_out_head: TensorId,
    pub grad_q_head: TensorId,
    pub grad_k_head: TensorId,
    pub grad_v_head: TensorId,
    pub grad_y: TensorId,
    pub grad_raw: TensorId,
    pub zero_meta: TensorId,
}

/// Tensors of one head. The backward pass needs what the forward pass left in them, so they are
/// not shared.
#[derive(Clone, Copy, Debug)]
pub struct HeadTensors {
    pub meta_move: TensorId,
    pub q_head: TensorId,
    pub k_head: TensorId,
    pub v_head: TensorId,
    pub scores: TensorId,
    pub meta_qkt: TensorId,
    pub meta_out: TensorId,
    pub meta_dv: TensorId,
    pub meta_dy: TensorId,
    pub meta_dq: TensorId,
    pub meta_dk: TensorId,
}

/// Number of [`SharedTensors`].
pub const SHARED: usize = 10;

/// Number of [`HeadTensors`].
pub const PER_HEAD: usize = 11;

pub open spec fn id_at(index: int) -> TensorId {
    TensorId { index: index as usize }
}

/// The shared tensors of a layer that begins at `base` in a plan.
pub open spec fn shared_at(base: int) -> SharedTensors {
    SharedTensors {
        out_buffer: id_at(base),
        meta_seq: id_at(base + 1),
        out_head: id_at(base + 2),
        grad_out_head: id_at(base + 3),
        grad_q_head: id_at(base + 4),
        grad_k_head: id_at(base + 5),
        grad_v_head: id_at(base + 6),
        grad_y: id_at(base + 7),
        grad_raw: id_at(base + 8),
        zero_meta: id_at(base + 9),
    }
}

/// Place in a plan of the first tensor of head `h`.
pub open spec fn head_base(base: int, h: int) -> int {
    base + SHARED + PER_HEAD * h
}

/// The tensors of a head, the first of which is at `at` in a plan.
pub open spec fn head_at(at: int) -> HeadTensors {
    HeadTensors {
        meta_move: id_at(at),
        q_head: id_at(at + 1),
        k_head: id_at(at + 2),
        v_head: id_at(at + 3),
        scores: id_at(at + 4),
        meta_qkt: id_at(at + 5),
        meta_out: id_at(at + 6),
        meta_dv: id_at(at + 7),
        meta_dy: id_at(at + 8),
        meta_dq: id_at(at + 9),
        meta_dk: id_at(at + 10),
    }
}

/// What the shared tensors hold at first.
pub open spec fn shared_contents(shape: AttentionShape) -> Seq<Contents> {
    let head = Contents::Zeros(shape.head_size() as nat);
    let scores = Contents::Zeros(shape.scores_size() as nat);
    seq![
        Contents::Zeros((shape.seq_len * shape.dim) as nat),
        Contents::AttnScale(
            AttnScaleMeta { seq_len: shape.seq_len, scale: inverse_root(shape.head_dim()) },
        ),
        head,
        head,
        head,
        head,
        head,
        scores,
        scores,
        Contents::Words(seq![shape.head_size() as u32]),
    ]
}

/// What the tensors of head `h` hold at first.
pub open spec fn head_contents(shape: AttentionShape, h: int) -> Seq<Contents> {
    let head = Contents::Zeros(shape.head_size() as nat);
    let square = Contents::Words(seq![shape.seq_len, shape.seq_len, shape.head_dim()]);
    let narrow = Contents::Words(seq![shape.seq_len, shape.head_dim(), shape.seq_len]);
    seq![
        Contents::HeadMove(
            HeadMoveMeta {
                seq_len: shape.seq_len,
                full_dim: shape.dim,
                head_dim: shape.head_dim(),
                head_offset: shape.head_offset(h) as u32,
            },
        ),
        head,
        head,
        head,
        Contents::Zeros(shape.scores_size() as nat),
        square,
        narrow,
        narrow,
        square,
        narrow,
        narrow,
    ]
}

/// What the tensors of the first `heads` heads hold at first.
pub open spec fn heads_contents(shape: AttentionShape, heads: nat) -> Seq<Contents>
    decreases heads,
{
    if heads == 0 {
        Seq::empty()
    } else {
        heads_contents(shape, (heads - 1) as nat) + head_contents(shape, heads - 1)
    }
}

/// Tensors that an attention layer adds to a plan.
pub open spec fn attention_tensors(shape: AttentionShape) -> Seq<Contents> {
    shared_contents(shape) + heads_contents(shape, shape.num_heads as nat)
}

pub open spec fn gather(
    shape: AttentionShape,
    src: TensorId,
    dst: TensorId,
    meta: TensorId,
) -> Dispatch {
    Dispatch {
        shader: BuiltInShader::HeadGather,
        binds: move_slots(src, dst, meta),
        grid: cell_grid(shape.head_dim() as int, shape.seq_len as int),
    }
}

pub open spec fn scatter(
    shape: AttentionShape,
    src: TensorId,
    dst: TensorId,
    meta: TensorId,
) -> Dispatch {
    Dispatch {
        shader: BuiltInShader::HeadScatter,
        binds: move_slots(src, dst, meta),
        grid: cell_grid(shape.head_dim() as int, shape.seq_len as int),
    }
}

/// Fills a narrow buffer with zeros.
pub open spec fn zeroed(shape: AttentionShape, x: TensorId, meta: TensorId) -> Dispatch {
    Dispatch {
        shader: BuiltInShader::ZeroTensor,
        binds: single_slots(x, TensorMode::Output, meta),
        grid: line_grid(shape.head_size()),
    }
}

pub open spec fn masked(shape: AttentionShape, scores: TensorId, meta: TensorId) -> Dispatch {
    Dispatch {
        shader: BuiltInShader::CausalMask,
        binds: single_slots(scores, TensorMode::InOut, meta),
        grid: cell_grid(shape.seq_len as int, shape.seq_len as int),
    }
}

pub open spec fn softmaxed(shape: AttentionShape, scores: TensorId, meta: TensorId) -> Dispatch {
    Dispatch {
        shader: BuiltInShader::Softmax,
        binds: single_slots(scores, TensorMode::InOut, meta),
        grid: line_grid(shape.seq_len as int),
    }
}

/// `draw` from the scores `y` after softmax and their gradient `dy`.
pub open spec fn softmax_grad(
    shape: AttentionShape,
    y: TensorId,
    dy: TensorId,
    draw: TensorId,
    meta: TensorId,
) -> Dispatch {
    Dispatch {
        shader: BuiltInShader::SoftmaxBwd,
        binds: combine_slots(y, dy, draw, meta),
        grid: line_grid(shape.seq_len as int),
    }
}

/// A product with `columns` columns and `seq_len` rows.
pub open spec fn product(
    shape: AttentionShape,
    shader: BuiltInShader,
    a: TensorId,
    b: TensorId,
    c: TensorId,
    meta: TensorId,
    columns: u32,
) -> Dispatch {
    Dispatch {
        shader,
        binds: combine_slots(a, b, c, meta),
        grid: cell_grid(columns as int, shape.seq_len as int),
    }
}

/// Forward pass of one head: gather its queries, keys and values; `scores = q * k^T`, masked and
/// put through softmax; `out = scores * v`, scattered to its columns of the output.
pub open spec fn head_forward(
    shape: AttentionShape,
    ports: AttentionPorts,
    all: SharedTensors,
    own: HeadTensors,
) -> Seq<Dispatch> {
    seq![
        gather(shape, ports.q, own.q_head, own.meta_move),
        gather(shape, ports.k, own.k_head, own.meta_move),
        gather(shape, ports.v, own.v_head, own.meta_move),
        product(
            shape,
            BuiltInShader::MatMulTrp,
            own.q_head,
            own.k_head,
            own.scores,
            own.meta_qkt,
            shape.seq_len,
        ),
        masked(shape, own.scores, all.meta_seq),
        softmaxed(shape, own.scores, all.meta_seq),
        product(
            shape,
            BuiltInShader::MatMul,
            own.scores,
            own.v_head,
            all.out_head,
            own.meta_out,
            shape.head_dim(),
        ),
        scatter(shape, all.out_head, all.out_buffer, own.meta_move),
    ]
}

/// Backward pass of one head. With `y` for its scores after softmax and `dout` for its columns of
/// the output's gradient: `dv = y^T * dout`, `dy = dout * v^T`, `draw` from `y` and `dy`,
/// `dq = draw * k`, `dk = draw^T * q`; then `dq`, `dk` and `dv` are scattered to its columns.
/// The kernel that multiplies by a transposed first factor adds to what its result holds, so that
/// is zeroed first.
pub open spec fn head_backward(
    shape: AttentionShape,
    ports: AttentionPorts,
    all: SharedTensors,
    own: HeadTensors,
) -> Seq<Dispatch> {
    seq![
        gather(shape, ports.grad_output, all.grad_out_head, own.meta_move),
        zeroed(shape, all.grad_v_head, all.zero_meta),
        product(
            shape,
            BuiltInShader::MatMulWeightBwd,
            own.scores,
            all.grad_out_head,
            all.grad_v_head,
            own.meta_dv,
            shape.head_dim(),
        ),
        product(
            shape,
            BuiltInShader::MatMulTrp,
            all.grad_out_head,
            own.v_head,
            all.grad_y,
            own.meta_dy,
            shape.seq_len,
        ),
        softmax_grad(shape, own.scores, all.grad_y, all.grad_raw, all.meta_seq),
        product(
            shape,
            BuiltInShader::MatMul,
            all.grad_raw,
            own.k_head,
            all.grad_q_head,
            own.meta_dq,
            shape.head_dim(),
        ),
        zeroed(shape, all.grad_k_head, all.zero_meta),
        product(
            shape,
            BuiltInShader::MatMulWeightBwd,
            all.grad_raw,
            own.q_head,
            all.grad_k_head,
            own.meta_dk,
            shape.head_dim(),
        ),
        scatter(shape, all.grad_q_head, ports.grad_q, own.meta_move),
        scatter(shape, all.grad_k_head, ports.grad_k, own.meta_move),
        scatter(shape, all.grad_v_head, ports.grad_v, own.meta_move),
    ]
}

/// Forward pass of the first `heads` heads of a layer that begins at `base` in a plan.
pub open spec fn heads_forward(
    shape: AttentionShape,
    ports: AttentionPorts,
    base: int,
    heads: nat,
) -> Seq<Dispatch>
    decreases heads,
{
    if heads == 0 {
        Seq::empty()
    } else {
        heads_forward(shape, ports, base, (heads - 1) as nat) + head_forward(
            shape,
            ports,
            shared_at(base),
            head_at(head_base(base, heads - 1)),
        )
    }
}

/// Backward pass of the first `heads` heads of a layer that begins at `base` in a plan.
pub open spec fn heads_backward(
    shape: AttentionShape,
    ports: AttentionPorts,
    base: int,
    heads: nat,
) -> Seq<Dispatch>
    decreases heads,
{
    if heads == 0 {
        Seq::empty()
    } else {
        heads_backward(shape, ports, base, (heads - 1) as nat) + head_backward(
            shape,
            ports,
            shared_at(base),
            head_at(head_base(base, heads - 1)),
        )
    }
}

fn zeros(tensors: &mut Tensors, len: u32) -> (r: TensorId)
    ensures
        final(tensors)@ == old(tensors)@.push(Contents::Zeros(len as nat)),
        r.index == old(tensors)@.len(),
{
    tensors.init_from_cpu(TensorData::Zeros(len as usize))
}

fn product_meta(tensors: &mut Tensors, m: u32, n: u32, k: u32) -> (r: TensorId)
    ensures
        final(tensors)@ == old(tensors)@.push(Contents::Words(seq![m, n, k])),
        r.index == old(tensors)@.len(),
{
    let words: Vec<u32> = vec![m, n, k];
    assert(words@ == seq![m, n, k]);
    tensors.init_from_cpu(TensorData::Words(words))
}

fn add_shared(tensors: &mut Tensors, shape: AttentionShape, head_dim: u32) -> (r: SharedTensors)
    requires
        shape.wf(),
        head_dim == shape.head_dim(),
    ensures
        final(tensors)@ == old(tensors)@ + shared_contents(shape),
        r == shared_at(old(tensors)@.len() as int),
{
    let seq_len: u32 = shape.seq_len;
    let scale: Real = xavier_std(head_dim);
    let head_size: u32 = seq_len * head_dim;
    let scores_size: u32 = seq_len * seq_len;
    let out_buffer = zeros(tensors, seq_len * shape.dim);
    let meta_seq = tensors.init_from_cpu(TensorData::AttnScale(AttnScaleMeta { seq_len, scale }));
    let out_head = zeros(tensors, head_size);
    let grad_out_head = zeros(tensors, head_size);
    let grad_q_head = zeros(tensors, head_size);
    let grad_k_head = zeros(tensors, head_size);
    let grad_v_head = zeros(tensors, head_size);
    let grad_y = zeros(tensors, scores_size);
    let grad_raw = zeros(tensors, scores_size);
    let words: Vec<u32> = vec![head_size];
    assert(words@ == seq![head_size]);
    let zero_meta = tensors.init_from_cpu(TensorData::Words(words));
    assert(tensors@ == old(tensors)@ + shared_contents(shape));
    SharedTensors {
        out_buffer,
        meta_seq,
        out_head,
        grad_out_head,
        grad_q_head,
        grad_k_head,
        grad_v_head,
        grad_y,
        grad_raw,
        zero_meta,
    }
}

fn add_head(tensors: &mut Tensors, shape: AttentionShape, head_dim: u32, h: u32) -> (r: HeadTensors)
    requires
        shape.wf(),
        head_dim == shape.head_dim(),
        shape.head_offset(h as int) <= u32::MAX,
    ensures
        final(tensors)@ == old(tensors)@ + head_contents(shape, h as int),
        r == head_at(old(tensors)@.len() as int),
{
    let seq_len: u32 = shape.seq_len;
    let head_size: u32 = seq_len * head_dim;
    let scores_size: u32 = seq_len * seq_len;
    let meta_move = tensors.init_from_cpu(
        TensorData::HeadMove(
            HeadMoveMeta {
                seq_len,
                full_dim: shape.dim,
                head_dim,
                head_offset: h * head_dim,
            },
        ),
    );
    let q_head = zeros(tensors, head_size);
    let k_head = zeros(tensors, head_size);
    let v_head = zeros(tensors, head_size);
    let scores = zeros(tensors, scores_size);
    let meta_qkt = product_meta(tensors, seq_len, seq_len, head_dim);
    let meta_out = product_meta(tensors, seq_len, head_dim, seq_len);
    let meta_dv = product_meta(tensors, seq_len, head_dim, seq_len);
    let meta_dy = product_meta(tensors, seq_len, seq_len, head_dim);
    let meta_dq = product_meta(tensors, seq_len, head_dim, seq_len);
    let meta_dk = product_meta(tensors, seq_len, head_dim, seq_len);
    assert(tensors@ == old(tensors)@ + head_contents(shape, h as int));
    HeadTensors {
        meta_move,
        q_head,
        k_head,
        v_head,
        scores,
        meta_qkt,
        meta_out,
        meta_dv,
        meta_dy,
        meta_dq,
        meta_dk,
    }
}

fn add_move(
    graph: &mut ComputeGraph,
    shader: BuiltInShader,
    shape: AttentionShape,
    head_dim: u32,
    src: TensorId,
    dst: TensorId,
    meta: TensorId,
)
    requires
        shape.wf(),
        head_dim == shape.head_dim(),
    ensures
        final(graph)@ == old(graph)@.push(
            (Dispatch {
                shader,
                binds: move_slots(src, dst, meta),
                grid: cell_grid(head_dim as int, shape.seq_len as int),
            }),
        ),
{
    graph.add_node(shader, relocate(src, dst, meta), cells(head_dim, shape.seq_len));
}

fn add_head_forward(
    graph: &mut ComputeGraph,
    shape: AttentionShape,
    head_dim: u32,
    ports: AttentionPorts,
    all: SharedTensors,
    own: HeadTensors,
)
    requires
        shape.wf(),
        head_dim == shape.head_dim(),
    ensures
        final(graph)@ == old(graph)@ + head_forward(shape, ports, all, own),
{
    let seq_len: u32 = shape.seq_len;
    let gather = BuiltInShader::HeadGather;
    add_move(graph, gather, shape, head_dim, ports.q, own.q_head, own.meta_move);
    add_move(graph, gather, shape, head_dim, ports.k, own.k_head, own.meta_move);
    add_move(graph, gather, shape, head_dim, ports.v, own.v_head, own.meta_move);
    graph.add_node(
        BuiltInShader::MatMulTrp,
        combine(own.q_head, own.k_head, own.scores, own.meta_qkt),
        cells(seq_len, seq_len),
    );
    graph.add_node(
        BuiltInShader::CausalMask,
        single(own.scores, TensorMode::InOut, all.meta_seq),
        cells(seq_len, seq_len),
    );
    graph.add_node(
        BuiltInShader::Softmax,
        single(own.scores, TensorMode::InOut, all.meta_seq),
        elements(seq_len),
    );
    graph.add_node(
        BuiltInShader::MatMul,
        combine(own.scores, own.v_head, all.out_head, own.meta_out),
        cells(head_dim, seq_len),
    );
    add_move(
        graph,
        BuiltInShader::HeadScatter,
        shape,
        head_dim,
        all.out_head,
        all.out_buffer,
        own.meta_move,
    );
    assert(graph@ == old(graph)@ + head_forward(shape, ports, all, own));
}

fn add_head_backward(
    graph: &mut ComputeGraph,
    shape: AttentionShape,
    head_dim: u32,
    ports: AttentionPorts,
    all: SharedTensors,
    own: HeadTensors,
)
    requires
        shape.wf(),
        head_dim == shape.head_dim(),
    ensures
        final(graph)@ == old(graph)@ + head_backward(shape, ports, all, own),
{
    let seq_len: u32 = shape.seq_len;
    let scatter = BuiltInShader::HeadScatter;
    add_move(
        graph,
        BuiltInShader::HeadGather,
        shape,
        head_dim,
        ports.grad_output,
        all.grad_out_head,
        own.meta_move,
    );
    graph.add_node(
        BuiltInShader::ZeroTensor,
        single(all.grad_v_head, TensorMode::Output, all.zero_meta),
        elements(seq_len * head_dim),
    );
    graph.add_node(
        BuiltInShader::MatMulWeightBwd,
        combine(own.scores, all.grad_out_head, all.grad_v_head, own.meta_dv),
        cells(head_dim, seq_len),
    );
    graph.add_node(
        BuiltInShader::MatMulTrp,
        combine(all.grad_out_head, own.v_head, all.grad_y, own.meta_dy),
        cells(seq_len, seq_len),
    );
    graph.add_node(
        BuiltInShader::SoftmaxBwd,
        combine(own.scores, all.grad_y, all.grad_raw, all.meta_seq),
        elements(seq_len),
    );
    graph.add_node(
        BuiltInShader::MatMul,
        combine(all.grad_raw, own.k_head, all.grad_q_head, own.meta_dq),
        cells(head_dim, seq_len),
    );
    graph.add_node(
        BuiltInShader::ZeroTensor,
        single(all.grad_k_head, TensorMode::Output, all.zero_meta),
        elements(seq_len * head_dim),
    );
    graph.add_node(
        BuiltInShader::MatMulWeightBwd,
        combine(all.grad_raw, own.q_head, all.grad_k_head, own.meta_dk),
        cells(head_dim, seq_len),
    );
    add_move(graph, scatter, shape, head_dim, all.grad_q_head, ports.grad_q, own.meta_move);
    add_move(graph, scatter, shape, head_dim, all.grad_k_head, ports.grad_k, own.meta_move);
    add_move(graph, scatter, shape, head_dim, all.grad_v_head, ports.grad_v, own.meta_move);
    assert(graph@ == old(graph)@ + head_backward(shape, ports, all, own));
}

/// The heads' widths add up to the width of the layer.
pub proof fn lemma_heads_fill_dim(shape: AttentionShape)
    requires
        shape.wf(),
    ensures
        shape.num_heads * shape.head_dim() == shape.dim,
        shape.head_dim() as int == shape.dim as int / shape.num_heads as int,
{
    let (dim, heads) = (shape.dim as int, shape.num_heads as int);
    vstd::arithmetic::div_mod::lemma_fundamental_div_mod(dim, heads);
    assert(0 <= dim / heads <= dim) by (nonlinear_arith)
        requires
            0 <= dim,
            0 < heads,
    ;
}

pub proof fn lemma_heads_contents_len(shape: AttentionShape, heads: nat)
    ensures
        heads_contents(shape, heads).len() == PER_HEAD * heads,
    decreases heads,
{
    if heads > 0 {
        lemma_heads_contents_len(shape, (heads - 1) as nat);
    }
}

proof fn lemma_graph_lens(shape: AttentionShape, ports: AttentionPorts, base: int, heads: nat)
    ensures
        heads_forward(shape, ports, base, heads).len() == 8 * heads,
        heads_backward(shape, ports, base, heads).len() == 11 * heads,
    decreases heads,
{
    if heads > 0 {
        lemma_graph_lens(shape, ports, base, (heads - 1) as nat);
    }
}

impl SelfAttention {
    /// Plans a layer of `num_heads` heads over `seq_len` rows of width `dim`.
    pub fn new(
        tensors: &mut Tensors,
        seq_len: u32,
        dim: u32,
        num_heads: u32,
        q_buf: TensorId,
        k_buf: TensorId,
        v_buf: TensorId,
        grad_output: TensorId,
        grad_q: TensorId,
        grad_k: TensorId,
        grad_v: TensorId,
    ) -> (r: SelfAttention)
        requires
            (AttentionShape { seq_len, dim, num_heads }).wf(),
        ensures
            ({
                let shape = AttentionShape { seq_len, dim, num_heads };
                let ports = AttentionPorts {
                    q: q_buf,
                    k: k_buf,
                    v: v_buf,
                    grad_output,
                    grad_q,
                    grad_k,
                    grad_v,
                };
                let base = old(tensors)@.len() as int;
                &&& final(tensors)@ == old(tensors)@ + attention_tensors(shape)
                &&& r.out_buffer == shared_at(base).out_buffer
                &&& r.forward_graph@ == heads_forward(shape, ports, base, num_heads as nat)
                &&& r.backward_graph@ == heads_backward(shape, ports, base, num_heads as nat)
                &&& final(tensors)@.len() == base + 10 + 11 * num_heads
                &&& forall|i: int| 0 <= i < base ==> #[trigger] final(tensors)@[i] == old(
                    tensors,
                )@[i]
                &&& r.out_buffer.index == base
                &&& final(tensors)@[base] == Contents::Zeros((seq_len * dim) as nat)
                &&& final(tensors)@[base + 1] == Contents::AttnScale(
                    AttnScaleMeta {
                        seq_len,
                        scale: inverse_root((dim as int / num_heads as int) as u32),
                    },
                )
                &&& r.forward_graph.nodes@.len() == 8 * num_heads
                &&& r.backward_graph.nodes@.len() == 11 * num_heads
            }),
    {
        let shape = AttentionShape { seq_len, dim, num_heads };
        let ports = AttentionPorts {
            q: q_buf,
            k: k_buf,
            v: v_buf,
            grad_output,
            grad_q,
            grad_k,
            grad_v,
        };
        proof {
            lemma_heads_fill_dim(shape);
        }
        let ghost before = tensors@;
        let ghost base = tensors@.len() as int;
        assert(base == tensors.data.len());
        let head_dim: u32 = dim / num_heads;
        let all = add_shared(tensors, shape, head_dim);
        let mut forward_graph = ComputeGraph::new();
        let mut backward_graph = ComputeGraph::new();
        assert(tensors@ == before + (shared_contents(shape) + heads_contents(shape, 0)));
        for h in 0..num_heads
            invariant
                shape == (AttentionShape { seq_len, dim, num_heads }),
                shape.wf(),
                head_dim == shape.head_dim(),
                num_heads * head_dim == dim,
                base == before.len(),
                all == shared_at(base),
                tensors@ == before + (shared_contents(shape) + heads_contents(shape, h as nat)),
                forward_graph@ == heads_forward(shape, ports, base, h as nat),
                backward_graph@ == heads_backward(shape, ports, base, h as nat),
        {
            let ghost so_far = tensors@;
            proof {
                lemma_heads_contents_len(shape, h as nat);
                assert(h * head_dim <= num_heads * head_dim) by (nonlinear_arith)
                    requires
                        h <= num_heads,
                ;
            }
            let own = add_head(tensors, shape, head_dim, h);
            assert(own == head_at(head_base(base, h as int)));
            add_head_forward(&mut forward_graph, shape, head_dim, ports, all, own);
            add_head_backward(&mut backward_graph, shape, head_dim, ports, all, own);
            assert(tensors@ == before + (shared_contents(shape) + heads_contents(
                shape,
                (h + 1) as nat,
            )));
        }
        proof {
            lemma_heads_contents_len(shape, num_heads as nat);
            lemma_graph_lens(shape, ports, base, num_heads as nat);
            assert(forward_graph@.len() == 8 * num_heads);
            assert(backward_graph@.len() == 11 * num_heads);
        }
        SelfAttention { out_buffer: all.out_buffer, forward_graph, backward_graph }
    }
}

} // verus!
