//! A dense layer without bias.
use crate::binary32::Real;
use crate::nn::meaning::{after_all, lemma_after_step, State, Value};
use crate::nn::plan::{
    all_fit, cell_grid, cells, combine, combine_slots, fits, has_len, law_blocks_cover, reads_only,
    BuiltInShader, ComputeGraph, Contents, Dispatch, TensorData, TensorId, Tensors,
};
use vstd::prelude::*;
use vstd::slice::slice_to_vec;

verus! {

/// A dense layer: its tensors, and the work of its forward and backward passes.
pub struct Linear {
    pub weight: TensorId,
    pub out_buffer: TensorId,
    pub grad_weight: TensorId,
    pub grad_input: TensorId,
    pub forward_graph: ComputeGraph,
    pub backward_graph: ComputeGraph,
}

/// No size or grid of a layer leaves 32 bits.
pub open spec fn linear_wf(in_features: u32, out_features: u32, seq_len: u32) -> bool {
    &&& seq_len * out_features <= u32::MAX
    &&& in_features * out_features <= u32::MAX
    &&& in_features + 15 <= u32::MAX
    &&& out_features + 15 <= u32::MAX
    &&& seq_len + 15 <= u32::MAX
}

/// Tensors that a layer adds to a plan: the weight, the meta of both products that make a
/// `[seq_len, out]` or an `[in, out]` matrix, the output, the weight's gradient, and the meta of
/// the product that makes the input's gradient.
pub open spec fn linear_tensors(
    in_features: u32,
    out_features: u32,
    seq_len: u32,
    weight_data: Seq<Real>,
) -> Seq<Contents> {
    seq![
        Contents::Reals(weight_data),
        Contents::Words(seq![seq_len, out_features, in_features]),
        Contents::Zeros((seq_len * out_features) as nat),
        Contents::Zeros((in_features * out_features) as nat),
        Contents::Words(seq![seq_len, in_features, out_features]),
    ]
}

/// Tensor `i` of a layer that begins at `base` in a plan.
pub open spec fn linear_tensor(base: int, i: int) -> TensorId {
    TensorId { index: (base + i) as usize }
}

/// `output = input * weight`.
pub open spec fn linear_forward(
    base: int,
    in_features: u32,
    out_features: u32,
    seq_len: u32,
    input_buffer: TensorId,
) -> Seq<Dispatch> {
    seq![
        Dispatch {
            shader: BuiltInShader::MatMul,
            binds: combine_slots(
                input_buffer,
                linear_tensor(base, 0),
                linear_tensor(base, 2),
                linear_tensor(base, 1),
            ),
            grid: cell_grid(out_features as int, seq_len as int),
        },
    ]
}

/// `grad_weight += input^T * grad_output`, then `grad_input = grad_output * weight^T`.
///
/// The weight is stored as `[in, out]`, which is what the transposed product wants of its second
/// factor when its `N` is `in` and its `K` is `out`. That product therefore has a meta of its own.
pub open spec fn linear_backward(
    base: int,
    in_features: u32,
    out_features: u32,
    seq_len: u32,
    input_buffer: TensorId,
    grad_output: TensorId,
    grad_input: TensorId,
) -> Seq<Dispatch> {
    seq![
        Dispatch {
            shader: BuiltInShader::MatMulWeightBwd,
            binds: combine_slots(
                input_buffer,
                grad_output,
                linear_tensor(base, 3),
                linear_tensor(base, 1),
            ),
            grid: cell_grid(out_features as int, in_features as int),
        },
        Dispatch {
            shader: BuiltInShader::MatMulTrp,
            binds: combine_slots(
                grad_output,
                linear_tensor(base, 0),
                grad_input,
                linear_tensor(base, 4),
            ),
            grid: cell_grid(in_features as int, seq_len as int),
        },
    ]
}

impl Linear {
    /// Whether a layer of this size can be planned.
    pub fn is_valid(in_features: u32, out_features: u32, seq_len: u32) -> (r: bool)
        ensures
            r == linear_wf(in_features, out_features, seq_len),
            r <==> {
                &&& seq_len * out_features <= u32::MAX
                &&& in_features * out_features <= u32::MAX
                &&& in_features + 15 <= u32::MAX
                &&& out_features + 15 <= u32::MAX
                &&& seq_len + 15 <= u32::MAX
            },
    {
        let max: u64 = u32::MAX as u64;
        let (i, o, s): (u64, u64, u64) = (in_features as u64, out_features as u64, seq_len as u64);
        assert(s * o <= max * max && i * o <= max * max) by (nonlinear_arith)
            requires
                i <= max,
                o <= max,
                s <= max,
        ;
        s * o <= max && i * o <= max && i + 15 <= max && o + 15 <= max && s + 15 <= max
    }

    /// Plans a layer from `in_features` to `out_features` over `seq_len` rows.
    pub fn new(
        tensors: &mut Tensors,
        in_features: u32,
        out_features: u32,
        seq_len: u32,
        weight_data: &[Real],
        input_buffer: TensorId,
        grad_output: TensorId,
        grad_input: TensorId,
    ) -> (r: Linear)
        requires
            linear_wf(in_features, out_features, seq_len),
        ensures
            ({
                let base = old(tensors)@.len() as int;
                &&& final(tensors)@ == old(tensors)@ + linear_tensors(
                    in_features,
                    out_features,
                    seq_len,
                    weight_data@,
                )
                &&& r.weight == linear_tensor(base, 0)
                &&& r.out_buffer == linear_tensor(base, 2)
                &&& r.grad_weight == linear_tensor(base, 3)
                &&& r.grad_input == grad_input
                &&& r.forward_graph@ == linear_forward(
                    base,
                    in_features,
                    out_features,
                    seq_len,
                    input_buffer,
                )
                &&& r.backward_graph@ == linear_backward(
                    base,
                    in_features,
                    out_features,
                    seq_len,
                    input_buffer,
                    grad_output,
                    grad_input,
                )
                &&& final(tensors)@.len() == base + 5
                &&& forall|i: int| 0 <= i < base ==> #[trigger] final(tensors)@[i] == old(
                    tensors,
                )@[i]
                &&& base <= r.weight.index < base + 5
                &&& base <= r.out_buffer.index < base + 5
                &&& base <= r.grad_weight.index < base + 5
                &&& final(tensors)@[r.weight.index as int] == Contents::Reals(weight_data@)
                &&& final(tensors)@[r.out_buffer.index as int] == Contents::Zeros(
                    (seq_len * out_features) as nat,
                )
                &&& final(tensors)@[r.grad_weight.index as int] == Contents::Zeros(
                    (in_features * out_features) as nat,
                )
            }),
            ({
                let nodes = r.forward_graph.nodes@;
                &&& nodes.len() == 1
                &&& nodes[0].shader == BuiltInShader::MatMul
                &&& nodes[0].binds@.len() == 4
                &&& nodes[0].binds@[0].tensor == input_buffer
                &&& nodes[0].binds@[1].tensor == r.weight
                &&& nodes[0].binds@[2].tensor == r.out_buffer
                &&& final(tensors)@[nodes[0].binds@[3].tensor.index as int] == Contents::Words(
                    seq![seq_len, out_features, in_features],
                )
                &&& out_features <= nodes[0].grid.x * 16 < out_features + 16
                &&& seq_len <= nodes[0].grid.y * 16 < seq_len + 16
                &&& nodes[0].grid.z == 1
            }),
            ({
                let nodes = r.backward_graph.nodes@;
                &&& nodes.len() == 2
                &&& nodes[0].shader == BuiltInShader::MatMulWeightBwd
                &&& nodes[0].binds@.len() == 4
                &&& nodes[0].binds@[0].tensor == input_buffer
                &&& nodes[0].binds@[1].tensor == grad_output
                &&& nodes[0].binds@[2].tensor == r.grad_weight
                &&& final(tensors)@[nodes[0].binds@[3].tensor.index as int] == Contents::Words(
                    seq![seq_len, out_features, in_features],
                )
                &&& out_features <= nodes[0].grid.x * 16 < out_features + 16
                &&& in_features <= nodes[0].grid.y * 16 < in_features + 16
                &&& nodes[0].grid.z == 1
                &&& nodes[1].shader == BuiltInShader::MatMulTrp
                &&& nodes[1].binds@.len() == 4
                &&& nodes[1].binds@[0].tensor == grad_output
                &&& nodes[1].binds@[1].tensor == r.weight
                &&& nodes[1].binds@[2].tensor == grad_input
                &&& final(tensors)@[nodes[1].binds@[3].tensor.index as int] == Contents::Words(
                    seq![seq_len, in_features, out_features],
                )
                &&& in_features <= nodes[1].grid.x * 16 < in_features + 16
                &&& seq_len <= nodes[1].grid.y * 16 < seq_len + 16
                &&& nodes[1].grid.z == 1
            }),
    {
        let weight = tensors.init_from_cpu(TensorData::Reals(slice_to_vec(weight_data)));
        let meta = tensors.init_from_cpu(
            TensorData::Words(vec![seq_len, out_features, in_features]),
        );
        let out_size: usize = (seq_len * out_features) as usize;
        let out_buffer = tensors.init_from_cpu(TensorData::Zeros(out_size));
        let weight_size: usize = (in_features * out_features) as usize;
        let grad_weight = tensors.init_from_cpu(TensorData::Zeros(weight_size));
        let meta_grad_in = tensors.init_from_cpu(
            TensorData::Words(vec![seq_len, in_features, out_features]),
        );
        assert(tensors@ == old(tensors)@ + linear_tensors(
            in_features,
            out_features,
            seq_len,
            weight_data@,
        ));

        let mut forward_graph = ComputeGraph::new();
        forward_graph.add_node(
            BuiltInShader::MatMul,
            combine(input_buffer, weight, out_buffer, meta),
            cells(out_features, seq_len),
        );

        let mut backward_graph = ComputeGraph::new();
        backward_graph.add_node(
            BuiltInShader::MatMulWeightBwd,
            combine(input_buffer, grad_output, grad_weight, meta),
            cells(out_features, in_features),
        );
        backward_graph.add_node(
            BuiltInShader::MatMulTrp,
            combine(grad_output, weight, grad_input, meta_grad_in),
            cells(in_features, seq_len),
        );
        Linear { weight, out_buffer, grad_weight, grad_input, forward_graph, backward_graph }
    }
}

/// Every kernel of a layer fits its tensors, if those that it is given have the shapes of the
/// layer: `[in, out]` for the weight, `[seq_len, in]` on the input's side, `[seq_len, out]` on the
/// output's.
pub proof fn law_linear_fits(
    plan: Seq<Contents>,
    in_features: u32,
    out_features: u32,
    seq_len: u32,
    weight_data: Seq<Real>,
    input_buffer: TensorId,
    grad_output: TensorId,
    grad_input: TensorId,
)
    requires
        plan.len() + 5 <= usize::MAX,
        linear_wf(in_features, out_features, seq_len),
        weight_data.len() == in_features * out_features,
        has_len(plan, input_buffer, seq_len * in_features),
        has_len(plan, grad_output, seq_len * out_features),
        has_len(plan, grad_input, seq_len * in_features),
    ensures
        ({
            let all = plan + linear_tensors(in_features, out_features, seq_len, weight_data);
            let base = plan.len() as int;
            &&& all_fit(all, linear_forward(base, in_features, out_features, seq_len, input_buffer))
            &&& all_fit(
                all,
                linear_backward(
                    base,
                    in_features,
                    out_features,
                    seq_len,
                    input_buffer,
                    grad_output,
                    grad_input,
                ),
            )
        }),
{
    reveal(fits);
    let all = plan + linear_tensors(in_features, out_features, seq_len, weight_data);
    let base = plan.len() as int;
    let forward = linear_forward(base, in_features, out_features, seq_len, input_buffer);
    let backward = linear_backward(
        base,
        in_features,
        out_features,
        seq_len,
        input_buffer,
        grad_output,
        grad_input,
    );
    law_blocks_cover(in_features as int, 16);
    law_blocks_cover(out_features as int, 16);
    law_blocks_cover(seq_len as int, 16);
    assert(in_features * out_features == out_features * in_features) by (nonlinear_arith);
    assert(fits(all, forward[0]));
    assert(fits(all, backward[0]));
    assert(fits(all, backward[1]));
}

/// A forward pass reads the input and the weight; a backward pass reads these and the output's
/// gradient. Nothing else that a plan holds reaches the results.
pub proof fn law_linear_reads(
    base: int,
    in_features: u32,
    out_features: u32,
    seq_len: u32,
    input_buffer: TensorId,
    grad_output: TensorId,
    grad_input: TensorId,
)
    ensures
        reads_only(
            set![input_buffer, linear_tensor(base, 0)],
            linear_forward(base, in_features, out_features, seq_len, input_buffer),
        ),
        reads_only(
            set![input_buffer, linear_tensor(base, 0), grad_output],
            linear_backward(
                base,
                in_features,
                out_features,
                seq_len,
                input_buffer,
                grad_output,
                grad_input,
            ),
        ),
{
}

/// A forward pass computes `input * weight`, and changes the output alone. A backward pass adds
/// `input^T * grad_output` to the weight's gradient, so that gradients of several passes add up,
/// computes `grad_output * weight^T`, and changes these two alone.
pub proof fn law_linear_computes(
    plan: Seq<Contents>,
    in_features: u32,
    out_features: u32,
    seq_len: u32,
    weight_data: Seq<Real>,
    input_buffer: TensorId,
    grad_output: TensorId,
    grad_input: TensorId,
    state: State,
)
    requires
        plan.len() + 5 <= usize::MAX,
        grad_output.index < plan.len(),
        grad_input.index < plan.len(),
    ensures
        ({
            let tensors = plan + linear_tensors(in_features, out_features, seq_len, weight_data);
            let base = plan.len() as int;
            let weight = linear_tensor(base, 0);
            let out = linear_tensor(base, 2);
            let end = after_all(
                tensors,
                state,
                linear_forward(base, in_features, out_features, seq_len, input_buffer),
            );
            &&& end(out) == Value::Product(
                Box::new(state(input_buffer)),
                Box::new(state(weight)),
            )
            &&& forall|t: TensorId| t != out ==> #[trigger] end(t) == state(t)
        }),
        ({
            let tensors = plan + linear_tensors(in_features, out_features, seq_len, weight_data);
            let base = plan.len() as int;
            let weight = linear_tensor(base, 0);
            let grad_weight = linear_tensor(base, 3);
            let end = after_all(
                tensors,
                state,
                linear_backward(
                    base,
                    in_features,
                    out_features,
                    seq_len,
                    input_buffer,
                    grad_output,
                    grad_input,
                ),
            );
            &&& end(grad_weight) == Value::PlusTrpProduct(
                Box::new(state(grad_weight)),
                Box::new(state(input_buffer)),
                Box::new(state(grad_output)),
            )
            &&& end(grad_input) == Value::ProductTrp(
                Box::new(state(grad_output)),
                Box::new(state(weight)),
            )
            &&& forall|t: TensorId|
                t != grad_weight && t != grad_input ==> #[trigger] end(t) == state(t)
        }),
{
    let tensors = plan + linear_tensors(in_features, out_features, seq_len, weight_data);
    let base = plan.len() as int;
    let forward = linear_forward(base, in_features, out_features, seq_len, input_buffer);
    lemma_after_step(tensors, state, forward, 0);
    assert(forward.take(1) == forward);
    let backward = linear_backward(
        base,
        in_features,
        out_features,
        seq_len,
        input_buffer,
        grad_output,
        grad_input,
    );
    lemma_after_step(tensors, state, backward, 0);
    lemma_after_step(tensors, state, backward, 1);
    assert(backward.take(2) == backward);
}

/// A layer that is planned after the tensors of `plan` leaves these as they are. Its weight holds
/// the numbers that it was given, each as it is; its output and its weight's gradient begin as
/// zeros.
pub proof fn law_linear_holds_what_it_is_given(
    plan: Seq<Contents>,
    in_features: u32,
    out_features: u32,
    seq_len: u32,
    weight_data: Seq<Real>,
)
    requires
        plan.len() + 5 <= usize::MAX,
    ensures
        ({
            let base = plan.len() as int;
            let all = plan + linear_tensors(in_features, out_features, seq_len, weight_data);
            &&& all.len() == base + 5
            &&& all.take(base) == plan
            &&& all[linear_tensor(base, 0).index as int] == Contents::Reals(weight_data)
            &&& all[linear_tensor(base, 2).index as int] == Contents::Zeros(
                (seq_len * out_features) as nat,
            )
            &&& all[linear_tensor(base, 3).index as int] == Contents::Zeros(
                (in_features * out_features) as nat,
            )
        }),
{
    let base = plan.len() as int;
    let all = plan + linear_tensors(in_features, out_features, seq_len, weight_data);
    assert(all.take(base) == plan);
}

} // verus!
