use akasha_core::binary32::Real;
use akasha_core::nn::linear::Linear;
use akasha_core::nn::plan::{BuiltInShader, ComputeGraph, TensorData, TensorMode, Tensors};
use std::sync::Arc;
use wilupgu::{builtin, Binding, CpuBackend, Shader, Tensor};

fn shader(s: BuiltInShader) -> &'static Shader {
    match s {
        BuiltInShader::MatMul => &builtin::MATMUL,
        BuiltInShader::MatMulTrp => &builtin::MATMUL_TRP,
        BuiltInShader::MatMulWeightBwd => &builtin::MATMUL_WEIGHT_BWD,
        _ => panic!("not a kernel of a dense layer"),
    }
}

fn upload(ctx: &Arc<CpuBackend>, plan: &Tensors) -> Vec<Tensor<CpuBackend>> {
    plan.data
        .iter()
        .map(|data| match data {
            TensorData::Zeros(n) => Tensor::init_from_cpu(ctx.clone(), &vec![0.0f32; *n]),
            TensorData::Words(words) => Tensor::init_from_cpu(ctx.clone(), words),
            TensorData::Reals(values) => {
                let values: Vec<f32> = values.iter().map(|r| f32::from_bits(r.bits)).collect();
                Tensor::init_from_cpu(ctx.clone(), &values)
            }
            _ => panic!("not a tensor of a dense layer"),
        })
        .collect()
}

fn execute(ctx: &Arc<CpuBackend>, buffers: &[Tensor<CpuBackend>], plan: &ComputeGraph) {
    let mut graph = wilupgu::ComputeGraph::new(ctx.clone());
    for node in &plan.nodes {
        let kernel = shader(node.shader);
        let bindings: Vec<Binding<wilupgu::shader::CpuBuffer>> = node
            .binds
            .iter()
            .map(|b| {
                let mode = match (node.shader, b.mode) {
                    (_, TensorMode::Input) => wilupgu::TensorMode::Input,
                    (_, TensorMode::Meta) => wilupgu::TensorMode::Meta,
                    (_, TensorMode::InOut) => wilupgu::TensorMode::InOut,
                    (BuiltInShader::MatMulWeightBwd, TensorMode::Output) => {
                        wilupgu::TensorMode::Accumulate
                    }
                    (_, TensorMode::Output) => wilupgu::TensorMode::Output,
                };
                Binding::new(b.binding, &buffers[b.tensor.index].buffer, mode)
            })
            .collect();
        graph.add_node(kernel, &bindings, [node.grid.x, node.grid.y, node.grid.z]);
    }
    graph.execute();
}

#[test]
fn a_dense_layer_runs_on_a_device() {
    let ctx = Arc::new(CpuBackend::new());
    let mut plan = Tensors::new();
    let input = plan.init_from_cpu(TensorData::Zeros(6));
    let grad_output = plan.init_from_cpu(TensorData::Zeros(4));
    let grad_input = plan.init_from_cpu(TensorData::Zeros(6));
    let weight: Vec<Real> =
        [1.0f32, 2.0, 3.0, 4.0, 5.0, 6.0].iter().map(|w| Real { bits: w.to_bits() }).collect();
    assert!(Linear::is_valid(3, 2, 2));
    let layer = Linear::new(&mut plan, 3, 2, 2, &weight, input, grad_output, grad_input);

    let buffers = upload(&ctx, &plan);
    let read = |i: usize| -> Vec<f32> { buffers[i].to_cpu() };
    buffers[input.index].copy_from_cpu(&[1.0f32, 0.0, -1.0, 2.0, 1.0, 0.5]);
    buffers[grad_output.index].copy_from_cpu(&[1.0f32, -1.0, 0.5, 2.0]);

    execute(&ctx, &buffers, &layer.forward_graph);
    assert_eq!(read(layer.out_buffer.index), vec![-4.0, -4.0, 7.5, 11.0]);

    execute(&ctx, &buffers, &layer.backward_graph);
    assert_eq!(read(layer.grad_weight.index), vec![2.0, 3.0, 0.5, 2.0, -0.75, 2.0]);
    assert_eq!(read(layer.grad_input.index), vec![-1.0, -1.0, -1.0, 4.5, 9.5, 14.5]);

    execute(&ctx, &buffers, &layer.backward_graph);
    assert_eq!(read(layer.grad_weight.index), vec![4.0, 6.0, 1.0, 4.0, -1.5, 4.0]);
}
