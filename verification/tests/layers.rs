use akasha_core::binary32::Real;
use akasha_core::config::{DIM, NUM_HEADS, SEQ_LEN};
use akasha_core::nn::attention::{AttentionShape, SelfAttention};
use akasha_core::nn::init::xavier_std;
use akasha_core::nn::linear::Linear;
use akasha_core::nn::plan::{
    cells, combine, elements, relocate, single, AttnScaleMeta, BuiltInShader, ComputeGraph, Grid,
    HeadMoveMeta, TensorBind, TensorData, TensorId, TensorMode, Tensors,
};

fn bind(binding: u32, index: usize, mode: TensorMode) -> TensorBind {
    TensorBind { binding, tensor: TensorId { index }, mode }
}

fn id(index: usize) -> TensorId {
    TensorId { index }
}

fn words(data: &TensorData) -> Vec<usize> {
    match data {
        TensorData::Words(values) => values.iter().map(|w| *w as usize).collect(),
        _ => panic!("not a meta of words"),
    }
}

fn scale_meta(data: &TensorData) -> AttnScaleMeta {
    match data {
        TensorData::AttnScale(meta) => *meta,
        _ => panic!("not a meta of scores"),
    }
}

fn move_meta(data: &TensorData) -> HeadMoveMeta {
    match data {
        TensorData::HeadMove(meta) => *meta,
        _ => panic!("not a meta of a move"),
    }
}

fn buffers(tensors: &Tensors) -> Vec<Vec<f64>> {
    tensors
        .data
        .iter()
        .map(|data| match data {
            TensorData::Zeros(n) => vec![0.0; *n],
            TensorData::Reals(values) => {
                values.iter().map(|r| f32::from_bits(r.bits) as f64).collect()
            }
            _ => vec![],
        })
        .collect()
}

/// Carries out a graph on buffers in main memory.
fn execute(tensors: &Tensors, state: &mut Vec<Vec<f64>>, graph: &ComputeGraph) {
    for node in &graph.nodes {
        let slot = |i: usize| node.binds[i].tensor.index;
        let meta = |i: usize| &tensors.data[slot(i)];
        match node.shader {
            BuiltInShader::MatMul => {
                let mnk = words(meta(3));
                let (m, n, k) = (mnk[0], mnk[1], mnk[2]);
                let mut c = vec![0.0; m * n];
                for i in 0..m {
                    for j in 0..n {
                        for x in 0..k {
                            c[i * n + j] += state[slot(0)][i * k + x] * state[slot(1)][x * n + j];
                        }
                    }
                }
                state[slot(2)] = c;
            }
            BuiltInShader::MatMulTrp => {
                let mnk = words(meta(3));
                let (m, n, k) = (mnk[0], mnk[1], mnk[2]);
                let mut c = vec![0.0; m * n];
                for i in 0..m {
                    for j in 0..n {
                        for x in 0..k {
                            c[i * n + j] += state[slot(0)][i * k + x] * state[slot(1)][j * k + x];
                        }
                    }
                }
                state[slot(2)] = c;
            }
            BuiltInShader::MatMulWeightBwd => {
                let mnk = words(meta(3));
                let (m, n, k) = (mnk[0], mnk[1], mnk[2]);
                for i in 0..k {
                    for j in 0..n {
                        for x in 0..m {
                            let part = state[slot(0)][x * k + i] * state[slot(1)][x * n + j];
                            state[slot(2)][i * n + j] += part;
                        }
                    }
                }
            }
            BuiltInShader::CausalMask => {
                let meta = scale_meta(meta(1));
                let (n, scale) = (meta.seq_len as usize, f32::from_bits(meta.scale.bits) as f64);
                for i in 0..n {
                    for j in 0..n {
                        let scaled = state[slot(0)][i * n + j] * scale;
                        state[slot(0)][i * n + j] = if j > i { -1.0e9 } else { scaled };
                    }
                }
            }
            BuiltInShader::Softmax => {
                let n = scale_meta(meta(1)).seq_len as usize;
                for row in state[slot(0)].chunks_mut(n) {
                    let max = row.iter().cloned().fold(f64::NEG_INFINITY, f64::max);
                    let sum: f64 = row.iter().map(|x| (x - max).exp()).sum();
                    for x in row.iter_mut() {
                        *x = (*x - max).exp() / sum;
                    }
                }
            }
            BuiltInShader::SoftmaxBwd => {
                let meta = scale_meta(meta(3));
                let (n, scale) = (meta.seq_len as usize, f32::from_bits(meta.scale.bits) as f64);
                for i in 0..n {
                    let at = |j: usize| i * n + j;
                    let (y, dy) = (&state[slot(0)], &state[slot(1)]);
                    let dot: f64 = (0..n).map(|j| y[at(j)] * dy[at(j)]).sum();
                    let row: Vec<f64> =
                        (0..n).map(|j| y[at(j)] * (dy[at(j)] - dot) * scale).collect();
                    state[slot(2)][i * n..(i + 1) * n].copy_from_slice(&row);
                }
            }
            BuiltInShader::ZeroTensor => {
                for i in 0..words(meta(1))[0] {
                    state[slot(0)][i] = 0.0;
                }
            }
            BuiltInShader::HeadGather => {
                let meta = move_meta(meta(2));
                let (w, d) = (meta.head_dim as usize, meta.full_dim as usize);
                for i in 0..meta.seq_len as usize {
                    for j in 0..w {
                        let x = state[slot(0)][i * d + meta.head_offset as usize + j];
                        state[slot(1)][i * w + j] = x;
                    }
                }
            }
            BuiltInShader::HeadScatter => {
                let meta = move_meta(meta(2));
                let (w, d) = (meta.head_dim as usize, meta.full_dim as usize);
                for i in 0..meta.seq_len as usize {
                    for j in 0..w {
                        let x = state[slot(0)][i * w + j];
                        state[slot(1)][i * d + meta.head_offset as usize + j] = x;
                    }
                }
            }
        }
    }
}

/// Some numbers between -1 and 1.
fn sample(len: usize, seed: u32) -> Vec<f64> {
    let mut x = seed.wrapping_mul(2_654_435_761).wrapping_add(12_345);
    (0..len)
        .map(|_| {
            x = x.wrapping_mul(1_664_525).wrapping_add(1_013_904_223);
            (x >> 8) as f64 / 8_388_608.0 - 1.0
        })
        .collect()
}

fn near(a: &[f64], b: &[f64], tolerance: f64) {
    assert_eq!(a.len(), b.len());
    for (x, y) in a.iter().zip(b) {
        assert!((x - y).abs() < tolerance, "{} is not {}", x, y);
    }
}

/// Attention straight from its definition.
fn attention(n: usize, d: usize, heads: usize, q: &[f64], k: &[f64], v: &[f64]) -> Vec<f64> {
    let w = d / heads;
    let mut out = vec![0.0; n * d];
    for h in 0..heads {
        for i in 0..n {
            let scores: Vec<f64> = (0..i + 1)
                .map(|j| {
                    let at = |row: usize, c: usize| row * d + h * w + c;
                    let dot: f64 = (0..w).map(|c| q[at(i, c)] * k[at(j, c)]).sum();
                    (dot / (w as f64).sqrt()).exp()
                })
                .collect();
            let sum: f64 = scores.iter().sum();
            for c in 0..w {
                out[i * d + h * w + c] =
                    (0..i + 1).map(|j| scores[j] / sum * v[j * d + h * w + c]).sum();
            }
        }
    }
    out
}

struct Planned {
    tensors: Tensors,
    layer: SelfAttention,
}

/// A layer on seven given tensors: queries, keys, values, and the gradients of the output and of
/// these three.
fn planned(n: u32, d: u32, heads: u32) -> Planned {
    let mut tensors = Tensors::new();
    let mut given = Vec::new();
    for _ in 0..7 {
        given.push(tensors.init_from_cpu(TensorData::Zeros((n * d) as usize)));
    }
    let layer = SelfAttention::new(
        &mut tensors,
        n,
        d,
        heads,
        given[0],
        given[1],
        given[2],
        given[3],
        given[4],
        given[5],
        given[6],
    );
    Planned { tensors, layer }
}

#[test]
fn tensors_are_numbered_as_they_are_made() {
    let mut tensors = Tensors::new();
    assert_eq!(tensors.init_from_cpu(TensorData::Zeros(3)), id(0));
    assert_eq!(tensors.init_from_cpu(TensorData::Words(vec![1])), id(1));
    assert_eq!(tensors.data.len(), 2);
}

#[test]
fn slots_of_kernels() {
    assert_eq!(
        combine(id(5), id(6), id(7), id(8)),
        vec![
            bind(0, 5, TensorMode::Input),
            bind(1, 6, TensorMode::Input),
            bind(2, 7, TensorMode::Output),
            bind(3, 8, TensorMode::Meta),
        ]
    );
    assert_eq!(
        relocate(id(1), id(2), id(3)),
        vec![
            bind(0, 1, TensorMode::Input),
            bind(1, 2, TensorMode::Output),
            bind(2, 3, TensorMode::Meta),
        ]
    );
    assert_eq!(
        single(id(4), TensorMode::InOut, id(9)),
        vec![bind(0, 4, TensorMode::InOut), bind(1, 9, TensorMode::Meta)]
    );
}

#[test]
fn grids_cover_their_work() {
    assert_eq!(cells(64, 512), Grid { x: 4, y: 32, z: 1 });
    assert_eq!(cells(1, 17), Grid { x: 1, y: 2, z: 1 });
    assert_eq!(cells(0, 16), Grid { x: 0, y: 1, z: 1 });
    assert_eq!(elements(512), Grid { x: 2, y: 1, z: 1 });
    assert_eq!(elements(257), Grid { x: 2, y: 1, z: 1 });
    assert_eq!(elements(0), Grid { x: 0, y: 1, z: 1 });
}

fn dense(rows: u32, inputs: u32, outputs: u32, weight: &[f32]) -> (Tensors, Linear) {
    let mut tensors = Tensors::new();
    let input = tensors.init_from_cpu(TensorData::Zeros((rows * inputs) as usize));
    let grad_output = tensors.init_from_cpu(TensorData::Zeros((rows * outputs) as usize));
    let grad_input = tensors.init_from_cpu(TensorData::Zeros((rows * inputs) as usize));
    let weight: Vec<Real> = weight.iter().map(|w| Real { bits: w.to_bits() }).collect();
    let layer =
        Linear::new(&mut tensors, inputs, outputs, rows, &weight, input, grad_output, grad_input);
    (tensors, layer)
}

#[test]
fn plan_of_a_dense_layer() {
    let (tensors, layer) = dense(20, 3, 40, &[0.5; 120]);
    assert_eq!(layer.weight, id(3));
    assert_eq!(layer.out_buffer, id(5));
    assert_eq!(layer.grad_weight, id(6));
    assert_eq!(layer.grad_input, id(2));
    assert_eq!(tensors.data.len(), 8);
    assert!(matches!(&tensors.data[3], TensorData::Reals(values) if values.len() == 120));
    assert_eq!(words(&tensors.data[4]), vec![20, 40, 3]);
    assert!(matches!(tensors.data[5], TensorData::Zeros(800)));
    assert!(matches!(tensors.data[6], TensorData::Zeros(120)));
    assert_eq!(words(&tensors.data[7]), vec![20, 3, 40]);

    assert_eq!(layer.forward_graph.nodes.len(), 1);
    let forward = &layer.forward_graph.nodes[0];
    assert_eq!(forward.shader, BuiltInShader::MatMul);
    assert_eq!(forward.binds, combine(id(0), id(3), id(5), id(4)));
    assert_eq!(forward.grid, Grid { x: 3, y: 2, z: 1 });

    assert_eq!(layer.backward_graph.nodes.len(), 2);
    let of_weight = &layer.backward_graph.nodes[0];
    assert_eq!(of_weight.shader, BuiltInShader::MatMulWeightBwd);
    assert_eq!(of_weight.binds, combine(id(0), id(1), id(6), id(4)));
    assert_eq!(of_weight.grid, Grid { x: 3, y: 1, z: 1 });
    let of_input = &layer.backward_graph.nodes[1];
    assert_eq!(of_input.shader, BuiltInShader::MatMulTrp);
    assert_eq!(of_input.binds, combine(id(1), id(3), id(2), id(7)));
    assert_eq!(of_input.grid, Grid { x: 1, y: 2, z: 1 });
}

#[test]
fn a_dense_layer_multiplies() {
    let (tensors, layer) = dense(2, 3, 2, &[1.0, 2.0, 3.0, 4.0, 5.0, 6.0]);
    let mut state = buffers(&tensors);
    state[0] = vec![1.0, 0.0, -1.0, 2.0, 1.0, 0.5];
    execute(&tensors, &mut state, &layer.forward_graph);
    near(&state[layer.out_buffer.index], &[-4.0, -4.0, 7.5, 11.0], 1e-12);
}

#[test]
fn gradients_of_a_dense_layer() {
    let (tensors, layer) = dense(2, 3, 2, &[1.0, 2.0, 3.0, 4.0, 5.0, 6.0]);
    let mut state = buffers(&tensors);
    state[0] = vec![1.0, 0.0, -1.0, 2.0, 1.0, 0.5];
    state[1] = vec![1.0, -1.0, 0.5, 2.0];
    execute(&tensors, &mut state, &layer.backward_graph);
    let once = [2.0, 3.0, 0.5, 2.0, -0.75, 2.0];
    near(&state[layer.grad_weight.index], &once, 1e-12);
    near(&state[layer.grad_input.index], &[-1.0, -1.0, -1.0, 4.5, 9.5, 14.5], 1e-12);
    // Gradients of the weight add up over passes, those of the input do not.
    execute(&tensors, &mut state, &layer.backward_graph);
    near(&state[layer.grad_weight.index], &once.map(|x| 2.0 * x), 1e-12);
    near(&state[layer.grad_input.index], &[-1.0, -1.0, -1.0, 4.5, 9.5, 14.5], 1e-12);
}

#[test]
fn plan_of_an_attention_layer() {
    let plan = planned(20, 6, 2);
    let data = &plan.tensors.data;
    assert_eq!(data.len(), 7 + 10 + 2 * 11);
    assert_eq!(plan.layer.out_buffer, id(7));
    assert!(matches!(data[7], TensorData::Zeros(120)));
    assert_eq!(scale_meta(&data[8]), AttnScaleMeta { seq_len: 20, scale: xavier_std(3) });
    for i in 9..14 {
        assert!(matches!(data[i], TensorData::Zeros(60)));
    }
    assert!(matches!(data[14], TensorData::Zeros(400)));
    assert!(matches!(data[15], TensorData::Zeros(400)));
    assert_eq!(words(&data[16]), vec![60]);
    for (h, base) in [(0u32, 17usize), (1, 28)] {
        let columns = HeadMoveMeta { seq_len: 20, full_dim: 6, head_dim: 3, head_offset: 3 * h };
        assert_eq!(move_meta(&data[base]), columns);
        for i in 1..4 {
            assert!(matches!(data[base + i], TensorData::Zeros(60)));
        }
        assert!(matches!(data[base + 4], TensorData::Zeros(400)));
        for i in [5, 8] {
            assert_eq!(words(&data[base + i]), vec![20, 20, 3]);
        }
        for i in [6, 7, 9, 10] {
            assert_eq!(words(&data[base + i]), vec![20, 3, 20]);
        }
    }
}

#[test]
fn work_of_an_attention_layer() {
    let plan = planned(20, 6, 2);
    let narrow = Grid { x: 1, y: 2, z: 1 };
    let square = Grid { x: 2, y: 2, z: 1 };
    let one = Grid { x: 1, y: 1, z: 1 };
    assert_eq!(plan.layer.forward_graph.nodes.len(), 16);
    assert_eq!(plan.layer.backward_graph.nodes.len(), 22);
    for (h, at) in [(0usize, 17usize), (1, 28)] {
        let (q, k, v, scores) = (id(at + 1), id(at + 2), id(at + 3), id(at + 4));
        let columns = id(at);
        let forward = [
            (BuiltInShader::HeadGather, relocate(id(0), q, columns), narrow),
            (BuiltInShader::HeadGather, relocate(id(1), k, columns), narrow),
            (BuiltInShader::HeadGather, relocate(id(2), v, columns), narrow),
            (BuiltInShader::MatMulTrp, combine(q, k, scores, id(at + 5)), square),
            (BuiltInShader::CausalMask, single(scores, TensorMode::InOut, id(8)), square),
            (BuiltInShader::Softmax, single(scores, TensorMode::InOut, id(8)), one),
            (BuiltInShader::MatMul, combine(scores, v, id(9), id(at + 6)), narrow),
            (BuiltInShader::HeadScatter, relocate(id(9), id(7), columns), narrow),
        ];
        for (i, (shader, binds, grid)) in forward.iter().enumerate() {
            let node = &plan.layer.forward_graph.nodes[8 * h + i];
            assert_eq!((node.shader, &node.binds, node.grid), (*shader, binds, *grid));
        }
        let (dout, dq, dk, dv, dy, draw) = (id(10), id(11), id(12), id(13), id(14), id(15));
        let backward = [
            (BuiltInShader::HeadGather, relocate(id(3), dout, columns), narrow),
            (BuiltInShader::ZeroTensor, single(dv, TensorMode::Output, id(16)), one),
            (BuiltInShader::MatMulWeightBwd, combine(scores, dout, dv, id(at + 7)), narrow),
            (BuiltInShader::MatMulTrp, combine(dout, v, dy, id(at + 8)), square),
            (BuiltInShader::SoftmaxBwd, combine(scores, dy, draw, id(8)), one),
            (BuiltInShader::MatMul, combine(draw, k, dq, id(at + 9)), narrow),
            (BuiltInShader::ZeroTensor, single(dk, TensorMode::Output, id(16)), one),
            (BuiltInShader::MatMulWeightBwd, combine(draw, q, dk, id(at + 10)), narrow),
            (BuiltInShader::HeadScatter, relocate(dq, id(4), columns), narrow),
            (BuiltInShader::HeadScatter, relocate(dk, id(5), columns), narrow),
            (BuiltInShader::HeadScatter, relocate(dv, id(6), columns), narrow),
        ];
        for (i, (shader, binds, grid)) in backward.iter().enumerate() {
            let node = &plan.layer.backward_graph.nodes[11 * h + i];
            assert_eq!((node.shader, &node.binds, node.grid), (*shader, binds, *grid));
        }
    }
}

#[test]
fn attention_of_the_whole_model_can_be_planned() {
    let plan = planned(SEQ_LEN, DIM, NUM_HEADS);
    assert_eq!(plan.layer.forward_graph.nodes.len(), 96);
    assert_eq!(plan.layer.backward_graph.nodes.len(), 132);
    assert_eq!(plan.layer.forward_graph.nodes[3].grid, Grid { x: 32, y: 32, z: 1 });
    assert_eq!(plan.layer.forward_graph.nodes[5].grid, Grid { x: 2, y: 1, z: 1 });
    assert_eq!(plan.layer.backward_graph.nodes[1].grid, Grid { x: 128, y: 1, z: 1 });
    match &plan.tensors.data[8] {
        TensorData::AttnScale(meta) => assert_eq!(f32::from_bits(meta.scale.bits), 0.125),
        _ => panic!("not a meta of scores"),
    }
}

#[test]
fn a_forward_pass_computes_attention() {
    for (n, d, heads) in [(5usize, 8usize, 2usize), (7, 12, 3), (4, 4, 1), (3, 4, 4)] {
        let plan = planned(n as u32, d as u32, heads as u32);
        let mut state = buffers(&plan.tensors);
        for i in 0..3 {
            state[i] = sample(n * d, i as u32);
        }
        state[plan.layer.out_buffer.index] = vec![99.0; n * d];
        let expected = attention(n, d, heads, &state[0], &state[1], &state[2]);
        execute(&plan.tensors, &mut state, &plan.layer.forward_graph);
        near(&state[plan.layer.out_buffer.index], &expected, 1e-6);
        near(&state[0], &sample(n * d, 0), 1e-12);
    }
}

#[test]
fn no_output_row_depends_on_a_later_one() {
    let (n, d, heads) = (6usize, 8usize, 2usize);
    let plan = planned(n as u32, d as u32, heads as u32);
    let out = plan.layer.out_buffer.index;
    let forward = |change_from: usize| {
        let mut state = buffers(&plan.tensors);
        for i in 0..3 {
            state[i] = sample(n * d, 20 + i as u32);
            for x in state[i][change_from * d..].iter_mut() {
                *x = 5.0 - 3.0 * *x;
            }
        }
        execute(&plan.tensors, &mut state, &plan.layer.forward_graph);
        state[out].clone()
    };
    let unchanged = forward(n);
    for last in 0..n - 1 {
        let changed = forward(last + 1);
        assert_eq!(changed[..(last + 1) * d], unchanged[..(last + 1) * d]);
        assert!(changed[(last + 1) * d..] != unchanged[(last + 1) * d..]);
    }
}

#[test]
fn a_backward_pass_computes_gradients() {
    let (n, d, heads) = (4usize, 6usize, 2usize);
    let plan = planned(n as u32, d as u32, heads as u32);
    let mut state = buffers(&plan.tensors);
    for i in 0..4 {
        state[i] = sample(n * d, 10 + i as u32);
    }
    for i in 4..7 {
        state[i] = vec![99.0; n * d];
    }
    let given: Vec<Vec<f64>> = state[..4].to_vec();
    let loss = |x: &[Vec<f64>]| -> f64 {
        attention(n, d, heads, &x[0], &x[1], &x[2])
            .iter()
            .zip(&given[3])
            .map(|(o, g)| o * g)
            .sum()
    };
    execute(&plan.tensors, &mut state, &plan.layer.forward_graph);
    // Twice: a backward pass leaves what it needs in place.
    for _ in 0..2 {
        execute(&plan.tensors, &mut state, &plan.layer.backward_graph);
        for port in 0..3 {
            let slopes: Vec<f64> = (0..n * d)
                .map(|i| {
                    let step = 1e-5;
                    let mut up = given.clone();
                    up[port][i] += step;
                    let mut down = given.clone();
                    down[port][i] -= step;
                    (loss(&up) - loss(&down)) / (2.0 * step)
                })
                .collect();
            near(&state[4 + port], &slopes, 1e-5);
        }
    }
}

#[test]
fn a_layer_without_columns_does_nothing() {
    let plan = planned(3, 0, 2);
    let mut state = buffers(&plan.tensors);
    execute(&plan.tensors, &mut state, &plan.layer.forward_graph);
    assert!(state[plan.layer.out_buffer.index].is_empty());
}

#[test]
fn sizes_that_cannot_be_planned() {
    let valid = |seq_len: u32, dim: u32, num_heads: u32| {
        AttentionShape { seq_len, dim, num_heads }.is_valid()
    };
    assert!(valid(SEQ_LEN, DIM, NUM_HEADS));
    assert!(valid(0, 0, 1));
    assert!(!valid(4, 6, 4));
    assert!(!valid(4, 6, 0));
    assert!(!valid(70_000, 6, 2));
    assert!(!valid(60_000, 80_000, 2));
    assert!(!valid(u32::MAX, 0, 1));
    assert!(Linear::is_valid(768, 3072, 512));
    assert!(Linear::is_valid(768, 50257, 512));
    assert!(!Linear::is_valid(100_000, 50_257, 1));
    assert!(!Linear::is_valid(1, 50_257, 100_000));
    assert!(!Linear::is_valid(u32::MAX, 1, 1));
    assert!(!Linear::is_valid(u32::MAX - 14, 0, 1));
    assert!(Linear::is_valid(u32::MAX - 15, 0, 1));
}
