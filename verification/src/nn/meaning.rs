//! What running a graph leaves in its tensors.
//!
//! Kernels compute in floating point, so results are not numbers here but the formulas that the
//! kernels carry out.
use crate::nn::plan::{AttnScaleMeta, BuiltInShader, Contents, Dispatch, HeadMoveMeta, TensorId};
use vstd::prelude::*;

verus! {

/// A formula for what a tensor holds.
pub ghost enum Value {
    Zeros,
    /// What the tensor held before the graph ran.
    Before(TensorId),
    /// `a * b`.
    Product(Box<Value>, Box<Value>),
    /// `a * b^T`.
    ProductTrp(Box<Value>, Box<Value>),
    /// `base + a^T * b`.
    PlusTrpProduct(Box<Value>, Box<Value>, Box<Value>),
    /// Scores, scaled, without those that lie ahead.
    Masked(Box<Value>, AttnScaleMeta),
    Softmax(Box<Value>),
    /// Gradient before softmax, from the result of softmax and its gradient.
    SoftmaxGrad(Box<Value>, Box<Value>, AttnScaleMeta),
    /// The columns of one head.
    Columns(Box<Value>, HeadMoveMeta),
    /// A wide matrix with the columns of one head replaced.
    WithColumns(Box<Value>, Box<Value>, HeadMoveMeta),
}

/// What each tensor holds.
pub type State = spec_fn(TensorId) -> Value;

pub open spec fn before() -> State {
    |t: TensorId| Value::Before(t)
}

pub open spec fn slot(d: Dispatch, i: int) -> TensorId {
    d.binds[i].tensor
}

pub open spec fn scale_meta(tensors: Seq<Contents>, t: TensorId) -> AttnScaleMeta {
    tensors[t.index as int]->AttnScale_0
}

pub open spec fn move_meta(tensors: Seq<Contents>, t: TensorId) -> HeadMoveMeta {
    tensors[t.index as int]->HeadMove_0
}

/// The tensor that a dispatch fills.
pub open spec fn target(d: Dispatch) -> TensorId {
    match d.shader {
        BuiltInShader::MatMul => slot(d, 2),
        BuiltInShader::MatMulTrp => slot(d, 2),
        BuiltInShader::MatMulWeightBwd => slot(d, 2),
        BuiltInShader::SoftmaxBwd => slot(d, 2),
        BuiltInShader::CausalMask => slot(d, 0),
        BuiltInShader::Softmax => slot(d, 0),
        BuiltInShader::ZeroTensor => slot(d, 0),
        BuiltInShader::HeadGather => slot(d, 1),
        BuiltInShader::HeadScatter => slot(d, 1),
    }
}

/// What a dispatch leaves in the tensor that it fills.
pub open spec fn result(tensors: Seq<Contents>, state: State, d: Dispatch) -> Value {
    match d.shader {
        BuiltInShader::MatMul => Value::Product(
            Box::new(state(slot(d, 0))),
            Box::new(state(slot(d, 1))),
        ),
        BuiltInShader::MatMulTrp => Value::ProductTrp(
            Box::new(state(slot(d, 0))),
            Box::new(state(slot(d, 1))),
        ),
        BuiltInShader::MatMulWeightBwd => Value::PlusTrpProduct(
            Box::new(state(slot(d, 2))),
            Box::new(state(slot(d, 0))),
            Box::new(state(slot(d, 1))),
        ),
        BuiltInShader::CausalMask => Value::Masked(
            Box::new(state(slot(d, 0))),
            scale_meta(tensors, slot(d, 1)),
        ),
        BuiltInShader::Softmax => Value::Softmax(Box::new(state(slot(d, 0)))),
        BuiltInShader::SoftmaxBwd => Value::SoftmaxGrad(
            Box::new(state(slot(d, 0))),
            Box::new(state(slot(d, 1))),
            scale_meta(tensors, slot(d, 3)),
        ),
        BuiltInShader::ZeroTensor => Value::Zeros,
        BuiltInShader::HeadGather => Value::Columns(
            Box::new(state(slot(d, 0))),
            move_meta(tensors, slot(d, 2)),
        ),
        BuiltInShader::HeadScatter => Value::WithColumns(
            Box::new(state(slot(d, 1))),
            Box::new(state(slot(d, 0))),
            move_meta(tensors, slot(d, 2)),
        ),
    }
}

/// What the tensors hold after one dispatch.
pub open spec fn after(tensors: Seq<Contents>, state: State, d: Dispatch) -> State {
    |t: TensorId|
        if t == target(d) {
            result(tensors, state, d)
        } else {
            state(t)
        }
}

/// What the tensors hold after a graph has run.
pub open spec fn after_all(tensors: Seq<Contents>, state: State, graph: Seq<Dispatch>) -> State
    decreases graph.len(),
{
    if graph.len() == 0 {
        state
    } else {
        after(tensors, after_all(tensors, state, graph.drop_last()), graph.last())
    }
}

/// Running one graph and then another is running both.
pub proof fn lemma_after_both(
    tensors: Seq<Contents>,
    state: State,
    first: Seq<Dispatch>,
    second: Seq<Dispatch>,
)
    ensures
        after_all(tensors, state, first + second) == after_all(
            tensors,
            after_all(tensors, state, first),
            second,
        ),
    decreases second.len(),
{
    if second.len() == 0 {
        assert(first + second == first);
    } else {
        lemma_after_both(tensors, state, first, second.drop_last());
        assert((first + second).drop_last() == first + second.drop_last());
    }
}

/// The first `n + 1` dispatches of a graph: the first `n`, and then one more.
pub proof fn lemma_after_step(tensors: Seq<Contents>, state: State, graph: Seq<Dispatch>, n: int)
    requires
        0 <= n < graph.len(),
    ensures
        after_all(tensors, state, graph.take(n + 1)) == after(
            tensors,
            after_all(tensors, state, graph.take(n)),
            graph[n],
        ),
{
    assert(graph.take(n + 1).drop_last() == graph.take(n));
}

} // verus!
