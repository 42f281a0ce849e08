//! Model and training constants.
use vstd::prelude::*;

verus! {

// ~117M parameters, GPT-2 Small scale.
pub const DIM: u32 = 768;
pub const NUM_HEADS: u32 = 12;
pub const HEAD_DIM: u32 = DIM / NUM_HEADS;
pub const NUM_LAYERS: usize = 12;
pub const SEQ_LEN: u32 = 512;
/// Four times `DIM`.
pub const FFN_HIDDEN: u32 = 3072;
/// Size of the GPT-2 vocabulary.
pub const VOCAB_SIZE: u32 = 50257;

pub const BATCH_SIZE: usize = 2;
/// Micro-batches per optimiser update: the effective batch is 64 sequences.
pub const ACCUMULATION_STEPS: usize = 32;

pub const WARMUP_STEPS: usize = 200;
pub const MAX_STEPS: usize = 500_000;
pub const SAVE_EVERY: usize = 5000;
pub const LOG_EVERY: usize = 50;

/// Step that the learning rate schedule counts from. An earlier schedule had run down to its floor
/// by the checkpoint of this step; the present one starts a fresh warmup and decay there.
pub const LR_RESTART_STEP: usize = 195_000;

} // verus!
