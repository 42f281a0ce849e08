//! Verified core of a small GPT-2 scale language model trainer.
pub mod binary32;
pub mod chat;
pub mod checkpoint;
pub mod cli;
pub mod config;
pub mod convert;
pub mod data;
pub mod escape;
pub mod nn;
pub mod order;
pub mod pieces;
pub mod schedule;
pub mod text;
pub mod training;
pub mod utf8;
