//! Layers of the model, as plans of device work.
pub mod attention;
pub mod attention_laws;
pub mod attention_meaning;
pub mod causality;
pub mod init;
pub mod linear;
pub mod meaning;
pub mod plan;
