//! Tensors: layouts of dims and strides, positions within them, and owned and borrowed
//! tensors built on a flat buffer.
pub mod equality;
pub mod error;
pub mod grid;
pub mod layout;
pub mod match_tensor;
pub mod position;
pub mod sheet_ops;
pub mod tensor;
pub mod text;
pub mod view;
pub mod xmatch;
