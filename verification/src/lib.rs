//! A labeled, block-structured sparse tensor container.
//!
//! A tensor map stores a list of blocks, each addressed by one row of a
//! shared keys label table. Every block carries its own sample, component
//! and property labels, so data with heterogeneous shapes per key can
//! coexist in one logical object. Blocks can be queried by partial key
//! selections, and component axes can be folded into the property axis.

pub mod strings;
pub mod error;
pub mod labels;
pub mod data;
pub mod block;
pub mod tensor;

pub use error::Error;
pub use labels::{Labels, LabelsBuilder};
pub use data::ArrayData;
pub use block::{BasicBlock, TensorBlock};
pub use tensor::TensorMap;
