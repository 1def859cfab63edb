//! The ALN language front end.
pub mod ast;
pub mod error;
pub mod lexer;
pub mod mapper;
pub mod message;
pub mod model;
pub mod number;
pub mod parser;

pub use error::LoadAlnError;
pub use model::{
    AlnComponentConfig, AlnInteropConfig, AlnRegoExecConfig, AlnRenderConfig, AlnUpdatePlan,
};
