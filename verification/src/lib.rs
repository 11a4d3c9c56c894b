//! A workflow engine: it walks the graph of a process from user task to user
//! task, looks ahead to the tasks that can still be reached, evaluates the
//! conditions of gateways against the variables entered so far, and stores
//! definitions and states as bytes.

pub mod acyclic;
pub mod archive;
pub mod builder;
pub mod codec;
pub mod engine;
pub mod float;
pub mod foresight;
pub mod instance;
pub mod jsep;
pub mod json;
pub mod laws;
pub mod model;
pub mod state;
pub mod text;
pub mod validator;
