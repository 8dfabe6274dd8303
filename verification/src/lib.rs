//! rui: a full-stack reactive UI framework core — reactive graph, DOM model,
//! routing helpers, GraphQL value/parser/executor, normalized cache and deploy planning.
use vstd::prelude::*;

pub mod seqs;
pub mod text;
pub mod reactive;
pub mod gql;
pub mod dom;
pub mod runtime;
pub mod props;
pub mod jobs;
pub mod view;
pub mod deploy;
pub mod server;
pub mod codegen;
pub mod cli;

verus! {

} // verus!
