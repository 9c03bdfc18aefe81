//! A sharded topic broker: the wire format spoken between clients and the
//! server, the registry of topics and their partitions, request routing,
//! the ordering discipline of the worker pools and the client's command
//! language.

pub mod seqs;
pub mod wire;
pub mod text;
pub mod protocol;
pub mod broker;
pub mod dispatch;
pub mod cli;
