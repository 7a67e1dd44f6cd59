//! A programmable DNS router core: a label-reversed domain trie, a validated
//! rule graph with its per-query state machine, and a TTL-aware response cache.

pub mod text;
pub mod domain;
pub mod message;
pub mod table;
pub mod cache;
pub mod engine;
pub mod router;
pub mod dmatcher;
