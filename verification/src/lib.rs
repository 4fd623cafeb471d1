//! A distributed network-reconnaissance coordinator: raw target text is
//! expanded into concrete scan targets under ignore rules; worker nodes
//! report liveness by heartbeat; the control plane validates requests,
//! persists task records and fans dispatch payloads out to node queues;
//! workers drain a task's shared target pool through atomic pops and run
//! the per-target pipeline, persisting discoveries and progress.
//!
//! The queue/key-value store and the document store are modelled here by
//! in-memory structures whose operations carry the contracts that the
//! shared stores provide (atomic pops, hash-field writes, a unique index,
//! append-only inserts); the process edges — the actual store clients,
//! the HTTP surface, DNS resolution and probing — live outside the
//! library and exchange plain values with it.

pub mod control;
pub mod expand;
pub mod ignore;
pub mod ipv4;
pub mod models;
pub mod persist;
pub mod queue;
pub mod registry;
pub mod strutil;
pub mod wildcard;
pub mod worker;
