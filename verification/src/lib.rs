//! Core of a concurrent, chunked object downloader.
//!
//! A remote object is fetched in parallel byte ranges and reassembled into
//! exact original order. This crate holds the logic of that pipeline: the
//! chunk planner, the bounded-retry policy, the ordered reassembly buffer,
//! the strategy choice made from object metadata, and the parsing of
//! locators and size arguments. The network clients, the bounded queues and
//! the output sink live outside; they hand plain values in and take plain
//! values back.

pub mod chunk;
pub mod cli;
pub mod client;
pub mod downloader;
pub mod error;
pub mod retry;
pub mod text;
pub mod uri;
pub mod reassembly;
