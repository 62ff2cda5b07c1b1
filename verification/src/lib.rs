//! Verified core of a photo ingestion and semantic query pipeline.
//!
//! The library walks no filesystem and talks to no network itself: it holds
//! the decision logic of the pipeline — content identity, skip policy, batch
//! planning and pairing, payload building, result ranking and filtering — as
//! verified functions over plain values, together with an in-memory vector
//! store that serves as the reference model of the remote index.

pub mod batch;
pub mod codec;
pub mod hash;
pub mod models;
pub mod paths;
pub mod pipeline;
pub mod policy;
pub mod ports;
pub mod store;
pub mod text;
