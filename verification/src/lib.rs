//! Core of a host that runs sandboxed WebAssembly components as remotely
//! invokable tools.
//!
//! The library holds the decision logic of the host: request hygiene and rate
//! limiting, the registry of loaded components and their tool schemas, the
//! compiler from a declarative permission policy to a per-invocation sandbox
//! template, per-component secret maps with their on-disk encoding, and the
//! gates the sandbox enforces at run time. Everything here is pure
//! computation over plain values; fetching bytes, touching the file system,
//! driving the Wasm runtime and speaking the wire protocol are left to the
//! embedding process.

pub mod dispatch;
pub mod errors;
pub mod json;
pub mod logging;
pub mod policy;
pub mod policy_codec;
pub mod registry;
pub mod sandbox;
pub mod secrets;
pub mod secrets_codec;
pub mod security;
pub mod sigverify;
pub mod text;
