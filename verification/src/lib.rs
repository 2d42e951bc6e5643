//! Routing-policy synthesis for a proxy-engine configuration document.
//!
//! The engine takes an upstream configuration document (a loosely typed
//! tree of objects, arrays and scalars), a user policy (split tunneling,
//! local SOCKS inbound, legacy per-process tunneling) and a platform tag,
//! and produces a corrected document the proxy engine can run. Every pass
//! is total: missing or malformed sub-trees are treated as absent and the
//! minimal required structure is created on demand.
//!
//! `engine::apply` runs the four passes in their fixed order; `laws`
//! holds the proofs that each pass, and the composed pipeline, is
//! idempotent, that repeated split passes keep the rule count of one,
//! that bypass rules precede proxy rules, and that the SOCKS toggle
//! round-trips.

pub mod engine;
pub mod laws;
pub mod legacy;
pub mod patch;
pub mod policy;
pub mod rules;
pub mod seq_util;
pub mod settings;
pub mod socks;
pub mod split;
pub mod strings;
pub mod tokens;
pub mod value;

pub use engine::apply;
pub use policy::Platform;
pub use policy::Policy;
pub use settings::LocalSettings;
pub use value::Value;
