//! A canonicalizing registry of function-type signatures.
//!
//! A virtual-machine engine that dispatches indirect calls must check, on
//! every such call, that the caller's expected function type matches the
//! callee's actual function type. Comparing full structural descriptors each
//! time would be slow, so this library interns each distinct descriptor into
//! a small fixed-width integer handle: after registration, a type check is a
//! single integer comparison.
//!
//! The registry guarantees a bijection between the distinct descriptors seen
//! so far and the handles issued so far: registration is idempotent, handles
//! are dense (a contiguous range starting at zero, assigned in first-seen
//! order), and a capacity overflow is reported as a typed error rather than
//! wrapping or truncating.
//!
//! A registry instance is not internally synchronized. Either confine an
//! instance to one logical thread, or guard it with a lock that covers both
//! the probe and the insert of `register`.

pub mod laws;
pub mod registry;
pub mod signature;
