//! Host/guest message bridge for sandboxed guest modules.
//!
//! A host process owns a live entity-component store and loads untrusted
//! guest binaries. Guest and host exchange self-describing, strongly typed
//! messages over a shared scratch buffer: the guest serializes an action
//! envelope, invokes a single host import, and the host decodes the payload,
//! dispatches the action (logging, dynamic store queries, diagnostics) and
//! optionally writes an encoded response back into the buffer.

pub mod action;
pub mod codec;
pub mod context;
pub mod dispatch;
pub mod ecs;
pub mod guest;
pub mod log;
pub mod mock;
pub mod query;
pub mod reflect_query;
pub mod registry;
pub mod runtime;
pub mod store;

pub use action::Action;
