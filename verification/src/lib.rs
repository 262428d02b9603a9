//! Core of a terminal dashboard that mirrors a remote hierarchical
//! key/value table and lets an operator browse and edit it.
//!
//! The crate holds the verified logic only: the wire-value model, path
//! parsing, the incremental widget tree with its builders, the grid
//! packing engine, the backend-facing bookkeeping, and the application
//! state machine.  Terminal rendering, keystroke decoding and the network
//! connection live outside, in an unverified shell that exchanges plain
//! values with this crate.

pub mod app;
pub mod backend;
pub mod chooser;
pub mod packing;
pub mod path;
pub mod simple;
pub mod tabs;
pub mod tree;
pub mod value;
pub mod widgets;

pub use path::Key;
pub use path::Path;
pub use value::Value;
