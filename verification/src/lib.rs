//! A minimal command-line flag dispatcher.
//!
//! A parser owns a configuration value, a table binding string tokens to
//! callbacks, and one fallback callback for tokens that are not bound.  Its
//! terminal `parse` operation walks an input sequence of tokens in order,
//! runs exactly one callback per token, and hands the final configuration
//! back to the caller.

pub mod actions;
pub mod dispatch;
pub mod handlers;
pub mod table;

pub use actions::Action;
pub use actions::Fallback;
pub use dispatch::Parser;
pub use handlers::Append;
pub use handlers::Collect;
pub use handlers::Ignore;
pub use handlers::SetSwitch;
pub use handlers::Switches;
pub use table::ArgTable;
