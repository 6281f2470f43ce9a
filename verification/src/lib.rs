//! Loading of declarative HTTP-task configuration values.
//!
//! The crate covers the two value-resolution stages such a loader runs
//! before a document becomes a typed configuration:
//!
//! * [`envsub`]: rewriting of `env!(NAME)` placeholders found in the
//!   string leaves of a raw document tree, against a snapshot of the
//!   process environment;
//! * [`value`]: parsing of tagged sub-trees (mappings with a `type`
//!   discriminator) into the closed [`value::Value`] representation,
//!   in a full mode for request bodies and a restricted mode for
//!   header values.
//!
//! [`node`] holds the generic document tree both stages work on, and
//! [`http`] the typed pieces of the outer task schema that consume
//! parsed values.

pub mod envsub;
pub mod http;
pub mod node;
pub mod value;
