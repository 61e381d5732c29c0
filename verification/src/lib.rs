//! Inspect and edit the settings document of a peripheral-configuration
//! application: a JSON blob held in a single-row SQLite table.
//!
//! The heart of the library is a partial document model: each structured
//! entity decodes a few typed fields out of a JSON object and keeps every
//! other field verbatim in a remainder bag, so that re-encoding loses
//! nothing. On top of that sit the settings schema with its profile
//! promotion/demotion transform, the device-name resolution heuristic, and
//! the slot reassignment algorithm. Reading and writing the backing store,
//! the interactive editor and the companion-process restart live outside the
//! library.

pub mod document;
pub mod json;
pub mod laws;
pub mod options;
pub mod schema;
pub mod resolve;
pub mod store;
pub mod text;
pub mod transfer;
