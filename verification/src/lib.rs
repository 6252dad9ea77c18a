//! An in-process registry of command-line option definitions.
//!
//! The registry has two algorithmic cores, both fully verified:
//! collision-avoiding generation of short flags from a long option name
//! (`generate`), and two-sided binary prefix search over the registered
//! options once they are sorted by long flag (`search`, `index`).

pub mod flagset;
pub mod generate;
pub mod index;
pub mod record;
pub mod search;
pub mod strings;
