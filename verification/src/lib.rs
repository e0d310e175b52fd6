//! Tools for working on a feed of NASL scripts: finding the statements of a
//! parsed script that a predicate accepts, collecting the calls that a script
//! makes, and the interface through which advisories are loaded.

pub mod loader;
pub mod matcher;
pub mod replace;
pub mod statement;
