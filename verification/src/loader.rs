//! Loading the advisories of an operating system.

use vstd::prelude::*;

verus! {

/// A source of advisories, one collection for each operating system.
///
/// What a collection holds and where it is kept is the loader's own matter,
/// and so is the way in which it tells its failures apart: that there are
/// no advisories for the system, that they cannot be reached or read, that
/// the name of the system is not one that it knows how to look up.
pub trait AdvisoriesLoader {
    /// The advisories of one operating system.
    type Advisories;

    /// Why advisories could not be loaded.
    type Error;

    /// Loads the advisories of the operating system that `os` names. The
    /// name is not empty.
    fn load_package_advisories(&self, os: &str) -> (loaded: Result<Self::Advisories, Self::Error>)
        requires
            os@.len() > 0,
    ;
}

} // verus!
