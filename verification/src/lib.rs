use vstd::prelude::*;

pub mod ethernet;
pub mod ipv4;

verus! {

/// Settings for a capture run. The inspector currently needs none, but the
/// surface is kept so that callers construct one explicitly.
pub struct Config {}

} // verus!
