//! Commands that the front end runs besides the viewer.
use vstd::prelude::*;

verus! {

/// The interactive configuration command: it picks a provider, a key and a
/// model and saves them.
pub struct ConfigureCommand;

} // verus!
