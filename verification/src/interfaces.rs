use vstd::prelude::*;

use crate::data::InitId;

verus! {

/// Gives the id under which an init is registered.
pub trait GetInitId {
    fn get_id(&self) -> InitId;
}

} // verus!
