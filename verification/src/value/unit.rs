use vstd::prelude::*;

use crate::value::Ref;

verus! {

/// The unit value.
pub struct Unit {}

impl Unit {
    /// Unit.
    pub fn unit() -> (r: Ref)
        ensures
            r == Ref::Unit,
    {
        Ref::Unit
    }

    /// `v` is unit.
    pub fn is_unit(v: Ref) -> (res: bool)
        ensures
            res == (v == Ref::Unit),
    {
        match v {
            Ref::Unit => true,
            _ => false,
        }
    }
}

} // verus!
