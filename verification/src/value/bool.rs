use vstd::prelude::*;

use crate::value::Ref;

verus! {

/// The booleans.
pub struct Bool {}

impl Bool {
    /// True.
    pub fn true_() -> (r: Ref)
        ensures
            r == Ref::True,
    {
        Ref::True
    }

    /// False.
    pub fn false_() -> (r: Ref)
        ensures
            r == Ref::False,
    {
        Ref::False
    }

    /// The boolean `b`.
    pub fn from_bool(b: bool) -> (r: Ref)
        ensures
            r == (if b {
                Ref::True
            } else {
                Ref::False
            }),
    {
        if b {
            Ref::True
        } else {
            Ref::False
        }
    }

    /// `v` is true.
    pub fn is_true(v: Ref) -> (res: bool)
        ensures
            res == (v == Ref::True),
    {
        match v {
            Ref::True => true,
            _ => false,
        }
    }

    /// `v` is false.
    pub fn is_false(v: Ref) -> (res: bool)
        ensures
            res == (v == Ref::False),
    {
        match v {
            Ref::False => true,
            _ => false,
        }
    }
}

} // verus!
