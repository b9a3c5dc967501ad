use vstd::prelude::*;

use crate::object::Object;
use crate::object::mm::OutOfMemory;
use crate::value::Ref;
use crate::value::any::Val;
use crate::value::string::{TextKind, alloc_text};

verus! {

/// Keywords.
pub struct Keyword {}

impl Keyword {
    /// A new keyword named `name`.
    pub fn allocate(obj: &mut Object, name: &Vec<char>) -> (res: Result<Ref, OutOfMemory>)
        requires
            old(obj).wf(),
        ensures
            final(obj).wf(),
            final(obj).grown_from(old(obj)),
            res matches Ok(r) ==> final(obj).valid(r) && final(obj).value_of(r) == Val::Kw(name@),
            res is Err ==> final(obj).heap_view() == old(obj).heap_view(),
    {
        alloc_text(obj, TextKind::Keyword, name)
    }
}

} // verus!
