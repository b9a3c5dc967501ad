use vstd::prelude::*;

use crate::object::Object;
use crate::object::mm::{Cell, OutOfMemory, cell_refs};
use crate::value::Ref;
use crate::value::any::Val;

verus! {

/// A reference to another object, held in the heap by the other object's
/// number.
pub struct ObjectRef {}

impl ObjectRef {
    /// Stores a reference to the object numbered `id`.
    pub fn allocate(obj: &mut Object, id: usize) -> (res: Result<Ref, OutOfMemory>)
        requires
            old(obj).wf(),
        ensures
            final(obj).wf(),
            final(obj).grown_from(old(obj)),
            res is Ok <==> old(obj).spec_used() + crate::object::mm::cell_size(Cell::ObjectRef(id))
                < crate::object::mm::MAX_HEAP_BYTES,
            res matches Ok(r) ==> final(obj).heap_view() == old(obj).heap_view().push(Cell::ObjectRef(id))
                && r == Ref::Ptr(old(obj).heap_view().len() as usize, false),
            res matches Ok(r) ==> r is Ptr && crate::value::ref_index(r) == old(obj).heap_view().len(),
    {
        proof {
            assert(cell_refs(Cell::ObjectRef(id)) =~= Seq::<Ref>::empty());
        }
        obj.allocate(Cell::ObjectRef(id))
    }

    /// The number of the object `v` refers to, if `v` is an object reference.
    pub fn get(obj: &Object, v: Ref) -> (res: Option<usize>)
        requires
            obj.wf(),
        ensures
            match res {
                Some(id) => v is Ptr && 0 <= crate::value::ref_index(v) < obj.heap_view().len()
                    && obj.heap_view()[crate::value::ref_index(v)] == Cell::ObjectRef(id),
                None => !(v is Ptr && 0 <= crate::value::ref_index(v) < obj.heap_view().len()
                    && obj.heap_view()[crate::value::ref_index(v)] is ObjectRef),
            },
            match res {
                Some(id) => obj.value_of(v) == Val::Object(id as nat),
                None => !(obj.value_of(v) is Object),
            },
    {
        match v {
            Ref::Ptr(i, _) => {
                if i < obj.heap().len() && obj.heap().kind(i) == crate::object::mm::CellKind::ObjectRef {
                    Some(obj.heap().object_id(i))
                } else {
                    None
                }
            },
            _ => None,
        }
    }
}


/// The builtin on objects named `k`, if there is one.
pub open spec fn object_builtin(k: Seq<char>) -> Option<crate::value::func::FuncId> {
    if k == "send"@ {
        Some(crate::value::func::FuncId::Send)
    } else if k == "spawn"@ {
        Some(crate::value::func::FuncId::Spawn)
    } else {
        None
    }
}

/// Defines `spawn` and `send`.
pub fn register_global(obj: &mut Object)
    requires
        old(obj).wf(),
    ensures
        final(obj).redefined_from(old(obj)),
        forall|k: Seq<char>|
            #[trigger] final(obj).global(k) == match object_builtin(k) {
                Some(id) => Some(Ref::Func(id)),
                None => old(obj).global(k),
            },
{
    obj.define_global_str("spawn", Ref::Func(crate::value::func::FuncId::Spawn));
    obj.define_global_str("send", Ref::Func(crate::value::func::FuncId::Send));
}

} // verus!
