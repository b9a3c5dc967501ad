use vstd::prelude::*;

use crate::err::{Exception, OutOfBounds, TypeMismatch, is_type_mismatch, is_out_of_bounds};
use crate::object::Object;
use crate::object::mm::{Cell, OutOfMemory, cell_refs, cell_size, MAX_HEAP_BYTES};
use crate::value::{Ref, TypeInfo, ref_below, ref_index};
use crate::value::any::{Val, denote, denote_seq, lemma_container_cell, lemma_denote_extends};
use crate::value::list::{List, values_of, all_valid, chain_len, list_items, lemma_list_items_len};
use crate::value::array::{Array, array_items, collect_list};

verus! {

/// The values of the tuple `v` denotes (none for unit).
pub open spec fn tuple_items(v: Val) -> Seq<Val> {
    match v {
        Val::Tuple(s) => s,
        _ => Seq::empty(),
    }
}

/// `v` is a tuple: unit or a tuple cell.
pub open spec fn is_tuple_val(v: Val) -> bool {
    v is Tuple || v is Unit
}

/// The tuple of the values `s`: unit when there is none.
pub open spec fn tuple_val(s: Seq<Val>) -> Val {
    if s.len() == 0 {
        Val::Unit
    } else {
        Val::Tuple(s)
    }
}

/// In a well-formed heap a tuple cell denotes the tuple of what its
/// references denote.
proof fn lemma_tuple_cell(obj: &Object, r: Ref)
    requires
        obj.wf(),
        r is Ptr,
        ref_index(r) < obj.heap_view().len(),
        obj.heap_view()[ref_index(r)] is Tuple,
    ensures
        obj.value_of(r) is Tuple,
        tuple_items(obj.value_of(r)).len() == cell_refs(obj.heap_view()[ref_index(r)]).len(),
        forall|k: int|
            0 <= k < cell_refs(obj.heap_view()[ref_index(r)]).len() ==> {
                &&& obj.valid(#[trigger] cell_refs(obj.heap_view()[ref_index(r)])[k])
                &&& tuple_items(obj.value_of(r))[k] == obj.value_of(cell_refs(obj.heap_view()[ref_index(r)])[k])
            },
{
    obj.lemma_wf();
    lemma_container_cell(obj.heap_view(), ref_index(r));
}

/// Only a tuple cell denotes a tuple.
proof fn lemma_tuple_value(obj: &Object, r: Ref)
    requires
        obj.value_of(r) is Tuple,
    ensures
        r is Ptr && ref_index(r) < obj.heap_view().len() && obj.heap_view()[ref_index(r)] is Tuple,
{
    match r {
        Ref::Ptr(i, _) => {
            if (i as int) < obj.heap_view().len() {
                match obj.heap_view()[i as int] {
                    Cell::Tuple(_) => {},
                    _ => {},
                }
            }
        },
        _ => {},
    }
}

/// Operations on tuples.
pub struct Tuple {}

impl Tuple {
    /// Unit: the tuple of no value.
    pub fn unit() -> (r: Ref)
        ensures
            r == Ref::Unit,
    {
        Ref::Unit
    }

    /// `v` is unit.
    pub fn is_unit(v: Ref) -> (res: bool)
        ensures
            res == (v == Ref::Unit),
    {
        match v {
            Ref::Unit => true,
            _ => false,
        }
    }

    /// `v` is a tuple.
    pub fn is(obj: &Object, v: Ref) -> (res: bool)
        requires
            obj.wf(),
        ensures
            res == is_tuple_val(obj.value_of(v)),
    {
        proof {
            crate::value::array::lemma_unit_value(obj, v);
        }
        match v {
            Ref::Unit => true,
            Ref::Ptr(i, _) => {
                if i < obj.heap().len() {
                    match obj.heap().kind(i) {
                        crate::object::mm::CellKind::Tuple => {
                            proof {
                                lemma_tuple_cell(obj, v);
                            }
                            true
                        },
                        _ => {
                            proof {
                                if obj.value_of(v) is Tuple {
                                    lemma_tuple_value(obj, v);
                                }
                            }
                            false
                        },
                    }
                } else {
                    false
                }
            },
            _ => false,
        }
    }

    /// The number of values of the tuple `v`.
    pub fn len(obj: &Object, v: Ref) -> (n: usize)
        requires
            obj.wf(),
            is_tuple_val(obj.value_of(v)),
        ensures
            n == tuple_items(obj.value_of(v)).len(),
    {
        if Self::is_unit(v) {
            return 0;
        }
        proof {
            crate::value::array::lemma_unit_value(obj, v);
            lemma_tuple_value(obj, v);
            lemma_tuple_cell(obj, v);
        }
        match v {
            Ref::Ptr(i, _) => obj.heap().refs_len(i),
            _ => 0,
        }
    }

    /// The value at `index` of the tuple `v`.
    pub fn get(obj: &Object, v: Ref, index: usize) -> (res: Ref)
        requires
            obj.wf(),
            is_tuple_val(obj.value_of(v)),
            index < tuple_items(obj.value_of(v)).len(),
        ensures
            obj.valid(res),
            obj.value_of(res) == tuple_items(obj.value_of(v))[index as int],
    {
        proof {
            lemma_tuple_value(obj, v);
            lemma_tuple_cell(obj, v);
        }
        match v {
            Ref::Ptr(i, _) => obj.heap().ref_at(i, index),
            _ => Ref::Nil,
        }
    }

    /// A new tuple of the values of `items`.
    pub fn alloc_from(obj: &mut Object, items: Vec<Ref>) -> (res: Result<Ref, OutOfMemory>)
        requires
            old(obj).wf(),
            all_valid(old(obj), items@),
        ensures
            final(obj).wf(),
            final(obj).grown_from(old(obj)),
            res is Ok <==> (items@.len() == 0 || old(obj).spec_used() + cell_size(Cell::Tuple(items))
                < MAX_HEAP_BYTES),
            items@.len() == 0 ==> res == Ok::<Ref, OutOfMemory>(Ref::Unit) && final(obj).heap_view() == old(
                obj,
            ).heap_view(),
            res matches Ok(r) ==> final(obj).valid(r) && final(obj).value_of(r) == tuple_val(
                values_of(old(obj), items@),
            ),
    {
        if items.len() == 0 {
            proof {
                obj.lemma_grown_refl();
            }
            return Ok(Ref::Unit);
        }
        let ghost s = items@;
        let ghost c = Cell::Tuple(items);
        proof {
            assert forall|k: int| 0 <= k < cell_refs(c).len() implies ref_below(#[trigger] cell_refs(c)[k], old(obj).heap_view().len() as int) by {
                assert(old(obj).valid(s[k]));
            }
        }
        let res = obj.allocate(Cell::Tuple(items));
        proof {
            if let Ok(r) = res {
                assert(obj.heap_view()[ref_index(r)] == c);
                lemma_tuple_cell(obj, r);
                assert(tuple_items(obj.value_of(r)) =~= values_of(old(obj), s)) by {
                    assert forall|k: int| 0 <= k < s.len() implies #[trigger] tuple_items(obj.value_of(r))[k] == old(obj).value_of(s[k]) by {
                        assert(cell_refs(c)[k] == s[k]);
                        assert(old(obj).valid(s[k]));
                        lemma_denote_extends(old(obj).heap_view(), obj.heap_view(), s[k]);
                    }
                }
            }
        }
        res
    }

    /// A new tuple of the values of the list `list`.
    pub fn from_list(obj: &mut Object, list: Ref) -> (res: Result<Ref, OutOfMemory>)
        requires
            old(obj).wf(),
            old(obj).valid(list),
        ensures
            final(obj).wf(),
            final(obj).grown_from(old(obj)),
            res matches Ok(r) ==> final(obj).valid(r) && final(obj).value_of(r) == tuple_val(
                list_items(old(obj).value_of(list)),
            ),
            res is Ok <==> (list_items(old(obj).value_of(list)).len() == 0 || old(obj).spec_used()
                + crate::object::mm::seq_cell_size(list_items(old(obj).value_of(list)).len()) < MAX_HEAP_BYTES),
            list_items(old(obj).value_of(list)).len() == 0 ==> res == Ok::<Ref, OutOfMemory>(Ref::Unit)
                && final(obj).heap_view() == old(obj).heap_view(),
    {
        let items = collect_list(obj, list);
        Self::alloc_from(obj, items)
    }
}

impl Tuple {
    /// A new tuple of the values of the array `array`.
    pub fn from_array(obj: &mut Object, array: Ref) -> (res: Result<Ref, OutOfMemory>)
        requires
            old(obj).wf(),
            old(obj).value_of(array) is Array,
        ensures
            final(obj).wf(),
            final(obj).grown_from(old(obj)),
            res matches Ok(r) ==> final(obj).valid(r) && final(obj).value_of(r) == tuple_val(
                array_items(old(obj).value_of(array)),
            ),
    {
        let n = Array::len(obj, array);
        let mut items: Vec<Ref> = Vec::new();
        let mut i: usize = 0;
        while i < n
            invariant
                obj.wf(),
                obj.value_of(array) is Array,
                n == array_items(obj.value_of(array)).len(),
                i <= n,
                all_valid(obj, items@),
                values_of(obj, items@) == array_items(obj.value_of(array)).take(i as int),
            decreases n - i,
        {
            let ghost i0 = items@;
            items.push(Array::get(obj, array, i));
            proof {
                assert(values_of(obj, items@) =~= values_of(obj, i0).push(array_items(obj.value_of(array))[i as int]));
                assert(array_items(obj.value_of(array)).take(i + 1) =~= array_items(obj.value_of(array)).take(
                    i as int,
                ).push(array_items(obj.value_of(array))[i as int]));
            }
            i = i + 1;
        }
        proof {
            assert(array_items(obj.value_of(array)).take(n as int) =~= array_items(obj.value_of(array)));
        }
        Self::alloc_from(obj, items)
    }
}

/// Builds a tuple: the values are pushed in order and the tuple is made at
/// the end.
pub struct TupleBuilder {
    items: Vec<Ref>,
}

impl TupleBuilder {
    /// The values pushed so far.
    pub closed spec fn items(&self) -> Seq<Ref> {
        self.items@
    }

    /// A builder with no value.
    pub fn new() -> (b: Self)
        ensures
            b.items().len() == 0,
    {
        TupleBuilder { items: Vec::new() }
    }

    /// Adds `v` after the values pushed so far.
    pub fn push(&mut self, v: Ref)
        ensures
            final(self).items() == old(self).items().push(v),
    {
        self.items.push(v);
    }

    /// The tuple of the pushed values.
    pub fn get(self, obj: &mut Object) -> (res: Result<Ref, OutOfMemory>)
        requires
            old(obj).wf(),
            all_valid(old(obj), self.items()),
        ensures
            final(obj).wf(),
            final(obj).grown_from(old(obj)),
            res matches Ok(r) ==> final(obj).valid(r) && final(obj).value_of(r) == tuple_val(
                values_of(old(obj), self.items()),
            ),
            res is Ok <==> (self.items().len() == 0 || old(obj).spec_used() + crate::object::mm::seq_cell_size(
                self.items().len(),
            ) < MAX_HEAP_BYTES),
    {
        Tuple::alloc_from(obj, self.items)
    }
}

/// The tuple of the values `args`.
pub fn tuple(obj: &mut Object, args: Vec<Ref>) -> (res: Result<Ref, Exception>)
    requires
        old(obj).wf(),
        all_valid(old(obj), args@),
    ensures
        final(obj).wf(),
        final(obj).grown_from(old(obj)),
        res matches Ok(r) ==> final(obj).valid(r) && final(obj).value_of(r) == tuple_val(values_of(old(obj), args@)),
        res matches Err(e) ==> e is OutOfMemory,
        res is Ok <==> (args@.len() == 0 || old(obj).spec_used() + crate::object::mm::seq_cell_size(args@.len())
            < MAX_HEAP_BYTES),
{
    match Tuple::alloc_from(obj, args) {
        Ok(r) => Ok(r),
        Err(_) => Err(Exception::OutOfMemory),
    }
}

/// `v` is a tuple.
pub fn is_tuple(obj: &Object, v: Ref) -> (res: bool)
    requires
        obj.wf(),
    ensures
        res == is_tuple_val(obj.value_of(v)),
{
    Tuple::is(obj, v)
}

/// The number of values of the tuple `v`.
pub fn tuple_len(obj: &Object, v: Ref) -> (res: Result<Ref, Exception>)
    requires
        obj.wf(),
    ensures
        is_tuple_val(obj.value_of(v)) ==> res == Ok::<Ref, Exception>(Ref::Fixnum(tuple_items(obj.value_of(v)).len() as i64)),
        !is_tuple_val(obj.value_of(v)) ==> is_type_mismatch(res, v, TypeInfo::Tuple),
{
    if Tuple::is(obj, v) {
        let n = Tuple::len(obj, v);
        Ok(Ref::Fixnum(n as i64))
    } else {
        Err(Exception::TypeMismatch(TypeMismatch::new(v, TypeInfo::Tuple)))
    }
}


/// The value at `index` of the tuple `v`; `index` must be a non-negative
/// integer below the length.
pub fn tuple_ref(obj: &Object, v: Ref, index: Ref) -> (res: Result<Ref, Exception>)
    requires
        obj.wf(),
    ensures
        !is_tuple_val(obj.value_of(v)) ==> is_type_mismatch(res, v, TypeInfo::Tuple),
        is_tuple_val(obj.value_of(v)) ==> match index {
            Ref::Fixnum(i) => if 0 <= i < tuple_items(obj.value_of(v)).len() {
                obj.ok_value(res, tuple_items(obj.value_of(v))[i as int])
            } else {
                is_out_of_bounds(res, v)
            },
            _ => is_type_mismatch(res, index, TypeInfo::Fixnum),
        },
{
    if !Tuple::is(obj, v) {
        return Err(Exception::TypeMismatch(TypeMismatch::new(v, TypeInfo::Tuple)));
    }
    match index {
        Ref::Fixnum(i) => {
            let n = Tuple::len(obj, v);
            if i < 0 || i as u64 >= n as u64 {
                let shown: usize = if i < 0 { 0 } else { i as usize };
                Err(Exception::OutOfBounds(OutOfBounds::new(v, shown)))
            } else {
                Ok(Tuple::get(obj, v, i as usize))
            }
        },
        _ => Err(Exception::TypeMismatch(TypeMismatch::new(index, TypeInfo::Fixnum))),
    }
}


/// The tuple builtin named `k`, if there is one.
pub open spec fn tuple_builtin(k: Seq<char>) -> Option<crate::value::func::FuncId> {
    if k == "tuple-ref"@ {
        Some(crate::value::func::FuncId::TupleRef)
    } else if k == "tuple-len"@ {
        Some(crate::value::func::FuncId::TupleLen)
    } else if k == "tuple?"@ {
        Some(crate::value::func::FuncId::IsTuple)
    } else if k == "tuple"@ {
        Some(crate::value::func::FuncId::Tuple)
    } else {
        None
    }
}

/// Defines the tuple builtins.
pub fn register_global(obj: &mut Object)
    requires
        old(obj).wf(),
    ensures
        final(obj).redefined_from(old(obj)),
        forall|k: Seq<char>|
            #[trigger] final(obj).global(k) == match tuple_builtin(k) {
                Some(id) => Some(Ref::Func(id)),
                None => old(obj).global(k),
            },
{
    obj.define_global_str("tuple", Ref::Func(crate::value::func::FuncId::Tuple));
    obj.define_global_str("tuple?", Ref::Func(crate::value::func::FuncId::IsTuple));
    obj.define_global_str("tuple-len", Ref::Func(crate::value::func::FuncId::TupleLen));
    obj.define_global_str("tuple-ref", Ref::Func(crate::value::func::FuncId::TupleRef));
}

} // verus!
