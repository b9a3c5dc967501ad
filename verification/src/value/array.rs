use vstd::prelude::*;

use crate::err::{Exception, OutOfBounds, TypeMismatch, is_type_mismatch, is_out_of_bounds};
use crate::object::Object;
use crate::object::mm::{Cell, OutOfMemory, cell_refs, cell_size, MAX_HEAP_BYTES};
use crate::value::{Ref, TypeInfo, ref_below, ref_index};
use crate::value::any::{Val, denote, denote_seq, lemma_container_cell, lemma_denote_extends};
use crate::value::list::{List, values_of, all_valid, chain_len, list_items, lemma_list_items_len};

verus! {

/// The values of the array `v` denotes.
pub open spec fn array_items(v: Val) -> Seq<Val> {
    match v {
        Val::Array(s) => s,
        _ => Seq::empty(),
    }
}

/// In a well-formed heap an array cell denotes the array of what its
/// references denote.
proof fn lemma_array_cell(obj: &Object, r: Ref)
    requires
        obj.wf(),
        r is Ptr,
        ref_index(r) < obj.heap_view().len(),
        obj.heap_view()[ref_index(r)] is Array,
    ensures
        obj.value_of(r) is Array,
        array_items(obj.value_of(r)).len() == cell_refs(obj.heap_view()[ref_index(r)]).len(),
        forall|k: int|
            0 <= k < cell_refs(obj.heap_view()[ref_index(r)]).len() ==> {
                &&& obj.valid(#[trigger] cell_refs(obj.heap_view()[ref_index(r)])[k])
                &&& array_items(obj.value_of(r))[k] == obj.value_of(cell_refs(obj.heap_view()[ref_index(r)])[k])
            },
{
    obj.lemma_wf();
    lemma_container_cell(obj.heap_view(), ref_index(r));
}

/// Only an array cell denotes an array.
proof fn lemma_array_value(obj: &Object, r: Ref)
    requires
        obj.value_of(r) is Array,
    ensures
        r is Ptr && ref_index(r) < obj.heap_view().len() && obj.heap_view()[ref_index(r)] is Array,
{
    match r {
        Ref::Ptr(i, _) => {
            if (i as int) < obj.heap_view().len() {
                match obj.heap_view()[i as int] {
                    Cell::Array(_) => {},
                    _ => {},
                }
            }
        },
        _ => {},
    }
}

/// Only the unit reference denotes unit.
pub proof fn lemma_unit_value(obj: &Object, r: Ref)
    ensures
        obj.value_of(r) is Unit ==> r == Ref::Unit,
{
    match r {
        Ref::Ptr(i, _) => {
            if (i as int) < obj.heap_view().len() {
                match obj.heap_view()[i as int] {
                    Cell::Tuple(_) => {},
                    _ => {},
                }
            }
        },
        _ => {},
    }
}

/// Operations on arrays.
pub struct Array {}

impl Array {
    /// `v` is an array.
    pub fn is(obj: &Object, v: Ref) -> (res: bool)
        requires
            obj.wf(),
        ensures
            res == (obj.value_of(v) is Array),
    {
        match v {
            Ref::Ptr(i, _) => {
                if i < obj.heap().len() {
                    match obj.heap().kind(i) {
                        crate::object::mm::CellKind::Array => {
                            proof {
                                lemma_array_cell(obj, v);
                            }
                            true
                        },
                        _ => {
                            proof {
                                if obj.value_of(v) is Array {
                                    lemma_array_value(obj, v);
                                }
                            }
                            false
                        },
                    }
                } else {
                    false
                }
            },
            _ => false,
        }
    }

    /// The number of values of the array `v`.
    pub fn len(obj: &Object, v: Ref) -> (n: usize)
        requires
            obj.wf(),
            obj.value_of(v) is Array,
        ensures
            n == array_items(obj.value_of(v)).len(),
    {
        proof {
            lemma_array_value(obj, v);
            lemma_array_cell(obj, v);
        }
        match v {
            Ref::Ptr(i, _) => obj.heap().refs_len(i),
            _ => 0,
        }
    }

    /// The value at `index` of the array `v`.
    pub fn get(obj: &Object, v: Ref, index: usize) -> (res: Ref)
        requires
            obj.wf(),
            obj.value_of(v) is Array,
            index < array_items(obj.value_of(v)).len(),
        ensures
            obj.valid(res),
            obj.value_of(res) == array_items(obj.value_of(v))[index as int],
    {
        proof {
            lemma_array_value(obj, v);
            lemma_array_cell(obj, v);
        }
        match v {
            Ref::Ptr(i, _) => obj.heap().ref_at(i, index),
            _ => Ref::Nil,
        }
    }

    /// A new array of the values of `items`.
    pub fn alloc_from(obj: &mut Object, items: Vec<Ref>) -> (res: Result<Ref, OutOfMemory>)
        requires
            old(obj).wf(),
            all_valid(old(obj), items@),
        ensures
            final(obj).wf(),
            final(obj).grown_from(old(obj)),
            res is Ok <==> old(obj).spec_used() + cell_size(Cell::Array(items)) < MAX_HEAP_BYTES,
            res matches Ok(r) ==> final(obj).valid(r) && final(obj).value_of(r) == Val::Array(
                values_of(old(obj), items@),
            ),
    {
        let ghost s = items@;
        let ghost c = Cell::Array(items);
        proof {
            assert forall|k: int| 0 <= k < cell_refs(c).len() implies ref_below(#[trigger] cell_refs(c)[k], old(obj).heap_view().len() as int) by {
                assert(old(obj).valid(s[k]));
            }
        }
        let res = obj.allocate(Cell::Array(items));
        proof {
            if let Ok(r) = res {
                assert(obj.heap_view()[ref_index(r)] == c);
                lemma_array_cell(obj, r);
                assert(array_items(obj.value_of(r)) =~= values_of(old(obj), s)) by {
                    assert forall|k: int| 0 <= k < s.len() implies #[trigger] array_items(obj.value_of(r))[k] == old(obj).value_of(s[k]) by {
                        assert(cell_refs(c)[k] == s[k]);
                        assert(old(obj).valid(s[k]));
                        lemma_denote_extends(old(obj).heap_view(), obj.heap_view(), s[k]);
                    }
                }
            }
        }
        res
    }

    /// A new array of the values of the list `list`.
    pub fn from_list(obj: &mut Object, list: Ref) -> (res: Result<Ref, OutOfMemory>)
        requires
            old(obj).wf(),
            old(obj).valid(list),
        ensures
            final(obj).wf(),
            final(obj).grown_from(old(obj)),
            res matches Ok(r) ==> final(obj).valid(r) && final(obj).value_of(r) == Val::Array(
                list_items(old(obj).value_of(list)),
            ),
            res is Ok <==> old(obj).spec_used() + crate::object::mm::seq_cell_size(
                list_items(old(obj).value_of(list)).len(),
            ) < MAX_HEAP_BYTES,
    {
        let items = collect_list(obj, list);
        Self::alloc_from(obj, items)
    }
}

/// The references of the values of the list `list`, in order.
pub fn collect_list(obj: &Object, list: Ref) -> (res: Vec<Ref>)
    requires
        obj.wf(),
        obj.valid(list),
    ensures
        all_valid(obj, res@),
        values_of(obj, res@) == list_items(obj.value_of(list)),
{
    let mut res: Vec<Ref> = Vec::new();
    let mut cur = list;
    proof {
        assert(values_of(obj, res@) + list_items(obj.value_of(cur)) =~= list_items(obj.value_of(list)));
    }
    while List::is_pair(obj, cur)
        invariant
            obj.wf(),
            obj.valid(cur),
            all_valid(obj, res@),
            values_of(obj, res@) + list_items(obj.value_of(cur)) == list_items(obj.value_of(list)),
        decreases crate::value::any::ref_rank(cur),
    {
        let ghost before = obj.value_of(cur);
        let ghost r0 = res@;
        let (h, t) = List::parts(obj, cur);
        res.push(h);
        proof {
            assert(list_items(before) == seq![obj.value_of(h)] + list_items(obj.value_of(t)));
            assert(values_of(obj, res@) =~= values_of(obj, r0).push(obj.value_of(h)));
            assert(values_of(obj, r0) + list_items(before) =~= values_of(obj, res@) + list_items(obj.value_of(t)));
        }
        cur = t;
    }
    proof {
        assert(list_items(obj.value_of(cur)) =~= Seq::<Val>::empty());
        assert(values_of(obj, res@) + list_items(obj.value_of(cur)) =~= values_of(obj, res@));
    }
    res
}

/// Builds an array: the values are pushed in order and the array is made at
/// the end.
pub struct ArrayBuilder {
    items: Vec<Ref>,
}

impl ArrayBuilder {
    /// The values pushed so far.
    pub closed spec fn items(&self) -> Seq<Ref> {
        self.items@
    }

    /// A builder with no value.
    pub fn new() -> (b: Self)
        ensures
            b.items().len() == 0,
    {
        ArrayBuilder { items: Vec::new() }
    }

    /// Adds `v` after the values pushed so far.
    pub fn push(&mut self, v: Ref)
        ensures
            final(self).items() == old(self).items().push(v),
    {
        self.items.push(v);
    }

    /// The array of the pushed values.
    pub fn get(self, obj: &mut Object) -> (res: Result<Ref, OutOfMemory>)
        requires
            old(obj).wf(),
            all_valid(old(obj), self.items()),
        ensures
            final(obj).wf(),
            final(obj).grown_from(old(obj)),
            res matches Ok(r) ==> final(obj).valid(r) && final(obj).value_of(r) == Val::Array(
                values_of(old(obj), self.items()),
            ),
    {
        Array::alloc_from(obj, self.items)
    }
}

/// The array of the values `args`.
pub fn array(obj: &mut Object, args: Vec<Ref>) -> (res: Result<Ref, Exception>)
    requires
        old(obj).wf(),
        all_valid(old(obj), args@),
    ensures
        final(obj).wf(),
        final(obj).grown_from(old(obj)),
        res matches Ok(r) ==> final(obj).valid(r) && final(obj).value_of(r) == Val::Array(values_of(old(obj), args@)),
        res matches Err(e) ==> e is OutOfMemory,
{
    match Array::alloc_from(obj, args) {
        Ok(r) => Ok(r),
        Err(_) => Err(Exception::OutOfMemory),
    }
}

/// `v` is an array.
pub fn is_array(obj: &Object, v: Ref) -> (res: bool)
    requires
        obj.wf(),
    ensures
        res == (obj.value_of(v) is Array),
{
    Array::is(obj, v)
}

/// The number of values of the array `v`.
pub fn array_len(obj: &Object, v: Ref) -> (res: Result<Ref, Exception>)
    requires
        obj.wf(),
    ensures
        obj.value_of(v) is Array ==> res == Ok::<Ref, Exception>(Ref::Fixnum(array_items(obj.value_of(v)).len() as i64)),
        !(obj.value_of(v) is Array) ==> is_type_mismatch(res, v, TypeInfo::Array),
{
    if Array::is(obj, v) {
        let n = Array::len(obj, v);
        Ok(Ref::Fixnum(n as i64))
    } else {
        Err(Exception::TypeMismatch(TypeMismatch::new(v, TypeInfo::Array)))
    }
}


/// The value at `index` of the array `v`; `index` must be a non-negative
/// integer below the length.
pub fn array_ref(obj: &Object, v: Ref, index: Ref) -> (res: Result<Ref, Exception>)
    requires
        obj.wf(),
    ensures
        !(obj.value_of(v) is Array) ==> is_type_mismatch(res, v, TypeInfo::Array),
        obj.value_of(v) is Array ==> match index {
            Ref::Fixnum(i) => if 0 <= i < array_items(obj.value_of(v)).len() {
                obj.ok_value(res, array_items(obj.value_of(v))[i as int])
            } else {
                is_out_of_bounds(res, v)
            },
            _ => is_type_mismatch(res, index, TypeInfo::Fixnum),
        },
{
    if !Array::is(obj, v) {
        return Err(Exception::TypeMismatch(TypeMismatch::new(v, TypeInfo::Array)));
    }
    match index {
        Ref::Fixnum(i) => {
            let n = Array::len(obj, v);
            if i < 0 || i as u64 >= n as u64 {
                let shown: usize = if i < 0 { 0 } else { i as usize };
                Err(Exception::OutOfBounds(OutOfBounds::new(v, shown)))
            } else {
                Ok(Array::get(obj, v, i as usize))
            }
        },
        _ => Err(Exception::TypeMismatch(TypeMismatch::new(index, TypeInfo::Fixnum))),
    }
}


/// The array builtin named `k`, if there is one.
pub open spec fn array_builtin(k: Seq<char>) -> Option<crate::value::func::FuncId> {
    if k == "array-ref"@ {
        Some(crate::value::func::FuncId::ArrayRef)
    } else if k == "array-len"@ {
        Some(crate::value::func::FuncId::ArrayLen)
    } else if k == "array?"@ {
        Some(crate::value::func::FuncId::IsArray)
    } else if k == "array"@ {
        Some(crate::value::func::FuncId::Array)
    } else {
        None
    }
}

/// Defines the array builtins.
pub fn register_global(obj: &mut Object)
    requires
        old(obj).wf(),
    ensures
        final(obj).redefined_from(old(obj)),
        forall|k: Seq<char>|
            #[trigger] final(obj).global(k) == match array_builtin(k) {
                Some(id) => Some(Ref::Func(id)),
                None => old(obj).global(k),
            },
{
    obj.define_global_str("array", Ref::Func(crate::value::func::FuncId::Array));
    obj.define_global_str("array?", Ref::Func(crate::value::func::FuncId::IsArray));
    obj.define_global_str("array-len", Ref::Func(crate::value::func::FuncId::ArrayLen));
    obj.define_global_str("array-ref", Ref::Func(crate::value::func::FuncId::ArrayRef));
}

} // verus!
