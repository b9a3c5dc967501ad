use vstd::prelude::*;

use crate::value::func::FuncId;
use crate::value::syntax::SyntaxId;
use crate::object::mm::{Cell, Heap};
use crate::object::Object;

pub mod func;
pub mod syntax;
pub mod any;
pub mod list;
pub mod array;
pub mod tuple;
pub mod bool;
pub mod unit;
pub mod string;
pub mod symbol;
pub mod keyword;
pub mod number;
pub mod iform;
pub mod compiled;
pub mod app;
pub mod object_ref;
pub mod reply;
pub mod text;

verus! {

/// A reference to a value.
///
/// Immediate values (nil, booleans, unit, the match failure marker, small
/// integers, builtin functions and syntaxes) are held in the reference itself.
/// Every other value lives in a cell of an object's heap; `Ptr(index, reply)`
/// names that cell, and `reply` marks a value that holds a reply which has not
/// been received yet.
#[derive(Clone, Copy, Debug, PartialEq, Eq, Structural)]
pub enum Ref {
    Nil,
    True,
    False,
    Unit,
    MatchFail,
    Fixnum(i64),
    Func(FuncId),
    Syntax(SyntaxId),
    Ptr(usize, bool),
}

/// The heap index a reference points to (meaningful for `Ptr` only).
pub open spec fn ref_index(r: Ref) -> int {
    match r {
        Ref::Ptr(i, _) => i as int,
        _ => -1,
    }
}

/// `r` is an immediate value or points below `bound`.
pub open spec fn ref_below(r: Ref, bound: int) -> bool {
    r is Ptr ==> ref_index(r) < bound
}

/// Every reference of `s` is an immediate value or points below `bound`.
pub open spec fn refs_below(s: Seq<Ref>, bound: int) -> bool {
    forall|k: int| 0 <= k < s.len() ==> #[trigger] ref_below(s[k], bound)
}

/// `r` points to the heap cell `j`.
pub open spec fn points_to(r: Ref, j: int) -> bool {
    r is Ptr && ref_index(r) == j
}

/// Some reference of `s` points to the heap cell `j`.
pub open spec fn some_points_to(s: Seq<Ref>, j: int) -> bool {
    exists|k: int| 0 <= k < s.len() && #[trigger] points_to(s[k], j)
}

/// The pointer part of a reference, without its reply mark.
pub open spec fn strip_reply(r: Ref) -> Ref {
    match r {
        Ref::Ptr(i, _) => Ref::Ptr(i, false),
        _ => r,
    }
}

/// Tells whether the reference names a heap cell.
pub fn value_is_pointer(v: &Ref) -> (res: bool)
    ensures
        res == v.is_ptr(),
{
    match v {
        Ref::Ptr(_, _) => true,
        _ => false,
    }
}

/// Tells whether the reference is marked as holding a reply.
pub fn has_replytype(v: &Ref) -> (res: bool)
    ensures
        res == (v matches Ref::Ptr(_, true)),
{
    match v {
        Ref::Ptr(_, flag) => *flag,
        _ => false,
    }
}

/// Marks a heap reference as holding a reply; immediate values are unchanged.
pub fn set_has_replytype_flag(v: &mut Ref)
    ensures
        *final(v) == (match *old(v) {
            Ref::Ptr(i, _) => Ref::Ptr(i, true),
            other => other,
        }),
{
    match *v {
        Ref::Ptr(i, _) => {
            *v = Ref::Ptr(i, true);
        },
        _ => {},
    }
}

/// Removes the reply mark of a heap reference.
pub fn clear_has_replytype_flag(v: &mut Ref)
    ensures
        *final(v) == strip_reply(*old(v)),
{
    match *v {
        Ref::Ptr(i, _) => {
            *v = Ref::Ptr(i, false);
        },
        _ => {},
    }
}

/// The heap reference without its reply mark.
pub fn ptr_value(v: &Ref) -> (res: Ref)
    ensures
        res == strip_reply(*v),
{
    match v {
        Ref::Ptr(i, _) => Ref::Ptr(*i, false),
        _ => *v,
    }
}

impl Ref {
    pub open spec fn is_ptr(self) -> bool {
        self is Ptr
    }
}


/// Replaces the value `v` refers to by its answer: each reply in it by the
/// value the reply holds. Every reply holds its answer once it exists, so
/// there always is one (`true`), unless memory runs out.
pub fn check_reply(v: &mut Ref, obj: &mut Object) -> (res: Result<bool, crate::object::mm::OutOfMemory>)
    requires
        old(obj).wf(),
        old(obj).valid(*old(v)),
    ensures
        final(obj).wf(),
        final(obj).grown_from(old(obj)),
        res matches Ok(b) ==> b && final(obj).valid(*final(v)) && final(obj).value_of(*final(v))
            == crate::value::reply::forced(old(obj).value_of(*old(v))),
        res is Err ==> *final(v) == *old(v),
        res is Ok <==> (crate::value::reply::force_size(old(obj).value_of(*old(v))) == 0 || old(obj).spec_used()
            + crate::value::reply::force_size(old(obj).value_of(*old(v))) < crate::object::mm::MAX_HEAP_BYTES),
{
    match crate::value::reply::force(obj, *v) {
        Ok(f) => {
            *v = f;
            Ok(true)
        },
        Err(e) => Err(e),
    }
}

/// The types of values.
#[derive(Clone, Copy, Debug, PartialEq, Eq, Structural)]
pub enum TypeInfo {
    Any,
    Bool,
    List,
    Tuple,
    MatchFail,
    Fixnum,
    Integer,
    Real,
    Number,
    String,
    Symbol,
    Keyword,
    Array,
    Func,
    Syntax,
    Closure,
    App,
    ObjectRef,
    Reply,
}

/// The type of the value `r` names in `h`.
pub open spec fn spec_typeinfo(h: Seq<Cell>, r: Ref) -> TypeInfo {
    match r {
        Ref::Nil => TypeInfo::List,
        Ref::True => TypeInfo::Bool,
        Ref::False => TypeInfo::Bool,
        Ref::Unit => TypeInfo::Tuple,
        Ref::MatchFail => TypeInfo::MatchFail,
        Ref::Fixnum(_) => TypeInfo::Fixnum,
        Ref::Func(_) => TypeInfo::Func,
        Ref::Syntax(_) => TypeInfo::Syntax,
        Ref::Ptr(i, _) => if i < h.len() {
            match h[i as int] {
                Cell::Integer(_) => TypeInfo::Integer,
                Cell::Real(_) => TypeInfo::Real,
                Cell::Str(_) => TypeInfo::String,
                Cell::Symbol(_) => TypeInfo::Symbol,
                Cell::Keyword(_) => TypeInfo::Keyword,
                Cell::Pair(_, _) => TypeInfo::List,
                Cell::Array(_) => TypeInfo::Array,
                Cell::Tuple(_) => TypeInfo::Tuple,
                Cell::ObjectRef(_) => TypeInfo::ObjectRef,
                Cell::Closure(_, _) => TypeInfo::Closure,
                Cell::Reply(_) => TypeInfo::Reply,
            }
        } else {
            TypeInfo::Any
        },
    }
}

/// A value of type `actual` is also of type `wanted`.
pub open spec fn spec_is_type(actual: TypeInfo, wanted: TypeInfo) -> bool {
    ||| actual == wanted
    ||| wanted == TypeInfo::Any
    ||| wanted == TypeInfo::Number && (actual == TypeInfo::Fixnum || actual == TypeInfo::Integer || actual
        == TypeInfo::Real)
    ||| (actual == TypeInfo::Fixnum || actual == TypeInfo::Integer) && (wanted == TypeInfo::Fixnum || wanted
        == TypeInfo::Integer || wanted == TypeInfo::Real)
    ||| wanted == TypeInfo::App && (actual == TypeInfo::Func || actual == TypeInfo::Closure)
}

/// The type of the value `r` names in the heap of `obj`.
pub fn get_typeinfo(obj: &Object, r: Ref) -> (t: TypeInfo)
    ensures
        t == spec_typeinfo(obj.heap_view(), r),
{
    match r {
        Ref::Nil => TypeInfo::List,
        Ref::True => TypeInfo::Bool,
        Ref::False => TypeInfo::Bool,
        Ref::Unit => TypeInfo::Tuple,
        Ref::MatchFail => TypeInfo::MatchFail,
        Ref::Fixnum(_) => TypeInfo::Fixnum,
        Ref::Func(_) => TypeInfo::Func,
        Ref::Syntax(_) => TypeInfo::Syntax,
        Ref::Ptr(i, _) => {
            let h = obj.heap();
            if i < h.len() {
                match h.kind(i) {
                    crate::object::mm::CellKind::Integer => TypeInfo::Integer,
                    crate::object::mm::CellKind::Real => TypeInfo::Real,
                    crate::object::mm::CellKind::Str => TypeInfo::String,
                    crate::object::mm::CellKind::Symbol => TypeInfo::Symbol,
                    crate::object::mm::CellKind::Keyword => TypeInfo::Keyword,
                    crate::object::mm::CellKind::Pair => TypeInfo::List,
                    crate::object::mm::CellKind::Array => TypeInfo::Array,
                    crate::object::mm::CellKind::Tuple => TypeInfo::Tuple,
                    crate::object::mm::CellKind::ObjectRef => TypeInfo::ObjectRef,
                    crate::object::mm::CellKind::Closure => TypeInfo::Closure,
                    crate::object::mm::CellKind::Reply => TypeInfo::Reply,
                }
            } else {
                TypeInfo::Any
            }
        },
    }
}

/// The name of the type `t`.
pub open spec fn spec_typename(t: TypeInfo) -> Seq<char> {
    match t {
        TypeInfo::Any => "Any"@,
        TypeInfo::Bool => "Bool"@,
        TypeInfo::List => "List"@,
        TypeInfo::Tuple => "Tuple"@,
        TypeInfo::MatchFail => "MatchFail"@,
        TypeInfo::Fixnum => "Fixnum"@,
        TypeInfo::Integer => "Integer"@,
        TypeInfo::Real => "Real"@,
        TypeInfo::Number => "Number"@,
        TypeInfo::String => "String"@,
        TypeInfo::Symbol => "Symbol"@,
        TypeInfo::Keyword => "Keyword"@,
        TypeInfo::Array => "Array"@,
        TypeInfo::Func => "Func"@,
        TypeInfo::Syntax => "Syntax"@,
        TypeInfo::Closure => "Closure"@,
        TypeInfo::App => "App"@,
        TypeInfo::ObjectRef => "ObjectRef"@,
        TypeInfo::Reply => "Reply"@,
    }
}

/// The name of the type of the value `r` names in the heap of `obj`.
pub fn get_typename(obj: &Object, r: Ref) -> (name: &'static str)
    ensures
        name@ == spec_typename(spec_typeinfo(obj.heap_view(), r)),
{
    typename(get_typeinfo(obj, r))
}

/// The name of the type `t`.
pub fn typename(t: TypeInfo) -> (name: &'static str)
    ensures
        name@ == spec_typename(t),
{
    match t {
        TypeInfo::Any => "Any",
        TypeInfo::Bool => "Bool",
        TypeInfo::List => "List",
        TypeInfo::Tuple => "Tuple",
        TypeInfo::MatchFail => "MatchFail",
        TypeInfo::Fixnum => "Fixnum",
        TypeInfo::Integer => "Integer",
        TypeInfo::Real => "Real",
        TypeInfo::Number => "Number",
        TypeInfo::String => "String",
        TypeInfo::Symbol => "Symbol",
        TypeInfo::Keyword => "Keyword",
        TypeInfo::Array => "Array",
        TypeInfo::Func => "Func",
        TypeInfo::Syntax => "Syntax",
        TypeInfo::Closure => "Closure",
        TypeInfo::App => "App",
        TypeInfo::ObjectRef => "ObjectRef",
        TypeInfo::Reply => "Reply",
    }
}


/// The number of bytes copying the value `r` of the heap `h` takes: a new
/// cell for its cell and, one by one, for every cell it refers to.
pub open spec fn clone_size(h: Seq<Cell>, r: Ref) -> nat
    decreases crate::value::any::ref_rank(r), 1nat, 0nat,
{
    match r {
        Ref::Ptr(i, _) => if (i as int) < h.len() {
            crate::object::mm::cell_size(h[i as int]) + refs_clone_size(
                h,
                crate::object::mm::cell_refs(h[i as int]),
                i as int,
            )
        } else {
            0
        },
        _ => 0,
    }
}

/// The number of bytes copying the values `s` (held by the cell `i`) takes.
pub open spec fn refs_clone_size(h: Seq<Cell>, s: Seq<Ref>, i: int) -> nat
    decreases i + 1, 0nat, s.len(),
{
    if s.len() == 0 || i < 0 {
        0
    } else {
        refs_clone_size(h, s.drop_last(), i) + if crate::value::any::ref_rank(s.last()) <= i {
            clone_size(h, s.last())
        } else {
            0
        }
    }
}

/// Copying the first values of `s` takes no more than copying all of them.
proof fn lemma_refs_clone_size_take(h: Seq<Cell>, s: Seq<Ref>, i: int, j: int)
    requires
        0 <= i,
        0 <= j <= s.len(),
    ensures
        refs_clone_size(h, s.take(j), i) <= refs_clone_size(h, s, i),
    decreases s.len() - j,
{
    if j < s.len() {
        lemma_refs_clone_size_take(h, s, i, j + 1);
        assert(s.take(j + 1).drop_last() =~= s.take(j));
    } else {
        assert(s.take(j) =~= s);
    }
}

/// Copies the value `v` of `src` into the heap of `dst`: the copy denotes
/// in `dst` what `v` denotes in `src`.
#[verifier::rlimit(40)]
pub fn value_clone(src: &Object, v: Ref, dst: &mut Object) -> (res: Result<Ref, crate::object::mm::OutOfMemory>)
    requires
        src.wf(),
        src.valid(v),
        old(dst).wf(),
    ensures
        final(dst).wf(),
        final(dst).grown_from(old(dst)),
        res matches Ok(r) ==> final(dst).valid(r) && final(dst).value_of(r) == src.value_of(v),
        res is Ok <==> (clone_size(src.heap_view(), v) == 0 || old(dst).spec_used() + clone_size(src.heap_view(), v)
            < crate::object::mm::MAX_HEAP_BYTES),
        res is Ok ==> final(dst).spec_used() == old(dst).spec_used() + clone_size(src.heap_view(), v),
    decreases ref_rank_of(v), 1nat,
{
    proof {
        dst.lemma_grown_refl();
    }
    match v {
        Ref::Ptr(i, _) => {
            proof {
                src.lemma_wf();
                crate::value::any::lemma_refs_rank(src.heap_view(), i as int);
            }
            let h = src.heap();
            let kind = h.kind(i);
            let ghost hc = src.heap_view()[i as int];
            let ghost sh = src.heap_view();
            let ghost kids = refs_clone_size(sh, crate::object::mm::cell_refs(hc), i as int);
            let ghost u0 = old(dst).spec_used();
            proof {
                assert(clone_size(sh, v) == crate::object::mm::cell_size(hc) + kids);
                let rs = crate::object::mm::cell_refs(hc);
                if rs.len() == 0 {
                    assert(kids == 0);
                } else if rs.len() == 1 {
                    assert(rs.drop_last() =~= Seq::<Ref>::empty());
                    assert(refs_clone_size(sh, rs.drop_last(), i as int) == 0);
                    assert(crate::value::any::ref_rank(rs[0]) <= i);
                    assert(rs.last() == rs[0]);
                    assert(kids == clone_size(sh, rs[0]));
                } else if rs.len() == 2 {
                    let r1 = rs.drop_last();
                    assert(r1.drop_last() =~= Seq::<Ref>::empty());
                    assert(refs_clone_size(sh, r1.drop_last(), i as int) == 0);
                    assert(r1.last() == rs[0]);
                    assert(rs.last() == rs[1]);
                    assert(crate::value::any::ref_rank(rs[0]) <= i);
                    assert(crate::value::any::ref_rank(rs[1]) <= i);
                    assert(refs_clone_size(sh, r1, i as int) == clone_size(sh, rs[0]));
                    assert(kids == clone_size(sh, rs[0]) + clone_size(sh, rs[1]));
                }
            }
            let cell = match kind {
                crate::object::mm::CellKind::Integer => Cell::Integer(h.integer(i)),
                crate::object::mm::CellKind::Real => Cell::Real(h.text(i)),
                crate::object::mm::CellKind::Str => Cell::Str(h.text(i)),
                crate::object::mm::CellKind::Symbol => Cell::Symbol(h.text(i)),
                crate::object::mm::CellKind::Keyword => Cell::Keyword(h.text(i)),
                crate::object::mm::CellKind::ObjectRef => Cell::ObjectRef(h.object_id(i)),
                crate::object::mm::CellKind::Pair => {
                    let (a, b) = h.pair(i);
                    proof {
                        assert(crate::object::mm::cell_refs(hc)[0] == a);
                        assert(crate::object::mm::cell_refs(hc)[1] == b);
                    }
                    let ca = match value_clone(src, a, dst) {
                        Ok(r) => r,
                        Err(e) => {
                            return Err(e);
                        },
                    };
                    let ghost d1 = *dst;
                    proof {
                        assert(crate::object::mm::cell_refs(hc).len() == 2);
                    }
                    let cb = match value_clone(src, b, dst) {
                        Ok(r) => r,
                        Err(e) => {
                            proof {
                                dst.lemma_grown_trans(&d1, old(dst));
                            }
                            return Err(e);
                        },
                    };
                    proof {
                        dst.lemma_grown_trans(&d1, old(dst));
                        crate::value::any::lemma_denote_extends(d1.heap_view(), dst.heap_view(), ca);
                    }
                    Cell::Pair(ca, cb)
                },
                crate::object::mm::CellKind::Reply => {
                    let a = h.reply_value(i);
                    proof {
                        assert(crate::object::mm::cell_refs(hc)[0] == a);
                    }
                    let ca = match value_clone(src, a, dst) {
                        Ok(r) => r,
                        Err(e) => {
                            return Err(e);
                        },
                    };
                    Cell::Reply(ca)
                },
                crate::object::mm::CellKind::Array | crate::object::mm::CellKind::Tuple
                | crate::object::mm::CellKind::Closure => {
                    let refs = h.cell_children(i);
                    proof {
                        crate::value::any::lemma_container_cell(src.heap_view(), i as int);
                    }
                    let copies = match clone_refs(src, &refs, i, dst) {
                        Ok(c) => c,
                        Err(e) => {
                            return Err(e);
                        },
                    };
                    match kind {
                        crate::object::mm::CellKind::Array => Cell::Array(copies),
                        crate::object::mm::CellKind::Tuple => Cell::Tuple(copies),
                        _ => Cell::Closure(h.closure_code(i), copies),
                    }
                },
            };
            let ghost d1 = *dst;
            proof {
                assert(d1.spec_used() == u0 + kids);
                let rc = crate::object::mm::cell_refs(cell);
                let rh = crate::object::mm::cell_refs(hc);
                assert(crate::object::mm::same_shape(cell, hc));
                assert(rc.len() == rh.len());
                assert forall|k: int| 0 <= k < rc.len() implies crate::object::mm::valid_ref(d1.heap_view(), #[trigger] rc[k])
                    && d1.value_of(rc[k]) == src.value_of(rh[k]) by {
                    match cell {
                        Cell::Pair(a, b) => {
                            assert(rc[0] == a && rc[1] == b);
                        },
                        Cell::Reply(a) => {
                            assert(rc[0] == a);
                        },
                        _ => {},
                    }
                }
                assert(crate::object::mm::valid_refs(d1.heap_view(), rc));
                assert(crate::object::mm::cell_size(cell) == crate::object::mm::cell_size(hc));
            }
            let r = dst.allocate(cell);
            proof {
                if r is Ok {
                    crate::object::mm::lemma_sum_sizes_push(d1.heap_view(), cell);
                }
                dst.lemma_grown_trans(&d1, old(dst));
                if r is Ok {
                    crate::value::any::lemma_copy_cell(src.heap_view(), i as int, d1.heap_view(), cell);
                }
            }
            r
        },
        _ => Ok(v),
    }
}

/// Copies the values `refs` (held by the cell `i` of `src`) into the heap
/// of `dst`, in order.
fn clone_refs(src: &Object, refs: &Vec<Ref>, i: usize, dst: &mut Object) -> (res: Result<
    Vec<Ref>,
    crate::object::mm::OutOfMemory,
>)
    requires
        src.wf(),
        old(dst).wf(),
        forall|k: int| 0 <= k < refs@.len() ==> ref_below(#[trigger] refs@[k], i as int),
        i < src.heap_view().len(),
    ensures
        final(dst).wf(),
        final(dst).grown_from(old(dst)),
        res matches Ok(c) ==> c@.len() == refs@.len() && crate::value::list::all_valid(final(dst), c@)
            && forall|k: int| 0 <= k < c@.len() ==> #[trigger] final(dst).value_of(c@[k]) == src.value_of(refs@[k]),
        res is Ok ==> final(dst).spec_used() == old(dst).spec_used() + refs_clone_size(src.heap_view(), refs@, i as int),
        res is Err ==> refs_clone_size(src.heap_view(), refs@, i as int) > 0 && old(dst).spec_used() + refs_clone_size(
            src.heap_view(),
            refs@,
            i as int,
        ) >= crate::object::mm::MAX_HEAP_BYTES,
    decreases i + 1, 0nat,
{
    proof {
        dst.lemma_grown_refl();
    }
    let mut out: Vec<Ref> = Vec::new();
    let mut k: usize = 0;
    while k < refs.len()
        invariant
            k <= refs@.len(),
            out@.len() == k,
            src.wf(),
            i < src.heap_view().len(),
            forall|j: int| 0 <= j < refs@.len() ==> ref_below(#[trigger] refs@[j], i as int),
            dst.wf(),
            dst.grown_from(old(dst)),
            crate::value::list::all_valid(dst, out@),
            forall|j: int| 0 <= j < k ==> #[trigger] dst.value_of(out@[j]) == src.value_of(refs@[j]),
            dst.spec_used() == old(dst).spec_used() + refs_clone_size(src.heap_view(), refs@.take(k as int), i as int),
        decreases refs@.len() - k,
    {
        let ghost d0 = *dst;
        proof {
            assert(refs@.take(k + 1).drop_last() =~= refs@.take(k as int));
            assert(refs@.take(k + 1).last() == refs@[k as int]);
            assert(ref_below(refs@[k as int], i as int));
        }
        let c = match value_clone(src, refs[k], dst) {
            Ok(c) => c,
            Err(e) => {
                proof {
                    dst.lemma_grown_trans(&d0, old(dst));
                    lemma_refs_clone_size_take(src.heap_view(), refs@, i as int, k + 1);
                }
                return Err(e);
            },
        };
        proof {
            dst.lemma_grown_trans(&d0, old(dst));
        }
        let ghost o0 = out@;
        out.push(c);
        proof {
            assert(out@[k as int] == c);
            assert forall|j: int| 0 <= j < out@.len() implies dst.valid(#[trigger] out@[j]) by {
                if j < o0.len() {
                    assert(out@[j] == o0[j]);
                    assert(d0.valid(o0[j]));
                }
            }
            assert forall|j: int| 0 <= j < k + 1 implies #[trigger] dst.value_of(out@[j]) == src.value_of(refs@[j]) by {
                if j < k {
                    assert(out@[j] == o0[j]);
                    assert(d0.valid(o0[j]));
                    assert(d0.value_of(o0[j]) == src.value_of(refs@[j]));
                    crate::value::any::lemma_denote_extends(d0.heap_view(), dst.heap_view(), o0[j]);
                }
            }
        }
        k = k + 1;
    }
    proof {
        assert(refs@.take(k as int) =~= refs@);
    }
    Ok(out)
}

/// One more than the heap index of a pointer; 0 for immediate values.
pub open spec fn ref_rank_of(r: Ref) -> nat {
    crate::value::any::ref_rank(r)
}

} // verus!
