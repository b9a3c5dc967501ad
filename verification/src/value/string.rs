use vstd::prelude::*;

use crate::object::Object;
use crate::object::mm::{Cell, OutOfMemory, cell_refs, cell_size, MAX_HEAP_BYTES};
use crate::value::Ref;
use crate::value::any::Val;
use crate::object::mm::copy_chars;

verus! {

/// What kind of text cell to make.
#[derive(Clone, Copy, Debug, PartialEq, Eq, Structural)]
pub enum TextKind {
    Str,
    Symbol,
    Keyword,
}

/// The text cell of kind `k` holding `s`.
pub open spec fn text_cell(k: TextKind, s: Vec<char>) -> Cell {
    match k {
        TextKind::Str => Cell::Str(s),
        TextKind::Symbol => Cell::Symbol(s),
        TextKind::Keyword => Cell::Keyword(s),
    }
}

/// The value a text cell of kind `k` holding `s` denotes.
pub open spec fn text_val(k: TextKind, s: Seq<char>) -> Val {
    match k {
        TextKind::Str => Val::Str(s),
        TextKind::Symbol => Val::Sym(s),
        TextKind::Keyword => Val::Kw(s),
    }
}

/// Stores a text cell of kind `k` holding a copy of `s`.
pub fn alloc_text(obj: &mut Object, k: TextKind, s: &Vec<char>) -> (res: Result<Ref, OutOfMemory>)
    requires
        old(obj).wf(),
    ensures
        final(obj).wf(),
        final(obj).grown_from(old(obj)),
        res matches Ok(r) ==> final(obj).valid(r) && final(obj).value_of(r) == text_val(k, s@),
        res is Err ==> final(obj).heap_view() == old(obj).heap_view(),
        res is Ok <==> old(obj).spec_used() + cell_size(text_cell(k, *s)) < MAX_HEAP_BYTES,
{
    let copy = copy_chars(s);
    let cell = match k {
        TextKind::Str => Cell::Str(copy),
        TextKind::Symbol => Cell::Symbol(copy),
        TextKind::Keyword => Cell::Keyword(copy),
    };
    proof {
        assert(cell_refs(cell) =~= Seq::<Ref>::empty());
        assert(cell_size(cell) == cell_size(text_cell(k, *s)));
    }
    let res = obj.allocate(cell);
    proof {
        if let Ok(r) = res {
            assert(obj.heap_view()[crate::value::ref_index(r)] == cell);
        }
    }
    res
}

/// Strings.
pub struct NString {}

impl NString {
    /// A new string holding `s`.
    pub fn allocate(obj: &mut Object, s: &Vec<char>) -> (res: Result<Ref, OutOfMemory>)
        requires
            old(obj).wf(),
        ensures
            final(obj).wf(),
            final(obj).grown_from(old(obj)),
            res matches Ok(r) ==> final(obj).valid(r) && final(obj).value_of(r) == Val::Str(s@),
            res is Err ==> final(obj).heap_view() == old(obj).heap_view(),
            res is Ok <==> old(obj).spec_used() + cell_size(text_cell(TextKind::Str, *s)) < MAX_HEAP_BYTES,
    {
        alloc_text(obj, TextKind::Str, s)
    }
}

/// The characters of `s`.
pub fn str_to_chars(s: &str) -> (res: Vec<char>)
    ensures
        res@ == s@,
{
    let mut res: Vec<char> = Vec::new();
    for c in it: s.chars()
        invariant
            res@ == it.seq().take(it.index() as int),
            it.seq() == s@,
    {
        res.push(c);
        proof {
            assert(it.seq().take(it.index() + 1) =~= it.seq().take(it.index() as int).push(c));
        }
    }
    proof {
        assert(s@.take(s@.len() as int) =~= s@);
    }
    res
}

} // verus!
