use vstd::prelude::*;

use crate::object::Object;
use crate::object::mm::OutOfMemory;
use crate::value::Ref;
use crate::value::any::Val;
use crate::value::string::{TextKind, alloc_text};

verus! {

/// The character of the decimal digit `d`.
pub open spec fn digit_char(d: nat) -> char {
    if d == 0 {
        '0'
    } else if d == 1 {
        '1'
    } else if d == 2 {
        '2'
    } else if d == 3 {
        '3'
    } else if d == 4 {
        '4'
    } else if d == 5 {
        '5'
    } else if d == 6 {
        '6'
    } else if d == 7 {
        '7'
    } else if d == 8 {
        '8'
    } else {
        '9'
    }
}

/// The decimal notation of `n`.
pub open spec fn decimal(n: nat) -> Seq<char>
    decreases n,
{
    if n < 10 {
        seq![digit_char(n)]
    } else {
        decimal(n / 10).push(digit_char(n % 10))
    }
}

/// The character of the decimal digit `d`.
fn digit(d: u64) -> (c: char)
    requires
        d < 10,
    ensures
        c == digit_char(d as nat),
{
    if d == 0 {
        '0'
    } else if d == 1 {
        '1'
    } else if d == 2 {
        '2'
    } else if d == 3 {
        '3'
    } else if d == 4 {
        '4'
    } else if d == 5 {
        '5'
    } else if d == 6 {
        '6'
    } else if d == 7 {
        '7'
    } else if d == 8 {
        '8'
    } else {
        '9'
    }
}

/// Appends the decimal notation of `n` to `out`.
pub fn push_decimal(n: u64, out: &mut Vec<char>)
    ensures
        final(out)@ == old(out)@ + decimal(n as nat),
    decreases n,
{
    if n >= 10 {
        push_decimal(n / 10, out);
    }
    out.push(digit(n % 10));
    proof {
        if n >= 10 {
            assert(old(out)@ + decimal(n as nat) =~= old(out)@ + decimal((n / 10) as nat) + seq![digit_char((n % 10) as nat)]);
        } else {
            assert(old(out)@ + decimal(n as nat) =~= old(out)@.push(digit_char((n % 10) as nat)));
        }
    }
}

/// Symbols.
pub struct Symbol {}

impl Symbol {
    /// A new symbol named `name`.
    pub fn allocate(obj: &mut Object, name: &Vec<char>) -> (res: Result<Ref, OutOfMemory>)
        requires
            old(obj).wf(),
        ensures
            final(obj).wf(),
            final(obj).grown_from(old(obj)),
            res matches Ok(r) ==> final(obj).valid(r) && final(obj).value_of(r) == Val::Sym(name@),
            res is Err ==> final(obj).heap_view() == old(obj).heap_view(),
    {
        alloc_text(obj, TextKind::Symbol, name)
    }

    /// A new symbol named `name`, an underscore and the object's next
    /// generated-symbol number; the number is used up.
    pub fn gensym(obj: &mut Object, name: &Vec<char>) -> (res: Result<Ref, OutOfMemory>)
        requires
            old(obj).wf(),
        ensures
            final(obj).wf(),
            extends_heap(final(obj), old(obj)),
            res matches Ok(r) ==> final(obj).valid(r) && final(obj).value_of(r) == Val::Sym(
                name@ + seq!['_'] + decimal(old(obj).spec_gensym() as nat),
            ),
    {
        let n = obj.next_gensym();
        let mut full = crate::object::mm::copy_chars(name);
        full.push('_');
        push_decimal(n, &mut full);
        let ghost o1 = *obj;
        let res = Self::allocate(obj, &full);
        proof {
            assert(full@ =~= name@ + seq!['_'] + decimal(n as nat));
        }
        res
    }
}

/// `a` is `b` with cells added to its heap; its global variables and
/// captured values are unchanged.
pub open spec fn extends_heap(a: &Object, b: &Object) -> bool {
    &&& crate::value::any::extends(a.heap_view(), b.heap_view())
    &&& forall|k: Seq<char>| #[trigger] a.global(k) == b.global(k)
    &&& a.captured() == b.captured()
}

} // verus!
