use vstd::prelude::*;

use crate::err::{Exception, TypeMismatch};
use crate::object::Object;
use crate::object::mm::{Cell, OutOfMemory, cell_refs, cell_size, GC_HEADER_SIZE, INTEGER_SIZE, MAX_HEAP_BYTES};
use crate::value::{Ref, TypeInfo, ref_index};
use crate::value::any::Val;
use crate::value::list::all_valid;

verus! {

/// Integers strictly above this are held in a reference.
pub const FIXNUM_LOWER: i64 = -1152921504606846976;
/// Integers strictly below this are held in a reference.
pub const FIXNUM_UPPER: i64 = 1152921504606846975;

/// `n` can be held in a reference, without a heap cell.
pub open spec fn spec_is_fixnum_range(n: int) -> bool {
    FIXNUM_LOWER < n < FIXNUM_UPPER
}

/// `n` can be held in a reference, without a heap cell.
pub fn is_fixnum_range(n: i64) -> (res: bool)
    ensures
        res == spec_is_fixnum_range(n as int),
{
    FIXNUM_LOWER < n && n < FIXNUM_UPPER
}

/// Integers held in a reference.
pub struct Fixnum {}

impl Fixnum {
    /// The integer the reference `v` holds.
    pub fn get(v: Ref) -> (n: i64)
        requires
            v is Fixnum,
        ensures
            v == Ref::Fixnum(n),
    {
        match v {
            Ref::Fixnum(n) => n,
            _ => 0,
        }
    }
}

/// Integers, held in a reference or in a heap cell.
pub struct Integer {}

impl Integer {
    /// The integer `v` denotes.
    pub fn get(obj: &Object, v: Ref) -> (n: i64)
        requires
            obj.value_of(v) is Int,
        ensures
            obj.value_of(v) == Val::Int(n as int),
    {
        get_integer(obj, v)
    }
}

/// Numbers: integers and reals.
pub struct Number {}

/// The integer `n`: in the reference when it fits, else in a new cell.
pub fn make_integer(obj: &mut Object, n: i64) -> (res: Result<Ref, OutOfMemory>)
    requires
        old(obj).wf(),
    ensures
        final(obj).wf(),
        final(obj).grown_from(old(obj)),
        res matches Ok(r) ==> final(obj).valid(r) && final(obj).value_of(r) == Val::Int(n as int),
        spec_is_fixnum_range(n as int) ==> res == Ok::<Ref, OutOfMemory>(Ref::Fixnum(n)) && final(obj).heap_view()
            == old(obj).heap_view(),
        res is Ok <==> (spec_is_fixnum_range(n as int) || old(obj).spec_used() + GC_HEADER_SIZE + INTEGER_SIZE
            < MAX_HEAP_BYTES),
        !spec_is_fixnum_range(n as int) ==> (res matches Ok(r) ==> r is Ptr && final(obj).heap_view()
            == old(obj).heap_view().push(Cell::Integer(n))),
{
    if is_fixnum_range(n) {
        proof {
            obj.lemma_grown_refl();
        }
        Ok(Ref::Fixnum(n))
    } else {
        proof {
            assert(cell_refs(Cell::Integer(n)) =~= Seq::<Ref>::empty());
        }
        let res = obj.allocate(Cell::Integer(n));
        proof {
            if let Ok(r) = res {
                assert(obj.heap_view()[ref_index(r)] == Cell::Integer(n));
            }
        }
        res
    }
}

/// The integer `v` denotes.
pub fn get_integer(obj: &Object, v: Ref) -> (n: i64)
    requires
        obj.value_of(v) is Int,
    ensures
        obj.value_of(v) == Val::Int(n as int),
{
    match v {
        Ref::Fixnum(n) => n,
        Ref::Ptr(i, _) => {
            if i < obj.heap().len() {
                obj.heap().integer(i)
            } else {
                0
            }
        },
        _ => 0,
    }
}

/// `v` denotes an integer.
pub fn is_integer(obj: &Object, v: Ref) -> (res: bool)
    ensures
        res == (obj.value_of(v) is Int),
{
    match v {
        Ref::Fixnum(_) => true,
        Ref::Ptr(i, _) => {
            if i < obj.heap().len() {
                match obj.heap().kind(i) {
                    crate::object::mm::CellKind::Integer => true,
                    _ => false,
                }
            } else {
                false
            }
        },
        _ => false,
    }
}

/// The integer a value denotes (0 for other values).
pub open spec fn int_of(v: Val) -> int {
    match v {
        Val::Int(n) => n,
        _ => 0,
    }
}

/// The sum of the integers `s` denote.
pub open spec fn int_sum(s: Seq<Val>) -> int
    decreases s.len(),
{
    if s.len() == 0 {
        0
    } else {
        int_sum(s.drop_last()) + int_of(s.last())
    }
}

/// Every value of `args` is an integer.
pub open spec fn all_ints(obj: &Object, args: Seq<Ref>) -> bool {
    forall|k: int| 0 <= k < args.len() ==> (#[trigger] obj.value_of(args[k])) is Int
}

/// The integers of `args`, added in order, never leave the 64-bit range.
pub open spec fn sums_fit(obj: &Object, args: Seq<Ref>) -> bool {
    forall|k: int| 0 <= k <= args.len() ==> i64::MIN <= #[trigger] int_sum(vals(obj, args).take(k)) <= i64::MAX
}

/// The values of `args`.
pub open spec fn vals(obj: &Object, args: Seq<Ref>) -> Seq<Val> {
    args.map_values(|r: Ref| obj.value_of(r))
}

/// Every value of `vs` is an integer.
pub open spec fn all_int_vals(vs: Seq<Val>) -> bool {
    forall|k: int| 0 <= k < vs.len() ==> (#[trigger] vs[k]) is Int
}

/// The integers `vs`, added in order, never leave the 64-bit range.
pub open spec fn sums_fit_vals(vs: Seq<Val>) -> bool {
    forall|k: int| 0 <= k <= vs.len() ==> i64::MIN <= #[trigger] int_sum(vs.take(k)) <= i64::MAX
}

/// The first of the integers `vs` minus the others, in order, never leaves
/// the 64-bit range; alone, it can be negated.
pub open spec fn diffs_fit_vals(vs: Seq<Val>) -> bool {
    if vs.len() == 1 {
        i64::MIN < int_of(vs[0])
    } else {
        forall|k: int|
            #![trigger int_sum(vs.take(k))]
            1 <= k <= vs.len() ==> i64::MIN <= 2 * int_of(vs[0]) - int_sum(vs.take(k)) <= i64::MAX
    }
}

/// The first of the integers `vs` minus the others; alone, its negation.
pub open spec fn sub_result(vs: Seq<Val>) -> int {
    if vs.len() == 1 {
        -int_of(vs[0])
    } else {
        2 * int_of(vs[0]) - int_sum(vs)
    }
}

/// The absolute value of the integer `v`.
pub open spec fn abs_result(v: Val) -> int {
    if int_of(v) < 0 {
        -int_of(v)
    } else {
        int_of(v)
    }
}

/// The integer `n` can be made in `obj`: it fits in a reference, or a new
/// integer cell fits in the heap.
pub open spec fn integer_fits(obj: &Object, n: int) -> bool {
    spec_is_fixnum_range(n) || obj.spec_used() + GC_HEADER_SIZE + INTEGER_SIZE < MAX_HEAP_BYTES
}

/// The values of `args` are those the list functions speak of, and they are
/// integers exactly when `all_ints` says so.
pub proof fn lemma_vals(obj: &Object, args: Seq<Ref>)
    ensures
        vals(obj, args) == crate::value::list::values_of(obj, args),
        all_ints(obj, args) == all_int_vals(vals(obj, args)),
        sums_fit(obj, args) == sums_fit_vals(vals(obj, args)),
{
    assert(vals(obj, args) =~= crate::value::list::values_of(obj, args));
    if all_ints(obj, args) {
        assert forall|k: int| 0 <= k < vals(obj, args).len() implies (#[trigger] vals(obj, args)[k]) is Int by {
            assert(obj.value_of(args[k]) is Int);
        }
    }
    if all_int_vals(vals(obj, args)) {
        assert forall|k: int| 0 <= k < args.len() implies (#[trigger] obj.value_of(args[k])) is Int by {
            assert(vals(obj, args)[k] is Int);
        }
    }
}

/// The first argument that is not an integer, if any: its error.
fn check_ints(obj: &Object, args: &Vec<Ref>) -> (res: Option<Exception>)
    ensures
        res is None <==> all_ints(obj, args@),
{
    let mut k: usize = 0;
    while k < args.len()
        invariant
            k <= args@.len(),
            forall|j: int| 0 <= j < k ==> (#[trigger] obj.value_of(args@[j])) is Int,
        decreases args@.len() - k,
    {
        if !is_integer(obj, args[k]) {
            return Some(Exception::TypeMismatch(TypeMismatch::new(args[k], TypeInfo::Integer)));
        }
        k = k + 1;
    }
    None
}

/// The sum of the integers `args`: an error when one is not an integer or a
/// partial sum leaves the 64-bit range.
pub fn func_add(obj: &mut Object, args: &Vec<Ref>) -> (res: Result<Ref, Exception>)
    requires
        old(obj).wf(),
        all_valid(old(obj), args@),
    ensures
        final(obj).wf(),
        final(obj).grown_from(old(obj)),
        res is Ok ==> all_ints(old(obj), args@) && final(obj).ok_value(res, Val::Int(int_sum(vals(old(obj), args@)))),
        res is Ok <==> all_ints(old(obj), args@) && sums_fit(old(obj), args@) && integer_fits(
            old(obj),
            int_sum(vals(old(obj), args@)),
        ),
        all_ints(old(obj), args@) && sums_fit(old(obj), args@) ==> (res matches Err(e) ==> e is OutOfMemory),
{
    if let Some(e) = check_ints(obj, args) {
        proof {
            obj.lemma_grown_refl();
        }
        return Err(e);
    }
    let ghost vs = vals(obj, args@);
    let mut acc: i64 = 0;
    let mut k: usize = 0;
    while k < args.len()
        invariant
            obj.wf(),
            *obj == *old(obj),
            all_ints(obj, args@),
            vs == vals(obj, args@),
            k <= args@.len(),
            acc == int_sum(vs.take(k as int)),
            forall|j: int| 0 <= j <= k ==> i64::MIN <= #[trigger] int_sum(vs.take(j)) <= i64::MAX,
        decreases args@.len() - k,
    {
        let n = get_integer(obj, args[k]);
        proof {
            assert(vs.take(k + 1).drop_last() =~= vs.take(k as int));
            assert(vs[k as int] == obj.value_of(args@[k as int]));
            assert(int_sum(vs.take(k + 1)) == acc + n);
        }
        match acc.checked_add(n) {
            Some(s) => {
                acc = s;
                proof {
                    assert forall|j: int| 0 <= j <= k + 1 implies i64::MIN <= #[trigger] int_sum(vs.take(j))
                        <= i64::MAX by {
                        if j == k + 1 {
                            assert(int_sum(vs.take(j)) == acc);
                        }
                    }
                }
            },
            None => {
                proof {
                    obj.lemma_grown_refl();
                    if sums_fit(obj, args@) {
                        assert(i64::MIN <= int_sum(vals(obj, args@).take(k + 1)) <= i64::MAX);
                    }
                }
                return Err(Exception::Other("integer overflow".to_owned()));
            },
        }
        k = k + 1;
    }
    proof {
        assert(vs.take(args@.len() as int) =~= vs);
    }
    match make_integer(obj, acc) {
        Ok(r) => Ok(r),
        Err(_) => Err(Exception::OutOfMemory),
    }
}

/// The first integer minus the others; with one argument, its negation. An
/// error when one is not an integer or the result leaves the 64-bit range.
pub fn func_sub(obj: &mut Object, args: &Vec<Ref>) -> (res: Result<Ref, Exception>)
    requires
        old(obj).wf(),
        all_valid(old(obj), args@),
        args@.len() >= 1,
    ensures
        final(obj).wf(),
        final(obj).grown_from(old(obj)),
        res is Ok ==> all_ints(old(obj), args@) && final(obj).ok_value(
            res,
            Val::Int(
                if args@.len() == 1 {
                    -int_of(old(obj).value_of(args@[0]))
                } else {
                    2 * int_of(old(obj).value_of(args@[0])) - int_sum(vals(old(obj), args@))
                },
            ),
        ),
        res is Ok <==> all_ints(old(obj), args@) && diffs_fit_vals(vals(old(obj), args@)) && integer_fits(
            old(obj),
            sub_result(vals(old(obj), args@)),
        ),
        all_ints(old(obj), args@) && diffs_fit_vals(vals(old(obj), args@)) ==> (res matches Err(e) ==> e is OutOfMemory),
{
    if let Some(e) = check_ints(obj, args) {
        proof {
            obj.lemma_grown_refl();
        }
        return Err(e);
    }
    let ghost vs = vals(obj, args@);
    let first = get_integer(obj, args[0]);
    if args.len() == 1 {
        if first == i64::MIN {
            proof {
                obj.lemma_grown_refl();
            }
            return Err(Exception::Other("integer overflow".to_owned()));
        }
        return match make_integer(obj, -first) {
            Ok(r) => Ok(r),
            Err(_) => Err(Exception::OutOfMemory),
        };
    }
    let mut acc: i64 = first;
    let mut k: usize = 1;
    proof {
        assert(vs.take(1).drop_last() =~= Seq::<Val>::empty());
        assert(vs.take(1).last() == vs[0]);
        assert(vs[0] == obj.value_of(args@[0]));
        assert(int_sum(vs.take(1).drop_last()) == 0);
        assert(int_sum(vs.take(1)) == int_of(vs[0]));
        assert(int_of(vs[0]) == first);
    }
    while k < args.len()
        invariant
            obj.wf(),
            *obj == *old(obj),
            all_ints(obj, args@),
            vs == vals(obj, args@),
            1 <= k <= args@.len(),
            acc == 2 * int_of(vs[0]) - int_sum(vs.take(k as int)),
            forall|j: int|
                #![trigger int_sum(vs.take(j))]
                1 <= j <= k ==> i64::MIN <= 2 * int_of(vs[0]) - int_sum(vs.take(j)) <= i64::MAX,
        decreases args@.len() - k,
    {
        let n = get_integer(obj, args[k]);
        proof {
            assert(vs.take(k + 1).drop_last() =~= vs.take(k as int));
            assert(vs[k as int] == obj.value_of(args@[k as int]));
        }
        match acc.checked_sub(n) {
            Some(s) => {
                acc = s;
                proof {
                    assert(int_sum(vs.take(k + 1)) == int_sum(vs.take(k as int)) + n);
                    assert forall|j: int|
                        #![trigger int_sum(vs.take(j))]
                        1 <= j <= k + 1 implies i64::MIN <= 2 * int_of(vs[0]) - int_sum(vs.take(j)) <= i64::MAX by {
                        if j == k + 1 {
                            assert(2 * int_of(vs[0]) - int_sum(vs.take(j)) == acc);
                        }
                    }
                }
            },
            None => {
                proof {
                    obj.lemma_grown_refl();
                    assert(int_sum(vs.take(k + 1)) == int_sum(vs.take(k as int)) + n);
                    assert(!(i64::MIN <= 2 * int_of(vs[0]) - int_sum(vs.take(k + 1)) <= i64::MAX));
                }
                return Err(Exception::Other("integer overflow".to_owned()));
            },
        }
        k = k + 1;
    }
    proof {
        assert(vs.take(args@.len() as int) =~= vs);
    }
    match make_integer(obj, acc) {
        Ok(r) => Ok(r),
        Err(_) => Err(Exception::OutOfMemory),
    }
}

/// The absolute value of the integer `v`.
pub fn func_abs(obj: &mut Object, v: Ref) -> (res: Result<Ref, Exception>)
    requires
        old(obj).wf(),
        old(obj).valid(v),
    ensures
        final(obj).wf(),
        final(obj).grown_from(old(obj)),
        res is Ok ==> old(obj).value_of(v) is Int && final(obj).ok_value(
            res,
            Val::Int(
                if int_of(old(obj).value_of(v)) < 0 {
                    -int_of(old(obj).value_of(v))
                } else {
                    int_of(old(obj).value_of(v))
                },
            ),
        ),
        !(old(obj).value_of(v) is Int) ==> res is Err,
        res is Ok <==> old(obj).value_of(v) is Int && i64::MIN < int_of(old(obj).value_of(v)) && integer_fits(
            old(obj),
            abs_result(old(obj).value_of(v)),
        ),
        old(obj).value_of(v) is Int && i64::MIN < int_of(old(obj).value_of(v)) ==> (res matches Err(e)
            ==> e is OutOfMemory),
{
    if !is_integer(obj, v) {
        proof {
            obj.lemma_grown_refl();
        }
        return Err(Exception::TypeMismatch(TypeMismatch::new(v, TypeInfo::Integer)));
    }
    let n = get_integer(obj, v);
    let a = if n < 0 {
        if n == i64::MIN {
            proof {
                obj.lemma_grown_refl();
            }
            return Err(Exception::Other("integer overflow".to_owned()));
        }
        -n
    } else {
        n
    };
    match make_integer(obj, a) {
        Ok(r) => Ok(r),
        Err(_) => Err(Exception::OutOfMemory),
    }
}


/// The arithmetic builtin named `k`, if there is one.
pub open spec fn number_builtin(k: Seq<char>) -> Option<crate::value::func::FuncId> {
    if k == "abs"@ {
        Some(crate::value::func::FuncId::Abs)
    } else if k == "-"@ {
        Some(crate::value::func::FuncId::Sub)
    } else if k == "+"@ {
        Some(crate::value::func::FuncId::Add)
    } else {
        None
    }
}

/// Defines the arithmetic builtins.
pub fn register_global(obj: &mut Object)
    requires
        old(obj).wf(),
    ensures
        final(obj).redefined_from(old(obj)),
        forall|k: Seq<char>|
            #[trigger] final(obj).global(k) == match number_builtin(k) {
                Some(id) => Some(Ref::Func(id)),
                None => old(obj).global(k),
            },
{
    obj.define_global_str("+", Ref::Func(crate::value::func::FuncId::Add));
    obj.define_global_str("-", Ref::Func(crate::value::func::FuncId::Sub));
    obj.define_global_str("abs", Ref::Func(crate::value::func::FuncId::Abs));
}

} // verus!
