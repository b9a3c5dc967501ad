use vstd::prelude::*;

use crate::err::{Exception, MalformedFormat, TypeMismatch};
use crate::object::Object;
use crate::value::{Ref, TypeInfo, spec_is_type, spec_typeinfo, get_typeinfo};
use crate::value::app::{Param, ParamKind, Parameter};
use crate::value::any::Val;
use crate::value::array::array_items;
use crate::value::list::{all_valid, chain_len, is_list_val, items_concat, list_cat, list_items, list_val, values_of};
use crate::value::number::{all_int_vals, diffs_fit_vals, int_of, int_sum, lemma_vals, sums_fit_vals, vals};
use crate::value::tuple::{is_tuple_val, tuple_items, tuple_val};

verus! {

/// The builtin functions.
#[derive(Clone, Copy, Debug, PartialEq, Eq, Structural)]
pub enum FuncId {
    Equal,
    Print,
    Add,
    Sub,
    Abs,
    Cons,
    List,
    IsList,
    ListLen,
    ListRef,
    Append,
    Array,
    IsArray,
    ArrayLen,
    ArrayRef,
    Tuple,
    IsTuple,
    TupleLen,
    TupleRef,
    Force,
    Apply,
    Exit,
    Spawn,
    Send,
    Sleep,
}

/// The name the builtin `id` is known by.
pub open spec fn spec_func_name(id: FuncId) -> Seq<char> {
    match id {
        FuncId::Equal => "="@,
        FuncId::Print => "print"@,
        FuncId::Add => "+"@,
        FuncId::Sub => "-"@,
        FuncId::Abs => "abs"@,
        FuncId::Cons => "cons"@,
        FuncId::List => "list"@,
        FuncId::IsList => "list?"@,
        FuncId::ListLen => "list-len"@,
        FuncId::ListRef => "list-ref"@,
        FuncId::Append => "append"@,
        FuncId::Array => "array"@,
        FuncId::IsArray => "array?"@,
        FuncId::ArrayLen => "array-len"@,
        FuncId::ArrayRef => "array-ref"@,
        FuncId::Tuple => "tuple"@,
        FuncId::IsTuple => "tuple?"@,
        FuncId::TupleLen => "tuple-len"@,
        FuncId::TupleRef => "tuple-ref"@,
        FuncId::Force => "force"@,
        FuncId::Apply => "apply"@,
        FuncId::Exit => "exit"@,
        FuncId::Spawn => "spawn"@,
        FuncId::Send => "send"@,
        FuncId::Sleep => "sleep"@,
    }
}

/// The number of arguments a builtin requires.
pub open spec fn spec_num_require(id: FuncId) -> nat {
    match id {
        FuncId::Equal | FuncId::Cons | FuncId::ListRef | FuncId::ArrayRef | FuncId::TupleRef | FuncId::Send => 2,
        FuncId::Add | FuncId::Sub | FuncId::Abs | FuncId::IsList | FuncId::ListLen | FuncId::IsArray
        | FuncId::ArrayLen | FuncId::IsTuple | FuncId::TupleLen | FuncId::Force | FuncId::Sleep => 1,
        FuncId::Apply => 2,
        _ => 0,
    }
}

/// The builtin takes any number of further arguments.
pub open spec fn spec_has_rest(id: FuncId) -> bool {
    match id {
        FuncId::Print | FuncId::Add | FuncId::Sub | FuncId::List | FuncId::Append | FuncId::Array
        | FuncId::Tuple | FuncId::Apply => true,
        _ => false,
    }
}

/// The type the argument `k` of a builtin must have.
pub open spec fn spec_arg_type(id: FuncId, k: int) -> TypeInfo {
    match id {
        FuncId::Add | FuncId::Sub | FuncId::Abs => TypeInfo::Number,
        FuncId::Cons => if k == 1 { TypeInfo::List } else { TypeInfo::Any },
        FuncId::ListLen => TypeInfo::List,
        FuncId::ListRef => if k == 0 { TypeInfo::List } else { TypeInfo::Integer },
        FuncId::Append => TypeInfo::List,
        FuncId::ArrayLen => TypeInfo::Array,
        FuncId::ArrayRef => if k == 0 { TypeInfo::Array } else { TypeInfo::Integer },
        FuncId::TupleLen => TypeInfo::Tuple,
        FuncId::TupleRef => if k == 0 { TypeInfo::Tuple } else { TypeInfo::Integer },
        FuncId::Apply => if k == 0 { TypeInfo::App } else { TypeInfo::Any },
        FuncId::Send => if k == 0 { TypeInfo::ObjectRef } else { TypeInfo::Any },
        FuncId::Sleep => TypeInfo::Integer,
        _ => TypeInfo::Any,
    }
}

/// `args` fit the parameters of the builtin: their number and their types.
pub open spec fn args_fit(obj: &Object, id: FuncId, args: Seq<Ref>) -> bool {
    &&& args.len() >= spec_num_require(id)
    &&& (!spec_has_rest(id) ==> args.len() == spec_num_require(id))
    &&& forall|k: int|
        0 <= k < args.len() ==> spec_is_type(spec_typeinfo(obj.heap_view(), #[trigger] args[k]), spec_arg_type(id, k))
}

/// A length as an integer value (a length always fits in 64 bits).
pub open spec fn length_val(n: nat) -> Val {
    Val::Int((n as i64) as int)
}

/// `true` or `false` as a value.
pub open spec fn bool_val(b: bool) -> Val {
    if b {
        Val::True
    } else {
        Val::False
    }
}

/// The value the builtin `id` answers for arguments of the values `vs`
/// when it succeeds.
pub open spec fn builtin_value(id: FuncId, vs: Seq<Val>) -> Val {
    let v0 = vs[0];
    let v1 = vs[1];
    match id {
        FuncId::Equal => bool_val(v0 == v1),
        FuncId::Add => Val::Int(int_sum(vs)),
        FuncId::Sub => Val::Int(
            if vs.len() == 1 {
                -int_of(v0)
            } else {
                2 * int_of(v0) - int_sum(vs)
            },
        ),
        FuncId::Abs => Val::Int(
            if int_of(v0) < 0 {
                -int_of(v0)
            } else {
                int_of(v0)
            },
        ),
        FuncId::Cons => Val::Pair(Box::new(v0), Box::new(v1)),
        FuncId::List => list_val(vs),
        FuncId::IsList => if is_list_val(v0) {
            v0
        } else {
            Val::False
        },
        FuncId::ListLen => length_val(chain_len(v0)),
        FuncId::ListRef => list_items(v0)[int_of(v1)],
        FuncId::Append => if vs.len() == 0 {
            Val::Nil
        } else {
            list_cat(items_concat(vs.drop_last()), vs.last())
        },
        FuncId::Array => Val::Array(vs),
        FuncId::IsArray => bool_val(v0 is Array),
        FuncId::ArrayLen => length_val(array_items(v0).len()),
        FuncId::ArrayRef => array_items(v0)[int_of(v1)],
        FuncId::Tuple => tuple_val(vs),
        FuncId::IsTuple => bool_val(is_tuple_val(v0)),
        FuncId::TupleLen => length_val(tuple_items(v0).len()),
        FuncId::TupleRef => tuple_items(v0)[int_of(v1)],
        _ => Val::Invalid,
    }
}

/// `r` is a small integer index below `n`.
pub open spec fn index_within(r: Ref, n: int) -> bool {
    r matches Ref::Fixnum(i) && 0 <= i < n
}

/// The builtin `id` answers for the arguments `args`, of the values `vs`,
/// unless memory runs out: sums and differences stay within 64 bits, an
/// integer other than the smallest has an absolute value, an index is below
/// the length of its list, array or tuple, and lists, arrays and tuples are
/// what they are taken for.
pub open spec fn builtin_ok(id: FuncId, vs: Seq<Val>, args: Seq<Ref>) -> bool {
    match id {
        FuncId::Add => all_int_vals(vs) && sums_fit_vals(vs),
        FuncId::Sub => all_int_vals(vs) && diffs_fit_vals(vs),
        FuncId::Abs => vs[0] is Int && i64::MIN < int_of(vs[0]),
        FuncId::ListLen => is_list_val(vs[0]),
        FuncId::ListRef => is_list_val(vs[0]) && index_within(args[1], chain_len(vs[0]) as int),
        FuncId::Append => forall|k: int| 0 <= k < vs.len() ==> is_list_val(#[trigger] vs[k]),
        FuncId::ArrayLen => vs[0] is Array,
        FuncId::ArrayRef => vs[0] is Array && index_within(args[1], array_items(vs[0]).len() as int),
        FuncId::TupleLen => is_tuple_val(vs[0]),
        FuncId::TupleRef => is_tuple_val(vs[0]) && index_within(args[1], tuple_items(vs[0]).len() as int),
        _ => true,
    }
}

/// The builtin computes its value from its arguments alone, without the
/// evaluator.
pub open spec fn is_pure_builtin(id: FuncId) -> bool {
    match id {
        FuncId::Print | FuncId::Force | FuncId::Apply | FuncId::Exit | FuncId::Spawn | FuncId::Send
        | FuncId::Sleep => false,
        _ => true,
    }
}

/// The builtin answers for every argument that fits its parameters.
pub open spec fn never_fails(id: FuncId) -> bool {
    match id {
        FuncId::Equal | FuncId::IsList | FuncId::IsArray | FuncId::IsTuple => true,
        _ => false,
    }
}

/// The values `a` and `b` of `obj` are equal.
fn equal_values(obj: &Object, a: Ref, b: Ref) -> (res: bool)
    requires
        obj.wf(),
    ensures
        res == (obj.value_of(a) == obj.value_of(b)),
{
    proof {
        obj.lemma_wf();
    }
    let h = obj.heap();
    crate::value::any::Any::eq(h, a, h, b)
}

/// A builtin function.
#[derive(Clone, Copy, Debug)]
pub struct Func {
    pub id: FuncId,
}

/// The type the argument `k` of the builtin `id` must have.
fn arg_type(id: FuncId, k: usize) -> (t: TypeInfo)
    ensures
        t == spec_arg_type(id, k as int),
{
    match id {
        FuncId::Add | FuncId::Sub | FuncId::Abs => TypeInfo::Number,
        FuncId::Cons => if k == 1 { TypeInfo::List } else { TypeInfo::Any },
        FuncId::ListLen => TypeInfo::List,
        FuncId::ListRef => if k == 0 { TypeInfo::List } else { TypeInfo::Integer },
        FuncId::Append => TypeInfo::List,
        FuncId::ArrayLen => TypeInfo::Array,
        FuncId::ArrayRef => if k == 0 { TypeInfo::Array } else { TypeInfo::Integer },
        FuncId::TupleLen => TypeInfo::Tuple,
        FuncId::TupleRef => if k == 0 { TypeInfo::Tuple } else { TypeInfo::Integer },
        FuncId::Apply => if k == 0 { TypeInfo::App } else { TypeInfo::Any },
        FuncId::Send => if k == 0 { TypeInfo::ObjectRef } else { TypeInfo::Any },
        FuncId::Sleep => TypeInfo::Integer,
        _ => TypeInfo::Any,
    }
}

/// A value of type `actual` is also of type `wanted`.
pub fn is_type(actual: TypeInfo, wanted: TypeInfo) -> (res: bool)
    ensures
        res == spec_is_type(actual, wanted),
{
    actual == wanted || wanted == TypeInfo::Any || (wanted == TypeInfo::Number && (actual == TypeInfo::Fixnum || actual
        == TypeInfo::Integer || actual == TypeInfo::Real)) || ((actual == TypeInfo::Fixnum || actual == TypeInfo::Integer)
        && (wanted == TypeInfo::Fixnum || wanted == TypeInfo::Integer || wanted == TypeInfo::Real)) || (wanted == TypeInfo::App && (actual == TypeInfo::Func || actual == TypeInfo::Closure))
}

impl Func {
    /// The builtin `id`.
    pub fn new(id: FuncId) -> (f: Self)
        ensures
            f.id == id,
    {
        Func { id }
    }

    /// The name the builtin is known by.
    pub fn name(&self) -> (n: &'static str)
        ensures
            n@ == spec_func_name(self.id),
    {
        match self.id {
            FuncId::Equal => "=",
            FuncId::Print => "print",
            FuncId::Add => "+",
            FuncId::Sub => "-",
            FuncId::Abs => "abs",
            FuncId::Cons => "cons",
            FuncId::List => "list",
            FuncId::IsList => "list?",
            FuncId::ListLen => "list-len",
            FuncId::ListRef => "list-ref",
            FuncId::Append => "append",
            FuncId::Array => "array",
            FuncId::IsArray => "array?",
            FuncId::ArrayLen => "array-len",
            FuncId::ArrayRef => "array-ref",
            FuncId::Tuple => "tuple",
            FuncId::IsTuple => "tuple?",
            FuncId::TupleLen => "tuple-len",
            FuncId::TupleRef => "tuple-ref",
            FuncId::Force => "force",
            FuncId::Apply => "apply",
            FuncId::Exit => "exit",
            FuncId::Spawn => "spawn",
            FuncId::Send => "send",
            FuncId::Sleep => "sleep",
        }
    }

    /// The number of required arguments.
    pub fn num_require(&self) -> (n: usize)
        ensures
            n == spec_num_require(self.id),
    {
        match self.id {
            FuncId::Equal | FuncId::Cons | FuncId::ListRef | FuncId::ArrayRef | FuncId::TupleRef | FuncId::Send => 2,
            FuncId::Add | FuncId::Sub | FuncId::Abs | FuncId::IsList | FuncId::ListLen | FuncId::IsArray
            | FuncId::ArrayLen | FuncId::IsTuple | FuncId::TupleLen | FuncId::Force | FuncId::Sleep => 1,
            FuncId::Apply => 2,
            _ => 0,
        }
    }

    /// The builtin takes any number of further arguments.
    pub fn has_rest(&self) -> (b: bool)
        ensures
            b == spec_has_rest(self.id),
    {
        match self.id {
            FuncId::Print | FuncId::Add | FuncId::Sub | FuncId::List | FuncId::Append | FuncId::Array
            | FuncId::Tuple | FuncId::Apply => true,
            _ => false,
        }
    }

    /// The parameters of the builtin: the required ones, then the rest.
    pub fn parameter(&self) -> (p: Parameter)
        ensures
            crate::value::app::count_kind(p.spec_params(), ParamKind::Require) == spec_num_require(self.id),
            (crate::value::app::count_kind(p.spec_params(), ParamKind::Rest) > 0) == spec_has_rest(self.id),
    {
        let mut v: Vec<Param> = Vec::new();
        let n = self.num_require();
        let mut i: usize = 0;
        while i < n
            invariant
                i <= n,
                v@.len() == i,
                crate::value::app::count_kind(v@, ParamKind::Require) == i,
                crate::value::app::count_kind(v@, ParamKind::Rest) == 0,
            decreases n - i,
        {
            let ghost v0 = v@;
            v.push(Param::new("arg", ParamKind::Require, arg_type(self.id, i)));
            proof {
                assert(v@.drop_last() =~= v0);
            }
            i = i + 1;
        }
        if self.has_rest() {
            let ghost v0 = v@;
            v.push(Param::new("rest", ParamKind::Rest, arg_type(self.id, n)));
            proof {
                assert(v@.drop_last() =~= v0);
            }
        }
        Parameter::new(v)
    }

    /// Checks that `args` fit the builtin's parameters: their number, then
    /// the type of each.
    pub fn check_arguments(&self, obj: &Object, args: &Vec<Ref>) -> (res: Result<(), Exception>)
        ensures
            res is Ok <==> args_fit(obj, self.id, args@),
            args@.len() < spec_num_require(self.id) || (!spec_has_rest(self.id) && args@.len() != spec_num_require(
                self.id,
            )) ==> res matches Err(Exception::MalformedFormat(_)),
    {
        let n = self.num_require();
        if args.len() < n || (!self.has_rest() && args.len() != n) {
            return Err(Exception::MalformedFormat(MalformedFormat::new(None, "wrong number of arguments")));
        }
        let mut k: usize = 0;
        while k < args.len()
            invariant
                k <= args@.len(),
                args@.len() >= spec_num_require(self.id),
                spec_has_rest(self.id) || args@.len() == spec_num_require(self.id),
                forall|j: int|
                    0 <= j < k ==> spec_is_type(spec_typeinfo(obj.heap_view(), #[trigger] args@[j]), spec_arg_type(self.id, j)),
            decreases args@.len() - k,
        {
            let t = arg_type(self.id, k);
            if !is_type(get_typeinfo(obj, args[k]), t) {
                return Err(Exception::TypeMismatch(TypeMismatch::new(args[k], t)));
            }
            k = k + 1;
        }
        Ok(())
    }
}


impl Func {
    /// Runs a builtin that needs no evaluator on the arguments `args`, which
    /// fit its parameters. The builtins that call back into the evaluator or
    /// into other objects answer an error here.
    pub fn apply(&self, obj: &mut Object, args: &Vec<Ref>) -> (res: Result<Ref, Exception>)
        requires
            old(obj).wf(),
            all_valid(old(obj), args@),
            args_fit(old(obj), self.id, args@),
        ensures
            final(obj).wf(),
            final(obj).grown_from(old(obj)),
            res matches Ok(r) ==> final(obj).valid(r) && final(obj).value_of(r) == builtin_value(
                self.id,
                values_of(old(obj), args@),
            ),
            !is_pure_builtin(self.id) ==> res is Err,
            never_fails(self.id) ==> res is Ok,
            res is Ok ==> builtin_ok(self.id, values_of(old(obj), args@), args@),
            is_pure_builtin(self.id) && builtin_ok(self.id, values_of(old(obj), args@), args@) ==> (res matches Err(e)
                ==> e is OutOfMemory),
    {
        proof {
            obj.lemma_grown_refl();
            obj.lemma_wf();
            lemma_vals(obj, args@);
            assert forall|k: int| 0 <= k < args@.len() implies #[trigger] values_of(obj, args@)[k] == obj.value_of(
                args@[k],
            ) by {}
            if self.id == FuncId::Append && builtin_ok(self.id, values_of(obj, args@), args@) {
                assert forall|k: int| 0 <= k < args@.len() implies is_list_val(#[trigger] obj.value_of(args@[k])) by {
                    assert(is_list_val(values_of(obj, args@)[k]));
                }
            }
        }
        match self.id {
            FuncId::Equal => Ok(crate::value::bool::Bool::from_bool(equal_values(obj, args[0], args[1]))),
            FuncId::Add => crate::value::number::func_add(obj, args),
            FuncId::Sub => crate::value::number::func_sub(obj, args),
            FuncId::Abs => crate::value::number::func_abs(obj, args[0]),
            FuncId::Cons => match crate::value::list::List::cons(obj, args[0], args[1]) {
                Ok(r) => Ok(r),
                Err(_) => Err(Exception::OutOfMemory),
            },
            FuncId::List => {
                let mut b = crate::value::list::ListBuilder::new();
                let mut i: usize = 0;
                while i < args.len()
                    invariant
                        i <= args@.len(),
                        b.items() == args@.take(i as int),
                    decreases args@.len() - i,
                {
                    b.push(args[i]);
                    proof {
                        assert(args@.take(i + 1) =~= args@.take(i as int).push(args@[i as int]));
                    }
                    i = i + 1;
                }
                proof {
                    assert(args@.take(args@.len() as int) =~= args@);
                }
                match b.get(obj) {
                    Ok(r) => Ok(r),
                    Err(_) => Err(Exception::OutOfMemory),
                }
            },
            FuncId::IsList => Ok(crate::value::list::is_list(obj, args[0])),
            FuncId::ListLen => crate::value::list::list_len(obj, args[0]),
            FuncId::ListRef => crate::value::list::list_ref(obj, args[0], args[1]),
            FuncId::Append => {
                proof {
                    if args@.len() > 0 {
                        assert(values_of(obj, args@.drop_last()) =~= values_of(obj, args@).drop_last());
                    }
                }
                crate::value::list::append(obj, args)
            },
            FuncId::Array => crate::value::array::array(obj, crate::object::mm::copy_refs(args)),
            FuncId::IsArray => Ok(crate::value::bool::Bool::from_bool(crate::value::array::is_array(obj, args[0]))),
            FuncId::ArrayLen => crate::value::array::array_len(obj, args[0]),
            FuncId::ArrayRef => crate::value::array::array_ref(obj, args[0], args[1]),
            FuncId::Tuple => crate::value::tuple::tuple(obj, crate::object::mm::copy_refs(args)),
            FuncId::IsTuple => Ok(crate::value::bool::Bool::from_bool(crate::value::tuple::is_tuple(obj, args[0]))),
            FuncId::TupleLen => crate::value::tuple::tuple_len(obj, args[0]),
            FuncId::TupleRef => crate::value::tuple::tuple_ref(obj, args[0], args[1]),
            _ => Err(Exception::Other("this function runs in the evaluator".to_owned())),
        }
    }
}

} // verus!
