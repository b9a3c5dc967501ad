use vstd::prelude::*;

use crate::err::{MalformedFormat, TypeMismatch};
use crate::object::Object;
use crate::object::mm::Cell;
use crate::value::{Ref, TypeInfo, ref_below, ref_index};
use crate::value::any::{Val, ref_rank};
use crate::value::array::{Array, array_items};
use crate::value::func::FuncId;
use crate::value::iform::{
    AndOrKind, IForm, IFormAndOr, IFormCall, IFormConst, IFormDefRecv, IFormFun, IFormGRef, IFormIf, IFormLRef, IFormLet,
    IFormLocal, IFormMatch, IFormObjectSwitch, IFormSeq, MatchClause, Pattern, iform_below, iforms_below,
    lemma_iform_below_mono, lemma_iforms_below,
};
use crate::value::list::{List, all_valid, chain_len, elements, is_list_val, list_items};
use crate::value::syntax::SyntaxId;
use crate::value::tuple::{Tuple, is_tuple_val, tuple_items};

verus! {

/// Why an expression could not be compiled.
#[derive(Clone, Debug)]
pub enum SyntaxException {
    OutOfMemory,
    TypeMismatch(TypeMismatch),
    MalformedFormat(MalformedFormat),
    DisallowContext,
}

/// What is known at compile time of the value of a local variable.
pub enum LocalInit {
    /// Nothing: a parameter, or a value only known when running.
    Unknown,
    /// The value of another local variable.
    LRef(Vec<char>),
    /// The value of a global variable.
    GRef(Vec<char>),
    /// A constant.
    Const(Ref),
}

/// A local variable known to the compiler.
pub struct LocalVar {
    pub name: Vec<char>,
    pub init: LocalInit,
}

/// The compile context: the frames of local variables, whether the
/// expression stands at the top of a body (where `let` is allowed), and
/// whether it is the last thing its function does.
pub struct CCtx {
    pub frames: Vec<Vec<LocalVar>>,
    pub toplevel: bool,
    pub tail: bool,
}

/// The constant the local variable's value is known to be.
pub open spec fn init_const(i: LocalInit) -> Option<Ref> {
    match i {
        LocalInit::Const(r) => Some(r),
        _ => None,
    }
}

/// Every constant the frames know is below `n`.
pub open spec fn frames_below(frames: Seq<Vec<LocalVar>>, n: int) -> bool {
    forall|i: int, j: int|
        0 <= i < frames.len() && 0 <= j < frames[i]@.len() ==> match init_const((#[trigger] frames[i]@[j]).init) {
            Some(r) => ref_below(r, n),
            None => true,
        }
}

/// What the compilation of a form keeps: the context as it was, and a form
/// whose values are in the heap.
pub open spec fn compile_post(
    obj: &Object,
    c0: &CCtx,
    c1: &CCtx,
    res: Result<IForm, SyntaxException>,
) -> bool {
    &&& c1.frames@.len() == c0.frames@.len()
    &&& c1.toplevel == c0.toplevel
    &&& c1.tail == c0.tail
    &&& frames_below(c1.frames@, obj.heap_view().len() as int)
    &&& res matches Ok(f) ==> iform_below(f, obj.heap_view().len() as int)
}

/// The head of the list value `v`.
pub open spec fn val_head(v: Val) -> Val {
    match v {
        Val::Pair(h, _) => *h,
        _ => Val::Nil,
    }
}

/// The rest of the list value `v` after its head.
pub open spec fn val_tail(v: Val) -> Val {
    match v {
        Val::Pair(_, t) => *t,
        _ => Val::Nil,
    }
}

/// The value `v`, as an expression, holds no list: a symbol, a constant, or
/// a tuple or an array of such expressions. Such an expression always
/// compiles.
pub open spec fn list_free(v: Val) -> bool
    decreases v,
{
    match v {
        Val::Pair(_, _) => false,
        Val::Array(items) => forall|k: int| 0 <= k < items.len() ==> list_free(#[trigger] items[k]),
        Val::Tuple(items) => forall|k: int| 0 <= k < items.len() ==> list_free(#[trigger] items[k]),
        _ => true,
    }
}

/// Every expression of `s` holds no list.
pub open spec fn all_list_free(s: Seq<Val>) -> bool {
    forall|k: int| 0 <= k < s.len() ==> list_free(#[trigger] s[k])
}

/// The form `f` is, at its outermost level, what compiling the expression of
/// the value `v` gives outside every frame of local variables: a symbol reads
/// the global variable, a tuple or an array is a call of the function that
/// makes it with one argument per element, a list whose head names no syntax
/// is a call with one argument per element after the head, and anything else
/// but a list is a constant of that value.
pub open spec fn outer_form(obj: &Object, v: Val, f: IForm) -> bool {
    if v is Pair {
        match head_syntax(obj, val_head(v)) {
            Some(_) => true,
            None => match f {
                IForm::Call(x) => x.args@.len() == chain_len(val_tail(v)),
                _ => false,
            },
        }
    } else if v is Sym {
        match f {
            IForm::GRef(x) => v == Val::Sym(x.symbol@),
            _ => false,
        }
    } else if is_tuple_val(v) {
        match f {
            IForm::Call(x) => *x.app == IForm::Const(IFormConst { value: Ref::Func(FuncId::Tuple) })
                && x.args@.len() == tuple_items(v).len(),
            _ => false,
        }
    } else if v is Array {
        match f {
            IForm::Call(x) => *x.app == IForm::Const(IFormConst { value: Ref::Func(FuncId::Array) })
                && x.args@.len() == array_items(v).len(),
            _ => false,
        }
    } else {
        match f {
            IForm::Const(c) => obj.value_of(c.value) == v,
            _ => false,
        }
    }
}

/// The form `f` is what the clauses `a` of a `cond` compile to: for each
/// clause in order, an `if` of its test (of the outermost form the test
/// compiles to when `outer`), the sequence of its expressions in written
/// order (each, when `outer`, of the outermost form it compiles to), and
/// what the later clauses compile to; a last clause with the test `else` is
/// just the sequence of its expressions; no clause left is false.
pub open spec fn cond_shape(obj: &Object, a: Val, outer: bool, f: IForm) -> bool
    decreases a,
{
    match a {
        Val::Pair(h, t) => if *t == Val::Nil && val_head(*h) == Val::Sym(seq!['e', 'l', 's', 'e']) {
            match f {
                IForm::Sequence(x) => x.body@.len() == chain_len(val_tail(*h)) && (outer ==> forall|k: int|
                    0 <= k < x.body@.len() ==> outer_form(obj, list_items(val_tail(*h))[k], #[trigger] x.body@[k])),
                _ => false,
            }
        } else {
            match f {
                IForm::If(x) => {
                    &&& match *x.then_ {
                        IForm::Sequence(y) => y.body@.len() == chain_len(val_tail(*h)) && (outer ==> forall|k: int|
                            0 <= k < y.body@.len() ==> outer_form(
                                obj,
                                list_items(val_tail(*h))[k],
                                #[trigger] y.body@[k],
                            )),
                        _ => false,
                    }
                    &&& outer ==> outer_form(obj, val_head(*h), *x.test)
                    &&& cond_shape(obj, *t, outer, *x.else_)
                },
                _ => false,
            }
        },
        _ => f == IForm::Const(IFormConst { value: Ref::False }),
    }
}

/// Every clause of `a` is a list whose test and expressions hold no list.
pub open spec fn cond_clauses_free(a: Val) -> bool
    decreases a,
{
    match a {
        Val::Pair(h, t) => *h is Pair && list_free(val_head(*h)) && all_list_free(list_items(val_tail(*h)))
            && cond_clauses_free(*t),
        _ => true,
    }
}

/// The value `v`, as an expression, is a constant: no list, symbol, tuple
/// or array.
pub open spec fn constant_expr(v: Val) -> bool {
    !(v is Pair) && !(v is Sym) && !is_tuple_val(v) && !(v is Array)
}

/// Every local variable of the frames is a parameter or a value known only
/// when running: the compiler knows no constant for any of them.
pub open spec fn unknown_locals(frames: Seq<Vec<LocalVar>>) -> bool {
    forall|i: int, j: int| 0 <= i < frames.len() && 0 <= j < frames[i]@.len() ==> (#[trigger] frames[i]@[j]).init is Unknown
}

/// Some local variable of the frames is named `n`.
pub open spec fn local_named(frames: Seq<Vec<LocalVar>>, n: Seq<char>) -> bool {
    exists|i: int, j: int| 0 <= i < frames.len() && 0 <= j < frames[i]@.len() && (#[trigger] frames[i]@[j]).name@ == n
}

/// The expression of the value `v` is a constant, or a symbol that names a
/// local variable of the frames.
pub open spec fn simple_expr(frames: Seq<Vec<LocalVar>>, v: Val) -> bool {
    constant_expr(v) || (v matches Val::Sym(n) && local_named(frames, n))
}

/// The form `f` is what the simple expression of the value `v` compiles to:
/// a symbol reads the local variable of that name, and a constant is itself.
pub open spec fn simple_form(obj: &Object, v: Val, f: IForm) -> bool {
    match v {
        Val::Sym(n) => match f {
            IForm::LRef(x) => x.symbol@ == n,
            _ => false,
        },
        _ => match f {
            IForm::Const(c) => obj.value_of(c.value) == v,
            _ => false,
        },
    }
}

/// Some of `names` is `n`.
pub open spec fn named_in(names: Seq<Vec<char>>, n: Seq<char>) -> bool {
    exists|j: int| 0 <= j < names.len() && (#[trigger] names[j])@ == n
}

/// The expression of the value `v` is a constant, or a symbol that is one of
/// `names`.
pub open spec fn simple_in(names: Seq<Vec<char>>, v: Val) -> bool {
    constant_expr(v) || (v matches Val::Sym(n) && named_in(names, n))
}

/// Where every local variable is unknown to the compiler, a name that some
/// local variable has is found as a variable.
proof fn lemma_scan_unknown(frames: Seq<Vec<LocalVar>>, fi: int, vi: int, name: Seq<char>)
    requires
        unknown_locals(frames),
        0 <= fi <= frames.len(),
        0 <= vi <= frame_len_before(frames, fi),
        (exists|j: int| 0 <= j < vi && (#[trigger] frames[fi - 1]@[j]).name@ == name) || (exists|i: int, j: int|
            0 <= i < fi - 1 && 0 <= j < frames[i]@.len() && (#[trigger] frames[i]@[j]).name@ == name),
    ensures
        scan_locals(frames, fi, vi, name, false) == Found::Var(None),
    decreases fi, vi,
{
    if fi <= 0 {
    } else if vi <= 0 {
        let (i, j) = choose|i: int, j: int|
            0 <= i < fi - 1 && 0 <= j < frames[i]@.len() && (#[trigger] frames[i]@[j]).name@ == name;
        if i == fi - 2 {
            assert(exists|j2: int| 0 <= j2 < frame_len_before(frames, fi - 1) && (#[trigger] frames[fi - 2]@[j2]).name@
                == name);
        } else {
            assert(exists|i2: int, j2: int|
                0 <= i2 < fi - 2 && 0 <= j2 < frames[i2]@.len() && (#[trigger] frames[i2]@[j2]).name@ == name);
        }
        lemma_scan_unknown(frames, fi - 1, frame_len_before(frames, fi - 1), name);
    } else {
        let v = frames[fi - 1]@[vi - 1];
        assert(v.init is Unknown);
        if v.name@ != name {
            if exists|j: int| 0 <= j < vi && (#[trigger] frames[fi - 1]@[j]).name@ == name {
                let j = choose|j: int| 0 <= j < vi && (#[trigger] frames[fi - 1]@[j]).name@ == name;
                assert(j < vi - 1);
            }
            lemma_scan_unknown(frames, fi, vi - 1, name);
        }
    }
}

/// The value `v` is written `(quote x ...)`, with the syntax itself in its
/// head.
pub open spec fn quote_form(v: Val) -> bool {
    v is Pair && val_head(v) == Val::Syntax(SyntaxId::Quote) && val_tail(v) is Pair
}

/// At the outermost level, a compiled expression has the form its value
/// gives.
proof fn lemma_outer_form(obj: &Object, sexp: Ref, top: bool, res: Result<IForm, SyntaxException>)
    requires
        compiled_outer(obj, sexp, top, res),
        res is Ok,
    ensures
        outer_form(obj, obj.value_of(sexp), res->Ok_0),
{
}

/// The syntax the head `h` of a list names outside every frame of local
/// variables: a syntax itself, or a symbol whose global value is one.
pub open spec fn head_syntax(obj: &Object, h: Val) -> Option<SyntaxId> {
    match h {
        Val::Syntax(s) => Some(s),
        Val::Sym(n) => match obj.global(n) {
            Some(Ref::Syntax(s)) => Some(s),
            _ => None,
        },
        _ => None,
    }
}

/// The constant `and`, `or` or a failed-match catch gives with no
/// expressions.
pub open spec fn and_or_unit(kind: AndOrKind) -> Ref {
    match kind {
        AndOrKind::And => Ref::True,
        AndOrKind::Or => Ref::False,
        AndOrKind::MatchSuccess => Ref::MatchFail,
    }
}

/// What compiling the syntax `s` applied to arguments of the value `a`
/// gives, as far as the outermost form goes and, when `outer` tells that no
/// frame of local variables is open, the outermost forms of the parts it
/// compiles in place (`top` tells that a `let` may stand there); and the
/// arguments on which it always compiles.
pub open spec fn syntax_result(
    obj: &Object,
    s: SyntaxId,
    a: Val,
    outer: bool,
    top: bool,
    res: Result<IForm, SyntaxException>,
) -> bool {
    match s {
        SyntaxId::If => {
            &&& chain_len(a) < 2 ==> res is Err && res->Err_0 is MalformedFormat
            &&& match res {
                Ok(IForm::If(x)) => {
                    &&& chain_len(a) == 2 ==> *x.else_ == IForm::Const(IFormConst { value: Ref::False })
                    &&& outer ==> outer_form(obj, list_items(a)[0], *x.test) && outer_form(
                        obj,
                        list_items(a)[1],
                        *x.then_,
                    ) && (chain_len(a) >= 3 ==> outer_form(obj, list_items(a)[2], *x.else_))
                },
                Ok(_) => false,
                Err(_) => true,
            }
            &&& chain_len(a) >= 2 && list_free(list_items(a)[0]) && list_free(list_items(a)[1]) && (chain_len(a) >= 3
                ==> list_free(list_items(a)[2])) ==> res is Ok
        },
        SyntaxId::Begin => match res {
            Ok(IForm::Sequence(x)) => x.body@.len() == chain_len(a) && (outer ==> forall|k: int|
                0 <= k < x.body@.len() ==> outer_form(obj, list_items(a)[k], #[trigger] x.body@[k])),
            Ok(_) => false,
            Err(_) => true,
        },
        SyntaxId::Cond => {
            &&& !(a is Pair) ==> res == Ok::<IForm, SyntaxException>(IForm::Const(IFormConst { value: Ref::False }))
            &&& a is Pair && !(val_head(a) is Pair) ==> res is Err && res->Err_0 is TypeMismatch
            &&& a is Pair ==> match res {
                Ok(f) => f is If || f is Sequence,
                Err(_) => true,
            }
            &&& res matches Ok(f) ==> cond_shape(obj, a, outer, f)
            &&& cond_clauses_free(a) ==> res is Ok
        },
        SyntaxId::DefRecv => if !outer {
            res == Err::<IForm, SyntaxException>(SyntaxException::DisallowContext)
        } else if !(a is Pair) {
            res is Err && res->Err_0 is MalformedFormat
        } else {
            match res {
                Ok(IForm::DefRecv(x)) => obj.value_of(x.pattern) == val_head(a) && obj.value_of(x.body) == val_tail(a),
                _ => false,
            }
        },
        SyntaxId::Fun => if !(a is Pair) {
            res is Err && res->Err_0 is MalformedFormat
        } else if !is_list_val(val_head(a)) || exists|k: int|
            0 <= k < list_items(val_head(a)).len() && !(#[trigger] list_items(val_head(a))[k] is Sym) {
            res is Err && res->Err_0 is TypeMismatch
        } else {
            match res {
                Ok(IForm::Fun(x)) => obj.value_of(x.params) == val_head(a) && obj.value_of(x.body) == val_tail(a)
                    && x.len_params == chain_len(val_head(a)),
                _ => false,
            }
        },
        SyntaxId::Local => match res {
            Ok(f) => f is Local,
            Err(_) => true,
        },
        SyntaxId::Let | SyntaxId::LetGlobal => {
            let global = s == SyntaxId::LetGlobal;
            &&& !global && !top ==> res == Err::<IForm, SyntaxException>(SyntaxException::DisallowContext)
            &&& (global || top) && !(a is Pair) ==> res is Err && res->Err_0 is MalformedFormat
            &&& (global || top) && a is Pair && !(val_head(a) is Sym) ==> res is Err && res->Err_0 is TypeMismatch
            &&& (global || top) && a is Pair && val_head(a) is Sym && !(val_tail(a) is Pair) ==> res is Err
                && res->Err_0 is MalformedFormat
            &&& match res {
                Ok(IForm::Let(x)) => x.force_global == global && val_head(a) == Val::Sym(x.symbol@),
                Ok(_) => false,
                Err(_) => true,
            }
        },
        SyntaxId::Quote => if a is Pair {
            match res {
                Ok(IForm::Const(c)) => obj.value_of(c.value) == val_head(a),
                _ => false,
            }
        } else {
            res is Err && res->Err_0 is MalformedFormat
        },
        SyntaxId::Unquote | SyntaxId::Bind => res is Err && res->Err_0 is MalformedFormat,
        SyntaxId::Match => {
            &&& !(a is Pair) ==> res == Ok::<IForm, SyntaxException>(IForm::Const(IFormConst { value: Ref::Unit }))
            &&& a is Pair ==> match res {
                Ok(f) => f is Match,
                Err(_) => true,
            }
            &&& a is Pair ==> match res {
                Ok(IForm::Match(x)) => {
                    &&& x.clauses@.len() == crate::value::syntax::matcher::match_clauses(a).len()
                    &&& forall|k: int|
                        0 <= k < x.clauses@.len() ==> crate::value::syntax::matcher::clause_written(
                            obj,
                            #[trigger] x.clauses@[k],
                            crate::value::syntax::matcher::match_clauses(a)[k],
                        )
                    &&& quote_form(val_head(a)) ==> match *x.target {
                        IForm::Const(c) => obj.value_of(c.value) == val_head(val_tail(val_head(a))),
                        _ => false,
                    }
                },
                _ => true,
            }
        },
        SyntaxId::And | SyntaxId::Or | SyntaxId::FailCatch => {
            let kind = if s == SyntaxId::And {
                AndOrKind::And
            } else if s == SyntaxId::Or {
                AndOrKind::Or
            } else {
                AndOrKind::MatchSuccess
            };
            &&& chain_len(a) == 0 ==> res == Ok::<IForm, SyntaxException>(
                IForm::Const(IFormConst { value: and_or_unit(kind) }),
            )
            &&& chain_len(a) > 0 ==> match res {
                Ok(IForm::AndOr(x)) => x.kind == kind && x.exprs@.len() == chain_len(a) && (outer ==> forall|k: int|
                    0 <= k < x.exprs@.len() ==> outer_form(obj, list_items(a)[k], #[trigger] x.exprs@[k])),
                Ok(_) => false,
                Err(_) => true,
            }
            &&& all_list_free(list_items(a)) ==> res is Ok
        },
        SyntaxId::ObjectSwitch => if !outer {
            res == Err::<IForm, SyntaxException>(SyntaxException::DisallowContext)
        } else if !(a is Pair) {
            res is Err && res->Err_0 is MalformedFormat
        } else {
            match res {
                Ok(IForm::ObjectSwitch(x)) => x.target_obj is Some,
                Ok(_) => false,
                Err(_) => true,
            }
        },
        SyntaxId::ReturnObjectSwitch => if !outer {
            res == Err::<IForm, SyntaxException>(SyntaxException::DisallowContext)
        } else {
            res == Ok::<IForm, SyntaxException>(IForm::ObjectSwitch(IFormObjectSwitch { target_obj: None }))
        },
    }
}

/// What compiling the expression of the value `v` gives outside every frame
/// of local variables, as far as the outermost form goes: a symbol is a
/// global variable; a list whose head names a syntax is that syntax; another
/// list is a call with as many arguments as the list has elements after its
/// head, which compiles whenever its elements hold no list; a tuple or an array is a call of the function that makes it with
/// one argument for each element; anything else is a constant (`top` tells
/// that a `let` may stand there).
pub open spec fn compiled_outer(obj: &Object, sexp: Ref, top: bool, res: Result<IForm, SyntaxException>) -> bool {
    let v = obj.value_of(sexp);
    if v is Pair {
        match head_syntax(obj, val_head(v)) {
            Some(s) => syntax_result(obj, s, val_tail(v), true, top, res),
            None => {
                &&& match res {
                    Ok(IForm::Call(x)) => x.args@.len() == chain_len(val_tail(v)),
                    Ok(_) => false,
                    Err(_) => true,
                }
                &&& list_free(val_head(v)) && all_list_free(list_items(val_tail(v))) ==> res is Ok
            },
        }
    } else if v is Sym {
        match res {
            Ok(IForm::GRef(x)) => v == Val::Sym(x.symbol@),
            _ => false,
        }
    } else if is_tuple_val(v) {
        match res {
            Ok(IForm::Call(x)) => *x.app == IForm::Const(IFormConst { value: Ref::Func(FuncId::Tuple) })
                && x.args@.len() == tuple_items(v).len(),
            Ok(_) => false,
            Err(_) => true,
        }
    } else if v is Array {
        match res {
            Ok(IForm::Call(x)) => *x.app == IForm::Const(IFormConst { value: Ref::Func(FuncId::Array) })
                && x.args@.len() == array_items(v).len(),
            Ok(_) => false,
            Err(_) => true,
        }
    } else {
        res == Ok::<IForm, SyntaxException>(IForm::Const(IFormConst { value: sexp }))
    }
}

/// The name of the symbol `r`, if it is one.
pub fn symbol_name(obj: &Object, r: Ref) -> (res: Option<Vec<char>>)
    ensures
        match res {
            Some(n) => obj.value_of(r) == Val::Sym(n@),
            None => !(obj.value_of(r) is Sym),
        },
{
    match r {
        Ref::Ptr(i, _) => {
            if i < obj.heap().len() {
                match obj.heap().kind(i) {
                    crate::object::mm::CellKind::Symbol => Some(obj.heap().text(i)),
                    _ => None,
                }
            } else {
                None
            }
        },
        _ => None,
    }
}

/// The syntax `r` is, if it is one.
pub fn syntax_of(r: Ref) -> (res: Option<SyntaxId>)
    ensures
        match res {
            Some(s) => r == Ref::Syntax(s),
            None => !(r is Syntax),
        },
        forall|obj: &Object| #![trigger obj.value_of(r)] obj.wf() ==> match res {
            Some(s) => obj.value_of(r) == Val::Syntax(s),
            None => !(obj.value_of(r) is Syntax),
        },
{
    proof {
        assert forall|obj: &Object| #![trigger obj.value_of(r)] obj.wf() implies match syntax_of_spec(r) {
            Some(s) => obj.value_of(r) == Val::Syntax(s),
            None => !(obj.value_of(r) is Syntax),
        } by {
            obj.lemma_wf();
            if let Ref::Ptr(i, _) = r {
                if i < obj.heap_view().len() {
                    assert(!(crate::value::any::denote_cell(obj.heap_view(), i as int) is Syntax));
                }
            }
        }
    }
    match r {
        Ref::Syntax(s) => Some(s),
        _ => None,
    }
}

/// The syntax `r` is, if it is one.
pub open spec fn syntax_of_spec(r: Ref) -> Option<SyntaxId> {
    match r {
        Ref::Syntax(s) => Some(s),
        _ => None,
    }
}

/// The result of looking a symbol up among the local variables.
pub enum LookupResult {
    NotFound,
    Const(Ref),
    /// A local variable; the name of the global variable it holds, when
    /// that is known.
    Var(Option<Vec<char>>),
}

/// What looking a name up among local variables finds: nothing, a known
/// constant, or a variable (with the global variable it holds, when known).
pub enum Found {
    NotFound,
    Const(Ref),
    Var(Option<Seq<char>>),
}

/// What the result of a lookup tells.
pub open spec fn found_of(r: LookupResult) -> Found {
    match r {
        LookupResult::NotFound => Found::NotFound,
        LookupResult::Const(c) => Found::Const(c),
        LookupResult::Var(Some(g)) => Found::Var(Some(g@)),
        LookupResult::Var(None) => Found::Var(None),
    }
}

/// The number of variables of the frame before the `fi`-th (none before the
/// first).
pub open spec fn frame_len_before(frames: Seq<Vec<LocalVar>>, fi: int) -> int {
    if 0 < fi <= frames.len() {
        frames[fi - 1]@.len() as int
    } else {
        0
    }
}

/// Looking `name` up among the first `vi` variables of the frame `fi - 1`
/// and all variables of the frames before it, innermost first: the first
/// variable of that name decides, except that a variable holding another
/// local variable sends the search on with that variable's name from there
/// (`renamed` tells that this happened, which finds a variable even when the
/// search ends without one).
pub open spec fn scan_locals(frames: Seq<Vec<LocalVar>>, fi: int, vi: int, name: Seq<char>, renamed: bool) -> Found
    decreases fi, vi,
{
    if fi <= 0 {
        if renamed {
            Found::Var(None)
        } else {
            Found::NotFound
        }
    } else if vi <= 0 {
        scan_locals(frames, fi - 1, frame_len_before(frames, fi - 1), name, renamed)
    } else {
        let v = frames[fi - 1]@[vi - 1];
        if v.name@ == name {
            match v.init {
                LocalInit::LRef(s) => scan_locals(frames, fi, vi - 1, s@, true),
                LocalInit::Const(r) => Found::Const(r),
                LocalInit::GRef(g) => Found::Var(Some(g@)),
                LocalInit::Unknown => Found::Var(None),
            }
        } else {
            scan_locals(frames, fi, vi - 1, name, renamed)
        }
    }
}

/// Looks `symbol` up among the local variables, innermost first, following
/// variables that hold other variables.
pub fn lookup_localvar(symbol: &Vec<char>, ctx: &CCtx) -> (res: LookupResult)
    ensures
        ctx.frames@.len() == 0 ==> res is NotFound,
        res matches LookupResult::Const(r) ==> exists|i: int, j: int|
            0 <= i < ctx.frames@.len() && 0 <= j < ctx.frames@[i]@.len() && #[trigger] init_const(
                ctx.frames@[i]@[j].init,
            ) == Some(r),
        found_of(res) == scan_locals(
            ctx.frames@,
            ctx.frames@.len() as int,
            frame_len_before(ctx.frames@, ctx.frames@.len() as int),
            symbol@,
            false,
        ),
{
    let ghost total = scan_locals(
        ctx.frames@,
        ctx.frames@.len() as int,
        frame_len_before(ctx.frames@, ctx.frames@.len() as int),
        symbol@,
        false,
    );
    let mut name = crate::object::mm::copy_chars(symbol);
    let mut last_found: Option<Option<Vec<char>>> = None;
    let mut fi = ctx.frames.len();
    while fi > 0
        invariant
            fi <= ctx.frames@.len(),
            ctx.frames@.len() == 0 ==> last_found is None,
            last_found is Some ==> last_found->0 is None,
            total == scan_locals(ctx.frames@, fi as int, frame_len_before(ctx.frames@, fi as int), name@, last_found is Some),
            total == scan_locals(
                ctx.frames@,
                ctx.frames@.len() as int,
                frame_len_before(ctx.frames@, ctx.frames@.len() as int),
                symbol@,
                false,
            ),
        decreases fi,
    {
        fi = fi - 1;
        let frame = &ctx.frames[fi];
        let mut vi = frame.len();
        while vi > 0
            invariant
                vi <= frame@.len(),
                fi < ctx.frames@.len(),
                frame == ctx.frames@[fi as int],
                last_found is Some ==> last_found->0 is None,
                total == scan_locals(ctx.frames@, fi + 1, vi as int, name@, last_found is Some),
                total == scan_locals(
                    ctx.frames@,
                    ctx.frames@.len() as int,
                    frame_len_before(ctx.frames@, ctx.frames@.len() as int),
                    symbol@,
                    false,
                ),
            decreases vi,
        {
            vi = vi - 1;
            let lvar = &frame[vi];
            if crate::object::mm::chars_equal(&lvar.name, &name) {
                match &lvar.init {
                    LocalInit::LRef(s) => {
                        name = crate::object::mm::copy_chars(s);
                        last_found = Some(None);
                    },
                    LocalInit::Const(r) => {
                        proof {
                            assert(init_const(ctx.frames@[fi as int]@[vi as int].init) == Some(*r));
                            assert(ctx.frames@[fi as int]@[vi as int].init == LocalInit::Const(*r));
                            assert(ctx.frames@[fi as int]@[vi as int].name@ == name@);
                        }
                        return LookupResult::Const(*r);
                    },
                    LocalInit::GRef(g) => {
                        let c = crate::object::mm::copy_chars(g);
                        proof {
                            assert(ctx.frames@[fi as int]@[vi as int].init matches LocalInit::GRef(x) && x@ == g@);
                            assert(ctx.frames@[fi as int]@[vi as int].name@ == name@);
                        }
                        return LookupResult::Var(Some(c));
                    },
                    LocalInit::Unknown => {
                        return LookupResult::Var(None);
                    },
                }
            }
        }
    }
    match last_found {
        Some(g) => LookupResult::Var(g),
        None => LookupResult::NotFound,
    }
}

/// The value a symbol in the head of a list is known, at compile time, to
/// name: a local constant, or the global variable a local variable holds or
/// the symbol names.
pub fn get_binding_variable(symbol: &Vec<char>, ctx: &CCtx, obj: &Object) -> (res: Option<Ref>)
    requires
        obj.wf(),
    ensures
        ctx.frames@.len() == 0 ==> res == obj.global(symbol@),
{
    match lookup_localvar(symbol, ctx) {
        LookupResult::Var(Some(g)) => obj.find_global_value(&g),
        LookupResult::Var(None) => None,
        LookupResult::Const(r) => Some(r),
        LookupResult::NotFound => obj.find_global_value(symbol),
    }
}


/// The head and the rest of the list cell `r`, if it is one.
fn head_tail(obj: &Object, r: Ref) -> (res: Option<(Ref, Ref)>)
    requires
        obj.wf(),
    ensures
        res is Some == (obj.value_of(r) is Pair),
        res matches Some(p) ==> obj.valid(p.0) && obj.valid(p.1) && ref_rank(p.0) < ref_rank(r) && ref_rank(p.1)
            < ref_rank(r),
        res matches Some(p) ==> obj.value_of(p.0) == val_head(obj.value_of(r)) && obj.value_of(p.1) == val_tail(
            obj.value_of(r),
        ),
{
    if List::is_pair(obj, r) {
        let (h, t) = List::parts(obj, r);
        Some((h, t))
    } else {
        None
    }
}

/// A malformed-format error with the message `m`.
fn malformed(related: Option<Ref>, m: &str) -> (e: SyntaxException)
    ensures
        e matches SyntaxException::MalformedFormat(x) && x.related_exp == related && x.message@ == m@,
{
    SyntaxException::MalformedFormat(MalformedFormat::new(related, m))
}

/// Compiles the expression `sexp`.
fn pass_transform(sexp: Ref, ctx: &mut CCtx, obj: &Object) -> (res: Result<IForm, SyntaxException>)
    requires
        obj.wf(),
        obj.valid(sexp),
        frames_below(old(ctx).frames@, obj.heap_view().len() as int),
    ensures
        compile_post(obj, old(ctx), final(ctx), res),
        old(ctx).frames@.len() == 0 ==> compiled_outer(obj, sexp, old(ctx).toplevel, res),
        obj.value_of(sexp) is Sym ==> res is Ok,
        list_free(obj.value_of(sexp)) ==> res is Ok,
        obj.value_of(sexp) is Pair && val_head(obj.value_of(sexp)) is Syntax ==> syntax_result(
            obj,
            val_head(obj.value_of(sexp))->Syntax_0,
            val_tail(obj.value_of(sexp)),
            old(ctx).frames@.len() == 0,
            old(ctx).toplevel,
            res,
        ),
        constant_expr(obj.value_of(sexp)) ==> res == Ok::<IForm, SyntaxException>(IForm::Const(IFormConst { value: sexp })),
        obj.value_of(sexp) is Sym || constant_expr(obj.value_of(sexp)) ==> *final(ctx) == *old(ctx),
        unknown_locals(old(ctx).frames@) && simple_expr(old(ctx).frames@, obj.value_of(sexp)) ==> (res matches Ok(f)
            && simple_form(obj, obj.value_of(sexp), f)),
    decreases ref_rank(sexp), 5nat,
{
    if List::is_pair(obj, sexp) {
        transform_apply(sexp, ctx, obj)
    } else if let Some(name) = symbol_name(obj, sexp) {
        Ok(transform_symbol(&name, ctx))
    } else if Tuple::is(obj, sexp) {
        transform_container(FuncId::Tuple, sexp, ctx, obj)
    } else if Array::is(obj, sexp) {
        transform_container(FuncId::Array, sexp, ctx, obj)
    } else {
        Ok(IForm::Const(IFormConst { value: sexp }))
    }
}

/// Compiles a symbol: a local variable, a known local constant, or a global
/// variable.
fn transform_symbol(name: &Vec<char>, ctx: &CCtx) -> (res: IForm)
    ensures
        forall|n: int| frames_below(ctx.frames@, n) ==> iform_below(res, n),
        ctx.frames@.len() == 0 ==> match res {
            IForm::GRef(x) => x.symbol@ == name@,
            _ => false,
        },
        unknown_locals(ctx.frames@) && local_named(ctx.frames@, name@) ==> (res matches IForm::LRef(x) && x.symbol@
            == name@),
{
    proof {
        let fr = ctx.frames@;
        if unknown_locals(fr) && local_named(fr, name@) {
            let (i, j) = choose|i: int, j: int| 0 <= i < fr.len() && 0 <= j < fr[i]@.len() && (#[trigger] fr[i]@[j]).name@ == name@;
            if i == fr.len() - 1 {
                assert(exists|j2: int| 0 <= j2 < frame_len_before(fr, fr.len() as int) && (#[trigger] fr[fr.len() - 1]@[j2]).name@
                    == name@);
            } else {
                assert(exists|i2: int, j2: int|
                    0 <= i2 < fr.len() - 1 && 0 <= j2 < fr[i2]@.len() && (#[trigger] fr[i2]@[j2]).name@ == name@);
            }
            lemma_scan_unknown(fr, fr.len() as int, frame_len_before(fr, fr.len() as int), name@);
        }
    }
    match lookup_localvar(name, ctx) {
        LookupResult::Var(_) => IForm::LRef(IFormLRef { symbol: crate::object::mm::copy_chars(name) }),
        LookupResult::Const(r) => {
            proof {
                assert forall|n: int| frames_below(ctx.frames@, n) implies iform_below(IForm::Const(IFormConst { value: r }), n) by {
                    let (i, j) = choose|i: int, j: int|
                        0 <= i < ctx.frames@.len() && 0 <= j < ctx.frames@[i]@.len() && #[trigger] init_const(
                            ctx.frames@[i]@[j].init,
                        ) == Some(r);
                    assert(match init_const(ctx.frames@[i]@[j].init) {
                        Some(r) => ref_below(r, n),
                        None => true,
                    });
                }
            }
            IForm::Const(IFormConst { value: r })
        },
        LookupResult::NotFound => IForm::GRef(IFormGRef { symbol: crate::object::mm::copy_chars(name) }),
    }
}

/// Compiles the expressions `exprs` with the context's flags set to
/// `toplevel` and, for the last one, the tail flag `last_tail` (the others
/// are not in tail position).
fn transform_each(exprs: &Vec<Ref>, last_tail: bool, toplevel: bool, bound: Ref, ctx: &mut CCtx, obj: &Object) -> (res:
    Result<Vec<IForm>, SyntaxException>)
    requires
        obj.wf(),
        all_valid(obj, exprs@),
        forall|k: int| 0 <= k < exprs@.len() ==> ref_rank(#[trigger] exprs@[k]) < ref_rank(bound),
        frames_below(old(ctx).frames@, obj.heap_view().len() as int),
    ensures
        final(ctx).frames@.len() == old(ctx).frames@.len(),
        final(ctx).toplevel == old(ctx).toplevel,
        final(ctx).tail == old(ctx).tail,
        frames_below(final(ctx).frames@, obj.heap_view().len() as int),
        res matches Ok(v) ==> iforms_below(v@, obj.heap_view().len() as int) && v@.len() == exprs@.len(),
        all_list_free(crate::value::list::values_of(obj, exprs@)) ==> res is Ok,
        old(ctx).frames@.len() == 0 ==> (res matches Ok(v) ==> forall|k: int|
            0 <= k < v@.len() ==> outer_form(obj, obj.value_of(exprs@[k]), #[trigger] v@[k])),
        unknown_locals(old(ctx).frames@) && (forall|k: int|
            0 <= k < exprs@.len() ==> simple_expr(old(ctx).frames@, #[trigger] obj.value_of(exprs@[k]))) ==> (res matches Ok(
            v,
        ) && forall|k: int| 0 <= k < v@.len() ==> simple_form(obj, obj.value_of(exprs@[k]), #[trigger] v@[k])),
    decreases ref_rank(bound), 0nat,
{
    let saved_top = ctx.toplevel;
    let saved_tail = ctx.tail;
    let mut out: Vec<IForm> = Vec::new();
    let n = exprs.len();
    let mut i: usize = 0;
    while i < n
        invariant
            obj.wf(),
            n == exprs@.len(),
            i <= n,
            all_valid(obj, exprs@),
            forall|k: int| 0 <= k < exprs@.len() ==> ref_rank(#[trigger] exprs@[k]) < ref_rank(bound),
            ctx.frames@.len() == old(ctx).frames@.len(),
            frames_below(ctx.frames@, obj.heap_view().len() as int),
            iforms_below(out@, obj.heap_view().len() as int),
            out@.len() == i,
            saved_top == old(ctx).toplevel,
            saved_tail == old(ctx).tail,
            old(ctx).frames@.len() == 0 ==> forall|k: int|
                0 <= k < i ==> outer_form(obj, obj.value_of(exprs@[k]), #[trigger] out@[k]),
            unknown_locals(old(ctx).frames@) && (forall|k: int|
                0 <= k < exprs@.len() ==> simple_expr(old(ctx).frames@, #[trigger] obj.value_of(exprs@[k])))
                ==> ctx.frames@ == old(ctx).frames@ && forall|k: int|
                0 <= k < i ==> simple_form(obj, obj.value_of(exprs@[k]), #[trigger] out@[k]),
        decreases n - i,
    {
        ctx.toplevel = toplevel;
        ctx.tail = if i + 1 == n {
            last_tail
        } else {
            false
        };
        let e = exprs[i];
        proof {
            assert(crate::value::list::values_of(obj, exprs@)[i as int] == obj.value_of(e));
        }
        let f = match pass_transform(e, ctx, obj) {
            Ok(f) => f,
            Err(err) => {
                ctx.toplevel = saved_top;
                ctx.tail = saved_tail;
                return Err(err);
            },
        };
        let ghost o = out@;
        out.push(f);
        proof {
            assert(out@.drop_last() =~= o);
            if old(ctx).frames@.len() == 0 {
                lemma_outer_form(obj, e, toplevel, Ok::<IForm, SyntaxException>(f));
                assert forall|k: int| 0 <= k < i + 1 implies outer_form(obj, obj.value_of(exprs@[k]), #[trigger] out@[k]) by {
                    if k < i {
                        assert(out@[k] == o[k]);
                    }
                }
            }
            if unknown_locals(old(ctx).frames@) && (forall|k: int|
                0 <= k < exprs@.len() ==> simple_expr(old(ctx).frames@, #[trigger] obj.value_of(exprs@[k]))) {
                assert(simple_expr(old(ctx).frames@, obj.value_of(exprs@[i as int])));
                assert forall|k: int| 0 <= k < i + 1 implies simple_form(obj, obj.value_of(exprs@[k]), #[trigger] out@[k]) by {
                    if k < i {
                        assert(out@[k] == o[k]);
                    }
                }
            }
        }
        i = i + 1;
    }
    ctx.toplevel = saved_top;
    ctx.tail = saved_tail;
    Ok(out)
}

/// Compiles a list: a syntax applied to its arguments, or a call.
fn transform_apply(list: Ref, ctx: &mut CCtx, obj: &Object) -> (res: Result<IForm, SyntaxException>)
    requires
        obj.wf(),
        obj.valid(list),
        obj.value_of(list) is Pair,
        frames_below(old(ctx).frames@, obj.heap_view().len() as int),
    ensures
        compile_post(obj, old(ctx), final(ctx), res),
        old(ctx).frames@.len() == 0 ==> compiled_outer(obj, list, old(ctx).toplevel, res),
        val_head(obj.value_of(list)) is Syntax ==> syntax_result(
            obj,
            val_head(obj.value_of(list))->Syntax_0,
            val_tail(obj.value_of(list)),
            old(ctx).frames@.len() == 0,
            old(ctx).toplevel,
            res,
        ),
    decreases ref_rank(list), 4nat,
{
    let (app, args) = List::parts(obj, list);
    proof {
        crate::value::list::lemma_pair_value(obj.heap_view(), list);
    }
    if let Some(name) = symbol_name(obj, app) {
        if let Some(val) = get_binding_variable(&name, ctx, obj) {
            if let Some(s) = syntax_of(val) {
                return transform_syntax(s, args, ctx, obj);
            }
        }
    } else if let Some(s) = syntax_of(app) {
        return transform_syntax(s, args, ctx, obj);
    }
    let is_tail = ctx.tail;
    let saved_top = ctx.toplevel;
    ctx.toplevel = false;
    ctx.tail = false;
    let app_form = match pass_transform(app, ctx, obj) {
        Ok(f) => f,
        Err(e) => {
            ctx.toplevel = saved_top;
            ctx.tail = is_tail;
            return Err(e);
        },
    };
    let elems = elements(obj, args);
    let arg_forms = match transform_each(&elems, false, false, list, ctx, obj) {
        Ok(v) => v,
        Err(e) => {
            ctx.toplevel = saved_top;
            ctx.tail = is_tail;
            return Err(e);
        },
    };
    ctx.toplevel = saved_top;
    ctx.tail = is_tail;
    Ok(IForm::Call(IFormCall { app: Box::new(app_form), args: arg_forms, is_tail }))
}

/// Compiles a tuple or an array: a call of the function that makes it, with
/// the compiled elements.
fn transform_container(maker: FuncId, v: Ref, ctx: &mut CCtx, obj: &Object) -> (res: Result<IForm, SyntaxException>)
    requires
        obj.wf(),
        obj.valid(v),
        frames_below(old(ctx).frames@, obj.heap_view().len() as int),
    ensures
        compile_post(obj, old(ctx), final(ctx), res),
        match res {
            Ok(IForm::Call(x)) => *x.app == IForm::Const(IFormConst { value: Ref::Func(maker) })
                && (obj.value_of(v) is Array ==> x.args@.len() == array_items(obj.value_of(v)).len())
                && (is_tuple_val(obj.value_of(v)) ==> x.args@.len() == tuple_items(obj.value_of(v)).len()),
            Ok(_) => false,
            Err(_) => true,
        },
        (obj.value_of(v) is Array || is_tuple_val(obj.value_of(v))) && list_free(obj.value_of(v)) ==> res is Ok,
    decreases ref_rank(v), 4nat,
{
    let items = container_items(obj, v);
    proof {
        let vs = crate::value::list::values_of(obj, items@);
        if (obj.value_of(v) is Array || is_tuple_val(obj.value_of(v))) && list_free(obj.value_of(v)) {
            assert forall|k: int| 0 <= k < vs.len() implies list_free(#[trigger] vs[k]) by {
                if obj.value_of(v) is Array {
                    assert(vs[k] == array_items(obj.value_of(v))[k]);
                } else if obj.value_of(v) is Tuple {
                    assert(vs[k] == tuple_items(obj.value_of(v))[k]);
                }
            }
        }
    }
    let is_tail = ctx.tail;
    let args = match transform_each(&items, false, false, v, ctx, obj) {
        Ok(a) => a,
        Err(e) => {
            return Err(e);
        },
    };
    let app = IForm::Const(IFormConst { value: Ref::Func(maker) });
    proof {
        assert(iform_below(app, obj.heap_view().len() as int));
    }
    Ok(IForm::Call(IFormCall { app: Box::new(app), args, is_tail }))
}

/// The references an array or tuple holds (none for other values), each
/// older than it.
pub fn container_items(obj: &Object, v: Ref) -> (res: Vec<Ref>)
    requires
        obj.wf(),
        obj.valid(v),
    ensures
        all_valid(obj, res@),
        forall|k: int| 0 <= k < res@.len() ==> ref_rank(#[trigger] res@[k]) < ref_rank(v),
        obj.value_of(v) is Array ==> crate::value::list::values_of(obj, res@) == crate::value::array::array_items(
            obj.value_of(v),
        ),
        crate::value::tuple::is_tuple_val(obj.value_of(v)) ==> crate::value::list::values_of(obj, res@)
            == crate::value::tuple::tuple_items(obj.value_of(v)),
{
    let mut res: Vec<Ref> = Vec::new();
    match v {
        Ref::Ptr(i, _) => {
            let h = obj.heap();
            let n = h.refs_len(i);
            proof {
                obj.lemma_wf();
                crate::value::any::lemma_refs_rank(obj.heap_view(), i as int);
            }
            let ghost cr = crate::object::mm::cell_refs(h@[i as int]);
            let mut k: usize = 0;
            while k < n
                invariant
                    obj.wf(),
                    h@ == obj.heap_view(),
                    (i as int) < h@.len(),
                    n == crate::object::mm::cell_refs(h@[i as int]).len(),
                    k <= n,
                    forall|x: int| 0 <= x < n ==> ref_rank(#[trigger] crate::object::mm::cell_refs(h@[i as int])[x]) <= i,
                    all_valid(obj, res@),
                    forall|x: int| 0 <= x < res@.len() ==> ref_rank(#[trigger] res@[x]) < ref_rank(v),
                    v == Ref::Ptr(i, v->1),
                    cr == crate::object::mm::cell_refs(h@[i as int]),
                    res@ == cr.take(k as int),
                decreases n - k,
            {
                let r = h.ref_at(i, k);
                proof {
                    assert(ref_rank(crate::object::mm::cell_refs(h@[i as int])[k as int]) <= i);
                }
                let ghost r0 = res@;
                res.push(r);
                proof {
                    assert forall|x: int| 0 <= x < res@.len() implies obj.valid(#[trigger] res@[x]) by {
                        if x < r0.len() {
                            assert(res@[x] == r0[x]);
                        }
                    }
                }
                proof {
                    assert(res@ =~= cr.take(k + 1));
                }
                k = k + 1;
            }
            proof {
                assert(res@ =~= cr);
                if (i as int) < obj.heap_view().len() {
                    crate::value::any::lemma_container_cell(obj.heap_view(), i as int);
                    assert(crate::value::list::values_of(obj, res@) =~= crate::value::any::denote_seq(
                        obj.heap_view(),
                        cr,
                        i as int,
                    ));
                }
            }
            res
        },
        _ => {
            proof {
                assert(crate::value::list::values_of(obj, res@) =~= Seq::<crate::value::any::Val>::empty());
            }
            res
        },
    }
}


/// Compiles the application of the syntax `s` to `args`.
fn transform_syntax(s: SyntaxId, args: Ref, ctx: &mut CCtx, obj: &Object) -> (res: Result<IForm, SyntaxException>)
    requires
        obj.wf(),
        obj.valid(args),
        frames_below(old(ctx).frames@, obj.heap_view().len() as int),
    ensures
        compile_post(obj, old(ctx), final(ctx), res),
        syntax_result(obj, s, obj.value_of(args), old(ctx).frames@.len() == 0, old(ctx).toplevel, res),
    decreases ref_rank(args), 3nat,
{
    match s {
        SyntaxId::If => syntax_if(args, ctx, obj),
        SyntaxId::Begin => syntax_begin(args, ctx, obj),
        SyntaxId::Cond => syntax_cond(args, ctx, obj),
        SyntaxId::DefRecv => syntax_def_recv(args, ctx, obj),
        SyntaxId::Fun => syntax_fun(args, ctx, obj),
        SyntaxId::Local => syntax_local(args, ctx, obj),
        SyntaxId::Let => syntax_let(args, false, ctx, obj),
        SyntaxId::LetGlobal => syntax_let(args, true, ctx, obj),
        SyntaxId::Quote => syntax_quote(args, obj),
        SyntaxId::Unquote => Err(malformed(Some(args), "unquote outside of a pattern")),
        SyntaxId::Bind => Err(malformed(Some(args), "bind outside of a pattern")),
        SyntaxId::Match => syntax_match(args, ctx, obj),
        SyntaxId::And => syntax_and_or(args, AndOrKind::And, ctx, obj),
        SyntaxId::Or => syntax_and_or(args, AndOrKind::Or, ctx, obj),
        SyntaxId::ObjectSwitch => syntax_object_switch(args, ctx, obj),
        SyntaxId::ReturnObjectSwitch => syntax_return_object_switch(ctx),
        SyntaxId::FailCatch => syntax_and_or(args, AndOrKind::MatchSuccess, ctx, obj),
    }
}

/// `(if test then else)`: without `else`, a false test gives false.
fn syntax_if(args: Ref, ctx: &mut CCtx, obj: &Object) -> (res: Result<IForm, SyntaxException>)
    requires
        obj.wf(),
        obj.valid(args),
        frames_below(old(ctx).frames@, obj.heap_view().len() as int),
    ensures
        compile_post(obj, old(ctx), final(ctx), res),
        syntax_result(obj, SyntaxId::If, obj.value_of(args), old(ctx).frames@.len() == 0, old(ctx).toplevel, res),
    decreases ref_rank(args), 2nat,
{
    let (test, rest) = match head_tail(obj, args) {
        Some(p) => p,
        None => {
            return Err(malformed(Some(args), "if requires a test"));
        },
    };
    proof {
        assert(chain_len(obj.value_of(args)) == 1 + chain_len(obj.value_of(rest)));
    }
    let (then_expr, rest2) = match head_tail(obj, rest) {
        Some(p) => p,
        None => {
            return Err(malformed(Some(args), "if requires a consequent"));
        },
    };
    proof {
        assert(chain_len(obj.value_of(rest)) == 1 + chain_len(obj.value_of(rest2)));
        assert(chain_len(obj.value_of(args)) == 1 + chain_len(obj.value_of(rest)));
        let a = obj.value_of(args);
        assert(list_items(a)[0] == obj.value_of(test));
        assert(list_items(obj.value_of(rest))[0] == obj.value_of(then_expr));
        assert(list_items(a)[1] == list_items(obj.value_of(rest))[0]);
        if chain_len(a) >= 3 {
            assert(list_items(obj.value_of(rest))[1] == list_items(obj.value_of(rest2))[0]);
            assert(list_items(a)[2] == list_items(obj.value_of(rest))[1]);
            assert(list_items(obj.value_of(rest2))[0] == val_head(obj.value_of(rest2)));
        }
    }
    let ghost outer = old(ctx).frames@.len() == 0;
    let saved_top = ctx.toplevel;
    let saved_tail = ctx.tail;
    ctx.toplevel = false;
    ctx.tail = false;
    let test_form = pass_transform(test, ctx, obj);
    ctx.tail = saved_tail;
    proof {
        if outer && test_form is Ok {
            lemma_outer_form(obj, test, false, test_form);
        }
    }
    let test_form = match test_form {
        Ok(f) => f,
        Err(e) => {
            ctx.toplevel = saved_top;
            return Err(e);
        },
    };
    let else_form = match head_tail(obj, rest2) {
        None => {
            let f = IForm::Const(IFormConst { value: Ref::False });
            proof {
                assert(iform_below(f, obj.heap_view().len() as int));
            }
            f
        },
        Some((else_expr, _)) => match pass_transform(else_expr, ctx, obj) {
            Ok(f) => {
                proof {
                    if outer {
                        lemma_outer_form(obj, else_expr, false, Ok::<IForm, SyntaxException>(f));
                    }
                }
                f
            },
            Err(e) => {
                ctx.toplevel = saved_top;
                ctx.tail = saved_tail;
                return Err(e);
            },
        },
    };
    let then_form = pass_transform(then_expr, ctx, obj);
    proof {
        if outer && then_form is Ok {
            lemma_outer_form(obj, then_expr, false, then_form);
        }
    }
    ctx.toplevel = saved_top;
    ctx.tail = saved_tail;
    match then_form {
        Ok(t) => Ok(IForm::If(IFormIf { test: Box::new(test_form), then_: Box::new(t), else_: Box::new(else_form) })),
        Err(e) => Err(e),
    }
}

/// `(begin e ...)`: the expressions in order.
fn syntax_begin(args: Ref, ctx: &mut CCtx, obj: &Object) -> (res: Result<IForm, SyntaxException>)
    requires
        obj.wf(),
        obj.valid(args),
        frames_below(old(ctx).frames@, obj.heap_view().len() as int),
    ensures
        compile_post(obj, old(ctx), final(ctx), res),
        syntax_result(obj, SyntaxId::Begin, obj.value_of(args), old(ctx).frames@.len() == 0, old(ctx).toplevel, res),
        all_list_free(list_items(obj.value_of(args))) ==> res is Ok,
    decreases ref_rank(args), 2nat,
{
    transform_begin(args, ctx, obj)
}

/// Compiles the expressions of the list `body` in order, keeping the
/// context's flags (only the last expression keeps the tail flag).
fn transform_begin(body: Ref, ctx: &mut CCtx, obj: &Object) -> (res: Result<IForm, SyntaxException>)
    requires
        obj.wf(),
        obj.valid(body),
        frames_below(old(ctx).frames@, obj.heap_view().len() as int),
    ensures
        compile_post(obj, old(ctx), final(ctx), res),
        match res {
            Ok(IForm::Sequence(x)) => x.body@.len() == chain_len(obj.value_of(body)),
            Ok(_) => false,
            Err(_) => true,
        },
        all_list_free(list_items(obj.value_of(body))) ==> res is Ok,
        old(ctx).frames@.len() == 0 ==> match res {
            Ok(IForm::Sequence(x)) => forall|k: int|
                0 <= k < x.body@.len() ==> outer_form(obj, list_items(obj.value_of(body))[k], #[trigger] x.body@[k]),
            _ => true,
        },
        unknown_locals(old(ctx).frames@) && (forall|k: int|
            0 <= k < list_items(obj.value_of(body)).len() ==> simple_expr(
                old(ctx).frames@,
                #[trigger] list_items(obj.value_of(body))[k],
            )) ==> match res {
            Ok(IForm::Sequence(x)) => forall|k: int|
                0 <= k < x.body@.len() ==> simple_form(obj, list_items(obj.value_of(body))[k], #[trigger] x.body@[k]),
            _ => false,
        },
    decreases ref_rank(body), 1nat,
{
    let elems = elements(obj, body);
    let top = ctx.toplevel;
    let tail = ctx.tail;
    proof {
        assert forall|k: int| 0 <= k < elems@.len() implies #[trigger] list_items(obj.value_of(body))[k] == obj.value_of(
            elems@[k],
        ) by {
            assert(crate::value::list::values_of(obj, elems@)[k] == obj.value_of(elems@[k]));
        }
        assert(crate::value::list::values_of(obj, elems@).len() == elems@.len());
        if unknown_locals(ctx.frames@) && (forall|k: int|
            0 <= k < list_items(obj.value_of(body)).len() ==> simple_expr(
                ctx.frames@,
                #[trigger] list_items(obj.value_of(body))[k],
            )) {
            assert forall|k: int| 0 <= k < elems@.len() implies simple_expr(ctx.frames@, #[trigger] obj.value_of(elems@[k])) by {
                assert(list_items(obj.value_of(body))[k] == obj.value_of(elems@[k]));
            }
        }
    }
    match transform_each(&elems, tail, top, body, ctx, obj) {
        Ok(v) => Ok(IForm::Sequence(IFormSeq { body: v })),
        Err(e) => Err(e),
    }
}

/// `(cond (test e ...) ...)`: the first clause whose test holds; a last
/// clause with the test `else` always holds; false when none does.
fn syntax_cond(args: Ref, ctx: &mut CCtx, obj: &Object) -> (res: Result<IForm, SyntaxException>)
    requires
        obj.wf(),
        obj.valid(args),
        frames_below(old(ctx).frames@, obj.heap_view().len() as int),
    ensures
        compile_post(obj, old(ctx), final(ctx), res),
        syntax_result(obj, SyntaxId::Cond, obj.value_of(args), old(ctx).frames@.len() == 0, old(ctx).toplevel, res),
    decreases ref_rank(args), 2nat,
{
    if List::is_nil(args) {
        return Ok(IForm::Const(IFormConst { value: Ref::False }));
    }
    let saved_top = ctx.toplevel;
    ctx.toplevel = false;
    let res = cond_inner(args, ctx, obj);
    ctx.toplevel = saved_top;
    res
}

/// The clauses of `cond` from `args` on.
fn cond_inner(args: Ref, ctx: &mut CCtx, obj: &Object) -> (res: Result<IForm, SyntaxException>)
    requires
        obj.wf(),
        obj.valid(args),
        frames_below(old(ctx).frames@, obj.heap_view().len() as int),
    ensures
        compile_post(obj, old(ctx), final(ctx), res),
        !(obj.value_of(args) is Pair) ==> res == Ok::<IForm, SyntaxException>(IForm::Const(IFormConst { value: Ref::False })),
        obj.value_of(args) is Pair && !(val_head(obj.value_of(args)) is Pair) ==> res is Err && res->Err_0 is TypeMismatch,
        obj.value_of(args) is Pair ==> match res {
            Ok(f) => f is If || f is Sequence,
            Err(_) => true,
        },
        res matches Ok(f) ==> cond_shape(obj, obj.value_of(args), old(ctx).frames@.len() == 0, f),
        cond_clauses_free(obj.value_of(args)) ==> res is Ok,
    decreases ref_rank(args), 1nat,
{
    let (clause, rest) = match head_tail(obj, args) {
        Some(p) => p,
        None => {
            return Ok(IForm::Const(IFormConst { value: Ref::False }));
        },
    };
    let is_last = List::is_nil(rest);
    proof {
        crate::value::syntax::matcher::lemma_nil_value(obj, rest);
    }
    let (test, then_clause) = match head_tail(obj, clause) {
        Some(p) => p,
        None => {
            return Err(SyntaxException::TypeMismatch(TypeMismatch::new(clause, TypeInfo::List)));
        },
    };
    if is_last {
        if let Some(name) = symbol_name(obj, test) {
            if chars_are_else(&name) {
                return transform_begin(then_clause, ctx, obj);
            }
        }
    }
    let saved_top = ctx.toplevel;
    let saved_tail = ctx.tail;
    ctx.toplevel = false;
    ctx.tail = false;
    let test_form = pass_transform(test, ctx, obj);
    ctx.toplevel = saved_top;
    ctx.tail = saved_tail;
    proof {
        if old(ctx).frames@.len() == 0 && test_form is Ok {
            lemma_outer_form(obj, test, false, test_form);
        }
    }
    let test_form = match test_form {
        Ok(f) => f,
        Err(e) => {
            return Err(e);
        },
    };
    let exprs_form = match transform_begin(then_clause, ctx, obj) {
        Ok(f) => f,
        Err(e) => {
            return Err(e);
        },
    };
    let next_form = if is_last {
        let f = IForm::Const(IFormConst { value: Ref::False });
        proof {
            assert(iform_below(f, obj.heap_view().len() as int));
        }
        f
    } else {
        match cond_inner(rest, ctx, obj) {
            Ok(f) => f,
            Err(e) => {
                return Err(e);
            },
        }
    };
    proof {
        let a = obj.value_of(args);
        assert(!(obj.value_of(rest) == Val::Nil && val_head(obj.value_of(clause)) == Val::Sym(
            seq!['e', 'l', 's', 'e'],
        )));
        if is_last {
            assert(cond_shape(obj, obj.value_of(rest), old(ctx).frames@.len() == 0, next_form));
        }
    }
    Ok(IForm::If(IFormIf { test: Box::new(test_form), then_: Box::new(exprs_form), else_: Box::new(next_form) }))
}

/// The name is `else`.
fn chars_are_else(name: &Vec<char>) -> (res: bool)
    ensures
        res == (name@ == seq!['e', 'l', 's', 'e']),
{
    let r = name.len() == 4 && name[0] == 'e' && name[1] == 'l' && name[2] == 's' && name[3] == 'e';
    proof {
        if r {
            assert(name@ =~= seq!['e', 'l', 's', 'e']);
        }
    }
    r
}

/// `(def-recv pattern body ...)`: only outside local frames.
fn syntax_def_recv(args: Ref, ctx: &mut CCtx, obj: &Object) -> (res: Result<IForm, SyntaxException>)
    requires
        obj.wf(),
        obj.valid(args),
        frames_below(old(ctx).frames@, obj.heap_view().len() as int),
    ensures
        compile_post(obj, old(ctx), final(ctx), res),
        syntax_result(obj, SyntaxId::DefRecv, obj.value_of(args), old(ctx).frames@.len() == 0, old(ctx).toplevel, res),
        old(ctx).frames@.len() > 0 ==> res matches Err(SyntaxException::DisallowContext),
    decreases ref_rank(args), 2nat,
{
    if ctx.frames.len() != 0 {
        return Err(SyntaxException::DisallowContext);
    }
    match head_tail(obj, args) {
        Some((pat, body)) => Ok(IForm::DefRecv(IFormDefRecv { pattern: pat, body })),
        None => Err(malformed(Some(args), "def-recv requires a pattern")),
    }
}

/// `(fun (param ...) body ...)`: the parameters must be symbols.
fn syntax_fun(args: Ref, ctx: &mut CCtx, obj: &Object) -> (res: Result<IForm, SyntaxException>)
    requires
        obj.wf(),
        obj.valid(args),
        frames_below(old(ctx).frames@, obj.heap_view().len() as int),
    ensures
        compile_post(obj, old(ctx), final(ctx), res),
        syntax_result(obj, SyntaxId::Fun, obj.value_of(args), old(ctx).frames@.len() == 0, old(ctx).toplevel, res),
        *final(ctx) == *old(ctx),
        obj.value_of(args) is Pair && !is_list_val(val_head(obj.value_of(args))) ==> match res {
            Err(SyntaxException::TypeMismatch(t)) => t.require_type == TypeInfo::List && obj.value_of(t.found_exp)
                == val_head(obj.value_of(args)),
            _ => false,
        },
        match res {
            Err(SyntaxException::TypeMismatch(t)) => t.require_type == TypeInfo::Symbol ==> exists|k: int|
                0 <= k < list_items(val_head(obj.value_of(args))).len() && obj.value_of(t.found_exp)
                    == #[trigger] list_items(val_head(obj.value_of(args)))[k] && !(list_items(
                    val_head(obj.value_of(args)),
                )[k] is Sym) && forall|j: int|
                    0 <= j < k ==> (#[trigger] list_items(val_head(obj.value_of(args)))[j]) is Sym,
            _ => true,
        },
    decreases ref_rank(args), 2nat,
{
    let (params, body) = match head_tail(obj, args) {
        Some(p) => p,
        None => {
            return Err(malformed(Some(args), "fun requires parameters"));
        },
    };
    proof {
        crate::value::syntax::matcher::lemma_nil_value(obj, params);
    }
    if !(List::is_nil(params) || List::is_pair(obj, params)) {
        return Err(SyntaxException::TypeMismatch(TypeMismatch::new(params, TypeInfo::List)));
    }
    let ps = elements(obj, params);
    let ghost items = list_items(obj.value_of(params));
    proof {
        assert forall|k: int| 0 <= k < ps@.len() implies #[trigger] items[k] == obj.value_of(ps@[k]) by {
            assert(crate::value::list::values_of(obj, ps@)[k] == obj.value_of(ps@[k]));
        }
    }
    let mut i: usize = 0;
    while i < ps.len()
        invariant
            i <= ps@.len(),
            *ctx == *old(ctx),
            frames_below(old(ctx).frames@, obj.heap_view().len() as int),
            items.len() == ps@.len(),
            items == list_items(val_head(obj.value_of(args))),
            forall|k: int| 0 <= k < ps@.len() ==> #[trigger] items[k] == obj.value_of(ps@[k]),
            forall|k: int| 0 <= k < i ==> (#[trigger] items[k]) is Sym,
        decreases ps@.len() - i,
    {
        if symbol_name(obj, ps[i]).is_none() {
            proof {
                assert(!(items[i as int] is Sym));
                assert(!(list_items(val_head(obj.value_of(args)))[i as int] is Sym));
            }
            return Err(SyntaxException::TypeMismatch(TypeMismatch::new(ps[i], TypeInfo::Symbol)));
        }
        i = i + 1;
    }
    Ok(IForm::Fun(IFormFun { params, body, len_params: ps.len() }))
}

/// `(local e ...)`: the expressions in a new frame of local variables.
fn syntax_local(args: Ref, ctx: &mut CCtx, obj: &Object) -> (res: Result<IForm, SyntaxException>)
    requires
        obj.wf(),
        obj.valid(args),
        frames_below(old(ctx).frames@, obj.heap_view().len() as int),
    ensures
        compile_post(obj, old(ctx), final(ctx), res),
        syntax_result(obj, SyntaxId::Local, obj.value_of(args), old(ctx).frames@.len() == 0, old(ctx).toplevel, res),
        all_list_free(list_items(obj.value_of(args))) ==> res is Ok,
    decreases ref_rank(args), 2nat,
{
    ctx.frames.push(Vec::new());
    proof {
        assert forall|i: int, j: int|
            0 <= i < ctx.frames@.len() && 0 <= j < ctx.frames@[i]@.len() implies match init_const(
                (#[trigger] ctx.frames@[i]@[j]).init,
            ) {
                Some(r) => ref_below(r, obj.heap_view().len() as int),
                None => true,
            } by {
            if i < old(ctx).frames@.len() {
                assert(ctx.frames@[i] == old(ctx).frames@[i]);
            }
        }
    }
    let saved_top = ctx.toplevel;
    ctx.toplevel = true;
    let body = transform_begin(args, ctx, obj);
    ctx.toplevel = saved_top;
    let ghost f0 = ctx.frames@;
    ctx.frames.pop();
    proof {
        assert forall|i: int, j: int|
            0 <= i < ctx.frames@.len() && 0 <= j < ctx.frames@[i]@.len() implies match init_const(
                (#[trigger] ctx.frames@[i]@[j]).init,
            ) {
                Some(r) => ref_below(r, obj.heap_view().len() as int),
                None => true,
            } by {
            assert(ctx.frames@[i] == f0[i]);
        }
    }
    match body {
        Ok(b) => Ok(IForm::Local(IFormLocal { body: Box::new(b) })),
        Err(e) => Err(e),
    }
}

/// What the compiler knows of a variable bound to the form `f`.
fn init_of(f: &IForm) -> (i: LocalInit)
    ensures
        match init_const(i) {
            Some(r) => *f == IForm::Const(IFormConst { value: r }),
            None => true,
        },
        match *f {
            IForm::LRef(x) => i matches LocalInit::LRef(s) && s@ == x.symbol@,
            IForm::GRef(x) => i matches LocalInit::GRef(s) && s@ == x.symbol@,
            IForm::Const(x) => i == LocalInit::Const(x.value),
            _ => i is Unknown,
        },
{
    match f {
        IForm::LRef(x) => LocalInit::LRef(crate::object::mm::copy_chars(&x.symbol)),
        IForm::GRef(x) => LocalInit::GRef(crate::object::mm::copy_chars(&x.symbol)),
        IForm::Const(x) => LocalInit::Const(x.value),
        _ => LocalInit::Unknown,
    }
}

/// `(let name value)` (only at the top of a body) and `(let-global name
/// value)`: a local variable inside a frame, else a global one.
fn syntax_let(args: Ref, global: bool, ctx: &mut CCtx, obj: &Object) -> (res: Result<IForm, SyntaxException>)
    requires
        obj.wf(),
        obj.valid(args),
        frames_below(old(ctx).frames@, obj.heap_view().len() as int),
    ensures
        compile_post(obj, old(ctx), final(ctx), res),
        syntax_result(
            obj,
            if global {
                SyntaxId::LetGlobal
            } else {
                SyntaxId::Let
            },
            obj.value_of(args),
            old(ctx).frames@.len() == 0,
            old(ctx).toplevel,
            res,
        ),
        !global && !old(ctx).toplevel ==> res matches Err(SyntaxException::DisallowContext),
        !global && !old(ctx).toplevel ==> *final(ctx) == *old(ctx),
        (global || old(ctx).toplevel) && obj.value_of(args) is Pair && !(val_head(obj.value_of(args)) is Sym) ==> (
        match res {
            Err(SyntaxException::TypeMismatch(t)) => t.require_type == TypeInfo::Symbol && obj.value_of(t.found_exp)
                == val_head(obj.value_of(args)),
            _ => false,
        }) && *final(ctx) == *old(ctx),
    decreases ref_rank(args), 2nat,
{
    if !global && !ctx.toplevel {
        return Err(SyntaxException::DisallowContext);
    }
    let (sym, rest) = match head_tail(obj, args) {
        Some(p) => p,
        None => {
            return Err(malformed(Some(args), "let requires a symbol"));
        },
    };
    let name = match symbol_name(obj, sym) {
        Some(n) => n,
        None => {
            return Err(SyntaxException::TypeMismatch(TypeMismatch::new(sym, TypeInfo::Symbol)));
        },
    };
    let (value, _) = match head_tail(obj, rest) {
        Some(p) => p,
        None => {
            return Err(malformed(Some(args), "let requires a value"));
        },
    };
    let saved_top = ctx.toplevel;
    let saved_tail = ctx.tail;
    ctx.toplevel = false;
    ctx.tail = false;
    let form = pass_transform(value, ctx, obj);
    ctx.toplevel = saved_top;
    ctx.tail = saved_tail;
    let form = match form {
        Ok(f) => f,
        Err(e) => {
            return Err(e);
        },
    };
    if !global && ctx.frames.len() > 0 {
        let last = ctx.frames.len() - 1;
        let init = init_of(&form);
        let ghost fpre = ctx.frames@;
        let mut frame = ctx.frames.remove(last);
        let ghost fr0 = frame@;
        frame.push(LocalVar { name: crate::object::mm::copy_chars(&name), init });
        ctx.frames.push(frame);
        proof {
            assert forall|i: int, j: int|
                0 <= i < ctx.frames@.len() && 0 <= j < ctx.frames@[i]@.len() implies match init_const(
                    (#[trigger] ctx.frames@[i]@[j]).init,
                ) {
                    Some(r) => ref_below(r, obj.heap_view().len() as int),
                    None => true,
                } by {
                if i < last {
                    assert(ctx.frames@[i] == fpre[i]);
                } else {
                    if j < fr0.len() {
                        assert(ctx.frames@[i]@[j] == fpre[i]@[j]);
                    }
                }
            }
        }
    }
    Ok(IForm::Let(IFormLet { symbol: name, val: Box::new(form), force_global: global }))
}

/// `(quote x)`: `x` as written.
fn syntax_quote(args: Ref, obj: &Object) -> (res: Result<IForm, SyntaxException>)
    requires
        obj.wf(),
        obj.valid(args),
    ensures
        res matches Ok(f) ==> iform_below(f, obj.heap_view().len() as int),
        syntax_result(obj, SyntaxId::Quote, obj.value_of(args), true, true, res),
{
    match head_tail(obj, args) {
        Some((v, _)) => Ok(IForm::Const(IFormConst { value: v })),
        None => Err(malformed(Some(args), "quote requires a value")),
    }
}

/// `and`, `or` and `fail-catch`: `(and)` is true and `(or)` false.
fn syntax_and_or(args: Ref, kind: AndOrKind, ctx: &mut CCtx, obj: &Object) -> (res: Result<IForm, SyntaxException>)
    requires
        obj.wf(),
        obj.valid(args),
        frames_below(old(ctx).frames@, obj.heap_view().len() as int),
    ensures
        compile_post(obj, old(ctx), final(ctx), res),
        chain_len(obj.value_of(args)) == 0 ==> res == Ok::<IForm, SyntaxException>(
            IForm::Const(IFormConst { value: and_or_unit(kind) }),
        ),
        chain_len(obj.value_of(args)) > 0 ==> match res {
            Ok(IForm::AndOr(x)) => x.kind == kind && x.exprs@.len() == chain_len(obj.value_of(args)),
            Ok(_) => false,
            Err(_) => true,
        },
        old(ctx).frames@.len() == 0 ==> match res {
            Ok(IForm::AndOr(x)) => forall|k: int|
                0 <= k < x.exprs@.len() ==> outer_form(obj, list_items(obj.value_of(args))[k], #[trigger] x.exprs@[k]),
            _ => true,
        },
        all_list_free(list_items(obj.value_of(args))) ==> res is Ok,
    decreases ref_rank(args), 2nat,
{
    let elems = elements(obj, args);
    proof {
        assert forall|k: int| 0 <= k < elems@.len() implies #[trigger] list_items(obj.value_of(args))[k] == obj.value_of(
            elems@[k],
        ) by {
            assert(crate::value::list::values_of(obj, elems@)[k] == obj.value_of(elems@[k]));
        }
    }
    if elems.len() == 0 {
        return match kind {
            AndOrKind::And => Ok(IForm::Const(IFormConst { value: Ref::True })),
            AndOrKind::Or => Ok(IForm::Const(IFormConst { value: Ref::False })),
            AndOrKind::MatchSuccess => Ok(IForm::Const(IFormConst { value: Ref::MatchFail })),
        };
    }
    let tail = ctx.tail;
    match transform_each(&elems, tail, false, args, ctx, obj) {
        Ok(v) => Ok(IForm::AndOr(IFormAndOr { exprs: v, kind })),
        Err(e) => Err(e),
    }
}

/// `(object-switch target)`: only outside local frames.
fn syntax_object_switch(args: Ref, ctx: &mut CCtx, obj: &Object) -> (res: Result<IForm, SyntaxException>)
    requires
        obj.wf(),
        obj.valid(args),
        frames_below(old(ctx).frames@, obj.heap_view().len() as int),
    ensures
        compile_post(obj, old(ctx), final(ctx), res),
        syntax_result(obj, SyntaxId::ObjectSwitch, obj.value_of(args), old(ctx).frames@.len() == 0, old(ctx).toplevel, res),
        old(ctx).frames@.len() > 0 ==> res matches Err(SyntaxException::DisallowContext),
    decreases ref_rank(args), 2nat,
{
    if ctx.frames.len() != 0 {
        return Err(SyntaxException::DisallowContext);
    }
    let (target, _) = match head_tail(obj, args) {
        Some(p) => p,
        None => {
            return Err(malformed(Some(args), "object-switch requires an object"));
        },
    };
    match pass_transform(target, ctx, obj) {
        Ok(f) => Ok(IForm::ObjectSwitch(IFormObjectSwitch { target_obj: Some(Box::new(f)) })),
        Err(e) => Err(e),
    }
}

/// `(return-object-switch)`: only outside local frames.
fn syntax_return_object_switch(ctx: &CCtx) -> (res: Result<IForm, SyntaxException>)
    ensures
        ctx.frames@.len() > 0 ==> res == Err::<IForm, SyntaxException>(SyntaxException::DisallowContext),
        ctx.frames@.len() == 0 ==> res == Ok::<IForm, SyntaxException>(
            IForm::ObjectSwitch(IFormObjectSwitch { target_obj: None }),
        ),
{
    if ctx.frames.len() != 0 {
        Err(SyntaxException::DisallowContext)
    } else {
        Ok(IForm::ObjectSwitch(IFormObjectSwitch { target_obj: None }))
    }
}


/// `(match target (pattern body ...) ...)`: unit without clauses.
fn syntax_match(args: Ref, ctx: &mut CCtx, obj: &Object) -> (res: Result<IForm, SyntaxException>)
    requires
        obj.wf(),
        obj.valid(args),
        frames_below(old(ctx).frames@, obj.heap_view().len() as int),
    ensures
        compile_post(obj, old(ctx), final(ctx), res),
        syntax_result(obj, SyntaxId::Match, obj.value_of(args), old(ctx).frames@.len() == 0, old(ctx).toplevel, res),
    decreases ref_rank(args), 2nat,
{
    if !List::is_pair(obj, args) {
        return Ok(IForm::Const(IFormConst { value: Ref::Unit }));
    }
    let (_, clauses) = match crate::value::syntax::matcher::translate(obj, args) {
        Ok(t) => t,
        Err(e) => {
            return Err(e);
        },
    };
    let (target, _) = List::parts(obj, args);
    ctx.frames.push(Vec::new());
    proof {
        assert forall|i: int, j: int|
            0 <= i < ctx.frames@.len() && 0 <= j < ctx.frames@[i]@.len() implies match init_const(
                (#[trigger] ctx.frames@[i]@[j]).init,
            ) {
                Some(r) => ref_below(r, obj.heap_view().len() as int),
                None => true,
            } by {
            if i < old(ctx).frames@.len() {
                assert(ctx.frames@[i] == old(ctx).frames@[i]);
            }
        }
    }
    let saved_top = ctx.toplevel;
    let saved_tail = ctx.tail;
    ctx.toplevel = false;
    ctx.tail = false;
    let target_form = pass_transform(target, ctx, obj);
    ctx.toplevel = saved_top;
    ctx.tail = saved_tail;
    let ghost f0 = ctx.frames@;
    ctx.frames.pop();
    proof {
        assert forall|i: int, j: int|
            0 <= i < ctx.frames@.len() && 0 <= j < ctx.frames@[i]@.len() implies match init_const(
                (#[trigger] ctx.frames@[i]@[j]).init,
            ) {
                Some(r) => ref_below(r, obj.heap_view().len() as int),
                None => true,
            } by {
            assert(ctx.frames@[i] == f0[i]);
        }
    }
    match target_form {
        Ok(t) => Ok(IForm::Match(IFormMatch { target: Box::new(t), clauses })),
        Err(e) => Err(e),
    }
}

/// Compiles the expression `sexp` at the top level.
pub fn compile_transform(sexp: Ref, obj: &Object) -> (res: Result<IForm, SyntaxException>)
    requires
        obj.wf(),
        obj.valid(sexp),
    ensures
        res matches Ok(f) ==> iform_below(f, obj.heap_view().len() as int),
        compiled_outer(obj, sexp, true, res),
{
    let mut ctx = CCtx { frames: Vec::new(), toplevel: true, tail: false };
    pass_transform(sexp, &mut ctx, obj)
}

/// Compiles the body `body` (a list of expressions) of a function whose
/// local variables are `names`, in order.
pub fn compile_body(body: Ref, names: &Vec<Vec<char>>, obj: &Object) -> (res: Result<IForm, SyntaxException>)
    requires
        obj.wf(),
        obj.valid(body),
    ensures
        res matches Ok(f) ==> iform_below(f, obj.heap_view().len() as int),
        match res {
            Ok(IForm::Sequence(x)) => x.body@.len() == chain_len(obj.value_of(body)),
            Ok(_) => false,
            Err(_) => true,
        },
        all_list_free(list_items(obj.value_of(body))) ==> res is Ok,
        (forall|k: int|
            0 <= k < list_items(obj.value_of(body)).len() ==> simple_in(names@, #[trigger] list_items(obj.value_of(body))[k]))
            ==> match res {
            Ok(IForm::Sequence(x)) => forall|k: int|
                0 <= k < x.body@.len() ==> simple_form(obj, list_items(obj.value_of(body))[k], #[trigger] x.body@[k]),
            _ => false,
        },
{
    let mut frame: Vec<LocalVar> = Vec::new();
    let mut i: usize = 0;
    while i < names.len()
        invariant
            i <= names@.len(),
            frame@.len() == i,
            forall|j: int| 0 <= j < frame@.len() ==> (#[trigger] frame@[j]).init is Unknown,
            forall|j: int| 0 <= j < frame@.len() ==> (#[trigger] frame@[j]).name@ == names@[j]@,
        decreases names@.len() - i,
    {
        frame.push(LocalVar { name: crate::object::mm::copy_chars(&names[i]), init: LocalInit::Unknown });
        i = i + 1;
    }
    let mut frames: Vec<Vec<LocalVar>> = Vec::new();
    frames.push(frame);
    let mut ctx = CCtx { frames, toplevel: true, tail: true };
    proof {
        assert forall|i: int, j: int|
            0 <= i < ctx.frames@.len() && 0 <= j < ctx.frames@[i]@.len() implies match init_const(
                (#[trigger] ctx.frames@[i]@[j]).init,
            ) {
                Some(r) => ref_below(r, obj.heap_view().len() as int),
                None => true,
            } by {
            assert(i == 0);
        }
        let fr = ctx.frames@;
        assert(unknown_locals(fr)) by {
            assert forall|i: int, j: int| 0 <= i < fr.len() && 0 <= j < fr[i]@.len() implies (#[trigger] fr[i]@[j]).init is Unknown by {
                assert(i == 0);
            }
        }
        assert forall|n: Seq<char>| named_in(names@, n) implies local_named(fr, n) by {
            let j = choose|j: int| 0 <= j < names@.len() && (#[trigger] names@[j])@ == n;
            assert(fr[0]@[j].name@ == n);
        }
    }
    transform_begin(body, &mut ctx, obj)
}

/// Compiles the expression `sexp` into code that runs it.
pub fn compile(sexp: Ref, obj: &Object) -> (res: Result<crate::value::compiled::Code, SyntaxException>)
    requires
        obj.wf(),
        obj.valid(sexp),
    ensures
        res matches Ok(c) ==> iform_below(c.spec_program(), obj.heap_view().len() as int),
        match res {
            Ok(c) => compiled_outer(obj, sexp, true, Ok::<IForm, SyntaxException>(c.spec_program())),
            Err(e) => compiled_outer(obj, sexp, true, Err::<IForm, SyntaxException>(e)),
        },
{
    match compile_transform(sexp, obj) {
        Ok(f) => Ok(crate::value::compiled::Code::new(f)),
        Err(e) => Err(e),
    }
}

/// The syntax `quote`.
pub fn quote() -> (r: Ref)
    ensures
        r == Ref::Syntax(SyntaxId::Quote),
{
    Ref::Syntax(SyntaxId::Quote)
}

/// The syntax `unquote`.
pub fn unquote() -> (r: Ref)
    ensures
        r == Ref::Syntax(SyntaxId::Unquote),
{
    Ref::Syntax(SyntaxId::Unquote)
}

/// The syntax `bind`.
pub fn bind() -> (r: Ref)
    ensures
        r == Ref::Syntax(SyntaxId::Bind),
{
    Ref::Syntax(SyntaxId::Bind)
}

/// The syntax `fun`.
pub fn fun() -> (r: Ref)
    ensures
        r == Ref::Syntax(SyntaxId::Fun),
{
    Ref::Syntax(SyntaxId::Fun)
}

/// The syntax `local`.
pub fn local() -> (r: Ref)
    ensures
        r == Ref::Syntax(SyntaxId::Local),
{
    Ref::Syntax(SyntaxId::Local)
}

/// The syntax `let`.
pub fn let_() -> (r: Ref)
    ensures
        r == Ref::Syntax(SyntaxId::Let),
{
    Ref::Syntax(SyntaxId::Let)
}

/// The syntax `match`.
pub fn match_() -> (r: Ref)
    ensures
        r == Ref::Syntax(SyntaxId::Match),
{
    Ref::Syntax(SyntaxId::Match)
}

/// The syntax `if`.
pub fn if_() -> (r: Ref)
    ensures
        r == Ref::Syntax(SyntaxId::If),
{
    Ref::Syntax(SyntaxId::If)
}

/// The syntax `begin`.
pub fn begin() -> (r: Ref)
    ensures
        r == Ref::Syntax(SyntaxId::Begin),
{
    Ref::Syntax(SyntaxId::Begin)
}

/// The syntax `cond`.
pub fn cond() -> (r: Ref)
    ensures
        r == Ref::Syntax(SyntaxId::Cond),
{
    Ref::Syntax(SyntaxId::Cond)
}

/// The syntax `fail-catch`.
pub fn fail_catch() -> (r: Ref)
    ensures
        r == Ref::Syntax(SyntaxId::FailCatch),
{
    Ref::Syntax(SyntaxId::FailCatch)
}


/// The syntax named `k`, if there is one.
pub open spec fn core_syntax(k: Seq<char>) -> Option<crate::value::syntax::SyntaxId> {
    if k == "fail-catch"@ {
        Some(crate::value::syntax::SyntaxId::FailCatch)
    } else if k == "return-object-switch"@ {
        Some(crate::value::syntax::SyntaxId::ReturnObjectSwitch)
    } else if k == "object-switch"@ {
        Some(crate::value::syntax::SyntaxId::ObjectSwitch)
    } else if k == "or"@ {
        Some(crate::value::syntax::SyntaxId::Or)
    } else if k == "and"@ {
        Some(crate::value::syntax::SyntaxId::And)
    } else if k == "match"@ {
        Some(crate::value::syntax::SyntaxId::Match)
    } else if k == "bind"@ {
        Some(crate::value::syntax::SyntaxId::Bind)
    } else if k == "unquote"@ {
        Some(crate::value::syntax::SyntaxId::Unquote)
    } else if k == "quote"@ {
        Some(crate::value::syntax::SyntaxId::Quote)
    } else if k == "let-global"@ {
        Some(crate::value::syntax::SyntaxId::LetGlobal)
    } else if k == "let"@ {
        Some(crate::value::syntax::SyntaxId::Let)
    } else if k == "local"@ {
        Some(crate::value::syntax::SyntaxId::Local)
    } else if k == "fun"@ {
        Some(crate::value::syntax::SyntaxId::Fun)
    } else if k == "def-recv"@ {
        Some(crate::value::syntax::SyntaxId::DefRecv)
    } else if k == "cond"@ {
        Some(crate::value::syntax::SyntaxId::Cond)
    } else if k == "begin"@ {
        Some(crate::value::syntax::SyntaxId::Begin)
    } else if k == "if"@ {
        Some(crate::value::syntax::SyntaxId::If)
    } else {
        None
    }
}

/// Defines the syntaxes.
pub fn register_global(obj: &mut Object)
    requires
        old(obj).wf(),
    ensures
        final(obj).redefined_from(old(obj)),
        forall|k: Seq<char>|
            #[trigger] final(obj).global(k) == match core_syntax(k) {
                Some(id) => Some(Ref::Syntax(id)),
                None => old(obj).global(k),
            },
{
    obj.define_global_str("if", Ref::Syntax(crate::value::syntax::SyntaxId::If));
    obj.define_global_str("begin", Ref::Syntax(crate::value::syntax::SyntaxId::Begin));
    obj.define_global_str("cond", Ref::Syntax(crate::value::syntax::SyntaxId::Cond));
    obj.define_global_str("def-recv", Ref::Syntax(crate::value::syntax::SyntaxId::DefRecv));
    obj.define_global_str("fun", Ref::Syntax(crate::value::syntax::SyntaxId::Fun));
    obj.define_global_str("local", Ref::Syntax(crate::value::syntax::SyntaxId::Local));
    obj.define_global_str("let", Ref::Syntax(crate::value::syntax::SyntaxId::Let));
    obj.define_global_str("let-global", Ref::Syntax(crate::value::syntax::SyntaxId::LetGlobal));
    obj.define_global_str("quote", Ref::Syntax(crate::value::syntax::SyntaxId::Quote));
    obj.define_global_str("unquote", Ref::Syntax(crate::value::syntax::SyntaxId::Unquote));
    obj.define_global_str("bind", Ref::Syntax(crate::value::syntax::SyntaxId::Bind));
    obj.define_global_str("match", Ref::Syntax(crate::value::syntax::SyntaxId::Match));
    obj.define_global_str("and", Ref::Syntax(crate::value::syntax::SyntaxId::And));
    obj.define_global_str("or", Ref::Syntax(crate::value::syntax::SyntaxId::Or));
    obj.define_global_str("object-switch", Ref::Syntax(crate::value::syntax::SyntaxId::ObjectSwitch));
    obj.define_global_str("return-object-switch", Ref::Syntax(crate::value::syntax::SyntaxId::ReturnObjectSwitch));
    obj.define_global_str("fail-catch", Ref::Syntax(crate::value::syntax::SyntaxId::FailCatch));
}

} // verus!
