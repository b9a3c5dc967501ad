use vstd::prelude::*;

use crate::compile::{SyntaxException, compile_body, compile_transform, head_syntax, symbol_name, val_head, val_tail};
use crate::err::{Exception, MalformedFormat, TypeMismatch, UnboundVariable};
use crate::object::{Object, objects_wf};
use crate::object::context::{Context, find_last, lemma_find_last_prefix};
use crate::object::mm::{Cell, cell_refs, copy_chars, copy_refs};
use crate::object::mm::OutOfMemory;
use crate::read::{Parsed, ReadException, Reader, parse_datum, read};
use crate::value::any::lemma_denote_extends;
use crate::value::object_ref::ObjectRef;
use crate::value::any::Val;
use crate::value::func::{builtin_ok, builtin_value, is_pure_builtin, spec_has_rest, spec_num_require};
use crate::value::list::values_of;
use crate::value::reply::{Reply, force, forced, forced_seq, lemma_forced_seq};
use crate::value::{Ref, TypeInfo, ref_below, ref_index};
use crate::value::func::{Func, FuncId};
use crate::value::iform::{
    AndOrKind, IForm, IFormFun, iform_below, iforms_below, lemma_iform_below_mono, lemma_iforms_below,
    clauses_below, pattern_below,
};
use crate::value::list::{List, all_valid, elements, list_items};
use crate::value::symbol::Symbol;
use crate::value::syntax::SyntaxId;
use crate::value::tuple::is_tuple_val;

verus! {

/// What a step of evaluation keeps: a well-formed object that has only
/// evolved, local variables with valid values, the variables bound before
/// kept and any new one bound in the innermost frame, and a valid result.
pub open spec fn eval_post(o0: &Object, o1: &Object, e0: &Context, e1: &Context, res: Result<Ref, Exception>) -> bool {
    &&& o1.wf()
    &&& o1.evolved_from(o0)
    &&& e1.wf()
    &&& e1.valid_in(o1)
    &&& e1.depth() == e0.depth()
    &&& e1.extends_frame(e0)
    &&& res matches Ok(r) ==> o1.valid(r)
}

/// The value `and`, `or` or a failed-match catch gives before any of its
/// expressions.
pub open spec fn and_or_start(kind: AndOrKind) -> Ref {
    match kind {
        AndOrKind::And => Ref::True,
        AndOrKind::Or => Ref::False,
        AndOrKind::MatchSuccess => Ref::MatchFail,
    }
}

/// `and` stops at false, `or` at anything else, and a failed-match catch at
/// anything but the failure.
pub open spec fn and_or_stops(kind: AndOrKind, v: Ref) -> bool {
    match kind {
        AndOrKind::And => v == Ref::False,
        AndOrKind::Or => v != Ref::False,
        AndOrKind::MatchSuccess => v != Ref::MatchFail,
    }
}

/// The value of a form that calls nothing and binds nothing, with the local
/// variables `lookup` and the object `obj`, when `fuel` levels of nesting
/// suffice: a constant; a variable that is bound; the branch of an `if`
/// that a test of anything but false picks; a `local` block's body; the last
/// value of a sequence (unit for none); the value where `and`, `or` or a
/// failed-match catch stops, or the last one.
pub open spec fn plain_value(f: IForm, lookup: spec_fn(Seq<char>) -> Option<Ref>, obj: Object, fuel: nat) -> Option<
    Ref,
>
    decreases fuel, 0nat, 0nat,
{
    if fuel == 0 {
        None
    } else {
        match f {
            IForm::Const(c) => Some(c.value),
            IForm::LRef(x) => lookup(x.symbol@),
            IForm::GRef(x) => obj.global(x.symbol@),
            IForm::If(x) => match plain_value(*x.test, lookup, obj, (fuel - 1) as nat) {
                Some(t) => plain_value(
                    if t != Ref::False {
                        *x.then_
                    } else {
                        *x.else_
                    },
                    lookup,
                    obj,
                    (fuel - 1) as nat,
                ),
                None => None,
            },
            IForm::Local(x) => plain_value(*x.body, lookup, obj, (fuel - 1) as nat),
            IForm::Sequence(x) => plain_seq(x.body@, lookup, obj, (fuel - 1) as nat, Ref::Unit),
            IForm::AndOr(x) => plain_and_or(x.exprs@, x.kind, lookup, obj, (fuel - 1) as nat, and_or_start(x.kind)),
            _ => None,
        }
    }
}

/// The value of the last of `items` (`last` for none), each a form that calls
/// and binds nothing.
pub open spec fn plain_seq(
    items: Seq<IForm>,
    lookup: spec_fn(Seq<char>) -> Option<Ref>,
    obj: Object,
    fuel: nat,
    last: Ref,
) -> Option<Ref>
    decreases fuel, 1nat, items.len(),
{
    if items.len() == 0 {
        Some(last)
    } else {
        match plain_value(items[0], lookup, obj, fuel) {
            Some(v) => plain_seq(items.skip(1), lookup, obj, fuel, v),
            None => None,
        }
    }
}

/// The value where `kind` stops among `items` (the last value, `last` for
/// none), each a form that calls and binds nothing.
pub open spec fn plain_and_or(
    items: Seq<IForm>,
    kind: AndOrKind,
    lookup: spec_fn(Seq<char>) -> Option<Ref>,
    obj: Object,
    fuel: nat,
    last: Ref,
) -> Option<Ref>
    decreases fuel, 1nat, items.len(),
{
    if items.len() == 0 {
        Some(last)
    } else {
        match plain_value(items[0], lookup, obj, fuel) {
            Some(v) => if and_or_stops(kind, v) {
                Some(v)
            } else {
                plain_and_or(items.skip(1), kind, lookup, obj, fuel, v)
            },
            None => None,
        }
    }
}

/// The value `and`, `or` or a failed-match catch gives before any of its
/// expressions, as a value.
pub open spec fn and_or_start_val(kind: AndOrKind) -> Val {
    match kind {
        AndOrKind::And => Val::True,
        AndOrKind::Or => Val::False,
        AndOrKind::MatchSuccess => Val::MatchFail,
    }
}

/// Where `and`, `or` or a failed-match catch stops, by value.
pub open spec fn and_or_stops_val(kind: AndOrKind, v: Val) -> bool {
    match kind {
        AndOrKind::And => v == Val::False,
        AndOrKind::Or => v != Val::False,
        AndOrKind::MatchSuccess => v != Val::MatchFail,
    }
}

/// The value a form that binds nothing and makes no function computes, with
/// the local variables `lookup` and the object `obj`, when `fuel` levels of
/// nesting suffice: as `plain_value` for constants, variables, `if`,
/// `local`, sequences and `and`/`or`, and for a call of a builtin that
/// computes from its arguments alone, the builtin's value for the values of
/// the arguments (forced, for the builtins that force them).
pub open spec fn calc_value(f: IForm, lookup: spec_fn(Seq<char>) -> Option<Ref>, obj: Object, fuel: nat) -> Option<
    Val,
>
    decreases fuel, 0nat, 0nat,
{
    if fuel == 0 {
        None
    } else {
        match f {
            IForm::Const(c) => Some(obj.value_of(c.value)),
            IForm::LRef(x) => match lookup(x.symbol@) {
                Some(r) => Some(obj.value_of(r)),
                None => None,
            },
            IForm::GRef(x) => match obj.global(x.symbol@) {
                Some(r) => Some(obj.value_of(r)),
                None => None,
            },
            IForm::If(x) => match calc_value(*x.test, lookup, obj, (fuel - 1) as nat) {
                Some(t) => calc_value(
                    if t != Val::False {
                        *x.then_
                    } else {
                        *x.else_
                    },
                    lookup,
                    obj,
                    (fuel - 1) as nat,
                ),
                None => None,
            },
            IForm::Local(x) => calc_value(*x.body, lookup, obj, (fuel - 1) as nat),
            IForm::Sequence(x) => calc_seq(x.body@, lookup, obj, (fuel - 1) as nat, Val::Unit),
            IForm::AndOr(x) => calc_and_or(x.exprs@, x.kind, lookup, obj, (fuel - 1) as nat, and_or_start_val(x.kind)),
            IForm::Call(x) => match calc_value(*x.app, lookup, obj, (fuel - 1) as nat) {
                Some(Val::Func(id)) => if is_pure_builtin(id) {
                    match calc_args(x.args@, lookup, obj, (fuel - 1) as nat) {
                        Some(vs) => Some(builtin_value(id, builtin_args(id, vs))),
                        None => None,
                    }
                } else {
                    None
                },
                _ => None,
            },
            _ => None,
        }
    }
}

/// The value of the last of `items` (`last` for none), each computed as
/// `calc_value` does.
pub open spec fn calc_seq(
    items: Seq<IForm>,
    lookup: spec_fn(Seq<char>) -> Option<Ref>,
    obj: Object,
    fuel: nat,
    last: Val,
) -> Option<Val>
    decreases fuel, 1nat, items.len(),
{
    if items.len() == 0 {
        Some(last)
    } else {
        match calc_value(items[0], lookup, obj, fuel) {
            Some(v) => calc_seq(items.skip(1), lookup, obj, fuel, v),
            None => None,
        }
    }
}

/// The value where `kind` stops among `items` (the last one, `last` for
/// none), each computed as `calc_value` does.
pub open spec fn calc_and_or(
    items: Seq<IForm>,
    kind: AndOrKind,
    lookup: spec_fn(Seq<char>) -> Option<Ref>,
    obj: Object,
    fuel: nat,
    last: Val,
) -> Option<Val>
    decreases fuel, 1nat, items.len(),
{
    if items.len() == 0 {
        Some(last)
    } else {
        match calc_value(items[0], lookup, obj, fuel) {
            Some(v) => if and_or_stops_val(kind, v) {
                Some(v)
            } else {
                calc_and_or(items.skip(1), kind, lookup, obj, fuel, v)
            },
            None => None,
        }
    }
}

/// The values of `items`, each computed as `calc_value` does.
pub open spec fn calc_args(items: Seq<IForm>, lookup: spec_fn(Seq<char>) -> Option<Ref>, obj: Object, fuel: nat) -> Option<
    Seq<Val>,
>
    decreases fuel, 1nat, items.len(),
{
    if items.len() == 0 {
        Some(Seq::empty())
    } else {
        match calc_value(items[0], lookup, obj, fuel) {
            Some(v) => match calc_args(items.skip(1), lookup, obj, fuel) {
                Some(vs) => Some(seq![v] + vs),
                None => None,
            },
            None => None,
        }
    }
}

/// What `calc_value` and the functions beside it need of a heap that grows:
/// `o2` adds cells to `o1` and keeps its global variables, which, like the
/// local variables `lookup`, hold values of `o1`.
pub open spec fn calc_stable_between(o1: Object, o2: Object, lookup: spec_fn(Seq<char>) -> Option<Ref>) -> bool {
    &&& crate::value::any::extends(o2.heap_view(), o1.heap_view())
    &&& forall|k: Seq<char>| #[trigger] o2.global(k) == o1.global(k)
    &&& forall|k: Seq<char>| #[trigger] lookup(k) is Some ==> ref_below(lookup(k)->0, o1.heap_view().len() as int)
    &&& forall|k: Seq<char>| #[trigger] o1.global(k) is Some ==> ref_below(o1.global(k)->0, o1.heap_view().len() as int)
}

/// Only the references false, the match failure and a builtin denote those
/// values.
pub proof fn lemma_immediate_values(obj: &Object, r: Ref)
    requires
        obj.wf(),
        obj.valid(r),
    ensures
        (obj.value_of(r) == Val::False) == (r == Ref::False),
        (obj.value_of(r) == Val::MatchFail) == (r == Ref::MatchFail),
        obj.value_of(r) is Func ==> r == Ref::Func(obj.value_of(r)->Func_0),
{
    obj.lemma_wf();
}

/// A grown heap gives a form the value it had.
pub proof fn lemma_calc_value_stable(f: IForm, lookup: spec_fn(Seq<char>) -> Option<Ref>, o1: Object, o2: Object, fuel: nat)
    requires
        calc_stable_between(o1, o2, lookup),
        iform_below(f, o1.heap_view().len() as int),
    ensures
        calc_value(f, lookup, o2, fuel) == calc_value(f, lookup, o1, fuel),
    decreases fuel, 0nat, 0nat,
{
    if fuel > 0 {
        let n = (fuel - 1) as nat;
        match f {
            IForm::Const(c) => {
                lemma_denote_extends(o1.heap_view(), o2.heap_view(), c.value);
            },
            IForm::LRef(x) => {
                if let Some(r) = lookup(x.symbol@) {
                    lemma_denote_extends(o1.heap_view(), o2.heap_view(), r);
                }
            },
            IForm::GRef(x) => {
                if let Some(r) = o1.global(x.symbol@) {
                    lemma_denote_extends(o1.heap_view(), o2.heap_view(), r);
                }
            },
            IForm::If(x) => {
                lemma_calc_value_stable(*x.test, lookup, o1, o2, n);
                lemma_calc_value_stable(*x.then_, lookup, o1, o2, n);
                lemma_calc_value_stable(*x.else_, lookup, o1, o2, n);
            },
            IForm::Local(x) => {
                lemma_calc_value_stable(*x.body, lookup, o1, o2, n);
            },
            IForm::Sequence(x) => {
                lemma_iforms_below(x.body@, o1.heap_view().len() as int);
                lemma_calc_seq_stable(x.body@, lookup, o1, o2, n, Val::Unit);
            },
            IForm::AndOr(x) => {
                lemma_iforms_below(x.exprs@, o1.heap_view().len() as int);
                lemma_calc_and_or_stable(x.exprs@, x.kind, lookup, o1, o2, n, and_or_start_val(x.kind));
            },
            IForm::Call(x) => {
                lemma_iforms_below(x.args@, o1.heap_view().len() as int);
                lemma_calc_value_stable(*x.app, lookup, o1, o2, n);
                lemma_calc_args_stable(x.args@, lookup, o1, o2, n);
            },
            _ => {},
        }
    }
}

/// A grown heap gives a sequence the value it had.
pub proof fn lemma_calc_seq_stable(
    items: Seq<IForm>,
    lookup: spec_fn(Seq<char>) -> Option<Ref>,
    o1: Object,
    o2: Object,
    fuel: nat,
    last: Val,
)
    requires
        calc_stable_between(o1, o2, lookup),
        forall|k: int| 0 <= k < items.len() ==> iform_below(#[trigger] items[k], o1.heap_view().len() as int),
    ensures
        calc_seq(items, lookup, o2, fuel, last) == calc_seq(items, lookup, o1, fuel, last),
    decreases fuel, 1nat, items.len(),
{
    if items.len() > 0 {
        lemma_calc_value_stable(items[0], lookup, o1, o2, fuel);
        let rest = items.skip(1);
        assert forall|k: int| 0 <= k < rest.len() implies iform_below(#[trigger] rest[k], o1.heap_view().len() as int) by {
            assert(rest[k] == items[k + 1]);
        }
        if let Some(v) = calc_value(items[0], lookup, o1, fuel) {
            lemma_calc_seq_stable(rest, lookup, o1, o2, fuel, v);
        }
    }
}

/// A grown heap gives `and`, `or` or a failed-match catch the value it had.
pub proof fn lemma_calc_and_or_stable(
    items: Seq<IForm>,
    kind: AndOrKind,
    lookup: spec_fn(Seq<char>) -> Option<Ref>,
    o1: Object,
    o2: Object,
    fuel: nat,
    last: Val,
)
    requires
        calc_stable_between(o1, o2, lookup),
        forall|k: int| 0 <= k < items.len() ==> iform_below(#[trigger] items[k], o1.heap_view().len() as int),
    ensures
        calc_and_or(items, kind, lookup, o2, fuel, last) == calc_and_or(items, kind, lookup, o1, fuel, last),
    decreases fuel, 1nat, items.len(),
{
    if items.len() > 0 {
        lemma_calc_value_stable(items[0], lookup, o1, o2, fuel);
        let rest = items.skip(1);
        assert forall|k: int| 0 <= k < rest.len() implies iform_below(#[trigger] rest[k], o1.heap_view().len() as int) by {
            assert(rest[k] == items[k + 1]);
        }
        if let Some(v) = calc_value(items[0], lookup, o1, fuel) {
            lemma_calc_and_or_stable(rest, kind, lookup, o1, o2, fuel, v);
        }
    }
}

/// A grown heap gives arguments the values they had.
pub proof fn lemma_calc_args_stable(
    items: Seq<IForm>,
    lookup: spec_fn(Seq<char>) -> Option<Ref>,
    o1: Object,
    o2: Object,
    fuel: nat,
)
    requires
        calc_stable_between(o1, o2, lookup),
        forall|k: int| 0 <= k < items.len() ==> iform_below(#[trigger] items[k], o1.heap_view().len() as int),
    ensures
        calc_args(items, lookup, o2, fuel) == calc_args(items, lookup, o1, fuel),
    decreases fuel, 1nat, items.len(),
{
    if items.len() > 0 {
        lemma_calc_value_stable(items[0], lookup, o1, o2, fuel);
        let rest = items.skip(1);
        assert forall|k: int| 0 <= k < rest.len() implies iform_below(#[trigger] rest[k], o1.heap_view().len() as int) by {
            assert(rest[k] == items[k + 1]);
        }
        lemma_calc_args_stable(rest, lookup, o1, o2, fuel);
    }
}

/// Evaluating a form whose value is `v` only adds cells to the heap, keeps
/// the local variables and the other objects, and answers, when it answers,
/// something of the value `v`.
pub open spec fn calc_post(
    v: Option<Val>,
    o0: &Object,
    o1: &Object,
    e0: &Context,
    e1: &Context,
    p0: Seq<Object>,
    p1: Seq<Object>,
    res: Result<Ref, Exception>,
) -> bool {
    match v {
        Some(x) => {
            &&& match res {
                Ok(r) => o1.value_of(r) == x,
                Err(_) => true,
            }
            &&& o1.grown_from(o0)
            &&& e1.same_as(e0)
            &&& p1 == p0
        },
        None => true,
    }
}

/// Evaluating a form with the value `v` changes nothing and answers `v`.
pub open spec fn plain_post(
    v: Option<Ref>,
    o0: &Object,
    o1: &Object,
    e0: &Context,
    e1: &Context,
    p0: Seq<Object>,
    p1: Seq<Object>,
    res: Result<Ref, Exception>,
) -> bool {
    v matches Some(r) ==> {
        &&& res == Ok::<Ref, Exception>(r)
        &&& *o1 == *o0
        &&& e1.same_as(e0)
        &&& p1 == p0
    }
}

/// The value is anything but false.
pub fn is_true(v: Ref) -> (b: bool)
    ensures
        b == (v != Ref::False),
{
    match v {
        Ref::False => false,
        _ => true,
    }
}

/// An unbound-variable error for the variable `name`.
fn unbound(obj: &mut Object, name: &Vec<char>) -> (res: Result<Ref, Exception>)
    requires
        old(obj).wf(),
    ensures
        final(obj).wf(),
        final(obj).grown_from(old(obj)),
        res is Err,
{
    match Symbol::allocate(obj, name) {
        Ok(s) => Err(Exception::UnboundVariable(UnboundVariable::new(s))),
        Err(_) => Err(Exception::OutOfMemory),
    }
}

/// The largest depth an evaluation may reach.
pub const EVAL_FUEL: u64 = 100000;

/// Evaluates the form `f` with the local variables `env`.
pub fn eval_iform(f: &IForm, env: &mut Context, obj: &mut Object, peers: &mut Vec<Object>, fuel: u64) -> (res: Result<Ref, Exception>)
    requires
        old(obj).wf(),
        objects_wf(old(peers)@),
        old(env).wf(),
        old(env).valid_in(old(obj)),
        iform_below(*f, old(obj).heap_view().len() as int),
    ensures
        objects_wf(final(peers)@),
        eval_post(old(obj), final(obj), old(env), final(env), res),
        fuel > 0 ==> match *f {
            IForm::Const(c) => res == Ok::<Ref, Exception>(c.value) && *final(obj) == *old(obj),
            IForm::Match(x) => match *x.target {
                IForm::Const(c) => {
                    &&& fuel > 1 && (forall|k: int|
                        0 <= k < x.clauses@.len() ==> !crate::value::syntax::matcher::pattern_matches(
                            old(obj),
                            #[trigger] x.clauses@[k].pattern,
                            old(obj).value_of(c.value),
                        )) ==> res == Ok::<Ref, Exception>(Ref::False)
                    &&& fuel > 2 && x.clauses@.len() > 0 && crate::value::syntax::matcher::pattern_matches(
                        old(obj),
                        x.clauses@[0].pattern,
                        old(obj).value_of(c.value),
                    ) && crate::value::syntax::matcher::pattern_size(x.clauses@[0].pattern) < EVAL_FUEL && constant_body(
                        old(obj).value_of(x.clauses@[0].body),
                    ) ==> (res matches Ok(r) && final(obj).value_of(r) == crate::value::list::list_items(
                        old(obj).value_of(x.clauses@[0].body),
                    ).last())
                },
                _ => true,
            },
            IForm::LRef(x) => match old(env).spec_lookup(x.symbol@) {
                Some(v) => res == Ok::<Ref, Exception>(v),
                None => res is Err,
            },
            IForm::GRef(x) => match old(obj).global(x.symbol@) {
                Some(v) => res == Ok::<Ref, Exception>(v),
                None => res is Err,
            },
            IForm::Let(x) => match res {
                Ok(v) => if x.force_global || old(env).depth() == 0 {
                    final(obj).global(x.symbol@) == Some(v)
                } else {
                    final(env).spec_lookup(x.symbol@) == Some(v)
                },
                Err(_) => true,
            },
            IForm::Fun(_) => match res {
                Ok(r) => final(obj).value_of(r) is Closure,
                Err(e) => e is OutOfMemory,
            },
            IForm::DefRecv(x) => res == Ok::<Ref, Exception>(Ref::True) && final(obj).receiver_slots().len()
                == old(obj).receiver_slots().len() + 1 && final(obj).receiver(old(obj).receiver_slots().len() as int)
                == (x.pattern, x.body),
            IForm::ObjectSwitch(_) => res matches Err(Exception::DisallowContext),
            IForm::Call(x) => match plain_value(*x.app, |k: Seq<char>| old(env).spec_lookup(k), *old(obj), (fuel - 1) as nat) {
                Some(a) => !(a is Func) && !(old(obj).value_of(a) is Closure) ==> res is Err,
                None => true,
            },
            _ => true,
        },
        f is Local ==> final(env).same_as(old(env)),
        plain_post(
            plain_value(*f, |k: Seq<char>| old(env).spec_lookup(k), *old(obj), fuel as nat),
            old(obj),
            final(obj),
            old(env),
            final(env),
            old(peers)@,
            final(peers)@,
            res,
        ),
        calc_post(
            calc_value(*f, |k: Seq<char>| old(env).spec_lookup(k), *old(obj), fuel as nat),
            old(obj),
            final(obj),
            old(env),
            final(env),
            old(peers)@,
            final(peers)@,
            res,
        ),
    decreases fuel, 2nat,
{
    proof {
        obj.lemma_grown_refl();
        env.lemma_extends_refl();
    }
    if fuel == 0 {
        return Err(Exception::Other("evaluation too deep".to_owned()));
    }
    match f {
        IForm::Const(c) => Ok(c.value),
        IForm::LRef(x) => match env.find_local_value(&x.symbol) {
            Some(v) => Ok(v),
            None => {
                let r = unbound(obj, &x.symbol);
                proof {
                    env.lemma_valid_grow(old(obj), obj);
                }
                r
            },
        },
        IForm::GRef(x) => match obj.find_global_value(&x.symbol) {
            Some(v) => Ok(v),
            None => {
                let r = unbound(obj, &x.symbol);
                proof {
                    env.lemma_valid_grow(old(obj), obj);
                }
                r
            },
        },
        IForm::Let(x) => {
            let v = match eval_iform(&x.val, env, obj, peers, fuel - 1) {
                Ok(v) => v,
                Err(e) => {
                    return Err(e);
                },
            };
            let ghost e1 = *env;
            if x.force_global || env.is_toplevel() {
                let ghost o1 = *obj;
                obj.define_global_value(&x.symbol, v);
                proof {
                    assert(obj.heap_view().subrange(0, o1.heap_view().len() as int) =~= o1.heap_view());
                    env.lemma_valid_grow(&o1, obj);
                    obj.lemma_evolved_trans(&o1, old(obj));
                }
            } else {
                let ghost vs = env.spec_values();
                env.add_to_current_frame(copy_chars(&x.symbol), v);
                proof {
                    env.lemma_extends_trans(&e1, old(env));
                    assert forall|k: int| 0 <= k < env.spec_values().len() implies obj.valid(#[trigger] env.spec_values()[k]) by {
                        if k < vs.len() {
                            assert(env.spec_values()[k] == vs[k]);
                        }
                    }
                }
            }
            Ok(v)
        },
        IForm::If(x) => {
            let t = match eval_iform(&x.test, env, obj, peers, fuel - 1) {
                Ok(t) => t,
                Err(e) => {
                    return Err(e);
                },
            };
            let ghost o1 = *obj;
            let ghost e1 = *env;
            let ghost lk = |k: Seq<char>| old(env).spec_lookup(k);
            proof {
                if plain_value(*f, lk, *old(obj), fuel as nat) is Some || calc_value(*f, lk, *old(obj), fuel as nat) is Some {
                    e1.lemma_same_as(old(env));
                    assert((|k: Seq<char>| e1.spec_lookup(k)) =~= lk);
                }
                if calc_value(*f, lk, *old(obj), fuel as nat) is Some {
                    old(env).lemma_lookup_valid(old(obj));
                    old(obj).lemma_globals_valid();
                    lemma_calc_value_stable(*x.then_, lk, *old(obj), o1, (fuel - 1) as nat);
                    lemma_calc_value_stable(*x.else_, lk, *old(obj), o1, (fuel - 1) as nat);
                    lemma_immediate_values(&o1, t);
                }
            }
            let branch: &IForm = if is_true(t) {
                &x.then_
            } else {
                &x.else_
            };
            proof {
                lemma_iform_below_mono(*branch, old(obj).heap_view().len() as int, obj.heap_view().len() as int);
            }
            let r = eval_iform(branch, env, obj, peers, fuel - 1);
            proof {
                obj.lemma_evolved_trans(&o1, old(obj));
                env.lemma_extends_trans(&e1, old(env));
                if plain_value(*f, lk, *old(obj), fuel as nat) is Some || calc_value(*f, lk, *old(obj), fuel as nat) is Some {
                    env.lemma_same_trans(&e1, old(env));
                }
                if calc_value(*f, lk, *old(obj), fuel as nat) is Some {
                    obj.lemma_grown_trans(&o1, old(obj));
                }
            }
            r
        },
        IForm::Local(x) => {
            env.push_local_frame(&Vec::new());
            let ghost ep = *env;
            proof {
                assert((|k: Seq<char>| ep.spec_lookup(k)) =~= (|k: Seq<char>| old(env).spec_lookup(k)));
            }
            let r = eval_iform(&x.body, env, obj, peers, fuel - 1);
            let ghost e1 = *env;
            proof {
                e1.lemma_opened_extends(&ep, old(env));
            }
            env.pop_local_frame();
            proof {
                env.lemma_same_as(old(env));
                assert forall|k: int| 0 <= k < env.spec_values().len() implies obj.valid(#[trigger] env.spec_values()[k]) by {
                    assert(env.spec_values()[k] == e1.spec_values()[k]);
                    assert(e1.valid_in(obj));
                    assert(obj.valid(e1.spec_values()[k]));
                }
            }
            r
        },
        IForm::Sequence(x) => eval_seq(&x.body, env, obj, peers, fuel - 1),
        IForm::Call(x) => {
            let app = match eval_iform(&x.app, env, obj, peers, fuel - 1) {
                Ok(a) => a,
                Err(e) => {
                    return Err(e);
                },
            };
            let ghost o1 = *obj;
            let ghost e1 = *env;
            let ghost lk = |k: Seq<char>| old(env).spec_lookup(k);
            proof {
                lemma_iforms_below(x.args@, old(obj).heap_view().len() as int);
                crate::value::iform::lemma_iforms_below_mono(x.args@, old(obj).heap_view().len() as int, obj.heap_view().len() as int);
                if calc_value(*f, lk, *old(obj), fuel as nat) is Some {
                    e1.lemma_same_as(old(env));
                    assert((|k: Seq<char>| e1.spec_lookup(k)) =~= lk);
                    old(env).lemma_lookup_valid(old(obj));
                    old(obj).lemma_globals_valid();
                    lemma_calc_args_stable(x.args@, lk, *old(obj), o1, (fuel - 1) as nat);
                    lemma_immediate_values(&o1, app);
                }
            }
            let args = match eval_args(&x.args, env, obj, peers, fuel - 1) {
                Ok(a) => a,
                Err(e) => {
                    proof {
                        obj.lemma_evolved_trans(&o1, old(obj));
                        env.lemma_extends_trans(&e1, old(env));
                        if calc_value(*f, lk, *old(obj), fuel as nat) is Some {
                            env.lemma_same_trans(&e1, old(env));
                            obj.lemma_grown_trans(&o1, old(obj));
                        }
                    }
                    return Err(e);
                },
            };
            proof {
                obj.lemma_evolved_trans(&o1, old(obj));
                env.lemma_extends_trans(&e1, old(env));
                lemma_denote_extends(o1.heap_view(), obj.heap_view(), app);
                if calc_value(*f, lk, *old(obj), fuel as nat) is Some {
                    env.lemma_same_trans(&e1, old(env));
                    obj.lemma_grown_trans(&o1, old(obj));
                }
            }
            let ghost o2 = *obj;
            let r = call_app(app, args, obj, peers, fuel - 1);
            proof {
                obj.lemma_evolved_trans(&o2, old(obj));
                env.lemma_valid_grow(&o2, obj);
                if calc_value(*f, lk, *old(obj), fuel as nat) is Some {
                    obj.lemma_grown_trans(&o2, old(obj));
                }
            }
            r
        },
        IForm::AndOr(x) => eval_and_or(&x.exprs, x.kind, env, obj, peers, fuel - 1),
        IForm::Fun(x) => {
            let r = make_closure(x, env, obj);
            proof {
                env.lemma_valid_grow(old(obj), obj);
            }
            r
        },
        IForm::Match(x) => eval_match(x, env, obj, peers, fuel - 1),
        IForm::DefRecv(x) => {
            obj.add_receiver(x.pattern, x.body);
            proof {
                assert(obj.heap_view().subrange(0, old(obj).heap_view().len() as int) =~= old(obj).heap_view());
                env.lemma_valid_grow(old(obj), obj);
            }
            Ok(Ref::True)
        },
        IForm::ObjectSwitch(_) => Err(Exception::DisallowContext),
    }
}


/// Evaluates the forms `body` in order; the value of the last (unit for
/// none).
fn eval_seq(body: &Vec<IForm>, env: &mut Context, obj: &mut Object, peers: &mut Vec<Object>, fuel: u64) -> (res: Result<Ref, Exception>)
    requires
        old(obj).wf(),
        objects_wf(old(peers)@),
        old(env).wf(),
        old(env).valid_in(old(obj)),
        iforms_below(body@, old(obj).heap_view().len() as int),
    ensures
        objects_wf(final(peers)@),
        eval_post(old(obj), final(obj), old(env), final(env), res),
        plain_post(
            plain_seq(body@, |k: Seq<char>| old(env).spec_lookup(k), *old(obj), fuel as nat, Ref::Unit),
            old(obj),
            final(obj),
            old(env),
            final(env),
            old(peers)@,
            final(peers)@,
            res,
        ),
        calc_post(
            calc_seq(body@, |k: Seq<char>| old(env).spec_lookup(k), *old(obj), fuel as nat, Val::Unit),
            old(obj),
            final(obj),
            old(env),
            final(env),
            old(peers)@,
            final(peers)@,
            res,
        ),
    decreases fuel, 3nat,
{
    proof {
        obj.lemma_grown_refl();
        env.lemma_extends_refl();
        lemma_iforms_below(body@, old(obj).heap_view().len() as int);
    }
    let ghost lk = |k: Seq<char>| old(env).spec_lookup(k);
    let ghost whole = plain_seq(body@, lk, *old(obj), fuel as nat, Ref::Unit);
    let ghost cwhole = calc_seq(body@, lk, *old(obj), fuel as nat, Val::Unit);
    let ghost mut lastv = Val::Unit;
    let mut last = Ref::Unit;
    let mut i: usize = 0;
    proof {
        assert(body@.skip(0) =~= body@);
        old(env).lemma_lookup_valid(old(obj));
        old(obj).lemma_globals_valid();
    }
    while i < body.len()
        invariant
            i <= body@.len(),
            forall|k: int| 0 <= k < body@.len() ==> iform_below(#[trigger] body@[k], old(obj).heap_view().len() as int),
            objects_wf(peers@),
            eval_post(old(obj), obj, old(env), env, Ok(last)),
            lk == (|k: Seq<char>| old(env).spec_lookup(k)),
            whole == plain_seq(body@, lk, *old(obj), fuel as nat, Ref::Unit),
            whole is Some ==> {
                &&& *obj == *old(obj)
                &&& env.same_as(old(env))
                &&& peers@ == old(peers)@
                &&& plain_seq(body@.skip(i as int), lk, *old(obj), fuel as nat, last) == whole
            },
            cwhole == calc_seq(body@, lk, *old(obj), fuel as nat, Val::Unit),
            forall|k: Seq<char>| #[trigger] lk(k) is Some ==> old(obj).valid(lk(k)->0),
            forall|k: Seq<char>| #[trigger] old(obj).global(k) is Some ==> old(obj).valid(old(obj).global(k)->0),
            cwhole is Some ==> {
                &&& obj.grown_from(old(obj))
                &&& env.same_as(old(env))
                &&& peers@ == old(peers)@
                &&& obj.value_of(last) == lastv
                &&& calc_seq(body@.skip(i as int), lk, *old(obj), fuel as nat, lastv) == cwhole
            },
        decreases body@.len() - i,
    {
        proof {
            if whole is Some || cwhole is Some {
                env.lemma_same_as(old(env));
                assert((|k: Seq<char>| env.spec_lookup(k)) =~= lk);
                assert(body@.skip(i as int)[0] == body@[i as int]);
                assert(body@.skip(i as int).skip(1) =~= body@.skip(i + 1));
            }
            if cwhole is Some {
                lemma_calc_value_stable(body@[i as int], lk, *old(obj), *obj, fuel as nat);
            }
        }
        let ghost o1 = *obj;
        let ghost e1 = *env;
        proof {
            lemma_iform_below_mono(body@[i as int], old(obj).heap_view().len() as int, obj.heap_view().len() as int);
        }
        let ghost eb = *env;
        match eval_iform(&body[i], env, obj, peers, fuel) {
            Ok(v) => {
                last = v;
                proof {
                    if whole is Some || cwhole is Some {
                        env.lemma_same_trans(&eb, old(env));
                    }
                    if cwhole is Some {
                        lastv = calc_value(body@[i as int], lk, *old(obj), fuel as nat)->0;
                        obj.lemma_grown_trans(&o1, old(obj));
                    }
                }
            },
            Err(e) => {
                proof {
                    obj.lemma_evolved_trans(&o1, old(obj));
                    env.lemma_extends_trans(&e1, old(env));
                    if cwhole is Some {
                        env.lemma_same_trans(&eb, old(env));
                        obj.lemma_grown_trans(&o1, old(obj));
                    }
                }
                return Err(e);
            },
        }
        proof {
            obj.lemma_evolved_trans(&o1, old(obj));
            env.lemma_extends_trans(&e1, old(env));
        }
        i = i + 1;
    }
    Ok(last)
}

/// Evaluates the arguments `args` in order.
fn eval_args(args: &Vec<IForm>, env: &mut Context, obj: &mut Object, peers: &mut Vec<Object>, fuel: u64) -> (res: Result<Vec<Ref>, Exception>)
    requires
        old(obj).wf(),
        objects_wf(old(peers)@),
        old(env).wf(),
        old(env).valid_in(old(obj)),
        iforms_below(args@, old(obj).heap_view().len() as int),
    ensures
        objects_wf(final(peers)@),
        eval_post(old(obj), final(obj), old(env), final(env), Err(Exception::OutOfMemory)),
        res matches Ok(v) ==> all_valid(final(obj), v@) && v@.len() == args@.len(),
        match calc_args(args@, |k: Seq<char>| old(env).spec_lookup(k), *old(obj), fuel as nat) {
            Some(vs) => {
                &&& match res {
                    Ok(v) => values_of(final(obj), v@) == vs,
                    Err(_) => true,
                }
                &&& final(obj).grown_from(old(obj))
                &&& final(env).same_as(old(env))
                &&& final(peers)@ == old(peers)@
            },
            None => true,
        },
    decreases fuel, 3nat,
{
    proof {
        obj.lemma_grown_refl();
        env.lemma_extends_refl();
        lemma_iforms_below(args@, old(obj).heap_view().len() as int);
    }
    let ghost lk = |k: Seq<char>| old(env).spec_lookup(k);
    let ghost whole = calc_args(args@, lk, *old(obj), fuel as nat);
    let ghost mut done: Seq<Val> = Seq::empty();
    let mut out: Vec<Ref> = Vec::new();
    let mut i: usize = 0;
    proof {
        assert(args@.skip(0) =~= args@);
        old(env).lemma_lookup_valid(old(obj));
        old(obj).lemma_globals_valid();
        assert(values_of(obj, out@) =~= done);
    }
    while i < args.len()
        invariant
            i <= args@.len(),
            out@.len() == i,
            forall|k: int| 0 <= k < args@.len() ==> iform_below(#[trigger] args@[k], old(obj).heap_view().len() as int),
            objects_wf(peers@),
            eval_post(old(obj), obj, old(env), env, Err(Exception::OutOfMemory)),
            all_valid(obj, out@),
            lk == (|k: Seq<char>| old(env).spec_lookup(k)),
            whole == calc_args(args@, lk, *old(obj), fuel as nat),
            forall|k: Seq<char>| #[trigger] lk(k) is Some ==> old(obj).valid(lk(k)->0),
            forall|k: Seq<char>| #[trigger] old(obj).global(k) is Some ==> old(obj).valid(old(obj).global(k)->0),
            whole is Some ==> {
                &&& obj.grown_from(old(obj))
                &&& env.same_as(old(env))
                &&& peers@ == old(peers)@
                &&& values_of(obj, out@) == done
                &&& calc_args(args@.skip(i as int), lk, *old(obj), fuel as nat) is Some
                &&& whole->0 == done + calc_args(args@.skip(i as int), lk, *old(obj), fuel as nat)->0
            },
        decreases args@.len() - i,
    {
        proof {
            if whole is Some {
                env.lemma_same_as(old(env));
                assert((|k: Seq<char>| env.spec_lookup(k)) =~= lk);
                assert(args@.skip(i as int)[0] == args@[i as int]);
                assert(args@.skip(i as int).skip(1) =~= args@.skip(i + 1));
                lemma_calc_value_stable(args@[i as int], lk, *old(obj), *obj, fuel as nat);
            }
        }
        let ghost eb = *env;
        let ghost o1 = *obj;
        let ghost e1 = *env;
        proof {
            lemma_iform_below_mono(args@[i as int], old(obj).heap_view().len() as int, obj.heap_view().len() as int);
        }
        match eval_iform(&args[i], env, obj, peers, fuel) {
            Ok(v) => {
                let ghost out0 = out@;
                out.push(v);
                proof {
                    assert forall|k: int| 0 <= k < out@.len() implies obj.valid(#[trigger] out@[k]) by {
                        if k < out0.len() {
                            assert(o1.valid(out0[k]));
                            assert(out@[k] == out0[k]);
                        }
                    }
                    if whole is Some {
                        let w = calc_value(args@[i as int], lk, *old(obj), fuel as nat)->0;
                        assert forall|k: int| 0 <= k < out0.len() implies #[trigger] obj.value_of(out0[k]) == o1.value_of(
                            out0[k],
                        ) by {
                            lemma_denote_extends(o1.heap_view(), obj.heap_view(), out0[k]);
                        }
                        assert(values_of(obj, out@) =~= values_of(&o1, out0).push(w));
                        let rest = calc_args(args@.skip(i + 1), lk, *old(obj), fuel as nat)->0;
                        assert(done.push(w) + rest =~= done + (seq![w] + rest));
                        done = done.push(w);
                        env.lemma_same_trans(&eb, old(env));
                        obj.lemma_grown_trans(&o1, old(obj));
                    }
                }
            },
            Err(e) => {
                proof {
                    obj.lemma_evolved_trans(&o1, old(obj));
                    env.lemma_extends_trans(&e1, old(env));
                    if whole is Some {
                        env.lemma_same_trans(&eb, old(env));
                        obj.lemma_grown_trans(&o1, old(obj));
                    }
                }
                return Err(e);
            },
        }
        proof {
            obj.lemma_evolved_trans(&o1, old(obj));
            env.lemma_extends_trans(&e1, old(env));
        }
        i = i + 1;
    }
    proof {
        if whole is Some {
            assert(done + Seq::<Val>::empty() =~= done);
        }
    }
    Ok(out)
}

/// `and` stops at the first false value, `or` at the first other value,
/// and a failed-match catch at the first value that is not the failure.
fn eval_and_or(exprs: &Vec<IForm>, kind: AndOrKind, env: &mut Context, obj: &mut Object, peers: &mut Vec<Object>, fuel: u64) -> (res: Result<
    Ref,
    Exception,
>)
    requires
        old(obj).wf(),
        objects_wf(old(peers)@),
        old(env).wf(),
        old(env).valid_in(old(obj)),
        iforms_below(exprs@, old(obj).heap_view().len() as int),
    ensures
        objects_wf(final(peers)@),
        eval_post(old(obj), final(obj), old(env), final(env), res),
        plain_post(
            plain_and_or(exprs@, kind, |k: Seq<char>| old(env).spec_lookup(k), *old(obj), fuel as nat, and_or_start(kind)),
            old(obj),
            final(obj),
            old(env),
            final(env),
            old(peers)@,
            final(peers)@,
            res,
        ),
        calc_post(
            calc_and_or(
                exprs@,
                kind,
                |k: Seq<char>| old(env).spec_lookup(k),
                *old(obj),
                fuel as nat,
                and_or_start_val(kind),
            ),
            old(obj),
            final(obj),
            old(env),
            final(env),
            old(peers)@,
            final(peers)@,
            res,
        ),
    decreases fuel, 3nat,
{
    proof {
        obj.lemma_grown_refl();
        env.lemma_extends_refl();
        lemma_iforms_below(exprs@, old(obj).heap_view().len() as int);
    }
    let mut last = match kind {
        AndOrKind::And => Ref::True,
        AndOrKind::Or => Ref::False,
        AndOrKind::MatchSuccess => Ref::MatchFail,
    };
    let ghost lk = |k: Seq<char>| old(env).spec_lookup(k);
    let ghost whole = plain_and_or(exprs@, kind, lk, *old(obj), fuel as nat, and_or_start(kind));
    let ghost cwhole = calc_and_or(exprs@, kind, lk, *old(obj), fuel as nat, and_or_start_val(kind));
    let ghost mut lastv = and_or_start_val(kind);
    let mut i: usize = 0;
    proof {
        assert(exprs@.skip(0) =~= exprs@);
        old(env).lemma_lookup_valid(old(obj));
        old(obj).lemma_globals_valid();
    }
    while i < exprs.len()
        invariant
            i <= exprs@.len(),
            forall|k: int| 0 <= k < exprs@.len() ==> iform_below(#[trigger] exprs@[k], old(obj).heap_view().len() as int),
            objects_wf(peers@),
            eval_post(old(obj), obj, old(env), env, Ok(last)),
            lk == (|k: Seq<char>| old(env).spec_lookup(k)),
            whole == plain_and_or(exprs@, kind, lk, *old(obj), fuel as nat, and_or_start(kind)),
            whole is Some ==> {
                &&& *obj == *old(obj)
                &&& env.same_as(old(env))
                &&& peers@ == old(peers)@
                &&& plain_and_or(exprs@.skip(i as int), kind, lk, *old(obj), fuel as nat, last) == whole
            },
            cwhole == calc_and_or(exprs@, kind, lk, *old(obj), fuel as nat, and_or_start_val(kind)),
            forall|k: Seq<char>| #[trigger] lk(k) is Some ==> old(obj).valid(lk(k)->0),
            forall|k: Seq<char>| #[trigger] old(obj).global(k) is Some ==> old(obj).valid(old(obj).global(k)->0),
            cwhole is Some ==> {
                &&& obj.grown_from(old(obj))
                &&& env.same_as(old(env))
                &&& peers@ == old(peers)@
                &&& obj.value_of(last) == lastv
                &&& calc_and_or(exprs@.skip(i as int), kind, lk, *old(obj), fuel as nat, lastv) == cwhole
            },
        decreases exprs@.len() - i,
    {
        proof {
            if whole is Some || cwhole is Some {
                env.lemma_same_as(old(env));
                assert((|k: Seq<char>| env.spec_lookup(k)) =~= lk);
                assert(exprs@.skip(i as int)[0] == exprs@[i as int]);
                assert(exprs@.skip(i as int).skip(1) =~= exprs@.skip(i + 1));
            }
            if cwhole is Some {
                lemma_calc_value_stable(exprs@[i as int], lk, *old(obj), *obj, fuel as nat);
            }
        }
        let ghost eb = *env;
        let ghost o1 = *obj;
        let ghost e1 = *env;
        proof {
            lemma_iform_below_mono(exprs@[i as int], old(obj).heap_view().len() as int, obj.heap_view().len() as int);
        }
        let v = match eval_iform(&exprs[i], env, obj, peers, fuel) {
            Ok(v) => v,
            Err(e) => {
                proof {
                    obj.lemma_evolved_trans(&o1, old(obj));
                    env.lemma_extends_trans(&e1, old(env));
                    if cwhole is Some {
                        env.lemma_same_trans(&eb, old(env));
                        obj.lemma_grown_trans(&o1, old(obj));
                    }
                }
                return Err(e);
            },
        };
        proof {
            obj.lemma_evolved_trans(&o1, old(obj));
            env.lemma_extends_trans(&e1, old(env));
        }
        proof {
            if whole is Some || cwhole is Some {
                env.lemma_same_trans(&eb, old(env));
            }
            if cwhole is Some {
                obj.lemma_grown_trans(&o1, old(obj));
                assert(obj.valid(v));
                lemma_immediate_values(obj, v);
            }
        }
        let stop = match kind {
            AndOrKind::And => !is_true(v),
            AndOrKind::Or => is_true(v),
            AndOrKind::MatchSuccess => v != Ref::MatchFail,
        };
        if stop {
            return Ok(v);
        }
        last = v;
        proof {
            if cwhole is Some {
                lastv = calc_value(exprs@[i as int], lk, *old(obj), fuel as nat)->0;
            }
        }
        i = i + 1;
    }
    Ok(last)
}

/// The value of the last of the first `n` parameters `ps` named `s`, given
/// the values `avs` of the arguments, in order.
pub open spec fn last_param(ps: Seq<Val>, avs: Seq<Val>, s: Seq<char>, n: int) -> Option<Val>
    decreases n,
{
    if n <= 0 {
        None
    } else if ps[n - 1] == Val::Sym(s) {
        Some(avs[n - 1])
    } else {
        last_param(ps, avs, s, n - 1)
    }
}

/// The value of the last of the first `m` variables a closure with the
/// values `caps` captured (after its parameters and body, a name and a
/// value for each) that is named `s`.
pub open spec fn last_capture(caps: Seq<Val>, s: Seq<char>, m: int) -> Option<Val>
    decreases m,
{
    if m <= 0 {
        None
    } else if caps[2 * m] == Val::Sym(s) {
        Some(caps[2 * m + 1])
    } else {
        last_capture(caps, s, m - 1)
    }
}

/// What the name `s` stands for in the body of the closure with the values
/// `caps`, called with arguments of the values `avs`: the last parameter of
/// that name, else the last captured variable of that name.
pub open spec fn closure_binding(caps: Seq<Val>, avs: Seq<Val>, s: Seq<char>) -> Option<Val> {
    let ps = crate::value::list::list_items(caps[0]);
    match last_param(ps, avs, s, ps.len() as int) {
        Some(v) => Some(v),
        None => last_capture(caps, s, (caps.len() - 2) / 2),
    }
}

/// The value of the expression of the value `v` in that body, where it is a
/// constant or a name the closure binds.
pub open spec fn closure_expr_value(caps: Seq<Val>, avs: Seq<Val>, v: Val) -> Option<Val> {
    match v {
        Val::Sym(s) => closure_binding(caps, avs, s),
        _ => if crate::compile::constant_expr(v) {
            Some(v)
        } else {
            None
        },
    }
}

/// The closure with the values `caps` takes arguments of the values `avs`,
/// one per parameter, each parameter and captured variable is named by a
/// symbol, and its body is a list of constants and names it binds.
pub open spec fn simple_closure_call(caps: Seq<Val>, avs: Seq<Val>) -> bool {
    let ps = crate::value::list::list_items(caps[0]);
    let body = crate::value::list::list_items(caps[1]);
    &&& caps.len() >= 2
    &&& ps.len() == avs.len()
    &&& forall|k: int| 0 <= k < ps.len() ==> (#[trigger] ps[k]) is Sym
    &&& forall|m: int| 0 <= m < (caps.len() - 2) / 2 ==> (#[trigger] caps[2 + 2 * m]) is Sym
    &&& body.len() > 0
    &&& forall|k: int| 0 <= k < body.len() ==> (#[trigger] closure_expr_value(caps, avs, body[k])) is Some
}

/// The value a local variable named `s` has in `e`, read in `obj`.
pub open spec fn bound_val(obj: &Object, e: &Context, s: Seq<char>) -> Option<Val> {
    match e.spec_lookup(s) {
        Some(r) => Some(obj.value_of(r)),
        None => None,
    }
}

/// No parameter of the first `n` is named `s`: nothing is found.
proof fn lemma_last_param_none(ps: Seq<Val>, avs: Seq<Val>, s: Seq<char>, n: int)
    requires
        n <= ps.len(),
        forall|k: int| 0 <= k < n ==> ps[k] != Val::Sym(s),
    ensures
        last_param(ps, avs, s, n) is None,
    decreases n,
{
    if n > 0 {
        lemma_last_param_none(ps, avs, s, n - 1);
    }
}

/// The last parameter named `s` is found at its place.
proof fn lemma_last_param_at(ps: Seq<Val>, avs: Seq<Val>, s: Seq<char>, n: int, j: int)
    requires
        0 <= j < n <= ps.len(),
        ps[j] == Val::Sym(s),
        forall|k: int| j < k < n ==> ps[k] != Val::Sym(s),
    ensures
        last_param(ps, avs, s, n) == Some(avs[j]),
    decreases n,
{
    if n - 1 > j {
        lemma_last_param_at(ps, avs, s, n - 1, j);
    }
}

/// In the body of a called closure, a parameter's name stands for the
/// argument at the place of the last parameter of that name: the `k`-th
/// parameter gets the `k`-th argument.
pub proof fn law_closure_parameter(caps: Seq<Val>, avs: Seq<Val>, s: Seq<char>, j: int)
    requires
        caps.len() >= 2,
        0 <= j < crate::value::list::list_items(caps[0]).len(),
        crate::value::list::list_items(caps[0]).len() <= avs.len(),
        crate::value::list::list_items(caps[0])[j] == Val::Sym(s),
        forall|k: int|
            j < k < crate::value::list::list_items(caps[0]).len() ==> crate::value::list::list_items(caps[0])[k]
                != Val::Sym(s),
    ensures
        closure_binding(caps, avs, s) == Some(avs[j]),
{
    let ps = crate::value::list::list_items(caps[0]);
    lemma_last_param_at(ps, avs, s, ps.len() as int, j);
}

/// In the body of a closure made where the local variables were `env`, a
/// name that is none of its parameters stands for the value the innermost
/// local variable of that name had when the closure was made.
pub proof fn law_closure_captured(obj: &Object, env: &Context, caps: Seq<Val>, avs: Seq<Val>, s: Seq<char>)
    requires
        caps.len() == 2 + 2 * env.spec_values().len(),
        forall|q: Seq<char>| last_capture(caps, q, env.spec_values().len() as int) == #[trigger] bound_val(obj, env, q),
        forall|k: int|
            0 <= k < crate::value::list::list_items(caps[0]).len() ==> crate::value::list::list_items(caps[0])[k]
                != Val::Sym(s),
    ensures
        closure_binding(caps, avs, s) == bound_val(obj, env, s),
{
    let ps = crate::value::list::list_items(caps[0]);
    lemma_last_param_none(ps, avs, s, ps.len() as int);
    assert((caps.len() - 2) / 2 == env.spec_values().len());
    assert(last_capture(caps, s, env.spec_values().len() as int) == bound_val(obj, env, s));
}


/// What a form that is a constant or reads a local variable answers.
pub open spec fn simple_ref(f: IForm, lookup: spec_fn(Seq<char>) -> Option<Ref>) -> Option<Ref> {
    match f {
        IForm::Const(c) => Some(c.value),
        IForm::LRef(x) => lookup(x.symbol@),
        _ => None,
    }
}

/// A sequence of constants and reads of bound variables answers its last
/// one.
proof fn lemma_plain_seq_simple(
    items: Seq<IForm>,
    lookup: spec_fn(Seq<char>) -> Option<Ref>,
    obj: Object,
    fuel: nat,
    last: Ref,
)
    requires
        fuel > 0,
        forall|k: int| 0 <= k < items.len() ==> (#[trigger] simple_ref(items[k], lookup)) is Some,
    ensures
        plain_seq(items, lookup, obj, fuel, last) == if items.len() == 0 {
            Some(last)
        } else {
            simple_ref(items.last(), lookup)
        },
    decreases items.len(),
{
    if items.len() > 0 {
        assert(simple_ref(items[0], lookup) is Some);
        assert(plain_value(items[0], lookup, obj, fuel) == simple_ref(items[0], lookup));
        let t = items.skip(1);
        assert forall|k: int| 0 <= k < t.len() implies (#[trigger] simple_ref(t[k], lookup)) is Some by {
            assert(t[k] == items[k + 1]);
        }
        lemma_plain_seq_simple(t, lookup, obj, fuel, simple_ref(items[0], lookup)->0);
        if items.len() > 1 {
            assert(t.last() == items.last());
        }
    }
}

/// Captured variables laid out as names and values in order are found as
/// the local variables are: the last one bound with a name wins.
proof fn lemma_captures_bound(obj: &Object, caps: Seq<Val>, names: Seq<Seq<char>>, values: Seq<Ref>, q: Seq<char>, m: int)
    requires
        0 <= m <= names.len(),
        names.len() == values.len(),
        caps.len() >= 2 + 2 * names.len(),
        forall|j: int|
            0 <= j < names.len() ==> #[trigger] caps[2 + 2 * j] == Val::Sym(names[j]) && caps[3 + 2 * j] == obj.value_of(
                values[j],
            ),
    ensures
        last_capture(caps, q, m) == match crate::object::context::last_bound(names, values, q, m) {
            Some(r) => Some(obj.value_of(r)),
            None => None,
        },
    decreases m,
{
    if m > 0 {
        assert(caps[2 + 2 * (m - 1)] == Val::Sym(names[m - 1]));
        assert(2 + 2 * (m - 1) == 2 * m);
        lemma_captures_bound(obj, caps, names, values, q, m - 1);
    }
}

/// Makes the closure of `fun`: its parameters and body as written, and the
/// local variables it sees, each as a symbol and its value, in the order
/// they were bound, so that the last one bound with a name is the one the
/// closure finds by that name.
fn make_closure(fun: &IFormFun, env: &Context, obj: &mut Object) -> (res: Result<Ref, Exception>)
    requires
        old(obj).wf(),
        env.wf(),
        env.valid_in(old(obj)),
        ref_below(fun.params, old(obj).heap_view().len() as int),
        ref_below(fun.body, old(obj).heap_view().len() as int),
    ensures
        final(obj).wf(),
        final(obj).grown_from(old(obj)),
        res matches Ok(r) ==> final(obj).valid(r) && final(obj).value_of(r) is Closure,
        res matches Err(e) ==> e is OutOfMemory,
        res matches Ok(r) ==> (final(obj).value_of(r) matches Val::Closure(n, caps) && n == fun.len_params
            && caps.len() == 2 + 2 * env.spec_values().len() && caps[0] == old(obj).value_of(fun.params) && caps[1]
            == old(obj).value_of(fun.body) && forall|q: Seq<char>|
            last_capture(caps, q, env.spec_values().len() as int) == #[trigger] bound_val(old(obj), env, q)),
{
    proof {
        obj.lemma_grown_refl();
    }
    let mut refs: Vec<Ref> = Vec::new();
    refs.push(fun.params);
    refs.push(fun.body);
    let mut i: usize = 0;
    let count = env.len();
    while i < count
        invariant
            env.wf(),
            env.valid_in(old(obj)),
            count == env.spec_values().len(),
            i <= count,
            obj.wf(),
            obj.grown_from(old(obj)),
            all_valid(obj, refs@),
            refs@.len() == 2 + 2 * i,
            refs@[0] == fun.params,
            refs@[1] == fun.body,
            forall|j: int|
                0 <= j < i ==> #[trigger] obj.value_of(refs@[2 + 2 * j]) == Val::Sym(env.spec_names()[j]) && refs@[3 + 2
                    * j] == env.spec_values()[j],
        decreases count - i,
    {
        let ghost o1 = *obj;
        let sym = match Symbol::allocate(obj, env.name_at(i)) {
            Ok(s) => s,
            Err(_) => {
                proof {
                    obj.lemma_grown_trans(&o1, old(obj));
                }
                return Err(Exception::OutOfMemory);
            },
        };
        proof {
            obj.lemma_grown_trans(&o1, old(obj));
        }
        let ghost r0 = refs@;
        refs.push(sym);
        refs.push(env.value_at(i));
        proof {
            env.lemma_lookup_bound(Seq::empty());
            assert(refs@[2 + 2 * i] == sym);
            assert(refs@[3 + 2 * i] == env.spec_values()[i as int]);
            assert forall|j: int|
                0 <= j < i + 1 implies #[trigger] obj.value_of(refs@[2 + 2 * j]) == Val::Sym(env.spec_names()[j])
                && refs@[3 + 2 * j] == env.spec_values()[j] by {
                if j < i {
                    assert(refs@[2 + 2 * j] == r0[2 + 2 * j]);
                    assert(refs@[3 + 2 * j] == r0[3 + 2 * j]);
                    assert(o1.valid(r0[2 + 2 * j]));
                    assert(o1.value_of(r0[2 + 2 * j]) == Val::Sym(env.spec_names()[j]));
                    crate::value::any::lemma_denote_extends(o1.heap_view(), obj.heap_view(), r0[2 + 2 * j]);
                } else {
                    assert(j == i);
                    assert(obj.value_of(sym) == Val::Sym(env.spec_names()[i as int]));
                }
            }
            assert(old(obj).valid(env.spec_values()[i as int]));
            assert forall|k: int| 0 <= k < refs@.len() implies obj.valid(#[trigger] refs@[k]) by {
                if k < r0.len() {
                    assert(refs@[k] == r0[k]);
                    assert(o1.valid(r0[k]));
                }
            }
        }
        i = i + 1;
    }
    let ghost c = Cell::Closure(fun.len_params, refs);
    proof {
        assert(cell_refs(c) == refs@);
        assert forall|k: int| 0 <= k < cell_refs(c).len() implies ref_below(#[trigger] cell_refs(c)[k], obj.heap_view().len() as int) by {
            assert(obj.valid(refs@[k]));
        }
    }
    let ghost o2 = *obj;
    let ghost rs = refs@;
    let r = obj.allocate(Cell::Closure(fun.len_params, refs));
    proof {
        obj.lemma_grown_trans(&o2, old(obj));
        if let Ok(rr) = r {
            let n = o2.heap_view().len() as int;
            obj.lemma_wf();
            assert(obj.heap_view()[n] == c);
            crate::value::any::lemma_container_cell(obj.heap_view(), n);
            let caps = crate::value::any::denote_seq(obj.heap_view(), rs, n);
            assert(obj.value_of(rr) == Val::Closure(fun.len_params as nat, caps));
            assert forall|k: int| 0 <= k < rs.len() implies #[trigger] caps[k] == o2.value_of(rs[k]) by {
                assert(cell_refs(c)[k] == rs[k]);
                assert(o2.valid(rs[k]));
                crate::value::any::lemma_denote_extends(o2.heap_view(), obj.heap_view(), rs[k]);
            }
            assert(old(obj).valid(fun.params) && old(obj).valid(fun.body));
            crate::value::any::lemma_denote_extends(old(obj).heap_view(), o2.heap_view(), fun.params);
            crate::value::any::lemma_denote_extends(old(obj).heap_view(), o2.heap_view(), fun.body);
            assert forall|j: int| 0 <= j < count implies #[trigger] caps[2 + 2 * j] == Val::Sym(env.spec_names()[j])
                && caps[3 + 2 * j] == old(obj).value_of(env.spec_values()[j]) by {
                assert(caps[3 + 2 * j] == o2.value_of(rs[3 + 2 * j]));
                assert(old(obj).valid(env.spec_values()[j]));
                crate::value::any::lemma_denote_extends(old(obj).heap_view(), o2.heap_view(), env.spec_values()[j]);
            }
            assert forall|q: Seq<char>| last_capture(caps, q, count as int) == #[trigger] bound_val(old(obj), env, q) by {
                env.lemma_lookup_bound(q);
                lemma_captures_bound(old(obj), caps, env.spec_names(), env.spec_values(), q, count as int);
            }
        }
    }
    match r {
        Ok(r) => Ok(r),
        Err(_) => Err(Exception::OutOfMemory),
    }
}


/// The exception a failed compilation answers.
pub fn syntax_exception(e: SyntaxException) -> (res: Exception)
    ensures
        match e {
            SyntaxException::OutOfMemory => res is OutOfMemory,
            SyntaxException::TypeMismatch(x) => res == Exception::TypeMismatch(x),
            SyntaxException::MalformedFormat(_) => res is MalformedFormat,
            SyntaxException::DisallowContext => res is DisallowContext,
        },
{
    match e {
        SyntaxException::OutOfMemory => Exception::OutOfMemory,
        SyntaxException::TypeMismatch(x) => Exception::TypeMismatch(x),
        SyntaxException::MalformedFormat(x) => Exception::MalformedFormat(x),
        SyntaxException::DisallowContext => Exception::DisallowContext,
    }
}

/// The arguments `apply` passes on: those after the function, the last of
/// them (a list) spread into its elements.
fn spread_arguments(obj: &Object, args: &Vec<Ref>) -> (res: Result<Vec<Ref>, Exception>)
    requires
        obj.wf(),
        all_valid(obj, args@),
        args@.len() >= 2,
    ensures
        res matches Ok(v) ==> all_valid(obj, v@),
        res is Ok <==> crate::value::list::is_list_val(obj.value_of(args@.last())),
        res matches Err(e) ==> e is TypeMismatch,
        res matches Ok(v) ==> values_of(obj, v@) == values_of(obj, args@.subrange(1, args@.len() - 1))
            + crate::value::list::list_items(obj.value_of(args@.last())),
{
    let n = args.len();
    let last = args[n - 1];
    if !(List::is_nil(last) || List::is_pair(obj, last)) {
        return Err(Exception::TypeMismatch(TypeMismatch::new(last, TypeInfo::List)));
    }
    let mut out: Vec<Ref> = Vec::new();
    proof {
        assert(out@ =~= args@.subrange(1, 1));
    }
    let mut i: usize = 1;
    while i < n - 1
        invariant
            1 <= i <= n - 1,
            n == args@.len(),
            all_valid(obj, args@),
            all_valid(obj, out@),
            out@ == args@.subrange(1, i as int),
        decreases n - 1 - i,
    {
        let ghost o0 = out@;
        out.push(args[i]);
        proof {
            assert(out@ =~= args@.subrange(1, i + 1));
            assert forall|k: int| 0 <= k < out@.len() implies obj.valid(#[trigger] out@[k]) by {
                if k < o0.len() {
                    assert(out@[k] == o0[k]);
                }
            }
        }
        i = i + 1;
    }
    let rest = elements(obj, last);
    proof {
        assert(rest@.take(0) =~= Seq::<Ref>::empty());
        assert(out@ =~= args@.subrange(1, n - 1) + rest@.take(0));
    }
    let mut j: usize = 0;
    while j < rest.len()
        invariant
            j <= rest@.len(),
            all_valid(obj, rest@),
            all_valid(obj, out@),
            n == args@.len(),
            out@ == args@.subrange(1, n - 1) + rest@.take(j as int),
        decreases rest@.len() - j,
    {
        let ghost o0 = out@;
        out.push(rest[j]);
        proof {
            assert(out@ =~= args@.subrange(1, n - 1) + rest@.take(j + 1));
            assert forall|k: int| 0 <= k < out@.len() implies obj.valid(#[trigger] out@[k]) by {
                if k < o0.len() {
                    assert(out@[k] == o0[k]);
                }
            }
        }
        j = j + 1;
    }
    proof {
        assert(rest@.take(rest@.len() as int) =~= rest@);
        assert(values_of(obj, out@) =~= values_of(obj, args@.subrange(1, n - 1)) + values_of(obj, rest@));
        assert(args@.last() == last);
    }
    Ok(out)
}

/// The name of each parameter of a closure, from its parameter list.
fn param_names(obj: &Object, params: Ref) -> (res: Option<Vec<Vec<char>>>)
    requires
        obj.wf(),
        obj.valid(params),
    ensures
        ({
            let items = crate::value::list::list_items(obj.value_of(params));
            match res {
                Some(ns) => ns@.len() == items.len() && forall|k: int|
                    0 <= k < items.len() ==> #[trigger] items[k] == Val::Sym(ns@[k]@),
                None => exists|k: int| 0 <= k < items.len() && !(#[trigger] items[k] is Sym),
            }
        }),
{
    let ps = elements(obj, params);
    let ghost items = crate::value::list::list_items(obj.value_of(params));
    proof {
        assert forall|k: int| 0 <= k < ps@.len() implies #[trigger] items[k] == obj.value_of(ps@[k]) by {
            assert(values_of(obj, ps@)[k] == obj.value_of(ps@[k]));
        }
    }
    let mut names: Vec<Vec<char>> = Vec::new();
    let mut i: usize = 0;
    while i < ps.len()
        invariant
            i <= ps@.len(),
            items.len() == ps@.len(),
            items == crate::value::list::list_items(obj.value_of(params)),
            forall|k: int| 0 <= k < ps@.len() ==> #[trigger] items[k] == obj.value_of(ps@[k]),
            names@.len() == i,
            forall|k: int| 0 <= k < i ==> #[trigger] items[k] == Val::Sym(names@[k]@),
        decreases ps@.len() - i,
    {
        match symbol_name(obj, ps[i]) {
            Some(n) => {
                let ghost n0 = names@;
                names.push(n);
                proof {
                    assert forall|k: int| 0 <= k < i + 1 implies #[trigger] items[k] == Val::Sym(names@[k]@) by {
                        if k < i {
                            assert(names@[k] == n0[k]);
                        }
                    }
                }
            },
            None => {
                proof {
                    assert(!(items[i as int] is Sym));
                }
                return None;
            },
        }
        i = i + 1;
    }
    Some(names)
}

/// The builtin takes its arguments as they are, replies included: the
/// builtins that build or read lists, arrays and tuples. Every other builtin
/// gets its arguments forced.
pub open spec fn spec_keeps_replies(id: FuncId) -> bool {
    match id {
        FuncId::Cons | FuncId::List | FuncId::IsList | FuncId::ListLen | FuncId::ListRef | FuncId::Array
        | FuncId::IsArray | FuncId::ArrayLen | FuncId::ArrayRef | FuncId::Tuple | FuncId::IsTuple
        | FuncId::TupleLen | FuncId::TupleRef => true,
        _ => false,
    }
}

/// Whether the builtin `id` takes its arguments as they are.
fn keeps_replies(id: FuncId) -> (b: bool)
    ensures
        b == spec_keeps_replies(id),
{
    match id {
        FuncId::Cons | FuncId::List | FuncId::IsList | FuncId::ListLen | FuncId::ListRef | FuncId::Array
        | FuncId::IsArray | FuncId::ArrayLen | FuncId::ArrayRef | FuncId::Tuple | FuncId::IsTuple
        | FuncId::TupleLen | FuncId::TupleRef => true,
        _ => false,
    }
}

/// The values a builtin takes for arguments of the values `vs`: as they
/// are, or forced.
pub open spec fn builtin_args(id: FuncId, vs: Seq<Val>) -> Seq<Val> {
    if spec_keeps_replies(id) {
        vs
    } else {
        forced_seq(vs)
    }
}

/// Each of `args`, forced.
fn force_all(obj: &mut Object, args: &Vec<Ref>) -> (res: Result<Vec<Ref>, OutOfMemory>)
    requires
        old(obj).wf(),
        all_valid(old(obj), args@),
    ensures
        final(obj).wf(),
        final(obj).grown_from(old(obj)),
        res matches Ok(v) ==> v@.len() == args@.len() && all_valid(final(obj), v@) && forall|k: int|
            0 <= k < v@.len() ==> #[trigger] final(obj).value_of(v@[k]) == forced(old(obj).value_of(args@[k])),
        args@.len() == 0 ==> res is Ok,
{
    proof {
        obj.lemma_grown_refl();
    }
    let mut out: Vec<Ref> = Vec::new();
    let mut k: usize = 0;
    while k < args.len()
        invariant
            k <= args@.len(),
            out@.len() == k,
            all_valid(old(obj), args@),
            obj.wf(),
            obj.grown_from(old(obj)),
            all_valid(obj, out@),
            forall|j: int| 0 <= j < k ==> #[trigger] obj.value_of(out@[j]) == forced(old(obj).value_of(args@[j])),
        decreases args@.len() - k,
    {
        let ghost o0 = *obj;
        proof {
            assert(old(obj).valid(args@[k as int]));
            lemma_denote_extends(old(obj).heap_view(), obj.heap_view(), args@[k as int]);
        }
        let f = match force(obj, args[k]) {
            Ok(f) => f,
            Err(e) => {
                proof {
                    obj.lemma_grown_trans(&o0, old(obj));
                }
                return Err(e);
            },
        };
        proof {
            obj.lemma_grown_trans(&o0, old(obj));
        }
        let ghost p0 = out@;
        out.push(f);
        proof {
            assert(out@[k as int] == f);
            assert forall|j: int| 0 <= j < out@.len() implies obj.valid(#[trigger] out@[j]) by {
                if j < p0.len() {
                    assert(out@[j] == p0[j]);
                    assert(o0.valid(p0[j]));
                }
            }
            assert forall|j: int| 0 <= j < k + 1 implies #[trigger] obj.value_of(out@[j]) == forced(
                old(obj).value_of(args@[j]),
            ) by {
                if j < k {
                    assert(out@[j] == p0[j]);
                    assert(o0.valid(p0[j]));
                    assert(o0.value_of(p0[j]) == forced(old(obj).value_of(args@[j])));
                    lemma_denote_extends(o0.heap_view(), obj.heap_view(), p0[j]);
                }
            }
        }
        k = k + 1;
    }
    Ok(out)
}

/// `r` is valid in `obj`.
fn ref_valid(obj: &Object, r: Ref) -> (b: bool)
    ensures
        b == obj.valid(r),
{
    match r {
        Ref::Ptr(i, _) => i < obj.heap().len(),
        _ => true,
    }
}

/// `r`, a value of `src`, copied into `dst`; nil when `r` is not a value of
/// `src` or `dst` has no room for it.
fn clone_or_nil(src: &Object, r: Ref, dst: &mut Object) -> (res: Ref)
    requires
        src.wf(),
        old(dst).wf(),
    ensures
        final(dst).wf(),
        final(dst).grown_from(old(dst)),
        final(dst).valid(res),
{
    proof {
        dst.lemma_grown_refl();
    }
    if ref_valid(src, r) {
        match crate::value::value_clone(src, r, dst) {
            Ok(c) => c,
            Err(_) => Ref::Nil,
        }
    } else {
        Ref::Nil
    }
}

/// The exception `e`, raised in `src`, with the values it refers to copied
/// into `dst`.
fn exception_clone(src: &Object, e: Exception, dst: &mut Object) -> (res: Exception)
    requires
        src.wf(),
        old(dst).wf(),
    ensures
        final(dst).wf(),
        final(dst).grown_from(old(dst)),
{
    proof {
        dst.lemma_grown_refl();
    }
    match e {
        Exception::OutOfBounds(x) => Exception::OutOfBounds(
            crate::err::OutOfBounds::new(clone_or_nil(src, x.related_exp, dst), x.index),
        ),
        Exception::TypeMismatch(x) => Exception::TypeMismatch(
            TypeMismatch::new(clone_or_nil(src, x.found_exp, dst), x.require_type),
        ),
        Exception::MalformedFormat(x) => {
            let related = match x.related_exp {
                Some(r) => Some(clone_or_nil(src, r, dst)),
                None => None,
            };
            Exception::MalformedFormat(MalformedFormat { related_exp: related, message: x.message })
        },
        Exception::UnboundVariable(x) => Exception::UnboundVariable(
            UnboundVariable::new(clone_or_nil(src, x.symbol, dst)),
        ),
        other => other,
    }
}

/// The largest of `id` and the numbers of the objects `peers`.
pub open spec fn max_id(id: usize, peers: Seq<Object>) -> int
    decreases peers.len(),
{
    if peers.len() == 0 {
        id as int
    } else {
        let m = max_id(id, peers.drop_last());
        if peers.last().spec_id() > m {
            peers.last().spec_id() as int
        } else {
            m
        }
    }
}

/// `o` is a new object numbered `id`, with the builtins defined and nothing
/// else.
pub open spec fn fresh_object(o: Object, id: int) -> bool {
    &&& o.wf()
    &&& o.spec_id() == id
    &&& o.heap_view().len() == 0
    &&& forall|k: Seq<char>| #[trigger] o.global(k) == crate::object::core_global(k)
    &&& o.receiver_slots().len() == 0
    &&& o.spec_prev() is None
}

/// `spawn`: a new object, with the builtins defined, among `peers`; answers
/// a reference to it. Its number is one more than the largest number in use.
fn spawn(obj: &mut Object, peers: &mut Vec<Object>) -> (res: Result<Ref, Exception>)
    requires
        old(obj).wf(),
        objects_wf(old(peers)@),
    ensures
        final(obj).wf(),
        final(obj).grown_from(old(obj)),
        objects_wf(final(peers)@),
        res matches Ok(r) ==> final(obj).valid(r),
        max_id(old(obj).spec_id(), old(peers)@) < usize::MAX ==> {
            &&& final(peers)@.len() == old(peers)@.len() + 1
            &&& final(peers)@.drop_last() == old(peers)@
            &&& fresh_object(final(peers)@.last(), max_id(old(obj).spec_id(), old(peers)@) + 1)
            &&& res matches Err(e) ==> e is OutOfMemory
        },
        max_id(old(obj).spec_id(), old(peers)@) >= usize::MAX ==> res is Err && final(peers)@ == old(peers)@,
        res matches Ok(r) ==> final(obj).value_of(r) == Val::Object((max_id(old(obj).spec_id(), old(peers)@) + 1) as nat),
{
    proof {
        obj.lemma_grown_refl();
    }
    let mut id = obj.id();
    let mut i: usize = 0;
    proof {
        assert(peers@.take(0) =~= Seq::<Object>::empty());
    }
    while i < peers.len()
        invariant
            i <= peers@.len(),
            id == max_id(obj.spec_id(), peers@.take(i as int)),
        decreases peers@.len() - i,
    {
        proof {
            assert(peers@.take(i + 1).drop_last() =~= peers@.take(i as int));
        }
        if peers[i].id() > id {
            id = peers[i].id();
        }
        i = i + 1;
    }
    proof {
        assert(peers@.take(peers@.len() as int) =~= peers@);
    }
    if id == usize::MAX {
        return Err(Exception::Other("no number is left for a new object".to_owned()));
    }
    let mut other = Object::new(id + 1);
    other.register_core_global();
    let ghost p0 = peers@;
    peers.push(other);
    proof {
        assert(peers@.drop_last() =~= p0);
        assert forall|k: int| 0 <= k < peers@.len() implies (#[trigger] peers@[k]).wf() by {
            if k < p0.len() {
                assert(peers@[k] == p0[k]);
            }
        }
    }
    let r = ObjectRef::allocate(obj, id + 1);
    proof {
        if let Ok(x) = r {
            assert(obj.heap_view()[ref_index(x)] == Cell::ObjectRef((id + 1) as usize));
        }
    }
    match r {
        Ok(r) => Ok(r),
        Err(_) => Err(Exception::OutOfMemory),
    }
}

/// `send`: delivers a copy of the message `msg` to the object `target`
/// refers to, and answers a reply holding a copy of what it answered: false
/// when none of its receivers' patterns matches the message.
fn send(obj: &mut Object, peers: &mut Vec<Object>, target: Ref, msg: Ref, fuel: u64) -> (res: Result<Ref, Exception>)
    requires
        old(obj).wf(),
        objects_wf(old(peers)@),
        old(obj).valid(msg),
    ensures
        final(obj).wf(),
        final(obj).grown_from(old(obj)),
        objects_wf(final(peers)@),
        res matches Ok(r) ==> final(obj).valid(r) && final(obj).value_of(r) is Reply,
        !(old(obj).value_of(target) is Object) ==> res matches Err(Exception::TypeMismatch(_)),
        match old(obj).value_of(target) {
            Val::Object(id) => (forall|k: int| 0 <= k < old(peers)@.len() ==> (#[trigger] old(peers)@[k]).spec_id() != id)
                ==> res == Err::<Ref, Exception>(Exception::MySelfObjectDeleted),
            _ => true,
        },
        match old(obj).value_of(target) {
            Val::Object(id) => fuel > 2 && (forall|k: int, i: int|
                0 <= k < old(peers)@.len() && (#[trigger] old(peers)@[k]).spec_id() == id && 0 <= i
                    < old(peers)@[k].receiver_slots().len() ==> !crate::value::syntax::matcher::val_matches(
                    old(peers)@[k].value_of(#[trigger] old(peers)@[k].receiver(i).0),
                    old(obj).value_of(msg),
                )) ==> (res matches Ok(r) ==> final(obj).value_of(r) == Val::Reply(Box::new(Val::False))),
            _ => true,
        },
    decreases fuel, 1nat,
{
    proof {
        obj.lemma_grown_refl();
    }
    let id = match ObjectRef::get(obj, target) {
        Some(id) => id,
        None => {
            return Err(Exception::TypeMismatch(TypeMismatch::new(target, TypeInfo::ObjectRef)));
        },
    };
    let mut idx: usize = 0;
    while idx < peers.len() && peers[idx].id() != id
        invariant
            idx <= peers@.len(),
            forall|k: int| 0 <= k < idx ==> (#[trigger] peers@[k]).spec_id() != id,
        decreases peers@.len() - idx,
    {
        idx = idx + 1;
    }
    if idx == peers.len() {
        return Err(Exception::MySelfObjectDeleted);
    }
    let ghost p0 = peers@;
    let mut other = peers.remove(idx);
    proof {
        assert(other == p0[idx as int]);
        assert forall|k: int| 0 <= k < peers@.len() implies (#[trigger] peers@[k]).wf() by {
            if k < idx {
                assert(peers@[k] == p0[k]);
            } else {
                assert(peers@[k] == p0[k + 1]);
            }
        }
    }
    let res = deliver(obj, &mut other, peers, msg, fuel);
    let ghost p1 = peers@;
    let idx = if idx <= peers.len() {
        idx
    } else {
        peers.len()
    };
    peers.insert(idx, other);
    proof {
        assert forall|k: int| 0 <= k < peers@.len() implies (#[trigger] peers@[k]).wf() by {
            if k < idx {
                assert(peers@[k] == p1[k]);
            } else if k > idx {
                assert(peers@[k] == p1[k - 1]);
            }
        }
    }
    res
}

/// Delivers a copy of `msg` to `target`, which answers it; the answer,
/// forced and copied back, is held in a reply (false when none of the
/// target's receivers' patterns matches the message).
fn deliver(obj: &mut Object, target: &mut Object, peers: &mut Vec<Object>, msg: Ref, fuel: u64) -> (res: Result<
    Ref,
    Exception,
>)
    requires
        old(obj).wf(),
        old(target).wf(),
        objects_wf(old(peers)@),
        old(obj).valid(msg),
    ensures
        final(obj).wf(),
        final(obj).grown_from(old(obj)),
        final(target).wf(),
        objects_wf(final(peers)@),
        res matches Ok(r) ==> final(obj).valid(r) && final(obj).value_of(r) is Reply,
        fuel > 2 && (forall|i: int|
            0 <= i < old(target).receiver_slots().len() ==> !crate::value::syntax::matcher::val_matches(
                old(target).value_of(#[trigger] old(target).receiver(i).0),
                old(obj).value_of(msg),
            )) ==> (res matches Ok(r) ==> final(obj).value_of(r) == Val::Reply(Box::new(Val::False))),
    decreases fuel, 0nat,
{
    proof {
        obj.lemma_grown_refl();
    }
    if fuel == 0 {
        return Err(Exception::Other("evaluation too deep".to_owned()));
    }
    let m = match crate::value::value_clone(obj, msg, target) {
        Ok(m) => m,
        Err(_) => {
            return Err(Exception::OutOfMemory);
        },
    };
    proof {
        if fuel > 2 && (forall|i: int|
            0 <= i < old(target).receiver_slots().len() ==> !crate::value::syntax::matcher::val_matches(
                old(target).value_of(#[trigger] old(target).receiver(i).0),
                old(obj).value_of(msg),
            )) {
            assert forall|i: int| 0 <= i < target.receiver_slots().len() implies !crate::value::syntax::matcher::val_matches(
                target.value_of(#[trigger] target.receiver(i).0),
                target.value_of(m),
            ) by {
                assert(target.receiver(i) == old(target).receiver(i));
                old(target).lemma_receivers_valid(i);
                lemma_denote_extends(old(target).heap_view(), target.heap_view(), old(target).receiver(i).0);
                assert(!crate::value::syntax::matcher::val_matches(
                    old(target).value_of(old(target).receiver(i).0),
                    old(obj).value_of(msg),
                ));
            }
        }
    }
    let answer = match apply_message(target, peers, m, fuel - 1) {
        Ok(a) => a,
        Err(e) => {
            return Err(exception_clone(target, e, obj));
        },
    };
    let answer = match force(target, answer) {
        Ok(a) => a,
        Err(_) => {
            return Err(Exception::OutOfMemory);
        },
    };
    let copy = match crate::value::value_clone(target, answer, obj) {
        Ok(c) => c,
        Err(_) => {
            return Err(Exception::OutOfMemory);
        },
    };
    let ghost o1 = *obj;
    let r = Reply::allocate(obj, copy);
    proof {
        obj.lemma_grown_trans(&o1, old(obj));
    }
    match r {
        Ok(r) => Ok(r),
        Err(_) => Err(Exception::OutOfMemory),
    }
}

/// The object `obj` answers the message `msg`: the body of the receiver
/// whose pattern matches, picked as `match` picks its clause, evaluated with
/// the variables the pattern binds; false when none matches.
pub fn apply_message(obj: &mut Object, peers: &mut Vec<Object>, msg: Ref, fuel: u64) -> (res: Result<Ref, Exception>)
    requires
        old(obj).wf(),
        objects_wf(old(peers)@),
        old(obj).valid(msg),
    ensures
        final(obj).wf(),
        final(obj).evolved_from(old(obj)),
        objects_wf(final(peers)@),
        res matches Ok(r) ==> final(obj).valid(r),
        fuel > 1 && (forall|i: int|
            0 <= i < old(obj).receiver_slots().len() ==> !crate::value::syntax::matcher::val_matches(
                old(obj).value_of(#[trigger] old(obj).receiver(i).0),
                old(obj).value_of(msg),
            )) ==> (res is Ok ==> res == Ok::<Ref, Exception>(Ref::False)),
        fuel > 2 && old(obj).receiver_slots().len() > 0 && crate::value::syntax::matcher::val_matches(
            old(obj).value_of(old(obj).receiver(0).0),
            old(obj).value_of(msg),
        ) && crate::value::syntax::matcher::pattern_val_size(old(obj).value_of(old(obj).receiver(0).0)) < EVAL_FUEL
            && constant_body(old(obj).value_of(old(obj).receiver(0).1)) ==> (res matches Ok(r)
            ==> final(obj).value_of(r) == crate::value::list::list_items(old(obj).value_of(old(obj).receiver(0).1)).last()),
    decreases fuel, 4nat,
{
    proof {
        obj.lemma_grown_refl();
    }
    let ghost msgv = old(obj).value_of(msg);
    let ghost qv = Val::Pair(
        Box::new(Val::Syntax(SyntaxId::Quote)),
        Box::new(Val::Pair(Box::new(msgv), Box::new(Val::Nil))),
    );
    let ghost rvs = Seq::new(
        old(obj).receiver_slots().len(),
        |k: int|
            Val::Pair(
                Box::new(old(obj).value_of(old(obj).receiver(k).0)),
                Box::new(old(obj).value_of(old(obj).receiver(k).1)),
            ),
    );
    let mut clauses = crate::value::list::ListBuilder::new();
    let quoted = match List::cons(obj, msg, Ref::Nil) {
        Ok(r) => r,
        Err(_) => {
            return Err(Exception::OutOfMemory);
        },
    };
    let ghost o1 = *obj;
    let quoted = match List::cons(obj, Ref::Syntax(SyntaxId::Quote), quoted) {
        Ok(r) => r,
        Err(_) => {
            proof {
                obj.lemma_grown_trans(&o1, old(obj));
            }
            return Err(Exception::OutOfMemory);
        },
    };
    proof {
        obj.lemma_grown_trans(&o1, old(obj));
        lemma_denote_extends(old(obj).heap_view(), o1.heap_view(), msg);
        assert(obj.value_of(quoted) == qv);
    }
    clauses.push(quoted);
    proof {
        assert(values_of(obj, clauses.items()) =~= seq![qv] + rvs.take(0));
    }
    let n = obj.receivers_len();
    let mut i: usize = 0;
    while i < n
        invariant
            i <= n,
            n == obj.receiver_slots().len(),
            objects_wf(peers@),
            obj.wf(),
            obj.grown_from(old(obj)),
            all_valid(obj, clauses.items()),
            rvs.len() == n,
            values_of(obj, clauses.items()) == seq![qv] + rvs.take(i as int),
            old(obj).wf(),
            n == old(obj).receiver_slots().len(),
            rvs == Seq::new(
                old(obj).receiver_slots().len(),
                |k: int|
                    Val::Pair(
                        Box::new(old(obj).value_of(old(obj).receiver(k).0)),
                        Box::new(old(obj).value_of(old(obj).receiver(k).1)),
                    ),
            ),
        decreases n - i,
    {
        let (pattern, body) = obj.get_receiver(i);
        proof {
            assert(obj.receiver(i as int) == old(obj).receiver(i as int));
            old(obj).lemma_receivers_valid(i as int);
            lemma_denote_extends(old(obj).heap_view(), obj.heap_view(), pattern);
            lemma_denote_extends(old(obj).heap_view(), obj.heap_view(), body);
        }
        let ghost o2 = *obj;
        let clause = match List::cons(obj, pattern, body) {
            Ok(r) => r,
            Err(_) => {
                proof {
                    obj.lemma_grown_trans(&o2, old(obj));
                }
                return Err(Exception::OutOfMemory);
            },
        };
        proof {
            obj.lemma_grown_trans(&o2, old(obj));
        }
        let ghost c0 = clauses.items();
        clauses.push(clause);
        proof {
            assert forall|k: int| 0 <= k < c0.len() implies #[trigger] obj.value_of(c0[k]) == o2.value_of(c0[k]) by {
                assert(o2.valid(c0[k]));
                lemma_denote_extends(o2.heap_view(), obj.heap_view(), c0[k]);
            }
            assert(obj.value_of(clause) == rvs[i as int]);
            assert(rvs.take(i + 1) =~= rvs.take(i as int).push(rvs[i as int]));
            assert(clauses.items() == c0.push(clause));
            assert(values_of(obj, c0) =~= values_of(&o2, c0));
            assert(values_of(obj, c0.push(clause)) =~= values_of(obj, c0).push(obj.value_of(clause)));
            assert(values_of(obj, clauses.items()) =~= seq![qv] + rvs.take(i + 1));
            assert forall|k: int| 0 <= k < clauses.items().len() implies obj.valid(#[trigger] clauses.items()[k]) by {
                if k < c0.len() {
                    assert(clauses.items()[k] == c0[k]);
                    assert(o2.valid(c0[k]));
                }
            }
        }
        i = i + 1;
    }
    let ghost o3 = *obj;
    let args = match clauses.get(obj) {
        Ok(r) => r,
        Err(_) => {
            proof {
                obj.lemma_grown_trans(&o3, old(obj));
            }
            return Err(Exception::OutOfMemory);
        },
    };
    proof {
        obj.lemma_grown_trans(&o3, old(obj));
    }
    let ghost o4 = *obj;
    let sexp = match List::cons(obj, Ref::Syntax(SyntaxId::Match), args) {
        Ok(r) => r,
        Err(_) => {
            proof {
                obj.lemma_grown_trans(&o4, old(obj));
            }
            return Err(Exception::OutOfMemory);
        },
    };
    proof {
        obj.lemma_grown_trans(&o4, old(obj));
    }
    let ghost sv = seq![qv] + rvs;
    proof {
        assert(rvs.take(rvs.len() as int) =~= rvs);
        crate::value::list::lemma_list_val(sv);
        assert(obj.value_of(sexp) == Val::Pair(
            Box::new(Val::Syntax(SyntaxId::Match)),
            Box::new(crate::value::list::list_val(sv)),
        ));
    }
    let f = match compile_transform(sexp, obj) {
        Ok(f) => f,
        Err(e) => {
            return Err(syntax_exception(e));
        },
    };
    let ghost o5 = *obj;
    proof {
        let a = crate::value::list::list_val(sv);
        assert(a is Pair);
        assert(val_head(a) == qv);
        assert(crate::value::syntax::matcher::match_clauses(a) =~= rvs) by {
            assert(list_items(a) == sv);
            assert(sv.drop_first() =~= rvs);
        }
        assert(crate::compile::quote_form(qv));
        if fuel > 1 && (forall|i: int|
            0 <= i < old(obj).receiver_slots().len() ==> !crate::value::syntax::matcher::val_matches(
                old(obj).value_of(#[trigger] old(obj).receiver(i).0),
                old(obj).value_of(msg),
            )) {
            let x = f->Match_0;
            let c = (*x.target)->Const_0;
            assert(o5.value_of(c.value) == msgv);
            assert forall|k: int| 0 <= k < x.clauses@.len() implies !crate::value::syntax::matcher::pattern_matches(
                &o5,
                #[trigger] x.clauses@[k].pattern,
                o5.value_of(c.value),
            ) by {
                assert(crate::value::syntax::matcher::clause_written(&o5, x.clauses@[k], rvs[k]));
                crate::value::syntax::matcher::lemma_written_matches(
                    &o5,
                    x.clauses@[k].pattern,
                    old(obj).value_of(old(obj).receiver(k).0),
                    msgv,
                );
            }
        }
    }
    proof {
        let a = crate::value::list::list_val(sv);
        if fuel > 2 && old(obj).receiver_slots().len() > 0 && crate::value::syntax::matcher::val_matches(
            old(obj).value_of(old(obj).receiver(0).0),
            old(obj).value_of(msg),
        ) && crate::value::syntax::matcher::pattern_val_size(old(obj).value_of(old(obj).receiver(0).0)) < EVAL_FUEL
            && constant_body(old(obj).value_of(old(obj).receiver(0).1)) {
            assert(crate::value::syntax::matcher::match_clauses(a) =~= rvs) by {
                assert(list_items(a) == sv);
                assert(sv.drop_first() =~= rvs);
            }
            let x = f->Match_0;
            let c = (*x.target)->Const_0;
            assert(crate::value::syntax::matcher::clause_written(&o5, x.clauses@[0], rvs[0]));
            crate::value::syntax::matcher::lemma_written_matches(
                &o5,
                x.clauses@[0].pattern,
                old(obj).value_of(old(obj).receiver(0).0),
                msgv,
            );
            crate::value::syntax::matcher::lemma_written_size(
                &o5,
                x.clauses@[0].pattern,
                old(obj).value_of(old(obj).receiver(0).0),
            );
            assert(o5.value_of(x.clauses@[0].body) == old(obj).value_of(old(obj).receiver(0).1));
        }
    }
    let mut env = Context::new();
    let r = eval_iform(&f, &mut env, obj, peers, fuel);
    proof {
        obj.lemma_evolved_trans(&o5, old(obj));
    }
    r
}

/// Calls the function `app` (a builtin or a closure) with `args`. A
/// closure's body is evaluated with each parameter bound to the argument at
/// its place, over the variables it captured.
#[verifier::rlimit(60)]
pub fn call_app(app: Ref, args: Vec<Ref>, obj: &mut Object, peers: &mut Vec<Object>, fuel: u64) -> (res: Result<Ref, Exception>)
    requires
        old(obj).wf(),
        objects_wf(old(peers)@),
        old(obj).valid(app),
        all_valid(old(obj), args@),
    ensures
        objects_wf(final(peers)@),
        final(obj).wf(),
        final(obj).evolved_from(old(obj)),
        res matches Ok(r) ==> final(obj).valid(r),
        match app {
            Ref::Func(id) => match res {
                Ok(r) => {
                    &&& is_pure_builtin(id) ==> final(obj).value_of(r) == builtin_value(
                        id,
                        builtin_args(id, values_of(old(obj), args@)),
                    )
                    &&& is_pure_builtin(id) ==> builtin_ok(id, builtin_args(id, values_of(old(obj), args@)), args@)
                    &&& id == FuncId::Force ==> args@.len() == 1 && final(obj).value_of(r) == forced(
                        old(obj).value_of(args@[0]),
                    )
                    &&& id == FuncId::Sleep || id == FuncId::Print ==> r == Ref::Unit
                    &&& id == FuncId::Spawn ==> final(obj).value_of(r) == Val::Object(
                        (max_id(old(obj).spec_id(), old(peers)@) + 1) as nat,
                    )
                    &&& id == FuncId::Send ==> final(obj).value_of(r) is Reply
                },
                Err(e) => id == FuncId::Exit && fuel > 0 && args@.len() == 0 ==> e is Exit,
            },
            _ => true,
        },
        !(app is Func) && !(old(obj).value_of(app) is Closure) ==> res is Err,
        match app {
            Ref::Func(id) => is_pure_builtin(id) ==> final(obj).grown_from(old(obj)) && final(peers)@ == old(peers)@,
            _ => true,
        },
        fuel > 0 && !(app is Func) && !(old(obj).value_of(app) is Closure) ==> res matches Err(Exception::TypeMismatch(_)),
        fuel > 0 ==> match app {
            Ref::Func(id) => args@.len() < spec_num_require(id) || (!spec_has_rest(id) && args@.len()
                != spec_num_require(id)) ==> res is Err && (res->Err_0 is MalformedFormat || res->Err_0 is OutOfMemory),
            _ => match old(obj).value_of(app) {
                Val::Closure(n, caps) => caps.len() >= 2 && args@.len() != n ==> res is Err && res->Err_0 is MalformedFormat,
                _ => true,
            },
        },
        fuel > 3 ==> match old(obj).value_of(app) {
            Val::Closure(n, caps) => args@.len() == n && simple_closure_call(caps, values_of(old(obj), args@)) ==> (
            res matches Ok(r) && final(obj).value_of(r) == closure_expr_value(
                caps,
                values_of(old(obj), args@),
                crate::value::list::list_items(caps[1]).last(),
            )->0),
            _ => true,
        },
    decreases fuel, 0nat,
{
    proof {
        obj.lemma_grown_refl();
    }
    if fuel == 0 {
        return Err(Exception::Other("evaluation too deep".to_owned()));
    }
    match app {
        Ref::Func(id) => {
            let f = Func::new(id);
            let ghost o0 = *obj;
            let ghost old_args = args;
            let args = if keeps_replies(id) {
                args
            } else {
                match force_all(obj, &args) {
                    Ok(a) => a,
                    Err(_) => {
                        return Err(Exception::OutOfMemory);
                    },
                }
            };
            let ghost o1 = *obj;
            proof {
                obj.lemma_grown_refl();
                if !spec_keeps_replies(id) {
                    lemma_forced_seq(values_of(&o0, old_args@));
                }
                assert(values_of(&o1, args@) =~= builtin_args(id, values_of(&o0, old_args@)));
            }
            match f.check_arguments(obj, &args) {
                Ok(()) => {},
                Err(e) => {
                    return Err(e);
                },
            }
            let r = match id {
                FuncId::Apply => {
                    let spread = match spread_arguments(obj, &args) {
                        Ok(v) => v,
                        Err(e) => {
                            return Err(e);
                        },
                    };
                    call_app(args[0], spread, obj, peers, fuel - 1)
                },
                FuncId::Force => Ok(args[0]),
                FuncId::Sleep => Ok(crate::value::tuple::Tuple::unit()),
                FuncId::Exit => Err(Exception::Exit),
                FuncId::Print => {
                    let r = crate::value::text::func_print(obj, &args);
                    proof {
                        assert(obj.heap_view().subrange(0, o1.heap_view().len() as int) =~= o1.heap_view());
                    }
                    Ok(r)
                },
                FuncId::Spawn => spawn(obj, peers),
                FuncId::Send => send(obj, peers, args[0], args[1], fuel - 1),
                _ => f.apply(obj, &args),
            };
            proof {
                obj.lemma_evolved_trans(&o1, &o0);
                if is_pure_builtin(id) {
                    obj.lemma_grown_trans(&o1, old(obj));
                }
                let vs = builtin_args(id, values_of(&o0, old_args@));
                if r is Ok && is_pure_builtin(id) && !spec_keeps_replies(id) {
                    assert(builtin_ok(id, vs, args@) == builtin_ok(id, vs, old_args@));
                }
            }
            r
        },
        Ref::Ptr(i, _) => {
            if obj.heap().kind(i) != crate::object::mm::CellKind::Closure {
                return Err(Exception::TypeMismatch(TypeMismatch::new(app, TypeInfo::App)));
            }
            let len_params = obj.heap().closure_code(i);
            let refs = obj.heap().cell_children(i);
            proof {
                obj.lemma_wf();
                crate::value::any::lemma_container_cell(obj.heap_view(), i as int);
            }
            let ghost caps = crate::value::any::denote_seq(obj.heap_view(), refs@, i as int);
            let ghost avs = values_of(old(obj), args@);
            let ghost law = fuel > 3 && (match old(obj).value_of(app) {
                Val::Closure(n, c) => args@.len() == n && simple_closure_call(c, avs),
                _ => false,
            });
            proof {
                assert(forall|m: int| 0 <= m < refs@.len() ==> #[trigger] caps[m] == old(obj).value_of(refs@[m]));
                if law {
                    assert(old(obj).value_of(app) == Val::Closure(len_params as nat, caps));
                }
            }
            if refs.len() < 2 {
                return Err(Exception::TypeMismatch(TypeMismatch::new(app, TypeInfo::App)));
            }
            if args.len() != len_params {
                return Err(Exception::MalformedFormat(MalformedFormat::new(None, "wrong number of arguments")));
            }
            let names = match param_names(obj, refs[0]) {
                Some(n) => n,
                None => {
                    return Err(Exception::TypeMismatch(TypeMismatch::new(refs[0], TypeInfo::Symbol)));
                },
            };
            if names.len() != args.len() {
                return Err(Exception::MalformedFormat(MalformedFormat::new(None, "wrong number of arguments")));
            }
            let mut env = Context::new();
            env.push_local_frame(&Vec::new());
            let mut k: usize = 2;
            while refs.len() - k > 1
                invariant
                    app is Ptr,
                    match old(obj).value_of(app) {
                        Val::Closure(n, _) => n == args@.len(),
                        _ => true,
                    },
                    2 <= k <= refs@.len(),
                    objects_wf(peers@),
                    obj.wf(),
                    obj.grown_from(old(obj)),
                    env.wf(),
                    env.depth() == 1,
                    env.valid_in(obj),
                    all_valid(obj, refs@),
                    *obj == *old(obj),
                    k % 2 == 0,
                    caps.len() == refs@.len(),
                    forall|m: int| 0 <= m < refs@.len() ==> #[trigger] caps[m] == old(obj).value_of(refs@[m]),
                    forall|q: Seq<char>| #[trigger] bound_val(old(obj), &env, q) == last_capture(caps, q, (k - 2) / 2),
                    law ==> simple_closure_call(caps, avs) && old(obj).value_of(app) == Val::Closure(
                        len_params as nat,
                        caps,
                    ) && args@.len() == len_params,
                    avs == values_of(old(obj), args@),
                    law == (fuel > 3 && (match old(obj).value_of(app) {
                        Val::Closure(n, c) => args@.len() == n && simple_closure_call(c, avs),
                        _ => false,
                    })),
                decreases refs@.len() - k,
            {
                proof {
                    if law {
                        let m = (k - 2) / 2;
                        assert(2 + 2 * m == k);
                        assert(caps[2 + 2 * m] is Sym);
                    }
                }
                let name = match symbol_name(obj, refs[k]) {
                    Some(n) => n,
                    None => {
                        return Err(Exception::TypeMismatch(TypeMismatch::new(refs[k], TypeInfo::Symbol)));
                    },
                };
                let ghost vs = env.spec_values();
                let ghost e0 = env;
                let ghost nm = name@;
                env.add_to_current_frame(name, refs[k + 1]);
                proof {
                    assert(caps[k as int] == Val::Sym(nm));
                    assert(2 * ((k + 2 - 2) / 2) == k);
                    assert forall|q: Seq<char>| #[trigger] bound_val(old(obj), &env, q) == last_capture(caps, q, (k + 2 - 2) / 2) by {
                        assert(bound_val(old(obj), &e0, q) == last_capture(caps, q, (k - 2) / 2));
                        assert((k + 2 - 2) / 2 - 1 == (k - 2) / 2);
                    }
                    assert forall|m: int| 0 <= m < env.spec_values().len() implies obj.valid(#[trigger] env.spec_values()[m]) by {
                        if m < vs.len() {
                            assert(env.spec_values()[m] == vs[m]);
                        }
                    }
                }
                k = k + 2;
            }
            let mut p: usize = 0;
            let mut names = names;
            while p < args.len()
                invariant
                    app is Ptr,
                    match old(obj).value_of(app) {
                        Val::Closure(n, _) => n == args@.len(),
                        _ => true,
                    },
                    objects_wf(peers@),
                    obj.wf(),
                    obj.grown_from(old(obj)),
                    env.wf(),
                    env.depth() == 1,
                    env.valid_in(obj),
                    all_valid(obj, args@),
                    names@.len() == args@.len(),
                    *obj == *old(obj),
                    p <= args@.len(),
                    avs == values_of(old(obj), args@),
                    law ==> forall|q: Seq<char>| #[trigger] bound_val(old(obj), &env, q) == match last_param(
                        crate::value::list::list_items(caps[0]),
                        avs,
                        q,
                        p as int,
                    ) {
                        Some(v) => Some(v),
                        None => last_capture(caps, q, (caps.len() - 2) / 2),
                    },
                    law ==> forall|m: int| 0 <= m < names@.len() ==> #[trigger] crate::value::list::list_items(caps[0])[m]
                        == Val::Sym(names@[m]@),
                    law ==> simple_closure_call(caps, avs) && old(obj).value_of(app) == Val::Closure(
                        len_params as nat,
                        caps,
                    ) && args@.len() == len_params,
                    caps.len() == refs@.len(),
                    forall|m: int| 0 <= m < refs@.len() ==> #[trigger] caps[m] == old(obj).value_of(refs@[m]),
                    law == (fuel > 3 && (match old(obj).value_of(app) {
                        Val::Closure(n, c) => args@.len() == n && simple_closure_call(c, avs),
                        _ => false,
                    })),
                decreases args@.len() - p,
            {
                let ghost vs = env.spec_values();
                let ghost e0 = env;
                env.add_to_current_frame(copy_chars(&names[p]), args[p]);
                proof {
                    if law {
                        assert(avs[p as int] == old(obj).value_of(args@[p as int]));
                        assert forall|q: Seq<char>| #[trigger] bound_val(old(obj), &env, q) == match last_param(
                            crate::value::list::list_items(caps[0]),
                            avs,
                            q,
                            p + 1,
                        ) {
                            Some(v) => Some(v),
                            None => last_capture(caps, q, (caps.len() - 2) / 2),
                        } by {
                            assert(bound_val(old(obj), &e0, q) == match last_param(
                                crate::value::list::list_items(caps[0]),
                                avs,
                                q,
                                p as int,
                            ) {
                                Some(v) => Some(v),
                                None => last_capture(caps, q, (caps.len() - 2) / 2),
                            });
                        }
                    }
                    assert forall|m: int| 0 <= m < env.spec_values().len() implies obj.valid(#[trigger] env.spec_values()[m]) by {
                        if m < vs.len() {
                            assert(env.spec_values()[m] == vs[m]);
                        }
                    }
                }
                p = p + 1;
            }
            let all = env.names();
            proof {
                if law {
                    let body = crate::value::list::list_items(caps[1]);
                    assert forall|q: Seq<char>| #[trigger] bound_val(old(obj), &env, q) == closure_binding(caps, avs, q) by {}
                    assert forall|kk: int| 0 <= kk < body.len() implies crate::compile::simple_in(all@, #[trigger] body[kk]) by {
                        if body[kk] is Sym {
                            let q = body[kk]->Sym_0;
                            assert(closure_expr_value(caps, avs, body[kk]) is Some);
                            assert(bound_val(old(obj), &env, q) == closure_binding(caps, avs, q));
                            assert(env.spec_lookup(q) is Some);
                            env.lemma_lookup_bound(q);
                            crate::object::context::lemma_last_bound_named(
                                env.spec_names(),
                                env.spec_values(),
                                q,
                                env.spec_values().len() as int,
                            );
                            let j = choose|j: int| 0 <= j < env.spec_values().len() && env.spec_names()[j] == q;
                            assert(all@[j]@ == q);
                        }
                    }
                }
            }
            let body = match compile_body(refs[1], &all, obj) {
                Ok(b) => b,
                Err(e) => {
                    return Err(syntax_exception(e));
                },
            };
            let mut env = env;
            let ghost e_call = env;
            let ghost o_call = *obj;
            let r = eval_iform(&body, &mut env, obj, peers, fuel - 1);
            proof {
                if law {
                    let items = crate::value::list::list_items(caps[1]);
                    let x = body->Sequence_0;
                    let lk = |q: Seq<char>| e_call.spec_lookup(q);
                    assert(caps[1] == old(obj).value_of(refs@[1]));
                    crate::value::list::lemma_list_items_len(caps[1]);
                    assert(x.body@.len() == items.len());
                    assert(simple_closure_call(caps, avs));
                    assert forall|kk: int| 0 <= kk < x.body@.len() implies (#[trigger] simple_ref(x.body@[kk], lk)) is Some by {
                        assert(crate::compile::simple_form(&o_call, items[kk], x.body@[kk]));
                        if items[kk] is Sym {
                            let q = items[kk]->Sym_0;
                            assert(closure_expr_value(caps, avs, items[kk]) is Some);
                            assert(bound_val(old(obj), &e_call, q) == closure_binding(caps, avs, q));
                        }
                    }
                    lemma_plain_seq_simple(x.body@, lk, o_call, (fuel - 2) as nat, Ref::Unit);
                    assert(plain_value(body, lk, o_call, (fuel - 1) as nat) == plain_seq(
                        x.body@,
                        lk,
                        o_call,
                        (fuel - 2) as nat,
                        Ref::Unit,
                    ));
                    let last = items.last();
                    assert(x.body@.last() == x.body@[x.body@.len() - 1]);
                    assert(crate::compile::simple_form(&o_call, items[items.len() - 1], x.body@[x.body@.len() - 1]));
                    if last is Sym {
                        let q = last->Sym_0;
                        assert(bound_val(old(obj), &e_call, q) == closure_binding(caps, avs, q));
                    }
                    let lk2 = |k: Seq<char>| e_call.spec_lookup(k);
                    assert(lk2 =~~= lk);
                    assert(plain_value(body, lk2, o_call, (fuel - 1) as nat) == simple_ref(x.body@.last(), lk));
                    assert(r == Ok::<Ref, Exception>(simple_ref(x.body@.last(), lk)->0));
                    assert(*obj == o_call);
                }
            }
            r
        },
        _ => Err(Exception::TypeMismatch(TypeMismatch::new(app, TypeInfo::App))),
    }
}

/// The list value `v` is a body of one or more constants.
pub open spec fn constant_body(v: Val) -> bool {
    &&& crate::value::list::list_items(v).len() > 0
    &&& forall|k: int|
        0 <= k < crate::value::list::list_items(v).len() ==> crate::compile::constant_expr(
            #[trigger] crate::value::list::list_items(v)[k],
        )
}

/// Evaluates a `match`: the target, then the body of the clause it
/// matches, with the variables the pattern binds; false when no clause
/// matches.
fn eval_match(m: &crate::value::iform::IFormMatch, env: &mut Context, obj: &mut Object, peers: &mut Vec<Object>, fuel: u64) -> (res: Result<Ref, Exception>)
    requires
        old(obj).wf(),
        objects_wf(old(peers)@),
        old(env).wf(),
        old(env).valid_in(old(obj)),
        iform_below(IForm::Match(*m), old(obj).heap_view().len() as int),
    ensures
        objects_wf(final(peers)@),
        eval_post(old(obj), final(obj), old(env), final(env), res),
        match *m.target {
            IForm::Const(c) => fuel > 0 && (forall|k: int|
                0 <= k < m.clauses@.len() ==> !crate::value::syntax::matcher::pattern_matches(
                    old(obj),
                    #[trigger] m.clauses@[k].pattern,
                    old(obj).value_of(c.value),
                )) ==> res == Ok::<Ref, Exception>(Ref::False),
            _ => true,
        },
        match *m.target {
            IForm::Const(c) => fuel > 1 && m.clauses@.len() > 0 && crate::value::syntax::matcher::pattern_matches(
                old(obj),
                m.clauses@[0].pattern,
                old(obj).value_of(c.value),
            ) && crate::value::syntax::matcher::pattern_size(m.clauses@[0].pattern) < EVAL_FUEL && constant_body(
                old(obj).value_of(m.clauses@[0].body),
            ) ==> (res matches Ok(r) && final(obj).value_of(r) == crate::value::list::list_items(
                old(obj).value_of(m.clauses@[0].body),
            ).last()),
            _ => true,
        },
    decreases fuel, 3nat,
{
    let ghost law0 = *m.target is Const && fuel > 1 && m.clauses@.len() > 0
        && crate::value::syntax::matcher::pattern_matches(
        old(obj),
        m.clauses@[0].pattern,
        old(obj).value_of((*m.target)->Const_0.value),
    ) && crate::value::syntax::matcher::pattern_size(m.clauses@[0].pattern) < EVAL_FUEL && constant_body(
        old(obj).value_of(m.clauses@[0].body),
    );
    proof {
        obj.lemma_grown_refl();
    }
    let target = match eval_iform(&m.target, env, obj, peers, fuel) {
        Ok(t) => t,
        Err(e) => {
            return Err(e);
        },
    };
    let ghost o1 = *obj;
    let ghost e1 = *env;
    let found = crate::value::syntax::matcher::find_match(obj, target, &m.clauses, EVAL_FUEL);
    match found {
        None => Ok(Ref::False),
        Some((index, binds)) => {
            proof {
                if *m.target is Const && fuel > 0 {
                    let c = (*m.target)->Const_0;
                    assert(crate::value::syntax::matcher::pattern_matches(
                        old(obj),
                        m.clauses@[index as int].pattern,
                        old(obj).value_of(c.value),
                    ));
                }
            }
            let clause = &m.clauses[index];
            proof {
                assert(pattern_below(m.clauses@[index as int].pattern, old(obj).heap_view().len() as int));
                assert(ref_below(clause.body, old(obj).heap_view().len() as int));
            }
            env.push_local_frame(&Vec::new());
            let mut i: usize = 0;
            while i < binds.len()
                invariant
                    objects_wf(peers@),
                    obj.wf(),
                    *obj == o1,
                    env.wf(),
                    env.depth() == old(env).depth() + 1,
                    env.valid_in(obj),
                    env.opened_from(&e1),
                    crate::value::syntax::matcher::binds_valid(obj, binds@),
                decreases binds@.len() - i,
            {
                let ghost vs = env.spec_values();
                let ghost eb = *env;
                env.add_to_current_frame(copy_chars(&binds[i].0), binds[i].1);
                proof {
                    env.lemma_opened_extends(&eb, &e1);
                    assert forall|k: int| 0 <= k < env.spec_values().len() implies obj.valid(#[trigger] env.spec_values()[k]) by {
                        if k < vs.len() {
                            assert(env.spec_values()[k] == vs[k]);
                        }
                    }
                }
                i = i + 1;
            }
            let names = env.names();
            proof {
                o1.lemma_grown_refl();
            }
            let ghost eo = *env;
            proof {
                if law0 {
                    assert(index == 0);
                    let items = crate::value::list::list_items(obj.value_of(clause.body));
                    assert forall|kk: int| 0 <= kk < items.len() implies crate::compile::simple_in(names@, #[trigger] items[kk]) by {
                        assert(crate::compile::constant_expr(items[kk]));
                    }
                }
            }
            let r = match compile_body(clause.body, &names, obj) {
                Ok(body) => {
                    let ghost eb2 = *env;
                    let ghost ob2 = *obj;
                    let rr = eval_iform(&body, env, obj, peers, fuel);
                    proof {
                        if law0 {
                            let items = crate::value::list::list_items(ob2.value_of(clause.body));
                            let x = body->Sequence_0;
                            let lk = |q: Seq<char>| eb2.spec_lookup(q);
                            crate::value::list::lemma_list_items_len(ob2.value_of(clause.body));
                            assert forall|kk: int| 0 <= kk < x.body@.len() implies (#[trigger] simple_ref(x.body@[kk], lk)) is Some by {
                                assert(crate::compile::simple_form(&ob2, items[kk], x.body@[kk]));
                                assert(crate::compile::constant_expr(items[kk]));
                            }
                            lemma_plain_seq_simple(x.body@, lk, ob2, (fuel - 1) as nat, Ref::Unit);
                            assert(x.body@.last() == x.body@[x.body@.len() - 1]);
                            assert(crate::compile::simple_form(&ob2, items[items.len() - 1], x.body@[x.body@.len() - 1]));
                            assert(crate::compile::constant_expr(items[items.len() - 1]));
                        }
                    }
                    rr
                },
                Err(e) => Err(syntax_exception(e)),
            };
            let ghost e2 = *env;
            proof {
                if e2 == eo {
                    eo.lemma_extends_refl();
                }
                e2.lemma_opened_extends(&eo, &e1);
            }
            env.pop_local_frame();
            proof {
                env.lemma_same_as(&e1);
                env.lemma_extends_trans(&e1, old(env));
                assert forall|k: int| 0 <= k < env.spec_values().len() implies obj.valid(#[trigger] env.spec_values()[k]) by {
                    assert(env.spec_values()[k] == e2.spec_values()[k]);
                }
                obj.lemma_evolved_trans(&o1, old(obj));
            }
            r
        },
    }
}


/// Why an evaluation stopped without a value: the text could not be read,
/// the evaluation raised an exception, `exit` was called, or the expression
/// asks to switch to the object a reference names (or back to the previous
/// object, for none).
pub enum EvalError {
    Read(ReadException),
    Exception(Exception),
    Exit,
    ObjectSwitch(Option<Ref>),
}

/// The error that reports the exception `e` at the top level.
fn top_error(e: Exception) -> (res: EvalError)
    ensures
        e is Exit ==> res is Exit,
        !(e is Exit) ==> res == EvalError::Exception(e),
{
    match e {
        Exception::Exit => EvalError::Exit,
        other => EvalError::Exception(other),
    }
}

/// An expression of the value `v` is a constant: neither a list, a symbol,
/// a tuple nor an array.
pub open spec fn self_evaluating(v: Val) -> bool {
    !(v is Pair) && !(v is Sym) && !is_tuple_val(v) && !(v is Array)
}

/// The list value `v` is `(quote x)` (with `quote` as `obj` knows it).
pub open spec fn quoted(obj: &Object, v: Val) -> bool {
    v is Pair && head_syntax(obj, val_head(v)) == Some(SyntaxId::Quote) && val_tail(v) is Pair
}

/// Compiles and evaluates the expression `sexp` at the top level of `obj`;
/// `peers` are the other objects, which messages can reach.
pub fn eval(sexp: Ref, obj: &mut Object, peers: &mut Vec<Object>) -> (res: Result<Ref, EvalError>)
    requires
        old(obj).wf(),
        objects_wf(old(peers)@),
        old(obj).valid(sexp),
    ensures
        final(obj).wf(),
        final(obj).evolved_from(old(obj)),
        objects_wf(final(peers)@),
        res matches Ok(r) ==> final(obj).valid(r),
        res matches Err(EvalError::ObjectSwitch(Some(r))) ==> final(obj).valid(r),
        !(res matches Err(EvalError::Read(_))),
        self_evaluating(old(obj).value_of(sexp)) ==> res == Ok::<Ref, EvalError>(sexp),
        match old(obj).value_of(sexp) {
            Val::Sym(n) => match old(obj).global(n) {
                Some(r) => res == Ok::<Ref, EvalError>(r),
                None => res is Err,
            },
            _ => true,
        },
        quoted(old(obj), old(obj).value_of(sexp)) ==> match res {
            Ok(r) => final(obj).value_of(r) == val_head(val_tail(old(obj).value_of(sexp))),
            Err(_) => false,
        },
{
    proof {
        obj.lemma_grown_refl();
    }
    let f = match compile_transform(sexp, obj) {
        Ok(f) => f,
        Err(e) => {
            return Err(EvalError::Exception(syntax_exception(e)));
        },
    };
    let mut env = Context::new();
    if let IForm::ObjectSwitch(x) = &f {
        return match &x.target_obj {
            Some(t) => match eval_iform(t, &mut env, obj, peers, EVAL_FUEL) {
                Ok(v) => Err(EvalError::ObjectSwitch(Some(v))),
                Err(e) => Err(top_error(e)),
            },
            None => Err(EvalError::ObjectSwitch(None)),
        };
    }
    let ghost o1 = *obj;
    let r = eval_iform(&f, &mut env, obj, peers, EVAL_FUEL);
    proof {
        if let IForm::Const(c) = &f {
            lemma_denote_extends(o1.heap_view(), obj.heap_view(), c.value);
        }
    }
    match r {
        Ok(v) => Ok(v),
        Err(e) => Err(top_error(e)),
    }
}

/// Reads the first expression of `program` and evaluates it in `obj`.
pub fn exec(program: &str, obj: &mut Object, peers: &mut Vec<Object>) -> (res: Result<Ref, EvalError>)
    requires
        old(obj).wf(),
        objects_wf(old(peers)@),
    ensures
        final(obj).wf(),
        final(obj).evolved_from(old(obj)),
        objects_wf(final(peers)@),
        res matches Ok(r) ==> final(obj).valid(r),
        res matches Err(EvalError::ObjectSwitch(Some(r))) ==> final(obj).valid(r),
        (forall|i: int| 0 <= i < program@.len() ==> crate::read::spec_is_whitespace(#[trigger] program@[i]))
            ==> res matches Err(EvalError::Read(ReadException::EOF)),
        match parse_datum(program@, 0) {
            Parsed::Datum(v, _) => {
                &&& self_evaluating(v) ==> match res {
                    Ok(r) => final(obj).value_of(r) == v,
                    Err(e) => e == EvalError::Read(ReadException::OutOfMemory),
                }
                &&& match v {
                    Val::Sym(n) => match old(obj).global(n) {
                        Some(g) => res == Ok::<Ref, EvalError>(g) || res == Err::<Ref, EvalError>(
                            EvalError::Read(ReadException::OutOfMemory),
                        ),
                        None => res is Err,
                    },
                    _ => true,
                }
            },
            Parsed::End => res == Err::<Ref, EvalError>(EvalError::Read(ReadException::EOF)) || res == Err::<
                Ref,
                EvalError,
            >(EvalError::Read(ReadException::OutOfMemory)),
            Parsed::Malformed => res matches Err(EvalError::Read(x)) && (x is MalformedFormat || x is OutOfMemory),
        },
{
    let mut reader = Reader::from_str(program);
    let ghost o0 = *obj;
    let sexp = match read(&mut reader, obj) {
        Ok(v) => v,
        Err(e) => {
            return Err(EvalError::Read(e));
        },
    };
    let ghost o1 = *obj;
    let r = eval(sexp, obj, peers);
    proof {
        obj.lemma_evolved_trans(&o1, &o0);
        if let Ok(x) = r {
            if self_evaluating(o1.value_of(sexp)) {
                lemma_denote_extends(o1.heap_view(), obj.heap_view(), sexp);
            }
        }
    }
    r
}

/// The evaluator builtin named `k`, if there is one.
pub open spec fn eval_builtin(k: Seq<char>) -> Option<crate::value::func::FuncId> {
    if k == "sleep"@ {
        Some(crate::value::func::FuncId::Sleep)
    } else if k == "apply"@ {
        Some(crate::value::func::FuncId::Apply)
    } else {
        None
    }
}

/// Defines `apply` and `sleep`.
pub fn register_global(obj: &mut Object)
    requires
        old(obj).wf(),
    ensures
        final(obj).redefined_from(old(obj)),
        forall|k: Seq<char>|
            #[trigger] final(obj).global(k) == match eval_builtin(k) {
                Some(id) => Some(Ref::Func(id)),
                None => old(obj).global(k),
            },
{
    obj.define_global_str("apply", Ref::Func(crate::value::func::FuncId::Apply));
    obj.define_global_str("sleep", Ref::Func(crate::value::func::FuncId::Sleep));
}

} // verus!
