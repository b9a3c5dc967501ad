use vstd::prelude::*;

use crate::compile::SyntaxException;
use crate::err::{MalformedFormat, TypeMismatch};
use crate::object::Object;
use crate::value::{Ref, TypeInfo, ref_below};
use crate::value::any::{Any, ref_rank};
use crate::object::mm::copy_chars;
use crate::value::array::Array;
use crate::value::iform::{MatchClause, Pattern, pattern_below, patterns_below, lemma_patterns_below};
use crate::value::any::Val;
use crate::value::array::array_items;
use crate::value::list::{List, all_valid, chain_len, elements, is_list_val, list_items, values_of};
use crate::value::tuple::{is_tuple_val, tuple_items};
use crate::value::syntax::SyntaxId;
use crate::value::tuple::Tuple;

verus! {

/// The value a failed match gives.
pub struct MatchFail {}

impl MatchFail {
    /// The failure value.
    pub fn fail() -> (r: Ref)
        ensures
            r == Ref::MatchFail,
    {
        Ref::MatchFail
    }

    /// `v` is the failure value.
    pub fn is_fail(v: Ref) -> (res: bool)
        ensures
            res == (v == Ref::MatchFail),
    {
        match v {
            Ref::MatchFail => true,
            _ => false,
        }
    }
}

/// The name a pattern `@_` binds nothing to.
pub fn else_symbol() -> (name: Vec<char>)
    ensures
        name@ == seq!['e', 'l', 's', 'e'],
{
    let mut v = Vec::new();
    v.push('e');
    v.push('l');
    v.push('s');
    v.push('e');
    proof {
        assert(v@ =~= seq!['e', 'l', 's', 'e']);
    }
    v
}

/// The list value `v` is written `(bind x)` or `(unquote x)`.
pub open spec fn bind_form(v: Val) -> bool {
    chain_len(v) == 2 && (list_items(v)[0] == Val::Syntax(SyntaxId::Bind) || list_items(v)[0] == Val::Syntax(
        SyntaxId::Unquote,
    ))
}

/// The value `v`, written as a pattern, compiles: each `(bind x)` in it binds
/// a symbol, and no `(unquote x)` stands in it.
pub open spec fn pattern_ok(v: Val) -> bool
    decreases v,
{
    match v {
        Val::Pair(h, t) => if bind_form(v) {
            list_items(v)[0] == Val::Syntax(SyntaxId::Bind) && list_items(v)[1] is Sym
        } else {
            pattern_ok(*h) && rest_ok(*t)
        },
        Val::Array(items) => forall|k: int| 0 <= k < items.len() ==> pattern_ok(#[trigger] items[k]),
        Val::Tuple(items) => forall|k: int| 0 <= k < items.len() ==> pattern_ok(#[trigger] items[k]),
        _ => true,
    }
}

/// Every element of the list cells `v` compiles as a pattern.
pub open spec fn rest_ok(v: Val) -> bool
    decreases v,
{
    match v {
        Val::Pair(h, t) => pattern_ok(*h) && rest_ok(*t),
        _ => true,
    }
}

/// `rest_ok` holds when every item compiles.
pub proof fn lemma_rest_ok(v: Val)
    ensures
        rest_ok(v) <==> forall|k: int| 0 <= k < list_items(v).len() ==> pattern_ok(#[trigger] list_items(v)[k]),
    decreases v,
{
    match v {
        Val::Pair(h, t) => {
            lemma_rest_ok(*t);
            assert forall|k: int| 1 <= k < list_items(v).len() implies #[trigger] list_items(v)[k] == list_items(
                *t,
            )[k - 1] by {}
            if forall|k: int| 0 <= k < list_items(v).len() ==> pattern_ok(#[trigger] list_items(v)[k]) {
                assert(pattern_ok(list_items(v)[0]));
                assert forall|k: int| 0 <= k < list_items(*t).len() implies pattern_ok(#[trigger] list_items(*t)[k]) by {
                    assert(list_items(v)[k + 1] == list_items(*t)[k]);
                }
            }
        },
        _ => {},
    }
}

/// The pattern `p` is the one the value `v` writes: a literal one holds a
/// value equal to `v`, which is neither a list, an array nor a tuple;
/// `(bind x)` binds `x`; a list, array or tuple is matched element by
/// element by the patterns its elements write.
pub open spec fn pattern_written(obj: &Object, p: Pattern, v: Val) -> bool
    decreases p,
{
    match p {
        Pattern::Literal(r) => obj.value_of(r) == v && !is_list_val(v) && !(v is Array) && !is_tuple_val(v),
        Pattern::Bind(n) => is_list_val(v) && bind_form(v) && list_items(v)[0] == Val::Syntax(SyntaxId::Bind)
            && list_items(v)[1] == Val::Sym(n@),
        Pattern::List(ps) => is_list_val(v) && !bind_form(v) && elems_written(obj, ps@, list_items(v)),
        Pattern::Array(ps) => v is Array && elems_written(obj, ps@, array_items(v)),
        Pattern::Tuple(ps) => !(v is Array) && is_tuple_val(v) && elems_written(obj, ps@, tuple_items(v)),
    }
}

/// Each pattern of `ps` is the one the value of `vs` at its place writes.
pub open spec fn elems_written(obj: &Object, ps: Seq<Pattern>, vs: Seq<Val>) -> bool
    decreases ps,
{
    if ps.len() == 0 {
        vs.len() == 0
    } else {
        proof {
            vstd::seq::axiom_seq_subrange_decreases(ps, 1, ps.len() as int);
        }
        vs.len() == ps.len() && pattern_written(obj, ps[0], vs[0]) && elems_written(
            obj,
            ps.drop_first(),
            vs.drop_first(),
        )
    }
}

/// `elems_written` holds exactly when each pattern is written by the value at
/// its place.
pub proof fn lemma_elems_written(obj: &Object, ps: Seq<Pattern>, vs: Seq<Val>)
    ensures
        elems_written(obj, ps, vs) <==> (ps.len() == vs.len() && forall|i: int|
            0 <= i < ps.len() ==> pattern_written(obj, #[trigger] ps[i], vs[i])),
    decreases ps.len(),
{
    if ps.len() > 0 {
        lemma_elems_written(obj, ps.drop_first(), vs.drop_first());
        if ps.len() == vs.len() {
            assert forall|i: int| 1 <= i < ps.len() implies (#[trigger] ps[i]) == ps.drop_first()[i - 1] && vs[i]
                == vs.drop_first()[i - 1] by {}
            if forall|i: int| 0 <= i < ps.len() ==> pattern_written(obj, #[trigger] ps[i], vs[i]) {
                assert forall|i: int| 0 <= i < ps.drop_first().len() implies pattern_written(
                    obj,
                    #[trigger] ps.drop_first()[i],
                    vs.drop_first()[i],
                ) by {
                    assert(ps.drop_first()[i] == ps[i + 1]);
                }
            }
        }
    }
}

/// Only the syntax reference denotes a syntax.
proof fn lemma_syntax_value(obj: &Object, r: Ref, s: SyntaxId)
    requires
        obj.wf(),
    ensures
        (obj.value_of(r) == Val::Syntax(s)) == (r == Ref::Syntax(s)),
{
    obj.lemma_wf();
}

/// Compiles the pattern written `r`: `(bind x)` binds `x`, a list, an array
/// or a tuple matches element by element, and anything else must be equal.
pub fn compile_pattern(obj: &Object, r: Ref) -> (res: Result<Pattern, SyntaxException>)
    requires
        obj.wf(),
        obj.valid(r),
    ensures
        res matches Ok(p) ==> pattern_below(p, obj.heap_view().len() as int),
        res is Ok <==> pattern_ok(obj.value_of(r)),
        res matches Ok(p) ==> pattern_written(obj, p, obj.value_of(r)),
    decreases ref_rank(r), 1nat,
{
    if List::is_pair(obj, r) || List::is_nil(r) {
        let elems = elements(obj, r);
        proof {
            let items = list_items(obj.value_of(r));
            assert forall|k: int| 0 <= k < elems@.len() implies #[trigger] items[k] == obj.value_of(elems@[k]) by {
                assert(values_of(obj, elems@)[k] == obj.value_of(elems@[k]));
            }
            if elems@.len() == 2 {
                lemma_syntax_value(obj, elems@[0], SyntaxId::Bind);
                lemma_syntax_value(obj, elems@[0], SyntaxId::Unquote);
            }
            lemma_rest_ok(obj.value_of(r));
        }
        if elems.len() == 2 && (elems[0] == Ref::Syntax(SyntaxId::Bind) || elems[0] == Ref::Syntax(SyntaxId::Unquote)) {
            if elems[0] == Ref::Syntax(SyntaxId::Unquote) {
                assert(!pattern_ok(obj.value_of(r)));
                return Err(SyntaxException::MalformedFormat(MalformedFormat::new(Some(r), "unquote in a pattern")));
            }
            return match crate::compile::symbol_name(obj, elems[1]) {
                Some(n) => Ok(Pattern::Bind(n)),
                None => {
                    assert(!pattern_ok(obj.value_of(r)));
                    Err(SyntaxException::TypeMismatch(TypeMismatch::new(elems[1], TypeInfo::Symbol)))
                },
            };
        }
        proof {
            let v = obj.value_of(r);
            if v is Pair && !bind_form(v) {
                assert(pattern_ok(v) == rest_ok(v));
            }
        }
        match compile_patterns(obj, &elems, r) {
            Ok(ps) => Ok(Pattern::List(ps)),
            Err(e) => {
                proof {
                    let k = choose|k: int| 0 <= k < elems@.len() && !pattern_ok(#[trigger] obj.value_of(elems@[k]));
                    assert(list_items(obj.value_of(r))[k] == obj.value_of(elems@[k]));
                }
                assert(!pattern_ok(obj.value_of(r)));
                Err(e)
            },
        }
    } else if Array::is(obj, r) {
        let elems = container_elements(obj, r);
        proof {
            let items = array_items(obj.value_of(r));
            assert forall|k: int| 0 <= k < elems@.len() implies #[trigger] items[k] == obj.value_of(elems@[k]) by {
                assert(values_of(obj, elems@)[k] == obj.value_of(elems@[k]));
            }
        }
        match compile_patterns(obj, &elems, r) {
            Ok(ps) => Ok(Pattern::Array(ps)),
            Err(e) => {
                proof {
                    let k = choose|k: int| 0 <= k < elems@.len() && !pattern_ok(#[trigger] obj.value_of(elems@[k]));
                    assert(array_items(obj.value_of(r))[k] == obj.value_of(elems@[k]));
                }
                assert(!pattern_ok(obj.value_of(r)));
                Err(e)
            },
        }
    } else if Tuple::is(obj, r) {
        let elems = container_elements(obj, r);
        proof {
            let items = tuple_items(obj.value_of(r));
            assert forall|k: int| 0 <= k < elems@.len() implies #[trigger] items[k] == obj.value_of(elems@[k]) by {
                assert(values_of(obj, elems@)[k] == obj.value_of(elems@[k]));
            }
        }
        match compile_patterns(obj, &elems, r) {
            Ok(ps) => Ok(Pattern::Tuple(ps)),
            Err(e) => {
                proof {
                    let k = choose|k: int| 0 <= k < elems@.len() && !pattern_ok(#[trigger] obj.value_of(elems@[k]));
                    assert(tuple_items(obj.value_of(r))[k] == obj.value_of(elems@[k]));
                }
                assert(!pattern_ok(obj.value_of(r)));
                Err(e)
            },
        }
    } else {
        Ok(Pattern::Literal(r))
    }
}

/// The references an array or tuple holds, each older than it.
fn container_elements(obj: &Object, v: Ref) -> (res: Vec<Ref>)
    requires
        obj.wf(),
        obj.valid(v),
    ensures
        all_valid(obj, res@),
        forall|k: int| 0 <= k < res@.len() ==> ref_rank(#[trigger] res@[k]) < ref_rank(v),
        obj.value_of(v) is Array ==> values_of(obj, res@) == array_items(obj.value_of(v)),
        is_tuple_val(obj.value_of(v)) ==> values_of(obj, res@) == tuple_items(obj.value_of(v)),
{
    crate::compile::container_items(obj, v)
}

/// Compiles the patterns `elems`, each older than `bound`.
fn compile_patterns(obj: &Object, elems: &Vec<Ref>, bound: Ref) -> (res: Result<Vec<Pattern>, SyntaxException>)
    requires
        obj.wf(),
        all_valid(obj, elems@),
        forall|k: int| 0 <= k < elems@.len() ==> ref_rank(#[trigger] elems@[k]) < ref_rank(bound),
    ensures
        res matches Ok(ps) ==> patterns_below(ps@, obj.heap_view().len() as int),
        res is Ok <==> forall|k: int| 0 <= k < elems@.len() ==> pattern_ok(#[trigger] obj.value_of(elems@[k])),
        res matches Ok(ps) ==> elems_written(obj, ps@, values_of(obj, elems@)),
    decreases ref_rank(bound), 0nat,
{
    let mut out: Vec<Pattern> = Vec::new();
    let mut i: usize = 0;
    while i < elems.len()
        invariant
            obj.wf(),
            i <= elems@.len(),
            all_valid(obj, elems@),
            forall|k: int| 0 <= k < elems@.len() ==> ref_rank(#[trigger] elems@[k]) < ref_rank(bound),
            patterns_below(out@, obj.heap_view().len() as int),
            out@.len() == i,
            forall|k: int| 0 <= k < i ==> pattern_ok(#[trigger] obj.value_of(elems@[k])),
            forall|k: int| 0 <= k < i ==> pattern_written(obj, #[trigger] out@[k], obj.value_of(elems@[k])),
        decreases elems@.len() - i,
    {
        let p = match compile_pattern(obj, elems[i]) {
            Ok(p) => p,
            Err(e) => {
                return Err(e);
            },
        };
        let ghost o = out@;
        out.push(p);
        proof {
            assert(out@.drop_last() =~= o);
            assert forall|k: int| 0 <= k < i + 1 implies pattern_written(obj, #[trigger] out@[k], obj.value_of(elems@[k])) by {
                if k < i {
                    assert(out@[k] == o[k]);
                }
            }
        }
        i = i + 1;
    }
    proof {
        lemma_elems_written(obj, out@, values_of(obj, elems@));
    }
    Ok(out)
}

/// The target of `(match target clause ...)`, given its arguments.
pub open spec fn match_target(args: Val) -> Val {
    match args {
        Val::Pair(h, _) => *h,
        _ => Val::Nil,
    }
}

/// The clauses of `(match target clause ...)`, given its arguments.
pub open spec fn match_clauses(args: Val) -> Seq<Val> {
    match args {
        Val::Pair(_, t) => list_items(*t),
        _ => Seq::empty(),
    }
}

/// The clause `c` is a list of a pattern that compiles and at least one
/// expression.
pub open spec fn clause_ok(c: Val) -> bool {
    c is Pair && chain_len(c) >= 2 && pattern_ok(list_items(c)[0])
}

/// The clause `m` is the one the value `c` writes: its pattern is written by
/// the head of `c`, and its body is the rest of `c`.
pub open spec fn clause_written(obj: &Object, m: MatchClause, c: Val) -> bool {
    match c {
        Val::Pair(h, t) => pattern_written(obj, m.pattern, *h) && obj.value_of(m.body) == *t,
        _ => false,
    }
}

/// Splits the clauses of `(match target clause ...)`: every clause is a list
/// of a pattern and at least one expression.
pub fn translate(obj: &Object, args: Ref) -> (res: Result<(Ref, Vec<MatchClause>), SyntaxException>)
    requires
        obj.wf(),
        obj.valid(args),
        obj.value_of(args) is Pair,
    ensures
        res matches Ok(t) ==> obj.valid(t.0) && crate::value::iform::clauses_below(
            t.1@,
            obj.heap_view().len() as int,
        ),
        res is Ok <==> forall|k: int|
            0 <= k < match_clauses(obj.value_of(args)).len() ==> clause_ok(
                #[trigger] match_clauses(obj.value_of(args))[k],
            ),
        res matches Ok(t) ==> obj.value_of(t.0) == match_target(obj.value_of(args)) && t.1@.len() == match_clauses(
            obj.value_of(args),
        ).len() && forall|k: int|
            0 <= k < t.1@.len() ==> clause_written(obj, #[trigger] t.1@[k], match_clauses(obj.value_of(args))[k]),
{
    let (target, rest) = List::parts(obj, args);
    let clauses = elements(obj, rest);
    let ghost cs = match_clauses(obj.value_of(args));
    proof {
        assert(values_of(obj, clauses@).len() == clauses@.len());
        assert forall|k: int| 0 <= k < clauses@.len() implies #[trigger] cs[k] == obj.value_of(clauses@[k]) by {
            assert(values_of(obj, clauses@)[k] == obj.value_of(clauses@[k]));
        }
    }
    let mut out: Vec<MatchClause> = Vec::new();
    let mut i: usize = 0;
    while i < clauses.len()
        invariant
            obj.wf(),
            i <= clauses@.len(),
            all_valid(obj, clauses@),
            crate::value::iform::clauses_below(out@, obj.heap_view().len() as int),
            cs == match_clauses(obj.value_of(args)),
            cs.len() == clauses@.len(),
            forall|k: int| 0 <= k < clauses@.len() ==> #[trigger] cs[k] == obj.value_of(clauses@[k]),
            out@.len() == i,
            forall|k: int| 0 <= k < i ==> clause_ok(#[trigger] cs[k]),
            forall|k: int| 0 <= k < i ==> clause_written(obj, #[trigger] out@[k], cs[k]),
        decreases clauses@.len() - i,
    {
        let c = clauses[i];
        if !List::is_pair(obj, c) {
            proof {
                assert(!clause_ok(match_clauses(obj.value_of(args))[i as int]));
            }
            return Err(SyntaxException::TypeMismatch(TypeMismatch::new(c, TypeInfo::List)));
        }
        let parts = elements(obj, c);
        if parts.len() < 2 {
            proof {
                assert(!clause_ok(match_clauses(obj.value_of(args))[i as int]));
            }
            return Err(
                SyntaxException::MalformedFormat(
                    MalformedFormat::new(Some(c), "match clause require more than 2 length list."),
                ),
            );
        }
        proof {
            assert(values_of(obj, parts@)[0] == obj.value_of(parts@[0]));
        }
        let pattern = match compile_pattern(obj, parts[0]) {
            Ok(p) => p,
            Err(e) => {
                proof {
                    assert(!clause_ok(match_clauses(obj.value_of(args))[i as int]));
                }
                return Err(e);
            },
        };
        let (_, body) = List::parts(obj, c);
        let ghost o = out@;
        out.push(MatchClause { pattern, body });
        proof {
            assert forall|x: int| 0 <= x < out@.len() implies pattern_below(#[trigger] out@[x].pattern, obj.heap_view().len() as int)
                && ref_below(out@[x].body, obj.heap_view().len() as int) by {
                if x < o.len() {
                    assert(out@[x] == o[x]);
                }
            }
            assert forall|x: int| 0 <= x < i + 1 implies clause_written(obj, #[trigger] out@[x], cs[x]) by {
                if x < i {
                    assert(out@[x] == o[x]);
                }
            }
        }
        i = i + 1;
    }
    Ok((target, out))
}


/// The pattern `p` matches the value `v` (literals by their value in
/// `obj`): a literal the equal value, a variable anything, and a list, array
/// or tuple pattern a value of that kind whose elements it matches one by
/// one.
pub open spec fn pattern_matches(obj: &Object, p: Pattern, v: Val) -> bool
    decreases p,
{
    match p {
        Pattern::Literal(r) => obj.value_of(r) == v,
        Pattern::Bind(_) => true,
        Pattern::List(ps) => is_list_val(v) && elems_match(obj, ps@, list_items(v)),
        Pattern::Array(ps) => v is Array && elems_match(obj, ps@, array_items(v)),
        Pattern::Tuple(ps) => is_tuple_val(v) && elems_match(obj, ps@, tuple_items(v)),
    }
}

/// Each pattern of `ps` matches the value of `vs` at its place.
pub open spec fn elems_match(obj: &Object, ps: Seq<Pattern>, vs: Seq<Val>) -> bool
    decreases ps,
{
    if ps.len() == 0 {
        vs.len() == 0
    } else {
        proof {
            vstd::seq::axiom_seq_subrange_decreases(ps, 1, ps.len() as int);
        }
        vs.len() == ps.len() && pattern_matches(obj, ps[0], vs[0]) && elems_match(obj, ps.drop_first(), vs.drop_first())
    }
}

/// The variables the pattern `p` binds when it matches `v`, in the order
/// they are written: a variable other than `_` binds `v`.
pub open spec fn pattern_binds(p: Pattern, v: Val) -> Seq<(Seq<char>, Val)>
    decreases p,
{
    match p {
        Pattern::Literal(_) => Seq::empty(),
        Pattern::Bind(n) => if n@ == seq!['_'] {
            Seq::empty()
        } else {
            seq![(n@, v)]
        },
        Pattern::List(ps) => elems_binds(ps@, list_items(v)),
        Pattern::Array(ps) => elems_binds(ps@, array_items(v)),
        Pattern::Tuple(ps) => elems_binds(ps@, tuple_items(v)),
    }
}

/// The variables the patterns `ps` bind matching `vs`, in order.
pub open spec fn elems_binds(ps: Seq<Pattern>, vs: Seq<Val>) -> Seq<(Seq<char>, Val)>
    decreases ps,
{
    if ps.len() == 0 {
        Seq::empty()
    } else {
        proof {
            vstd::seq::axiom_seq_subrange_decreases(ps, 1, ps.len() as int);
        }
        pattern_binds(ps[0], vs[0]) + elems_binds(ps.drop_first(), vs.drop_first())
    }
}

/// Each pattern of the stack `ps` matches the value at its place in `vs`.
pub open spec fn stack_matches(obj: &Object, ps: Seq<Pattern>, vs: Seq<Val>) -> bool {
    &&& ps.len() == vs.len()
    &&& forall|i: int| 0 <= i < ps.len() ==> pattern_matches(obj, #[trigger] ps[i], vs[i])
}

/// The variables the stack `ps` binds matching `vs`, from the top (the last
/// pattern) down.
pub open spec fn stack_binds(ps: Seq<Pattern>, vs: Seq<Val>) -> Seq<(Seq<char>, Val)>
    decreases ps.len(),
{
    if ps.len() == 0 {
        Seq::empty()
    } else {
        pattern_binds(ps.last(), vs.last()) + stack_binds(ps.drop_last(), vs.drop_last())
    }
}

/// `elems_match` holds exactly when each pattern matches the value at its
/// place.
pub proof fn lemma_elems_match(obj: &Object, ps: Seq<Pattern>, vs: Seq<Val>)
    ensures
        elems_match(obj, ps, vs) <==> (ps.len() == vs.len() && forall|i: int|
            0 <= i < ps.len() ==> pattern_matches(obj, #[trigger] ps[i], vs[i])),
    decreases ps.len(),
{
    if ps.len() > 0 {
        lemma_elems_match(obj, ps.drop_first(), vs.drop_first());
        if ps.len() == vs.len() {
            assert forall|i: int| 1 <= i < ps.len() implies (#[trigger] ps[i]) == ps.drop_first()[i - 1] && vs[i]
                == vs.drop_first()[i - 1] by {}
            if forall|i: int| 0 <= i < ps.len() ==> pattern_matches(obj, #[trigger] ps[i], vs[i]) {
                assert forall|i: int| 0 <= i < ps.drop_first().len() implies pattern_matches(
                    obj,
                    #[trigger] ps.drop_first()[i],
                    vs.drop_first()[i],
                ) by {
                    assert(ps.drop_first()[i] == ps[i + 1]);
                }
            }
        }
    }
}

/// The stack made of `base` with the patterns `ps` pushed on, the first one
/// last, and the values `es` pushed on the same way.
pub open spec fn pushed<T>(base: Seq<T>, ps: Seq<T>) -> Seq<T> {
    base + Seq::new(ps.len(), |j: int| ps[ps.len() - 1 - j])
}

/// Pushing `ps` and `es` on stacks adds the variables `ps` bind matching
/// `es` before those of the stacks.
pub proof fn lemma_stack_binds_pushed(base: Seq<Pattern>, vbase: Seq<Val>, ps: Seq<Pattern>, es: Seq<Val>)
    requires
        base.len() == vbase.len(),
        ps.len() == es.len(),
    ensures
        stack_binds(pushed(base, ps), pushed(vbase, es)) == elems_binds(ps, es) + stack_binds(base, vbase),
    decreases ps.len(),
{
    let t = pushed(base, ps);
    let w = pushed(vbase, es);
    if ps.len() == 0 {
        assert(t =~= base);
        assert(w =~= vbase);
        assert(elems_binds(ps, es) =~= Seq::<(Seq<char>, Val)>::empty());
        assert(Seq::<(Seq<char>, Val)>::empty() + stack_binds(base, vbase) =~= stack_binds(base, vbase));
    } else {
        lemma_stack_binds_pushed(base, vbase, ps.drop_first(), es.drop_first());
        assert(t.drop_last() =~= pushed(base, ps.drop_first()));
        assert(w.drop_last() =~= pushed(vbase, es.drop_first()));
        assert(t.last() == ps[0]);
        assert(w.last() == es[0]);
        assert(stack_binds(t, w) =~= elems_binds(ps, es) + stack_binds(base, vbase));
    }
}

/// The patterns and values of pushed stacks match where the bases and the
/// pushed ones match.
pub proof fn lemma_stack_matches_pushed(obj: &Object, base: Seq<Pattern>, vbase: Seq<Val>, ps: Seq<Pattern>, es: Seq<Val>)
    requires
        base.len() == vbase.len(),
        ps.len() == es.len(),
    ensures
        stack_matches(obj, pushed(base, ps), pushed(vbase, es)) <==> stack_matches(obj, base, vbase) && elems_match(
            obj,
            ps,
            es,
        ),
{
    let t = pushed(base, ps);
    let w = pushed(vbase, es);
    lemma_elems_match(obj, ps, es);
    if stack_matches(obj, t, w) {
        assert forall|i: int| 0 <= i < base.len() implies pattern_matches(obj, #[trigger] base[i], vbase[i]) by {
            assert(t[i] == base[i] && w[i] == vbase[i]);
        }
        assert forall|i: int| 0 <= i < ps.len() implies pattern_matches(obj, #[trigger] ps[i], es[i]) by {
            let j = base.len() + ps.len() - 1 - i;
            assert(t[j] == ps[i] && w[j] == es[i]);
        }
    }
    if stack_matches(obj, base, vbase) && elems_match(obj, ps, es) {
        assert forall|i: int| 0 <= i < t.len() implies pattern_matches(obj, #[trigger] t[i], w[i]) by {
            if i < base.len() {
                assert(t[i] == base[i] && w[i] == vbase[i]);
            } else {
                let j = base.len() + ps.len() - 1 - i;
                assert(t[i] == ps[j] && w[i] == es[j]);
            }
        }
    }
}

/// The kind of a pattern, by which the clauses are grouped.
fn pattern_kind(p: &Pattern) -> (k: u8)
    ensures
        k == match *p {
            Pattern::Literal(_) => 0u8,
            Pattern::Bind(_) => 1u8,
            Pattern::List(_) => 2u8,
            Pattern::Array(_) => 3u8,
            Pattern::Tuple(_) => 4u8,
        },
{
    match p {
        Pattern::Literal(_) => 0,
        Pattern::Bind(_) => 1,
        Pattern::List(_) => 2,
        Pattern::Array(_) => 3,
        Pattern::Tuple(_) => 4,
    }
}

/// A clause being matched: the patterns left to match (the next one last),
/// the clause's number, and the variables bound so far.
pub struct Row<'a> {
    pub stack: Vec<&'a Pattern>,
    pub clause: usize,
    pub binds: Vec<(Vec<char>, Ref)>,
}

/// Every bound value is valid in `obj`.
pub open spec fn binds_valid(obj: &Object, b: Seq<(Vec<char>, Ref)>) -> bool {
    forall|k: int| 0 <= k < b.len() ==> obj.valid(#[trigger] b[k].1)
}

/// The patterns of a stack, the next one last.
pub open spec fn deref_patterns<'a>(s: Seq<&'a Pattern>) -> Seq<Pattern> {
    s.map_values(|p: &'a Pattern| *p)
}

/// The patterns left in the row, the next one last.
pub open spec fn row_patterns<'a>(r: Row<'a>) -> Seq<Pattern> {
    deref_patterns(r.stack@)
}

/// Bound variables as names and the values they denote in `obj`.
pub open spec fn binds_view(obj: &Object, b: Seq<(Vec<char>, Ref)>) -> Seq<(Seq<char>, Val)> {
    b.map_values(|x: (Vec<char>, Ref)| (x.0@, obj.value_of(x.1)))
}

/// The row is sound for the values `vs` left to match (the next one last):
/// if its patterns left match them, the pattern of its clause matches the
/// target, and binds what the row bound so far and then what the patterns
/// left bind.
pub open spec fn row_sound<'a>(obj: &Object, r: Row<'a>, vs: Seq<Val>, clauses: Seq<MatchClause>, target: Val) -> bool {
    &&& r.stack@.len() == vs.len()
    &&& r.clause < clauses.len()
    &&& binds_valid(obj, r.binds@)
    &&& stack_matches(obj, row_patterns(r), vs) ==> {
        &&& pattern_matches(obj, clauses[r.clause as int].pattern, target)
        &&& pattern_binds(clauses[r.clause as int].pattern, target) == binds_view(obj, r.binds@) + stack_binds(
            row_patterns(r),
            vs,
        )
    }
}

/// Every row is sound for the values `vs`.
pub open spec fn rows_sound<'a>(obj: &Object, rows: Seq<Row<'a>>, vs: Seq<Val>, clauses: Seq<MatchClause>, target: Val) -> bool {
    forall|k: int| 0 <= k < rows.len() ==> row_sound(obj, #[trigger] rows[k], vs, clauses, target)
}

/// The clause `m.0` matches the target and binds the variables `m.1`.
pub open spec fn found_match(obj: &Object, m: (usize, Vec<(Vec<char>, Ref)>), clauses: Seq<MatchClause>, target: Val) -> bool {
    &&& m.0 < clauses.len()
    &&& binds_valid(obj, m.1@)
    &&& pattern_matches(obj, clauses[m.0 as int].pattern, target)
    &&& pattern_binds(clauses[m.0 as int].pattern, target) == binds_view(obj, m.1@)
}

/// A row made from a sound one stays sound for the values `ws`, when the
/// match of its patterns against `ws` gives that of the old row, with the
/// same variables bound in all.
pub proof fn lemma_row_step<'a>(
    obj: &Object,
    r: Row<'a>,
    vs: Seq<Val>,
    new: Row<'a>,
    ws: Seq<Val>,
    clauses: Seq<MatchClause>,
    target: Val,
)
    requires
        row_sound(obj, r, vs, clauses, target),
        new.stack@.len() == ws.len(),
        new.clause == r.clause,
        binds_valid(obj, new.binds@),
        stack_matches(obj, row_patterns(new), ws) ==> stack_matches(obj, row_patterns(r), vs) && binds_view(
            obj,
            new.binds@,
        ) + stack_binds(row_patterns(new), ws) == binds_view(obj, r.binds@) + stack_binds(row_patterns(r), vs),
    ensures
        row_sound(obj, new, ws, clauses, target),
{
}

/// A stack whose top pattern matches the top value matches where the rest
/// matches.
pub proof fn lemma_stack_matches_top(obj: &Object, ps: Seq<Pattern>, vs: Seq<Val>)
    requires
        ps.len() == vs.len(),
        ps.len() > 0,
        pattern_matches(obj, ps.last(), vs.last()),
        stack_matches(obj, ps.drop_last(), vs.drop_last()),
    ensures
        stack_matches(obj, ps, vs),
{
    assert forall|i: int| 0 <= i < ps.len() implies pattern_matches(obj, #[trigger] ps[i], vs[i]) by {
        if i < ps.len() - 1 {
            assert(ps.drop_last()[i] == ps[i]);
            assert(vs.drop_last()[i] == vs[i]);
        }
    }
}

/// The pattern written as the value `pv` matches the value `v`: `(bind x)`
/// matches anything; a list, an array or a tuple matches a value of that
/// kind whose elements its elements match one by one; anything else matches
/// an equal value.
pub open spec fn val_matches(pv: Val, v: Val) -> bool
    decreases pv,
{
    match pv {
        Val::Pair(h, t) => if bind_form(pv) {
            true
        } else {
            match v {
                Val::Pair(vh, vt) => val_matches(*h, *vh) && rest_matches(*t, *vt),
                _ => false,
            }
        },
        Val::Nil => v == Val::Nil,
        Val::Array(items) => match v {
            Val::Array(vs) => items.len() == vs.len() && forall|k: int|
                0 <= k < items.len() ==> val_matches(#[trigger] items[k], vs[k]),
            _ => false,
        },
        Val::Tuple(items) => is_tuple_val(v) && items.len() == tuple_items(v).len() && forall|k: int|
            0 <= k < items.len() ==> val_matches(#[trigger] items[k], tuple_items(v)[k]),
        Val::Unit => is_tuple_val(v) && tuple_items(v).len() == 0,
        _ => v == pv,
    }
}

/// The elements of the list cells `pt`, as patterns, match those of the
/// list cells `vt` one by one, and there are as many.
pub open spec fn rest_matches(pt: Val, vt: Val) -> bool
    decreases pt,
{
    match pt {
        Val::Pair(h, t) => match vt {
            Val::Pair(vh, vtt) => val_matches(*h, *vh) && rest_matches(*t, *vtt),
            _ => false,
        },
        _ => !(vt is Pair),
    }
}

/// A pattern matches a value exactly when the value it was written from
/// matches it.
pub proof fn lemma_written_matches(obj: &Object, p: Pattern, pv: Val, v: Val)
    requires
        pattern_written(obj, p, pv),
    ensures
        pattern_matches(obj, p, v) == val_matches(pv, v),
    decreases p,
{
    match p {
        Pattern::Literal(r) => {
            assert(obj.value_of(r) == pv);
            assert(pattern_matches(obj, p, v) == (obj.value_of(r) == v));
            assert(!(pv is Pair) && !(pv is Nil) && !(pv is Array) && !(pv is Tuple) && !(pv is Unit));
            assert(val_matches(pv, v) == (v == pv));
            assert(pattern_matches(obj, p, v) == val_matches(pv, v));
        },
        Pattern::Bind(_) => {
            assert(chain_len(pv) == 2);
            assert(pv is Pair);
            assert(val_matches(pv, v));
            assert(pattern_matches(obj, p, v) == val_matches(pv, v));
        },
        Pattern::List(ps) => {
            if pv is Pair {
                lemma_rest_written(obj, ps@, pv, v);
            } else {
                assert(ps@.len() == 0);
                if is_list_val(v) && v is Pair {
                    assert(list_items(v).len() > 0);
                }
            }
            assert(pattern_matches(obj, p, v) == val_matches(pv, v));
        },
        Pattern::Array(ps) => {
            let items = array_items(pv);
            lemma_elems_written(obj, ps@, items);
            assert(pattern_matches(obj, p, v) == (v is Array && elems_match(obj, ps@, array_items(v))));
            if !(v is Array) {
                assert(!val_matches(pv, v));
            }
            if v is Array {
                let vs = array_items(v);
                lemma_elems_match(obj, ps@, vs);
                if ps@.len() == vs.len() {
                    assert forall|k: int| 0 <= k < ps@.len() implies pattern_matches(obj, #[trigger] ps@[k], vs[k])
                        == val_matches(items[k], vs[k]) by {
                        assert(decreases_to!(p => ps));
                        lemma_written_matches(obj, ps@[k], items[k], vs[k]);
                    }
                    if elems_match(obj, ps@, vs) {
                        assert forall|k: int| 0 <= k < items.len() implies val_matches(#[trigger] items[k], vs[k]) by {
                            assert(pattern_matches(obj, ps@[k], vs[k]));
                        }
                    }
                    if forall|k: int| 0 <= k < items.len() ==> val_matches(#[trigger] items[k], vs[k]) {
                        assert forall|k: int| 0 <= k < ps@.len() implies pattern_matches(obj, #[trigger] ps@[k], vs[k]) by {
                            assert(val_matches(items[k], vs[k]));
                        }
                    }
                }
            }
            assert(pattern_matches(obj, p, v) == val_matches(pv, v));
        },
        Pattern::Tuple(ps) => {
            let items = tuple_items(pv);
            lemma_elems_written(obj, ps@, items);
            assert(pattern_matches(obj, p, v) == (is_tuple_val(v) && elems_match(obj, ps@, tuple_items(v))));
            if pv is Unit {
                assert(items.len() == 0);
            }
            if is_tuple_val(v) {
                let vs = tuple_items(v);
                lemma_elems_match(obj, ps@, vs);
                if ps@.len() == vs.len() {
                    assert forall|k: int| 0 <= k < ps@.len() implies pattern_matches(obj, #[trigger] ps@[k], vs[k])
                        == val_matches(items[k], vs[k]) by {
                        assert(decreases_to!(p => ps));
                        lemma_written_matches(obj, ps@[k], items[k], vs[k]);
                    }
                    if elems_match(obj, ps@, vs) {
                        assert forall|k: int| 0 <= k < items.len() implies val_matches(#[trigger] items[k], vs[k]) by {
                            assert(pattern_matches(obj, ps@[k], vs[k]));
                        }
                    }
                    if forall|k: int| 0 <= k < items.len() ==> val_matches(#[trigger] items[k], vs[k]) {
                        assert forall|k: int| 0 <= k < ps@.len() implies pattern_matches(obj, #[trigger] ps@[k], vs[k]) by {
                            assert(val_matches(items[k], vs[k]));
                        }
                    }
                }
            }
            assert(pattern_matches(obj, p, v) == val_matches(pv, v));
        },
    }
}

/// The number of nodes of the pattern written as the value `pv`: `(bind x)`
/// and anything but a list, an array or a tuple is one, and a list, an array
/// or a tuple one more than its elements.
pub open spec fn pattern_val_size(pv: Val) -> nat
    decreases pv,
{
    match pv {
        Val::Pair(h, t) => if bind_form(pv) {
            1
        } else {
            1 + pattern_val_size(*h) + rest_val_size(*t)
        },
        Val::Array(items) => 1 + seq_val_size(items),
        Val::Tuple(items) => 1 + seq_val_size(items),
        _ => 1,
    }
}

/// The number of nodes of the patterns written as the elements of the list
/// cells `pt`.
pub open spec fn rest_val_size(pt: Val) -> nat
    decreases pt,
{
    match pt {
        Val::Pair(h, t) => pattern_val_size(*h) + rest_val_size(*t),
        _ => 0,
    }
}

/// The number of nodes of the patterns written as the values `s`.
pub open spec fn seq_val_size(s: Seq<Val>) -> nat
    decreases s,
{
    if s.len() == 0 {
        0
    } else {
        proof {
            vstd::seq::axiom_seq_subrange_decreases(s, 1, s.len() as int);
        }
        pattern_val_size(s[0]) + seq_val_size(s.drop_first())
    }
}

/// A pattern has as many nodes as the value it was written from says.
pub proof fn lemma_written_size(obj: &Object, p: Pattern, pv: Val)
    requires
        pattern_written(obj, p, pv),
    ensures
        pattern_size(p) == pattern_val_size(pv),
    decreases p,
{
    match p {
        Pattern::Literal(_) => {
            assert(!(pv is Pair) && !(pv is Array) && !(pv is Tuple));
        },
        Pattern::Bind(_) => {
            assert(chain_len(pv) == 2);
            assert(pv is Pair);
        },
        Pattern::List(ps) => {
            if pv is Pair {
                lemma_rest_size(obj, ps@, pv);
            } else {
                assert(ps@.len() == 0);
            }
        },
        Pattern::Array(ps) => {
            lemma_seq_size(obj, ps@, array_items(pv));
        },
        Pattern::Tuple(ps) => {
            lemma_seq_size(obj, ps@, tuple_items(pv));
            if pv is Unit {
                assert(ps@.len() == 0);
            }
        },
    }
}

/// Patterns written by the elements of the list cells `pt` have as many
/// nodes as `pattern_val_size` counts for `pt`'s head and `rest_val_size` for
/// the rest.
proof fn lemma_rest_size(obj: &Object, ps: Seq<Pattern>, pt: Val)
    requires
        elems_written(obj, ps, list_items(pt)),
        pt is Pair,
    ensures
        elems_size(ps) == pattern_val_size(val_head_pat(pt)) + rest_val_size(val_tail_pat(pt)),
    decreases ps,
{
    vstd::seq::axiom_seq_subrange_decreases(ps, 1, ps.len() as int);
    match pt {
        Val::Pair(h, t) => {
            assert(list_items(pt).drop_first() =~= list_items(*t));
            assert(list_items(pt)[0] == *h);
            assert(ps.len() > 0);
            assert(elems_written(obj, ps.drop_first(), list_items(*t)));
            lemma_written_size(obj, ps[0], *h);
            assert(elems_size(ps) == pattern_size(ps[0]) + elems_size(ps.drop_first()));
            if *t is Pair {
                lemma_rest_size(obj, ps.drop_first(), *t);
                assert(rest_val_size(*t) == pattern_val_size(val_head_pat(*t)) + rest_val_size(val_tail_pat(*t)));
            } else {
                assert(list_items(*t).len() == 0);
                assert(ps.drop_first().len() == 0);
            }
        },
        _ => {},
    }
}

/// Patterns written by the values `vs` have as many nodes as
/// `seq_val_size` counts.
proof fn lemma_seq_size(obj: &Object, ps: Seq<Pattern>, vs: Seq<Val>)
    requires
        elems_written(obj, ps, vs),
    ensures
        elems_size(ps) == seq_val_size(vs),
    decreases ps,
{
    if ps.len() > 0 {
        vstd::seq::axiom_seq_subrange_decreases(ps, 1, ps.len() as int);
        lemma_written_size(obj, ps[0], vs[0]);
        lemma_seq_size(obj, ps.drop_first(), vs.drop_first());
    }
}

/// The head of list cells.
pub open spec fn val_head_pat(v: Val) -> Val {
    match v {
        Val::Pair(h, _) => *h,
        _ => Val::Nil,
    }
}

/// The rest of list cells after the head.
pub open spec fn val_tail_pat(v: Val) -> Val {
    match v {
        Val::Pair(_, t) => *t,
        _ => Val::Nil,
    }
}

/// Patterns written by the elements of the list cells `pt` match the
/// elements of the list cells `vt` exactly when `rest_matches` says so.
pub proof fn lemma_rest_written(obj: &Object, ps: Seq<Pattern>, pt: Val, vt: Val)
    requires
        elems_written(obj, ps, list_items(pt)),
    ensures
        elems_match(obj, ps, list_items(vt)) == rest_matches(pt, vt),
    decreases ps,
{
    if ps.len() == 0 {
        assert(list_items(pt).len() == 0);
        if vt is Pair {
            assert(list_items(vt).len() > 0);
        }
    } else {
        vstd::seq::axiom_seq_subrange_decreases(ps, 1, ps.len() as int);
        match pt {
            Val::Pair(h, t) => {
                assert(list_items(pt).drop_first() =~= list_items(*t));
                match vt {
                    Val::Pair(vh, vtt) => {
                        assert(list_items(vt).drop_first() =~= list_items(*vtt));
                        lemma_written_matches(obj, ps[0], *h, *vh);
                        lemma_rest_written(obj, ps.drop_first(), *t, *vtt);
                    },
                    _ => {},
                }
            },
            _ => {},
        }
    }
}

/// The number of nodes of the pattern `p`: a literal or a variable is one,
/// a list, array or tuple one more than its elements.
pub open spec fn pattern_size(p: Pattern) -> nat
    decreases p,
{
    match p {
        Pattern::List(ps) => 1 + elems_size(ps@),
        Pattern::Array(ps) => 1 + elems_size(ps@),
        Pattern::Tuple(ps) => 1 + elems_size(ps@),
        _ => 1,
    }
}

/// The number of nodes of the patterns `ps`.
pub open spec fn elems_size(ps: Seq<Pattern>) -> nat
    decreases ps,
{
    if ps.len() == 0 {
        0
    } else {
        proof {
            vstd::seq::axiom_seq_subrange_decreases(ps, 1, ps.len() as int);
        }
        pattern_size(ps[0]) + elems_size(ps.drop_first())
    }
}

/// The number of nodes of the patterns of a stack.
pub open spec fn stack_size(ps: Seq<Pattern>) -> nat
    decreases ps.len(),
{
    if ps.len() == 0 {
        0
    } else {
        pattern_size(ps.last()) + stack_size(ps.drop_last())
    }
}

/// Pushing `ps` on a stack adds their nodes.
pub proof fn lemma_stack_size_pushed(base: Seq<Pattern>, ps: Seq<Pattern>)
    ensures
        stack_size(pushed(base, ps)) == stack_size(base) + elems_size(ps),
    decreases ps.len(),
{
    let t = pushed(base, ps);
    if ps.len() == 0 {
        assert(t =~= base);
    } else {
        lemma_stack_size_pushed(base, ps.drop_first());
        assert(t.drop_last() =~= pushed(base, ps.drop_first()));
        assert(t.last() == ps[0]);
    }
}

/// The kind number of a pattern.
pub open spec fn kind_num(p: Pattern) -> u8 {
    match p {
        Pattern::Literal(_) => 0u8,
        Pattern::Bind(_) => 1u8,
        Pattern::List(_) => 2u8,
        Pattern::Array(_) => 3u8,
        Pattern::Tuple(_) => 4u8,
    }
}

/// Some row's patterns left match `vs`, with fewer nodes than `fuel`.
pub open spec fn some_row_matches<'a>(obj: &Object, rows: Seq<Row<'a>>, vs: Seq<Val>, fuel: int) -> bool {
    exists|j: int|
        0 <= j < rows.len() && stack_matches(obj, row_patterns(#[trigger] rows[j]), vs) && stack_size(
            row_patterns(rows[j]),
        ) < fuel
}

/// Some row whose next pattern is of kind `k` matches `vs`, with no more
/// nodes than `fuel`.
pub open spec fn some_kind_row_matches<'a>(obj: &Object, rows: Seq<Row<'a>>, vs: Seq<Val>, k: u8, fuel: int) -> bool {
    exists|j: int|
        0 <= j < rows.len() && row_patterns(#[trigger] rows[j]).len() > 0 && kind_num(row_patterns(rows[j]).last())
            == k && stack_matches(obj, row_patterns(rows[j]), vs) && stack_size(row_patterns(rows[j])) <= fuel
}

/// A stack that matches has its top matching the top value, and the rest
/// matching the rest.
pub proof fn lemma_stack_matches_split(obj: &Object, ps: Seq<Pattern>, vs: Seq<Val>)
    requires
        ps.len() > 0,
        stack_matches(obj, ps, vs),
    ensures
        pattern_matches(obj, ps.last(), vs.last()),
        stack_matches(obj, ps.drop_last(), vs.drop_last()),
{
    assert(pattern_matches(obj, ps[ps.len() - 1], vs[vs.len() - 1]));
    assert forall|i: int| 0 <= i < ps.drop_last().len() implies pattern_matches(
        obj,
        #[trigger] ps.drop_last()[i],
        vs.drop_last()[i],
    ) by {
        assert(ps.drop_last()[i] == ps[i]);
        assert(vs.drop_last()[i] == vs[i]);
    }
}

/// A copy of the bindings `b`.
fn copy_binds(b: &Vec<(Vec<char>, Ref)>) -> (res: Vec<(Vec<char>, Ref)>)
    ensures
        res@.len() == b@.len(),
        forall|k: int| 0 <= k < b@.len() ==> (#[trigger] res@[k]).1 == b@[k].1 && res@[k].0@ == b@[k].0@,
{
    let mut res: Vec<(Vec<char>, Ref)> = Vec::new();
    let mut i: usize = 0;
    while i < b.len()
        invariant
            i <= b@.len(),
            res@.len() == i,
            forall|k: int| 0 <= k < i ==> (#[trigger] res@[k]).1 == b@[k].1 && res@[k].0@ == b@[k].0@,
        decreases b@.len() - i,
    {
        res.push((copy_chars(&b[i].0), b[i].1));
        i = i + 1;
    }
    res
}

/// A copy of the row `r` without its last pattern, with `extra` patterns
/// pushed in its place (the first of `extra` last), and with `bind` added
/// to its variables.
fn next_row<'a>(r: &Row<'a>, extra: Option<&'a Vec<Pattern>>, bind: Option<(Vec<char>, Ref)>) -> (res: Row<'a>)
    requires
        r.stack@.len() > 0,
    ensures
        res.clause == r.clause,
        row_patterns(res) == pushed(
            row_patterns(*r).drop_last(),
            match extra {
                Some(e) => e@,
                None => Seq::empty(),
            },
        ),
        forall|k: int| 0 <= k < r.binds@.len() ==> (#[trigger] res.binds@[k]).1 == r.binds@[k].1 && res.binds@[k].0@
            == r.binds@[k].0@,
        match bind {
            Some(b) => res.binds@.len() == r.binds@.len() + 1 && res.binds@[r.binds@.len() as int].1 == b.1
                && res.binds@[r.binds@.len() as int].0@ == b.0@,
            None => res.binds@.len() == r.binds@.len(),
        },
{
    let mut stack: Vec<&'a Pattern> = Vec::new();
    let mut i: usize = 0;
    let last = r.stack.len() - 1;
    let ghost base = row_patterns(*r).drop_last();
    while i < last
        invariant
            i <= last,
            last == r.stack@.len() - 1,
            stack@ == r.stack@.take(i as int),
        decreases last - i,
    {
        stack.push(r.stack[i]);
        proof {
            assert(stack@ =~= r.stack@.take(i + 1));
        }
        i = i + 1;
    }
    let ghost s0 = stack@;
    proof {
        assert(s0 =~= r.stack@.drop_last());
    }
    let ghost ex: Seq<Pattern> = match extra {
        Some(e) => e@,
        None => Seq::empty(),
    };
    if let Some(extra) = extra {
        let mut j = extra.len();
        while j > 0
            invariant
                j <= extra@.len(),
                ex == extra@,
                stack@.len() == s0.len() + (extra@.len() - j),
                forall|x: int| 0 <= x < s0.len() ==> #[trigger] stack@[x] == s0[x],
                forall|x: int|
                    s0.len() <= x < stack@.len() ==> *(#[trigger] stack@[x]) == extra@[extra@.len() - 1 - (x - s0.len())],
            decreases j,
        {
            j = j - 1;
            stack.push(&extra[j]);
        }
    }
    proof {
        assert forall|x: int| 0 <= x < stack@.len() implies #[trigger] deref_patterns(stack@)[x] == pushed(base, ex)[x] by {
            if x < s0.len() {
                assert(stack@[x] == r.stack@[x]);
            }
        }
        assert(deref_patterns(stack@) =~= pushed(base, ex));
    }
    let mut binds = copy_binds(&r.binds);
    match bind {
        Some(b) => {
            binds.push(b);
        },
        None => {},
    }
    Row { stack, clause: r.clause, binds }
}

/// The new bindings of `new` are those of `r`, then `extra`.
proof fn lemma_binds_view_push<'a>(obj: &Object, r: Row<'a>, new: Row<'a>, extra: Seq<(Seq<char>, Val)>)
    requires
        new.binds@.len() == r.binds@.len() + extra.len(),
        forall|k: int| 0 <= k < r.binds@.len() ==> (#[trigger] new.binds@[k]).1 == r.binds@[k].1 && new.binds@[k].0@
            == r.binds@[k].0@,
        forall|k: int| 0 <= k < extra.len() ==> (#[trigger] extra[k]) == (new.binds@[r.binds@.len() + k].0@, obj.value_of(new.binds@[r.binds@.len() + k].1)),
    ensures
        binds_view(obj, new.binds@) == binds_view(obj, r.binds@) + extra,
{
    assert(binds_view(obj, new.binds@) =~= binds_view(obj, r.binds@) + extra);
}

/// Finds the clause the values match, trying the clauses as the match is
/// compiled: by the kind of the next pattern (in the order the kinds first
/// appear), literals by the one equal to the value, binds in order, and
/// containers by their length. Answers the clause and its bound variables.
fn match_rows<'a>(
    obj: &Object,
    values: Vec<Ref>,
    rows: Vec<Row<'a>>,
    n: usize,
    fuel: u64,
    Ghost(clauses): Ghost<Seq<MatchClause>>,
    Ghost(target): Ghost<Val>,
) -> (res: Option<(usize, Vec<(Vec<char>, Ref)>)>)
    requires
        obj.wf(),
        all_valid(obj, values@),
        n == clauses.len(),
        rows_sound(obj, rows@, values_of(obj, values@), clauses, target),
    ensures
        res matches Some(m) ==> found_match(obj, m, clauses, target),
        some_row_matches(obj, rows@, values_of(obj, values@), fuel as int) ==> res is Some,
        rows@.len() > 0 && stack_matches(obj, row_patterns(rows@[0]), values_of(obj, values@)) && stack_size(
            row_patterns(rows@[0]),
        ) < fuel ==> (res matches Some(m) && m.0 == rows@[0].clause),
    decreases fuel, 0nat,
{
    let ghost first = rows@.len() > 0 && stack_matches(obj, row_patterns(rows@[0]), values_of(obj, values@))
        && stack_size(row_patterns(rows@[0])) < fuel;
    let ghost k0 = kind_num(row_patterns(rows@[0]).last());
    let ghost vs0 = values_of(obj, values@);
    let ghost hit = some_row_matches(obj, rows@, vs0, fuel as int);
    let ghost jw = if first {
        0
    } else {
        choose|j: int|
            0 <= j < rows@.len() && stack_matches(obj, row_patterns(#[trigger] rows@[j]), vs0) && stack_size(
                row_patterns(rows@[j]),
            ) < fuel
    };
    let ghost kj = kind_num(row_patterns(rows@[jw]).last());
    proof {
        if first {
            assert(some_row_matches(obj, rows@, vs0, fuel as int));
        }
    }
    if fuel == 0 || rows.len() == 0 {
        return None;
    }
    if rows[0].stack.len() == 0 || values.len() == 0 {
        let mut rows = rows;
        let ghost r0 = rows@;
        let row = rows.remove(0);
        proof {
            assert(row == r0[0]);
            assert(row_sound(obj, r0[0], values_of(obj, values@), clauses, target));
            let e = Seq::<Pattern>::empty();
            assert(row_patterns(row) =~= e);
            assert(values_of(obj, values@) =~= Seq::<Val>::empty());
            assert(stack_matches(obj, row_patterns(row), values_of(obj, values@)));
            assert(binds_view(obj, row.binds@) + stack_binds(row_patterns(row), values_of(obj, values@)) =~= binds_view(
                obj,
                row.binds@,
            ));
        }
        return Some((row.clause, row.binds));
    }
    let target_ref = values[values.len() - 1];
    let mut rest = values;
    rest.pop();
    proof {
        assert(obj.valid(target_ref));
        assert(all_valid(obj, rest@));
        assert(values_of(obj, values@) =~= values_of(obj, rest@).push(obj.value_of(target_ref)));
        if hit {
            assert(row_sound(obj, rows@[jw], vs0, clauses, target));
            assert(row_patterns(rows@[jw]).len() > 0);
        }
        if first {
            assert(row_sound(obj, rows@[0], vs0, clauses, target));
            assert(row_patterns(rows@[0]).len() > 0);
        }
    }
    let mut kinds: Vec<u8> = Vec::new();
    let mut i: usize = 0;
    while i < rows.len()
        invariant
            i <= rows@.len(),
            hit ==> 0 <= jw < rows@.len() && row_patterns(rows@[jw]).len() > 0 && kj == kind_num(
                row_patterns(rows@[jw]).last(),
            ),
            hit && jw < i ==> kinds@.contains(kj),
            first ==> rows@.len() > 0 && row_patterns(rows@[0]).len() > 0 && k0 == kind_num(
                row_patterns(rows@[0]).last(),
            ),
            first && 0 < i ==> kinds@.len() > 0 && kinds@[0] == k0,
            first ==> hit && jw == 0,
            i == 0 ==> kinds@.len() == 0,
        decreases rows@.len() - i,
    {
        if rows[i].stack.len() > 0 {
            let k = pattern_kind(rows[i].stack[rows[i].stack.len() - 1]);
            proof {
                let st = rows@[i as int].stack@;
                assert(row_patterns(rows@[i as int]).last() == *st[st.len() - 1]);
            }
            let mut seen = false;
            let mut j: usize = 0;
            while j < kinds.len()
                invariant
                    j <= kinds@.len(),
                    seen ==> kinds@.contains(k),
                decreases kinds@.len() - j,
            {
                if kinds[j] == k {
                    seen = true;
                    proof {
                        assert(kinds@[j as int] == k);
                    }
                }
                j = j + 1;
            }
            let ghost ks0 = kinds@;
            if !seen {
                kinds.push(k);
                proof {
                    assert(kinds@[ks0.len() as int] == k);
                    if hit && jw < i {
                        let y = choose|y: int| 0 <= y < ks0.len() && ks0[y] == kj;
                        assert(kinds@[y] == kj);
                    }
                    if first && 0 < i {
                        assert(kinds@[0] == ks0[0]);
                    }
                }
            }
            proof {
                if first && i == 0 {
                    assert(ks0.len() == 0);
                    assert(!seen);
                }
            }
        }
        i = i + 1;
    }
    let mut g: usize = 0;
    while g < kinds.len()
        invariant
            obj.wf(),
            g <= kinds@.len(),
            all_valid(obj, rest@),
            obj.valid(target_ref),
            n == clauses.len(),
            rows_sound(obj, rows@, values_of(obj, rest@).push(obj.value_of(target_ref)), clauses, target),
            fuel > 0,
            vs0 == values_of(obj, rest@).push(obj.value_of(target_ref)),
            hit ==> 0 <= jw < rows@.len() && row_patterns(rows@[jw]).len() > 0 && kj == kind_num(
                row_patterns(rows@[jw]).last(),
            ) && stack_matches(obj, row_patterns(rows@[jw]), vs0) && stack_size(row_patterns(rows@[jw])) < fuel,
            hit ==> exists|x: int| g <= x < kinds@.len() && kinds@[x] == kj,
            first ==> g == 0 && kinds@.len() > 0 && kinds@[0] == k0 && rows@.len() > 0 && row_patterns(
                rows@[0],
            ).len() > 0 && k0 == kind_num(row_patterns(rows@[0]).last()) && stack_matches(
                obj,
                row_patterns(rows@[0]),
                vs0,
            ) && stack_size(row_patterns(rows@[0])) < fuel,
            first == (rows@.len() > 0 && stack_matches(obj, row_patterns(rows@[0]), vs0) && stack_size(
                row_patterns(rows@[0]),
            ) < fuel),
            vs0 == values_of(obj, values@),
        decreases kinds@.len() - g,
    {
        let k = kinds[g];
        let r = try_kind(obj, k, target_ref, &rest, &rows, n, fuel - 1, Ghost(clauses), Ghost(target));
        proof {
            if first {
                assert(k == k0);
                assert(stack_size(row_patterns(rows@[0])) <= fuel - 1);
                assert(r matches Some(mm) && mm.0 == rows@[0].clause);
            }
        }
        if r.is_some() {
            return r;
        }
        proof {
            if hit {
                assert(!some_kind_row_matches(obj, rows@, vs0, k, fuel - 1));
                assert(k != kj);
                let x = choose|x: int| g <= x < kinds@.len() && kinds@[x] == kj;
                assert(x != g);
            }
        }
        g = g + 1;
    }
    None
}

/// The rest of the values, with the elements `elems` pushed on (the first
/// one last).
fn push_elements(obj: &Object, rest: &Vec<Ref>, elems: &Vec<Ref>) -> (res: Vec<Ref>)
    requires
        all_valid(obj, rest@),
        all_valid(obj, elems@),
    ensures
        all_valid(obj, res@),
        res@ == pushed(rest@, elems@),
{
    let mut v = crate::object::mm::copy_refs(rest);
    let mut j = elems.len();
    while j > 0
        invariant
            j <= elems@.len(),
            all_valid(obj, elems@),
            all_valid(obj, v@),
            v@ == rest@ + Seq::new((elems@.len() - j) as nat, |x: int| elems@[elems@.len() - 1 - x]),
        decreases j,
    {
        j = j - 1;
        let ghost v0 = v@;
        v.push(elems[j]);
        proof {
            assert forall|k: int| 0 <= k < v@.len() implies obj.valid(#[trigger] v@[k]) by {
                if k < v0.len() {
                    assert(v@[k] == v0[k]);
                }
            }
            assert(v@ =~= rest@ + Seq::new((elems@.len() - j) as nat, |x: int| elems@[elems@.len() - 1 - x]));
        }
    }
    v
}

/// Only the nil reference denotes nil.
pub proof fn lemma_nil_value(obj: &Object, r: Ref)
    ensures
        obj.value_of(r) is Nil ==> r == Ref::Nil,
{
    match r {
        Ref::Ptr(i, _) => {
            if (i as int) < obj.heap_view().len() {
                match obj.heap_view()[i as int] {
                    crate::object::mm::Cell::Pair(_, _) => {},
                    _ => {},
                }
            }
        },
        _ => {},
    }
}

/// The values of pushed references are the pushed values.
proof fn lemma_values_pushed(obj: &Object, rest: Seq<Ref>, elems: Seq<Ref>)
    ensures
        values_of(obj, pushed(rest, elems)) == pushed(values_of(obj, rest), values_of(obj, elems)),
{
    assert(values_of(obj, pushed(rest, elems)) =~= pushed(values_of(obj, rest), values_of(obj, elems)));
}

/// Tries the rows whose next pattern is of kind `k` against `target_ref`.
fn try_kind<'a>(
    obj: &Object,
    k: u8,
    target_ref: Ref,
    rest: &Vec<Ref>,
    rows: &Vec<Row<'a>>,
    n: usize,
    fuel: u64,
    Ghost(clauses): Ghost<Seq<MatchClause>>,
    Ghost(target): Ghost<Val>,
) -> (res: Option<(usize, Vec<(Vec<char>, Ref)>)>)
    requires
        obj.wf(),
        all_valid(obj, rest@),
        obj.valid(target_ref),
        n == clauses.len(),
        rows_sound(obj, rows@, values_of(obj, rest@).push(obj.value_of(target_ref)), clauses, target),
    ensures
        res matches Some(m) ==> found_match(obj, m, clauses, target),
        some_kind_row_matches(obj, rows@, values_of(obj, rest@).push(obj.value_of(target_ref)), k, fuel as int)
            ==> res is Some,
        rows@.len() > 0 && row_patterns(rows@[0]).len() > 0 && kind_num(row_patterns(rows@[0]).last()) == k
            && stack_matches(obj, row_patterns(rows@[0]), values_of(obj, rest@).push(obj.value_of(target_ref)))
            && stack_size(row_patterns(rows@[0])) <= fuel ==> (res matches Some(m) && m.0 == rows@[0].clause),
    decreases fuel, 1nat,
{
    let ghost vs = values_of(obj, rest@).push(obj.value_of(target_ref));
    let ghost tv = obj.value_of(target_ref);
    let ghost hit = some_kind_row_matches(obj, rows@, vs, k, fuel as int);
    let ghost first = rows@.len() > 0 && row_patterns(rows@[0]).len() > 0 && kind_num(row_patterns(rows@[0]).last())
        == k && stack_matches(obj, row_patterns(rows@[0]), vs) && stack_size(row_patterns(rows@[0])) <= fuel;
    let ghost jw = if first {
        0
    } else {
        choose|j: int|
            0 <= j < rows@.len() && row_patterns(#[trigger] rows@[j]).len() > 0 && kind_num(
                row_patterns(rows@[j]).last(),
            ) == k && stack_matches(obj, row_patterns(rows@[j]), vs) && stack_size(row_patterns(rows@[j])) <= fuel
    };
    proof {
        if first {
            assert(some_kind_row_matches(obj, rows@, vs, k, fuel as int));
        }
    }
    let ghost pj = row_patterns(rows@[jw]);
    proof {
        assert(vs.drop_last() =~= values_of(obj, rest@));
        if hit {
            lemma_stack_matches_split(obj, pj, vs);
            assert(vs.last() == tv);
            let st = rows@[jw].stack@;
            assert(pj.last() == *st[st.len() - 1]);
        }
    }
    if k == 0 {
        // Literals: the rows whose literal equals the target.
        let mut sub: Vec<Row<'a>> = Vec::new();
        let mut i: usize = 0;
        proof {
            obj.lemma_wf();
        }
        while i < rows.len()
            invariant
                obj.wf(),
                crate::object::mm::heap_wf(obj.heap_view()),
                i <= rows@.len(),
                vs == values_of(obj, rest@).push(tv),
                tv == obj.value_of(target_ref),
                rows_sound(obj, rows@, vs, clauses, target),
                rows_sound(obj, sub@, values_of(obj, rest@), clauses, target),
                hit ==> 0 <= jw < rows@.len() && pj == row_patterns(rows@[jw]) && pj.len() > 0 && kind_num(pj.last())
                    == k && pattern_matches(obj, pj.last(), tv) && stack_matches(obj, pj.drop_last(), vs.drop_last())
                    && stack_size(pj) <= fuel,
                hit && jw < i ==> some_row_matches(obj, sub@, values_of(obj, rest@), fuel as int),
                vs.drop_last() == values_of(obj, rest@),
                k == 0,
                first ==> jw == 0 && rows@.len() > 0 && hit,
                i == 0 ==> sub@.len() == 0,
                first && 0 < i ==> sub@.len() > 0 && sub@[0].clause == rows@[0].clause && stack_matches(
                    obj,
                    row_patterns(sub@[0]),
                    values_of(obj, rest@),
                ) && stack_size(row_patterns(sub@[0])) < fuel,
            decreases rows@.len() - i,
        {
            let r = &rows[i];
            proof {
                if r.stack@.len() > 0 {
                    assert(row_patterns(*r).last() == *r.stack@[r.stack@.len() - 1]);
                }
                if hit && jw == i {
                    assert(*r == rows@[jw]);
                    assert(r.stack@[r.stack@.len() - 1] is Literal);
                }
            }
            if r.stack.len() > 0 {
                match r.stack[r.stack.len() - 1] {
                    Pattern::Literal(lit) => {
                        proof {
                            if hit && jw == i {
                                assert(pj.last() == Pattern::Literal(*lit));
                                assert(obj.value_of(*lit) == tv);
                            }
                        }
                        if Any::eq(obj.heap(), target_ref, obj.heap(), *lit) {
                            let row = next_row(r, None, None);
                            proof {
                                assert(row_sound(obj, rows@[i as int], vs, clauses, target));
                                let ps = row_patterns(*r);
                                assert(row_patterns(row) =~= ps.drop_last());
                                assert(binds_view(obj, row.binds@) =~= binds_view(obj, r.binds@));
                                assert forall|y: int| 0 <= y < row.binds@.len() implies obj.valid(#[trigger] row.binds@[y].1) by {
                                    assert(row.binds@[y].1 == r.binds@[y].1);
                                }
                                if stack_matches(obj, row_patterns(row), vs.drop_last()) {
                                    assert(ps.last() == Pattern::Literal(*lit));
                                    lemma_stack_matches_top(obj, ps, vs);
                                    assert(stack_binds(ps, vs) =~= stack_binds(ps.drop_last(), vs.drop_last()));
                                }
                                lemma_row_step(obj, *r, vs, row, vs.drop_last(), clauses, target);
                                assert(vs.drop_last() =~= values_of(obj, rest@));
                                assert(row_sound(obj, row, values_of(obj, rest@), clauses, target));
                            }
                            let ghost s0 = sub@;
                            sub.push(row);
                            proof {
                                assert forall|x: int| 0 <= x < sub@.len() implies row_sound(
                                    obj,
                                    #[trigger] sub@[x],
                                    values_of(obj, rest@),
                                    clauses,
                                    target,
                                ) by {
                                    if x < s0.len() {
                                        assert(sub@[x] == s0[x]);
                                    } else {
                                        assert(sub@[x] == row);
                                    }
                                }
                                if hit && jw < i {
                                    let w = choose|w: int|
                                        0 <= w < s0.len() && stack_matches(obj, row_patterns(#[trigger] s0[w]), values_of(obj, rest@))
                                            && stack_size(row_patterns(s0[w])) < fuel;
                                    assert(sub@[w] == s0[w]);
                                }
                                if hit && jw == i {
                                    assert(row_patterns(row) =~= pj.drop_last());
                                    assert(stack_size(pj) == pattern_size(pj.last()) + stack_size(pj.drop_last()));
                                    assert(sub@[s0.len() as int] == row);
                                }
                                if first && 0 < i {
                                    assert(sub@[0] == s0[0]);
                                }
                                if first && i == 0 {
                                    assert(s0.len() == 0);
                                    assert(sub@[0] == row);
                                    assert(row.clause == rows@[0].clause);
                                    assert(stack_matches(obj, row_patterns(row), values_of(obj, rest@)));
                                    assert(stack_size(row_patterns(row)) < fuel);
                                }
                            }
                        }
                    },
                    _ => {
                        proof {
                            assert(!hit || jw != i);
                        }
                    },
                }
            }
            i = i + 1;
        }
        proof {
            if hit {
                assert(jw < i);
            }
        }
        if sub.len() == 0 {
            return None;
        }
        let values = copy_values(rest);
        match_rows(obj, values, sub, n, fuel, Ghost(clauses), Ghost(target))
    } else if k == 1 {
        // Binds: each row in order.
        let mut i: usize = 0;
        while i < rows.len()
            invariant
                obj.wf(),
                i <= rows@.len(),
                vs == values_of(obj, rest@).push(tv),
                tv == obj.value_of(target_ref),
                rows_sound(obj, rows@, vs, clauses, target),
                all_valid(obj, rest@),
                obj.valid(target_ref),
                n == clauses.len(),
                k == 1,
                vs.drop_last() == values_of(obj, rest@),
                hit ==> 0 <= jw < rows@.len() && pj == row_patterns(rows@[jw]) && pj.len() > 0 && kind_num(pj.last())
                    == k && pattern_matches(obj, pj.last(), tv) && stack_matches(obj, pj.drop_last(), vs.drop_last())
                    && stack_size(pj) <= fuel,
                hit ==> i <= jw,
                first ==> jw == 0 && rows@.len() > 0 && hit,
                first == (rows@.len() > 0 && row_patterns(rows@[0]).len() > 0 && kind_num(row_patterns(rows@[0]).last())
                    == k && stack_matches(obj, row_patterns(rows@[0]), vs) && stack_size(row_patterns(rows@[0]))
                    <= fuel),
            decreases rows@.len() - i,
        {
            let r = &rows[i];
            proof {
                if r.stack@.len() > 0 {
                    assert(row_patterns(*r).last() == *r.stack@[r.stack@.len() - 1]);
                }
                if hit && jw == i {
                    assert(*r == rows@[jw]);
                    assert(r.stack@[r.stack@.len() - 1] is Bind);
                }
            }
            if r.stack.len() > 0 {
                match r.stack[r.stack.len() - 1] {
                    Pattern::Bind(name) => {
                        let is_wild = name.len() == 1 && name[0] == '_';
                        let bind = if is_wild {
                            None
                        } else {
                            Some((copy_chars(name), target_ref))
                        };
                        let row = next_row(r, None, bind);
                        proof {
                            assert(row_sound(obj, rows@[i as int], vs, clauses, target));
                            let ps = row_patterns(*r);
                            assert(row_patterns(row) =~= ps.drop_last());
                            assert(ps.last() == Pattern::Bind(*name));
                            if is_wild {
                                assert(name@ =~= seq!['_']);
                            }
                            assert(is_wild <==> name@ == seq!['_']);
                            let extra = pattern_binds(ps.last(), tv);
                            if is_wild {
                                assert(extra =~= Seq::<(Seq<char>, Val)>::empty());
                            } else {
                                assert(extra =~= seq![(name@, tv)]);
                            }
                            lemma_binds_view_push(obj, *r, row, extra);
                            assert forall|y: int| 0 <= y < row.binds@.len() implies obj.valid(#[trigger] row.binds@[y].1) by {
                                if y < r.binds@.len() {
                                    assert(row.binds@[y].1 == r.binds@[y].1);
                                }
                            }
                            if stack_matches(obj, row_patterns(row), vs.drop_last()) {
                                lemma_stack_matches_top(obj, ps, vs);
                                assert(stack_binds(ps, vs) == extra + stack_binds(ps.drop_last(), vs.drop_last()));
                                assert(binds_view(obj, row.binds@) + stack_binds(row_patterns(row), vs.drop_last())
                                    =~= binds_view(obj, r.binds@) + stack_binds(ps, vs));
                            }
                            lemma_row_step(obj, *r, vs, row, vs.drop_last(), clauses, target);
                        }
                        let mut one: Vec<Row<'a>> = Vec::new();
                        one.push(row);
                        proof {
                            assert(one@[0] == row);
                        }
                        let values = copy_values(rest);
                        proof {
                            assert(vs.drop_last() =~= values_of(obj, values@));
                        }
                        proof {
                            if hit && jw == i {
                                assert(row_patterns(row) =~= pj.drop_last());
                                assert(stack_size(pj) == pattern_size(pj.last()) + stack_size(pj.drop_last()));
                                assert(one@[0] == row);
                                assert(some_row_matches(obj, one@, values_of(obj, values@), fuel as int));
                                assert(stack_matches(obj, row_patterns(one@[0]), values_of(obj, values@)));
                                assert(one@[0].clause == rows@[0].clause || !first);
                            }
                        }
                        let ghost one0 = one@;
                        let m = match_rows(obj, values, one, n, fuel, Ghost(clauses), Ghost(target));
                        proof {
                            if first {
                                assert(i == 0);
                                assert(one0[0] == row);
                                assert(row.clause == rows@[0].clause);
                                assert(stack_matches(obj, row_patterns(one0[0]), values_of(obj, values@)));
                                assert(stack_size(row_patterns(one0[0])) < fuel);
                                assert(one0.len() > 0);
                                assert(m matches Some(mm) && mm.0 == one0[0].clause);
                            }
                        }
                        if m.is_some() {
                            proof {
                                assert(first ==> (m matches Some(mm) && mm.0 == rows@[0].clause));

                            }
                            return m;
                        }
                    },
                    _ => {
                        proof {
                            assert(!hit || jw != i);
                        }
                    },
                }
            }
            i = i + 1;
        }
        None
    } else {
        // Containers: the rows whose container has the target's length.
        let is_kind = if k == 2 {
            List::is_nil(target_ref) || List::is_pair(obj, target_ref)
        } else if k == 3 {
            Array::is(obj, target_ref)
        } else {
            Tuple::is(obj, target_ref)
        };
        proof {
            if hit {
                lemma_nil_value(obj, target_ref);
                match pj.last() {
                    Pattern::List(_) => {
                        assert(k == 2);
                    },
                    Pattern::Array(_) => {
                        assert(k == 3);
                    },
                    Pattern::Tuple(_) => {
                        assert(k == 4);
                    },
                    _ => {},
                }
            }
        }
        if !is_kind {
            return None;
        }
        let elems = if k == 2 {
            elements(obj, target_ref)
        } else {
            crate::compile::container_items(obj, target_ref)
        };
        let ghost items = values_of(obj, elems@);
        let values = push_elements(obj, rest, &elems);
        proof {
            lemma_values_pushed(obj, rest@, elems@);
        }
        let mut sub: Vec<Row<'a>> = Vec::new();
        let mut i: usize = 0;
        while i < rows.len()
            invariant
                obj.wf(),
                i <= rows@.len(),
                vs == values_of(obj, rest@).push(tv),
                tv == obj.value_of(target_ref),
                items == values_of(obj, elems@),
                values@ == pushed(rest@, elems@),
                values_of(obj, values@) == pushed(values_of(obj, rest@), items),
                k == 2 ==> is_list_val(tv) && items == list_items(tv),
                k == 3 ==> tv is Array && items == array_items(tv),
                k != 2 && k != 3 ==> is_tuple_val(tv) && items == tuple_items(tv),
                rows_sound(obj, rows@, vs, clauses, target),
                rows_sound(obj, sub@, values_of(obj, values@), clauses, target),
                k != 0 && k != 1,
                vs.drop_last() == values_of(obj, rest@),
                hit ==> 0 <= jw < rows@.len() && pj == row_patterns(rows@[jw]) && pj.len() > 0 && kind_num(pj.last())
                    == k && pattern_matches(obj, pj.last(), tv) && stack_matches(obj, pj.drop_last(), vs.drop_last())
                    && stack_size(pj) <= fuel,
                hit && jw < i ==> some_row_matches(obj, sub@, values_of(obj, values@), fuel as int),
                first ==> jw == 0 && rows@.len() > 0 && hit,
                i == 0 ==> sub@.len() == 0,
                first && 0 < i ==> sub@.len() > 0 && sub@[0].clause == rows@[0].clause && stack_matches(
                    obj,
                    row_patterns(sub@[0]),
                    values_of(obj, values@),
                ) && stack_size(row_patterns(sub@[0])) < fuel,
            decreases rows@.len() - i,
        {
            let r = &rows[i];
            proof {
                if r.stack@.len() > 0 {
                    assert(row_patterns(*r).last() == *r.stack@[r.stack@.len() - 1]);
                }
                if hit && jw == i {
                    assert(*r == rows@[jw]);
                    let qs = match pj.last() {
                        Pattern::List(q) => q@,
                        Pattern::Array(q) => q@,
                        Pattern::Tuple(q) => q@,
                        _ => Seq::empty(),
                    };
                    assert(elems_match(obj, qs, items));
                    lemma_elems_match(obj, qs, items);
                    assert(qs.len() == elems@.len());
                }
            }
            if r.stack.len() > 0 {
                let top = r.stack[r.stack.len() - 1];
                let ps: Option<&'a Vec<Pattern>> = match top {
                    Pattern::List(ps) => if k == 2 {
                        Some(ps)
                    } else {
                        None
                    },
                    Pattern::Array(ps) => if k == 3 {
                        Some(ps)
                    } else {
                        None
                    },
                    Pattern::Tuple(ps) => if k != 2 && k != 3 {
                        Some(ps)
                    } else {
                        None
                    },
                    _ => None,
                };
                match ps {
                    Some(ps) => {
                        if ps.len() == elems.len() {
                            let row = next_row(r, Some(ps), None);
                            proof {
                                assert(row_sound(obj, rows@[i as int], vs, clauses, target));
                                let pr = row_patterns(*r);
                                assert(pr.last() == *top);
                                assert(binds_view(obj, row.binds@) =~= binds_view(obj, r.binds@));
                                assert forall|y: int| 0 <= y < row.binds@.len() implies obj.valid(#[trigger] row.binds@[y].1) by {
                                    assert(row.binds@[y].1 == r.binds@[y].1);
                                }
                                let ws = values_of(obj, values@);
                                lemma_stack_binds_pushed(pr.drop_last(), vs.drop_last(), ps@, items);
                                lemma_stack_matches_pushed(obj, pr.drop_last(), vs.drop_last(), ps@, items);
                                assert(vs.last() == tv);
                                assert(ws == pushed(vs.drop_last(), items));
                                if stack_matches(obj, row_patterns(row), ws) {
                                    assert(pattern_matches(obj, pr.last(), vs.last()));
                                    lemma_stack_matches_top(obj, pr, vs);
                                    assert(pattern_binds(pr.last(), vs.last()) == elems_binds(ps@, items));
                                    assert(stack_binds(pr, vs) == pattern_binds(pr.last(), vs.last()) + stack_binds(
                                        pr.drop_last(),
                                        vs.drop_last(),
                                    ));
                                    assert(stack_binds(row_patterns(row), ws) == elems_binds(ps@, items) + stack_binds(
                                        pr.drop_last(),
                                        vs.drop_last(),
                                    ));
                                    assert(binds_view(obj, row.binds@) + stack_binds(row_patterns(row), ws)
                                        =~= binds_view(obj, r.binds@) + stack_binds(pr, vs));
                                }
                                lemma_row_step(obj, *r, vs, row, ws, clauses, target);
                            }
                            let ghost s0 = sub@;
                            sub.push(row);
                            proof {
                                assert forall|x: int| 0 <= x < sub@.len() implies row_sound(
                                    obj,
                                    #[trigger] sub@[x],
                                    values_of(obj, values@),
                                    clauses,
                                    target,
                                ) by {
                                    if x < s0.len() {
                                        assert(sub@[x] == s0[x]);
                                    }
                                }
                                if hit && jw < i {
                                    let w = choose|w: int|
                                        0 <= w < s0.len() && stack_matches(obj, row_patterns(#[trigger] s0[w]), values_of(obj, values@))
                                            && stack_size(row_patterns(s0[w])) < fuel;
                                    assert(sub@[w] == s0[w]);
                                }
                                if hit && jw == i {
                                    let pr = row_patterns(*r);
                                    lemma_stack_matches_pushed(obj, pr.drop_last(), vs.drop_last(), ps@, items);
                                    lemma_elems_match(obj, ps@, items);
                                    lemma_stack_size_pushed(pr.drop_last(), ps@);
                                    assert(stack_size(pr) == pattern_size(pr.last()) + stack_size(pr.drop_last()));
                                    assert(sub@[s0.len() as int] == row);
                                    if first && i == 0 {
                                        assert(s0.len() == 0);
                                        assert(sub@[0] == row);
                                        assert(row.clause == rows@[0].clause);
                                        assert(stack_matches(obj, row_patterns(row), values_of(obj, values@)));
                                        assert(stack_size(row_patterns(row)) < fuel);
                                    }
                                }
                                if first && 0 < i {
                                    assert(sub@[0] == s0[0]);
                                }
                            }
                        }
                    },
                    None => {},
                }
            }
            i = i + 1;
        }
        if sub.len() == 0 {
            return None;
        }
        match_rows(obj, values, sub, n, fuel, Ghost(clauses), Ghost(target))
    }
}

/// A copy of `v`.
fn copy_values(v: &Vec<Ref>) -> (res: Vec<Ref>)
    ensures
        res@ == v@,
{
    crate::object::mm::copy_refs(v)
}

/// Finds the clause that matches `target`, as `match` compiles its clauses,
/// and the variables the clause's pattern binds. A clause it finds matches
/// the target and binds exactly these variables, and one is found whenever a
/// clause matches whose pattern has fewer nodes than `fuel`. The kinds of
/// patterns are tried in the order they first appear, so when the first
/// clause matches, it is the one found.
pub fn find_match(obj: &Object, target: Ref, clauses: &Vec<MatchClause>, fuel: u64) -> (res: Option<
    (usize, Vec<(Vec<char>, Ref)>),
>)
    requires
        obj.wf(),
        obj.valid(target),
    ensures
        res matches Some(m) ==> found_match(obj, m, clauses@, obj.value_of(target)),
        (exists|c: int|
            0 <= c < clauses@.len() && pattern_matches(obj, #[trigger] clauses@[c].pattern, obj.value_of(target))
                && pattern_size(clauses@[c].pattern) < fuel) ==> res is Some,
        clauses@.len() > 0 && pattern_matches(obj, clauses@[0].pattern, obj.value_of(target)) && pattern_size(
            clauses@[0].pattern,
        ) < fuel ==> (res matches Some(m) && m.0 == 0),
{
    let ghost tv = obj.value_of(target);
    let mut rows: Vec<Row> = Vec::new();
    let mut i: usize = 0;
    while i < clauses.len()
        invariant
            i <= clauses@.len(),
            tv == obj.value_of(target),
            rows_sound(obj, rows@, seq![tv], clauses@, tv),
            rows@.len() == i,
            forall|x: int| 0 <= x < i ==> row_patterns(#[trigger] rows@[x]) == seq![clauses@[x].pattern],
            forall|x: int| 0 <= x < i ==> (#[trigger] rows@[x]).clause == x,
        decreases clauses@.len() - i,
    {
        let mut stack: Vec<&Pattern> = Vec::new();
        stack.push(&clauses[i].pattern);
        let row = Row { stack, clause: i, binds: Vec::new() };
        proof {
            let p = clauses@[i as int].pattern;
            assert(row_patterns(row) =~= seq![p]);
            assert(binds_view(obj, row.binds@) =~= Seq::<(Seq<char>, Val)>::empty());
            let e = Seq::<Pattern>::empty();
            assert(seq![p].drop_last() =~= e);
            assert(seq![p].last() == p);
            assert(seq![tv].last() == tv);
            assert(seq![tv].drop_last() =~= Seq::<Val>::empty());
            assert(stack_binds(e, Seq::<Val>::empty()) =~= Seq::<(Seq<char>, Val)>::empty());
            assert(stack_binds(seq![p], seq![tv]) =~= pattern_binds(p, tv));
            if stack_matches(obj, row_patterns(row), seq![tv]) {
                assert(row_patterns(row)[0] == p);
            }
            assert(binds_view(obj, row.binds@) + stack_binds(row_patterns(row), seq![tv]) =~= pattern_binds(p, tv));
        }
        let ghost r0 = rows@;
        rows.push(row);
        proof {
            assert forall|x: int| 0 <= x < rows@.len() implies row_sound(obj, #[trigger] rows@[x], seq![tv], clauses@, tv) by {
                if x < r0.len() {
                    assert(rows@[x] == r0[x]);
                }
            }
            assert forall|x: int| 0 <= x < i + 1 implies row_patterns(#[trigger] rows@[x]) == seq![clauses@[x].pattern] by {
                if x < r0.len() {
                    assert(rows@[x] == r0[x]);
                }
            }
            assert forall|x: int| 0 <= x < i + 1 implies (#[trigger] rows@[x]).clause == x by {
                if x < r0.len() {
                    assert(rows@[x] == r0[x]);
                }
            }
        }
        i = i + 1;
    }
    let mut values: Vec<Ref> = Vec::new();
    values.push(target);
    proof {
        assert(values_of(obj, values@) =~= seq![tv]);
        if exists|c: int|
            0 <= c < clauses@.len() && pattern_matches(obj, #[trigger] clauses@[c].pattern, tv) && pattern_size(
                clauses@[c].pattern,
            ) < fuel {
            let c = choose|c: int|
                0 <= c < clauses@.len() && pattern_matches(obj, #[trigger] clauses@[c].pattern, tv) && pattern_size(
                    clauses@[c].pattern,
                ) < fuel;
            let ps = row_patterns(rows@[c]);
            assert(ps == seq![clauses@[c].pattern]);
            assert(ps.drop_last() =~= Seq::<Pattern>::empty());
            assert(stack_size(ps.drop_last()) == 0);
            assert(ps.last() == clauses@[c].pattern);
            assert(stack_size(ps) == pattern_size(clauses@[c].pattern));
            assert(stack_matches(obj, ps, seq![tv]));
        }
        if clauses@.len() > 0 && pattern_matches(obj, clauses@[0].pattern, tv) && pattern_size(clauses@[0].pattern)
            < fuel {
            let ps = row_patterns(rows@[0]);
            assert(ps == seq![clauses@[0].pattern]);
            assert(ps.drop_last() =~= Seq::<Pattern>::empty());
            assert(stack_size(ps.drop_last()) == 0);
            assert(ps.last() == clauses@[0].pattern);
            assert(stack_size(ps) == pattern_size(clauses@[0].pattern));
            assert(stack_matches(obj, ps, seq![tv]));
        }
    }
    match_rows(obj, values, rows, clauses.len(), fuel, Ghost(clauses@), Ghost(tv))
}

} // verus!
