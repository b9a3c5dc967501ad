use vstd::prelude::*;

use crate::object::Object;
use crate::object::mm::{CellKind, cell_refs};
use crate::value::Ref;
use crate::value::any::{Val, denote, denote_seq, lemma_container_cell, lemma_refs_rank, ref_rank};
use crate::value::func::{FuncId, spec_func_name};
use crate::value::symbol::{decimal, push_decimal};
use crate::value::syntax::SyntaxId;

verus! {

/// The text of the integer `n` in decimal, with a minus sign when negative.
pub open spec fn int_text(n: int) -> Seq<char> {
    if n < 0 {
        seq!['-'] + decimal((-n) as nat)
    } else {
        decimal(n as nat)
    }
}

/// The name of the syntax `id`.
pub open spec fn spec_syntax_name(id: SyntaxId) -> Seq<char> {
    match id {
        SyntaxId::If => "if"@,
        SyntaxId::Begin => "begin"@,
        SyntaxId::Cond => "cond"@,
        SyntaxId::DefRecv => "def-recv"@,
        SyntaxId::Fun => "fun"@,
        SyntaxId::Local => "local"@,
        SyntaxId::Let => "let"@,
        SyntaxId::LetGlobal => "let-global"@,
        SyntaxId::Quote => "quote"@,
        SyntaxId::Unquote => "unquote"@,
        SyntaxId::Bind => "bind"@,
        SyntaxId::Match => "match"@,
        SyntaxId::And => "and"@,
        SyntaxId::Or => "or"@,
        SyntaxId::ObjectSwitch => "object-switch"@,
        SyntaxId::ReturnObjectSwitch => "return-object-switch"@,
        SyntaxId::FailCatch => "fail-catch"@,
    }
}

/// The name of the syntax `id`.
pub fn syntax_name(id: SyntaxId) -> (n: &'static str)
    ensures
        n@ == spec_syntax_name(id),
{
    match id {
        SyntaxId::If => "if",
        SyntaxId::Begin => "begin",
        SyntaxId::Cond => "cond",
        SyntaxId::DefRecv => "def-recv",
        SyntaxId::Fun => "fun",
        SyntaxId::Local => "local",
        SyntaxId::Let => "let",
        SyntaxId::LetGlobal => "let-global",
        SyntaxId::Quote => "quote",
        SyntaxId::Unquote => "unquote",
        SyntaxId::Bind => "bind",
        SyntaxId::Match => "match",
        SyntaxId::And => "and",
        SyntaxId::Or => "or",
        SyntaxId::ObjectSwitch => "object-switch",
        SyntaxId::ReturnObjectSwitch => "return-object-switch",
        SyntaxId::FailCatch => "fail-catch",
    }
}

/// How the value `v` is printed: numbers in decimal (reals as written),
/// texts as they are, lists in round brackets, arrays in square brackets
/// and tuples in braces with their elements separated by spaces, builtins
/// by their names, and the other values by a mark of their kind.
pub open spec fn show(v: Val) -> Seq<char>
    decreases v,
{
    match v {
        Val::Nil => "()"@,
        Val::True => "true"@,
        Val::False => "false"@,
        Val::Unit => "{}"@,
        Val::MatchFail => "#fail"@,
        Val::Int(n) => int_text(n),
        Val::Real(s) => s,
        Val::Str(s) => s,
        Val::Sym(s) => s,
        Val::Kw(s) => s,
        Val::Pair(a, b) => seq!['('] + show(*a) + show_rest(*b) + seq![')'],
        Val::Array(s) => seq!['['] + show_seq(s) + seq![']'],
        Val::Tuple(s) => seq!['{'] + show_seq(s) + seq!['}'],
        Val::Func(f) => spec_func_name(f),
        Val::Syntax(s) => spec_syntax_name(s),
        Val::Object(_) => "#Object"@,
        Val::Closure(_, _) => "#closure"@,
        Val::Reply(_) => "#reply"@,
        Val::Invalid => Seq::empty(),
    }
}

/// The elements of the rest `v` of a list, each after a space.
pub open spec fn show_rest(v: Val) -> Seq<char>
    decreases v,
{
    match v {
        Val::Pair(a, b) => seq![' '] + show(*a) + show_rest(*b),
        _ => Seq::empty(),
    }
}

/// The values of `s` printed, separated by spaces.
pub open spec fn show_seq(s: Seq<Val>) -> Seq<char>
    decreases s,
{
    if s.len() == 0 {
        Seq::empty()
    } else {
        proof {
            vstd::seq::axiom_seq_subrange_decreases(s, 0, s.len() - 1);
        }
        if s.len() == 1 {
            show(s.last())
        } else {
            show_seq(s.drop_last()) + seq![' '] + show(s.last())
        }
    }
}

/// Appends the characters of `s` to `out`.
pub fn push_str(s: &str, out: &mut Vec<char>)
    ensures
        final(out)@ == old(out)@ + s@,
{
    let mut v = crate::value::string::str_to_chars(s);
    out.append(&mut v);
}

/// Appends the characters of `s` to `out`.
fn push_chars(s: &Vec<char>, out: &mut Vec<char>)
    ensures
        final(out)@ == old(out)@ + s@,
{
    let mut v = crate::object::mm::copy_chars(s);
    out.append(&mut v);
}

/// Appends the integer `n` in decimal to `out`.
pub fn push_int(n: i64, out: &mut Vec<char>)
    ensures
        final(out)@ == old(out)@ + int_text(n as int),
{
    if n < 0 {
        out.push('-');
        let m: u64 = if n == i64::MIN {
            9223372036854775808u64
        } else {
            (-n) as u64
        };
        let ghost o1 = out@;
        push_decimal(m, out);
        proof {
            assert(old(out)@ + int_text(n as int) =~= o1 + decimal(m as nat));
        }
    } else {
        push_decimal(n as u64, out);
    }
}

/// Appends how the value `v` is printed to `out`.
pub fn display(obj: &Object, v: Ref, out: &mut Vec<char>)
    requires
        obj.wf(),
    ensures
        final(out)@ == old(out)@ + show(obj.value_of(v)),
    decreases ref_rank(v), 1nat,
{
    match v {
        Ref::Nil => push_str("()", out),
        Ref::True => push_str("true", out),
        Ref::False => push_str("false", out),
        Ref::Unit => push_str("{}", out),
        Ref::MatchFail => push_str("#fail", out),
        Ref::Fixnum(n) => push_int(n, out),
        Ref::Func(id) => push_str(crate::value::func::Func::new(id).name(), out),
        Ref::Syntax(id) => push_str(syntax_name(id), out),
        Ref::Ptr(i, _) => {
            if i >= obj.heap().len() {
                proof {
                    assert(old(out)@ + show(obj.value_of(v)) =~= old(out)@);
                }
                return;
            }
            proof {
                obj.lemma_wf();
                lemma_refs_rank(obj.heap_view(), i as int);
            }
            let ghost hc = obj.heap_view()[i as int];
            let h = obj.heap();
            match h.kind(i) {
                CellKind::Integer => push_int(h.integer(i), out),
                CellKind::Real | CellKind::Str | CellKind::Symbol | CellKind::Keyword => {
                    let t = h.text(i);
                    push_chars(&t, out);
                },
                CellKind::ObjectRef => push_str("#Object", out),
                CellKind::Closure => push_str("#closure", out),
                CellKind::Reply => push_str("#reply", out),
                CellKind::Pair => {
                    let (a, b) = h.pair(i);
                    proof {
                        assert(cell_refs(hc)[0] == a);
                        assert(cell_refs(hc)[1] == b);
                    }
                    let ghost o0 = out@;
                    out.push('(');
                    display(obj, a, out);
                    display_rest(obj, b, out);
                    out.push(')');
                    proof {
                        assert(out@ =~= o0 + show(obj.value_of(v)));
                    }
                },
                CellKind::Array | CellKind::Tuple => {
                    let refs = h.cell_children(i);
                    proof {
                        lemma_container_cell(obj.heap_view(), i as int);
                    }
                    let ghost o0 = out@;
                    let is_array = h.kind(i) == CellKind::Array;
                    out.push(if is_array {
                        '['
                    } else {
                        '{'
                    });
                    display_seq(obj, &refs, i, out);
                    out.push(if is_array {
                        ']'
                    } else {
                        '}'
                    });
                    proof {
                        let s = denote_seq(obj.heap_view(), refs@, i as int);
                        assert(s =~= refs@.map_values(|r: Ref| obj.value_of(r)));
                        assert(out@ =~= o0 + show(obj.value_of(v)));
                    }
                },
            }
        },
    }
}

/// Appends the elements of the rest `v` of a list to `out`, each after a
/// space.
fn display_rest(obj: &Object, v: Ref, out: &mut Vec<char>)
    requires
        obj.wf(),
    ensures
        final(out)@ == old(out)@ + show_rest(obj.value_of(v)),
    decreases ref_rank(v), 1nat,
{
    if crate::value::list::List::is_pair(obj, v) {
        proof {
            crate::value::list::lemma_pair_value(obj.heap_view(), v);
        }
        let (a, b) = crate::value::list::List::parts(obj, v);
        let ghost o0 = out@;
        out.push(' ');
        display(obj, a, out);
        display_rest(obj, b, out);
        proof {
            assert(out@ =~= o0 + show_rest(obj.value_of(v)));
        }
    } else {
        proof {
            assert(old(out)@ + show_rest(obj.value_of(v)) =~= old(out)@);
        }
    }
}

/// Appends the values `refs` (held by the cell `i`) to `out`, separated
/// by spaces.
fn display_seq(obj: &Object, refs: &Vec<Ref>, i: usize, out: &mut Vec<char>)
    requires
        obj.wf(),
        i < obj.heap_view().len(),
        forall|k: int| 0 <= k < refs@.len() ==> ref_rank(#[trigger] refs@[k]) <= i,
    ensures
        final(out)@ == old(out)@ + show_seq(refs@.map_values(|r: Ref| obj.value_of(r))),
    decreases i + 1, 0nat,
{
    let ghost vals = refs@.map_values(|r: Ref| obj.value_of(r));
    let mut k: usize = 0;
    while k < refs.len()
        invariant
            k <= refs@.len(),
            obj.wf(),
            i < obj.heap_view().len(),
            forall|j: int| 0 <= j < refs@.len() ==> ref_rank(#[trigger] refs@[j]) <= i,
            vals == refs@.map_values(|r: Ref| obj.value_of(r)),
            out@ == old(out)@ + show_seq(vals.take(k as int)),
        decreases refs@.len() - k,
    {
        let ghost o0 = out@;
        if k > 0 {
            out.push(' ');
        }
        display(obj, refs[k], out);
        proof {
            let t = vals.take(k + 1);
            assert(t.drop_last() =~= vals.take(k as int));
            assert(t.last() == obj.value_of(refs@[k as int]));
            if k == 0 {
                assert(out@ =~= old(out)@ + show_seq(t));
            } else {
                assert(out@ =~= old(out)@ + show_seq(t));
            }
        }
        k = k + 1;
    }
    proof {
        assert(vals.take(refs@.len() as int) =~= vals);
    }
}


/// The values of `s` printed one after the other.
pub open spec fn show_all(s: Seq<Val>) -> Seq<char>
    decreases s.len(),
{
    if s.len() == 0 {
        Seq::empty()
    } else {
        show_all(s.drop_last()) + show(s.last())
    }
}

/// `print`: adds the values `args`, printed one after the other, and a
/// line break to the printed text of `obj`; answers unit.
pub fn func_print(obj: &mut Object, args: &Vec<Ref>) -> (res: Ref)
    requires
        old(obj).wf(),
    ensures
        res == Ref::Unit,
        final(obj).redefined_from(old(obj)),
        forall|k: Seq<char>| #[trigger] final(obj).global(k) == old(obj).global(k),
        final(obj).spec_output() == old(obj).spec_output() + show_all(args@.map_values(|r: Ref| old(obj).value_of(r)))
            + seq!['\n'],
{
    let ghost vals = args@.map_values(|r: Ref| obj.value_of(r));
    let mut text: Vec<char> = Vec::new();
    let mut k: usize = 0;
    while k < args.len()
        invariant
            k <= args@.len(),
            obj.wf(),
            vals == args@.map_values(|r: Ref| obj.value_of(r)),
            text@ == show_all(vals.take(k as int)),
        decreases args@.len() - k,
    {
        display(obj, args[k], &mut text);
        proof {
            assert(vals.take(k + 1).drop_last() =~= vals.take(k as int));
        }
        k = k + 1;
    }
    proof {
        assert(vals.take(args@.len() as int) =~= vals);
    }
    text.push('\n');
    obj.write_output(&mut text);
    Ref::Unit
}

} // verus!
