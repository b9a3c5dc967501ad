use vstd::prelude::*;

use crate::object::mm::{
    Cell, CellKind, Heap, cell_refs, heap_wf, count_true, forward_ref, forward_refs, gc_cells_law, gc_law,
    live_set, reachable, same_shape, valid_refs, lemma_count_true_mono, lemma_count_true_bounds, lemma_reachable_child,
    lemma_reachable_def,
};
use crate::value::{Ref, ref_index, ref_below, points_to};
use crate::object::Object;
use crate::value::func::FuncId;
use crate::value::syntax::SyntaxId;

verus! {

/// The abstract value a reference denotes in a heap: the tree of data it
/// leads to. Small and large integers denote the same `Int`.
pub enum Val {
    Nil,
    True,
    False,
    Unit,
    MatchFail,
    Int(int),
    Real(Seq<char>),
    Str(Seq<char>),
    Sym(Seq<char>),
    Kw(Seq<char>),
    Pair(Box<Val>, Box<Val>),
    Array(Seq<Val>),
    Tuple(Seq<Val>),
    Func(FuncId),
    Syntax(SyntaxId),
    Object(nat),
    /// A function made by `fun`: its code and the values it captured.
    Closure(nat, Seq<Val>),
    /// The reply to a message, holding the answered value.
    Reply(Box<Val>),
    /// A reference that names no cell.
    Invalid,
}

/// One more than the heap index of a pointer; 0 for immediate values.
pub open spec fn ref_rank(r: Ref) -> nat {
    match r {
        Ref::Ptr(i, _) => (i + 1) as nat,
        _ => 0,
    }
}

/// The value `r` denotes in `h`.
pub open spec fn denote(h: Seq<Cell>, r: Ref) -> Val
    decreases ref_rank(r), 2nat, 0nat,
{
    match r {
        Ref::Nil => Val::Nil,
        Ref::True => Val::True,
        Ref::False => Val::False,
        Ref::Unit => Val::Unit,
        Ref::MatchFail => Val::MatchFail,
        Ref::Fixnum(n) => Val::Int(n as int),
        Ref::Func(f) => Val::Func(f),
        Ref::Syntax(s) => Val::Syntax(s),
        Ref::Ptr(i, _) => if i < h.len() {
            denote_cell(h, i as int)
        } else {
            Val::Invalid
        },
    }
}

/// The value the cell `i` of `h` denotes.
pub open spec fn denote_cell(h: Seq<Cell>, i: int) -> Val
    decreases i + 1, 1nat, 0nat,
{
    if 0 <= i < h.len() {
        match h[i] {
            Cell::Integer(n) => Val::Int(n as int),
            Cell::Real(s) => Val::Real(s@),
            Cell::Str(s) => Val::Str(s@),
            Cell::Symbol(s) => Val::Sym(s@),
            Cell::Keyword(s) => Val::Kw(s@),
            Cell::Pair(a, b) => if ref_rank(a) <= i && ref_rank(b) <= i {
                Val::Pair(Box::new(denote(h, a)), Box::new(denote(h, b)))
            } else {
                Val::Invalid
            },
            Cell::Array(v) => Val::Array(denote_seq(h, v@, i)),
            Cell::Tuple(v) => Val::Tuple(denote_seq(h, v@, i)),
            Cell::ObjectRef(id) => Val::Object(id as nat),
            Cell::Closure(id, v) => Val::Closure(id as nat, denote_seq(h, v@, i)),
            Cell::Reply(a) => if ref_rank(a) <= i {
                Val::Reply(Box::new(denote(h, a)))
            } else {
                Val::Invalid
            },
        }
    } else {
        Val::Invalid
    }
}

/// The values the references of `s` (held by the cell `i`) denote.
pub open spec fn denote_seq(h: Seq<Cell>, s: Seq<Ref>, i: int) -> Seq<Val>
    decreases i + 1, 0nat, s.len(),
{
    if s.len() == 0 || i < 0 {
        Seq::empty()
    } else {
        denote_seq(h, s.drop_last(), i).push(
            if ref_rank(s.last()) <= i {
                denote(h, s.last())
            } else {
                Val::Invalid
            },
        )
    }
}

/// Under a well-formed heap, `denote_seq` denotes each reference.
pub proof fn lemma_denote_seq(h: Seq<Cell>, s: Seq<Ref>, i: int)
    requires
        0 <= i,
        forall|k: int| 0 <= k < s.len() ==> ref_rank(#[trigger] s[k]) <= i,
    ensures
        denote_seq(h, s, i).len() == s.len(),
        forall|k: int| 0 <= k < s.len() ==> #[trigger] denote_seq(h, s, i)[k] == denote(h, s[k]),
    decreases s.len(),
{
    if s.len() > 0 {
        let t = s.drop_last();
        assert forall|k: int| 0 <= k < t.len() implies ref_rank(#[trigger] t[k]) <= i by {
            assert(t[k] == s[k]);
        }
        lemma_denote_seq(h, t, i);
        assert forall|k: int| 0 <= k < s.len() implies #[trigger] denote_seq(h, s, i)[k] == denote(h, s[k]) by {
            if k < s.len() - 1 {
                assert(t[k] == s[k]);
            }
        }
    }
}

/// In a well-formed heap a cell's references rank below the cell.
pub proof fn lemma_refs_rank(h: Seq<Cell>, i: int)
    requires
        heap_wf(h),
        0 <= i < h.len(),
    ensures
        forall|k: int| 0 <= k < cell_refs(h[i]).len() ==> ref_rank(#[trigger] cell_refs(h[i])[k]) <= i,
{
    assert forall|k: int| 0 <= k < cell_refs(h[i]).len() implies ref_rank(#[trigger] cell_refs(h[i])[k]) <= i by {
        let r = cell_refs(h[i])[k];
        assert(crate::value::ref_below(r, i));
    }
}

/// Operations on values of any type.
pub struct Any {}

impl Any {
    /// Tells whether the values `a` (in `h1`) and `b` (in `h2`) are equal:
    /// numbers by their value, texts by their characters, lists, arrays and
    /// tuples element by element, everything else by identity.
    pub fn eq(h1: &Heap, a: Ref, h2: &Heap, b: Ref) -> (res: bool)
        requires
            heap_wf(h1@),
            heap_wf(h2@),
        ensures
            res == (denote(h1@, a) == denote(h2@, b)),
        decreases ref_rank(a) + ref_rank(b), 2nat,
    {
        proof {
            reveal_with_fuel(denote, 2);
        }
        match (a, b) {
            (Ref::Ptr(i, _), Ref::Ptr(j, _)) => {
                if i >= h1.len() || j >= h2.len() {
                    return Self::eq_invalid(h1, a, h2, b);
                }
                Self::eq_cells(h1, i, h2, j)
            },
            (Ref::Ptr(i, _), _) => Self::eq_cell_immediate(h1, i, b),
            (_, Ref::Ptr(j, _)) => Self::eq_cell_immediate(h2, j, a),
            _ => Self::eq_immediate(a, b),
        }
    }

    fn eq_immediate(a: Ref, b: Ref) -> (res: bool)
        requires
            !(a is Ptr),
            !(b is Ptr),
        ensures
            forall|h1: Seq<Cell>, h2: Seq<Cell>| res == (denote(h1, a) == denote(h2, b)),
    {
        match (a, b) {
            (Ref::Nil, Ref::Nil) => true,
            (Ref::True, Ref::True) => true,
            (Ref::False, Ref::False) => true,
            (Ref::Unit, Ref::Unit) => true,
            (Ref::MatchFail, Ref::MatchFail) => true,
            (Ref::Fixnum(x), Ref::Fixnum(y)) => x == y,
            (Ref::Func(f), Ref::Func(g)) => f == g,
            (Ref::Syntax(f), Ref::Syntax(g)) => f == g,
            _ => false,
        }
    }

    fn eq_invalid(h1: &Heap, a: Ref, h2: &Heap, b: Ref) -> (res: bool)
        requires
            heap_wf(h1@),
            heap_wf(h2@),
            a is Ptr,
            b is Ptr,
            ref_index(a) >= h1@.len() || ref_index(b) >= h2@.len(),
        ensures
            res == (denote(h1@, a) == denote(h2@, b)),
    {
        let (i, j) = match (a, b) {
            (Ref::Ptr(i, _), Ref::Ptr(j, _)) => (i, j),
            _ => (0, 0),
        };
        if i >= h1.len() && j >= h2.len() {
            true
        } else if i >= h1.len() {
            proof {
                reveal_with_fuel(denote_cell, 1);
            }
            Self::cell_is_invalid(h2, j)
        } else {
            Self::cell_is_invalid(h1, i)
        }
    }

    /// The cell `i` denotes `Invalid` (never, in a well-formed heap).
    fn cell_is_invalid(h: &Heap, i: usize) -> (res: bool)
        requires
            i < h@.len(),
            heap_wf(h@),
        ensures
            res == (denote_cell(h@, i as int) == Val::Invalid),
    {
        proof {
            lemma_refs_rank(h@, i as int);
            let c = h@[i as int];
            assert(c matches Cell::Pair(a, b) ==> cell_refs(c)[0] == a && cell_refs(c)[1] == b);
        }
        false
    }

    fn eq_cell_immediate(h: &Heap, i: usize, b: Ref) -> (res: bool)
        requires
            heap_wf(h@),
            !(b is Ptr),
        ensures
            forall|h2: Seq<Cell>| res == (denote(h@, Ref::Ptr(i, false)) == denote(h2, b)),
            forall|h2: Seq<Cell>, f: bool| res == (denote(h@, Ref::Ptr(i, f)) == denote(h2, b)),
            forall|h2: Seq<Cell>, f: bool| res == (denote(h2, b) == denote(h@, Ref::Ptr(i, f))),
    {
        if i >= h.len() {
            return false;
        }
        proof {
            lemma_refs_rank(h@, i as int);
            let c = h@[i as int];
            assert(c matches Cell::Pair(a, b) ==> cell_refs(c)[0] == a && cell_refs(c)[1] == b);
        }
        match b {
            Ref::Fixnum(y) => {
                match h.kind(i) {
                    CellKind::Integer => h.integer(i) == y,
                    _ => false,
                }
            },
            _ => false,
        }
    }

    fn eq_cells(h1: &Heap, i: usize, h2: &Heap, j: usize) -> (res: bool)
        requires
            heap_wf(h1@),
            heap_wf(h2@),
            i < h1@.len(),
            j < h2@.len(),
        ensures
            res == (denote_cell(h1@, i as int) == denote_cell(h2@, j as int)),
        decreases i + j + 2, 1nat,
    {
        proof {
            lemma_refs_rank(h1@, i as int);
            lemma_refs_rank(h2@, j as int);
            let c = h1@[i as int];
            assert(c matches Cell::Pair(a, b) ==> cell_refs(c)[0] == a && cell_refs(c)[1] == b);
            let d = h2@[j as int];
            assert(d matches Cell::Pair(a, b) ==> cell_refs(d)[0] == a && cell_refs(d)[1] == b);
            assert(c matches Cell::Reply(a) ==> cell_refs(c)[0] == a);
            assert(d matches Cell::Reply(a) ==> cell_refs(d)[0] == a);
        }
        let k1 = h1.kind(i);
        let k2 = h2.kind(j);
        match (k1, k2) {
            (CellKind::Integer, CellKind::Integer) => h1.integer(i) == h2.integer(j),
            (CellKind::Real, CellKind::Real) | (CellKind::Str, CellKind::Str) | (
                CellKind::Symbol,
                CellKind::Symbol,
            ) | (CellKind::Keyword, CellKind::Keyword) => {
                let t = h1.text(i);
                h2.text_equals(j, &t)
            },
            (CellKind::ObjectRef, CellKind::ObjectRef) => h1.object_id(i) == h2.object_id(j),
            (CellKind::Pair, CellKind::Pair) => {
                let (a1, b1) = h1.pair(i);
                let (a2, b2) = h2.pair(j);
                if !Self::eq(h1, a1, h2, a2) {
                    return false;
                }
                Self::eq(h1, b1, h2, b2)
            },
            (CellKind::Array, CellKind::Array) | (CellKind::Tuple, CellKind::Tuple) => {
                Self::eq_elements(h1, i, h2, j)
            },
            (CellKind::Closure, CellKind::Closure) => {
                if h1.closure_code(i) != h2.closure_code(j) {
                    return false;
                }
                Self::eq_elements(h1, i, h2, j)
            },
            (CellKind::Reply, CellKind::Reply) => Self::eq(h1, h1.reply_value(i), h2, h2.reply_value(j)),
            _ => false,
        }
    }

    fn eq_elements(h1: &Heap, i: usize, h2: &Heap, j: usize) -> (res: bool)
        requires
            heap_wf(h1@),
            heap_wf(h2@),
            i < h1@.len(),
            j < h2@.len(),
        ensures
            res == (denote_seq(h1@, cell_refs(h1@[i as int]), i as int) == denote_seq(
                h2@,
                cell_refs(h2@[j as int]),
                j as int,
            )),
        decreases i + j + 2, 0nat,
    {
        let ghost s1 = cell_refs(h1@[i as int]);
        let ghost s2 = cell_refs(h2@[j as int]);
        proof {
            lemma_refs_rank(h1@, i as int);
            lemma_refs_rank(h2@, j as int);
            lemma_denote_seq(h1@, s1, i as int);
            lemma_denote_seq(h2@, s2, j as int);
        }
        let n = h1.refs_len(i);
        if n != h2.refs_len(j) {
            return false;
        }
        let mut k: usize = 0;
        while k < n
            invariant
                heap_wf(h1@),
                heap_wf(h2@),
                i < h1@.len(),
                j < h2@.len(),
                n == s1.len(),
                n == s2.len(),
                s1 == cell_refs(h1@[i as int]),
                s2 == cell_refs(h2@[j as int]),
                forall|x: int| 0 <= x < s1.len() ==> ref_rank(#[trigger] s1[x]) <= i,
                forall|x: int| 0 <= x < s2.len() ==> ref_rank(#[trigger] s2[x]) <= j,
                denote_seq(h1@, s1, i as int).len() == n,
                denote_seq(h2@, s2, j as int).len() == n,
                forall|x: int| 0 <= x < n ==> #[trigger] denote_seq(h1@, s1, i as int)[x] == denote(h1@, s1[x]),
                forall|x: int| 0 <= x < n ==> #[trigger] denote_seq(h2@, s2, j as int)[x] == denote(h2@, s2[x]),
                k <= n,
                forall|x: int| 0 <= x < k ==> denote(h1@, #[trigger] s1[x]) == denote(h2@, s2[x]),
            decreases n - k,
        {
            let a = h1.ref_at(i, k);
            let b = h2.ref_at(j, k);
            assert(ref_rank(s1[k as int]) <= i);
            assert(ref_rank(s2[k as int]) <= j);
            if !Self::eq(h1, a, h2, b) {
                assert(denote_seq(h1@, s1, i as int)[k as int] != denote_seq(h2@, s2, j as int)[k as int]);
                return false;
            }
            k = k + 1;
        }
        assert(denote_seq(h1@, s1, i as int) =~= denote_seq(h2@, s2, j as int));
        true
    }
}


/// After a collection a reference to a reachable cell denotes, through its
/// forwarded reference, what it denoted before; immediate values are kept.
proof fn lemma_gc_ref(old_h: Seq<Cell>, roots: Seq<Ref>, new_h: Seq<Cell>, r: Ref, bound: int)
    requires
        heap_wf(old_h),
        gc_cells_law(old_h, roots, new_h),
        ref_below(r, bound),
        bound <= old_h.len(),
        r is Ptr ==> reachable(old_h, roots, ref_index(r)),
    ensures
        denote(new_h, forward_ref(r, live_set(old_h, roots))) == denote(old_h, r),
        ref_rank(forward_ref(r, live_set(old_h, roots))) <= count_true(live_set(old_h, roots), bound),
    decreases bound, 2nat,
{
    let live = live_set(old_h, roots);
    match r {
        Ref::Ptr(a, f) => {
            let a = a as int;
            lemma_count_true_mono(live, a, old_h.len() as int);
            lemma_count_true_mono(live, a, bound);
            lemma_count_true_bounds(live, a);
            assert(live[a]);
            lemma_gc_cell(old_h, roots, new_h, a);
        },
        _ => {},
    }
}

/// After a collection the cell a reachable cell moved to denotes what the
/// cell denoted before.
proof fn lemma_gc_cell(old_h: Seq<Cell>, roots: Seq<Ref>, new_h: Seq<Cell>, i: int)
    requires
        heap_wf(old_h),
        gc_cells_law(old_h, roots, new_h),
        0 <= i < old_h.len(),
        reachable(old_h, roots, i),
    ensures
        denote_cell(new_h, count_true(live_set(old_h, roots), i) as int) == denote_cell(old_h, i),
    decreases i + 1, 1nat,
{
    let live = live_set(old_h, roots);
    let ci = count_true(live, i) as int;
    assert(live[i]);
    lemma_count_true_mono(live, i, old_h.len() as int);
    let oc = old_h[i];
    let nc = new_h[ci];
    assert(same_shape(nc, oc));
    assert(cell_refs(nc) == forward_refs(cell_refs(oc), live));
    lemma_refs_rank(old_h, i);
    let os = cell_refs(oc);
    let ns = cell_refs(nc);
    assert forall|x: int| 0 <= x < os.len() implies {
        &&& denote(new_h, #[trigger] ns[x]) == denote(old_h, os[x])
        &&& ref_rank(ns[x]) <= ci
    } by {
        let r = os[x];
        assert(ref_below(r, i));
        if r is Ptr {
            assert(points_to(r, ref_index(r)));
            lemma_reachable_child(old_h, roots, i, ref_index(r));
        }
        assert(ns[x] == forward_ref(r, live));
        lemma_gc_ref(old_h, roots, new_h, r, i);
    }
    match oc {
        Cell::Pair(a, b) => {
            assert(os[0] == a && os[1] == b);
            match nc {
                Cell::Pair(na, nb) => {
                    assert(ns[0] == na && ns[1] == nb);
                },
                _ => {},
            }
        },
        Cell::Array(v) => {
            match nc {
                Cell::Array(w) => {
                    lemma_denote_seq(old_h, os, i);
                    lemma_denote_seq(new_h, ns, ci);
                    assert(denote_seq(new_h, ns, ci) =~= denote_seq(old_h, os, i));
                },
                _ => {},
            }
        },
        Cell::Tuple(v) => {
            match nc {
                Cell::Tuple(w) => {
                    lemma_denote_seq(old_h, os, i);
                    lemma_denote_seq(new_h, ns, ci);
                    assert(denote_seq(new_h, ns, ci) =~= denote_seq(old_h, os, i));
                },
                _ => {},
            }
        },
        Cell::Closure(id, v) => {
            match nc {
                Cell::Closure(id2, w) => {
                    lemma_denote_seq(old_h, os, i);
                    lemma_denote_seq(new_h, ns, ci);
                    assert(denote_seq(new_h, ns, ci) =~= denote_seq(old_h, os, i));
                },
                _ => {},
            }
        },
        Cell::Reply(a) => {
            assert(os[0] == a);
            match nc {
                Cell::Reply(na) => {
                    assert(ns[0] == na);
                },
                _ => {},
            }
        },
        _ => {},
    }
}

/// A collection keeps what every root denotes: after `Heap::gc`, each
/// forwarded root denotes in the new heap the value it denoted in the old one.
pub proof fn lemma_gc_preserves_values(old_h: Seq<Cell>, old_roots: Seq<Ref>, new_h: Seq<Cell>, new_roots: Seq<Ref>)
    requires
        heap_wf(old_h),
        valid_refs(old_h, old_roots),
        gc_law(old_h, old_roots, new_h, new_roots),
    ensures
        new_roots.len() == old_roots.len(),
        forall|k: int| 0 <= k < old_roots.len() ==> denote(new_h, #[trigger] new_roots[k]) == denote(old_h, old_roots[k]),
        valid_refs(new_h, new_roots),
{
    let live = live_set(old_h, old_roots);
    assert forall|k: int| 0 <= k < old_roots.len() implies denote(new_h, #[trigger] new_roots[k]) == denote(
        old_h,
        old_roots[k],
    ) by {
        let r = old_roots[k];
        assert(ref_below(r, old_h.len() as int));
        if r is Ptr {
            assert(points_to(r, ref_index(r)));
            lemma_reachable_def(old_h, old_roots, ref_index(r));
        }
        assert(new_roots[k] == forward_ref(r, live));
        lemma_gc_ref(old_h, old_roots, new_h, r, old_h.len() as int);
    }
    assert forall|k: int| 0 <= k < new_roots.len() implies ref_below(#[trigger] new_roots[k], new_h.len() as int) by {
        let r = old_roots[k];
        assert(ref_below(r, old_h.len() as int));
        if r is Ptr {
            assert(points_to(r, ref_index(r)));
            lemma_reachable_def(old_h, old_roots, ref_index(r));
        }
        assert(new_roots[k] == forward_ref(r, live));
        lemma_gc_ref(old_h, old_roots, new_h, r, old_h.len() as int);
    }
}


/// `h2` holds the cells of `h1` first, in the same order.
pub open spec fn extends(h2: Seq<Cell>, h1: Seq<Cell>) -> bool {
    h1.len() <= h2.len() && h2.subrange(0, h1.len() as int) == h1
}

/// Adding cells to a heap keeps what its references denote.
pub proof fn lemma_denote_extends(h1: Seq<Cell>, h2: Seq<Cell>, r: Ref)
    requires
        extends(h2, h1),
        ref_below(r, h1.len() as int),
    ensures
        denote(h2, r) == denote(h1, r),
    decreases ref_rank(r), 2nat,
{
    match r {
        Ref::Ptr(i, _) => {
            lemma_denote_cell_extends(h1, h2, i as int);
        },
        _ => {},
    }
}

/// Adding cells to a heap keeps what its cells denote.
pub proof fn lemma_denote_cell_extends(h1: Seq<Cell>, h2: Seq<Cell>, i: int)
    requires
        extends(h2, h1),
        0 <= i < h1.len(),
    ensures
        denote_cell(h2, i) == denote_cell(h1, i),
    decreases i + 1, 1nat,
{
    assert(h2[i] == h2.subrange(0, h1.len() as int)[i]);
    match h1[i] {
        Cell::Pair(a, b) => {
            if ref_rank(a) <= i {
                lemma_denote_extends(h1, h2, a);
            }
            if ref_rank(b) <= i {
                lemma_denote_extends(h1, h2, b);
            }
        },
        Cell::Array(v) => {
            lemma_denote_seq_extends(h1, h2, v@, i);
        },
        Cell::Tuple(v) => {
            lemma_denote_seq_extends(h1, h2, v@, i);
        },
        Cell::Closure(_, v) => {
            lemma_denote_seq_extends(h1, h2, v@, i);
        },
        Cell::Reply(a) => {
            if ref_rank(a) <= i {
                lemma_denote_extends(h1, h2, a);
            }
        },
        _ => {},
    }
}

/// Adding cells to a heap keeps what the references a cell holds denote.
pub proof fn lemma_denote_seq_extends(h1: Seq<Cell>, h2: Seq<Cell>, s: Seq<Ref>, i: int)
    requires
        extends(h2, h1),
        0 <= i < h1.len(),
    ensures
        denote_seq(h2, s, i) == denote_seq(h1, s, i),
    decreases i + 1, 0nat, s.len(),
{
    if s.len() > 0 {
        lemma_denote_seq_extends(h1, h2, s.drop_last(), i);
        if ref_rank(s.last()) <= i {
            lemma_denote_extends(h1, h2, s.last());
        }
    }
}


/// The references a container cell (array, tuple, closure) at `i` holds are
/// older than it, and its values are what they denote.
pub proof fn lemma_container_cell(h: Seq<Cell>, i: int)
    requires
        heap_wf(h),
        0 <= i < h.len(),
    ensures
        forall|k: int| 0 <= k < cell_refs(h[i]).len() ==> ref_below(#[trigger] cell_refs(h[i])[k], i),
        denote_seq(h, cell_refs(h[i]), i).len() == cell_refs(h[i]).len(),
        forall|k: int|
            0 <= k < cell_refs(h[i]).len() ==> #[trigger] denote_seq(h, cell_refs(h[i]), i)[k] == denote(
                h,
                cell_refs(h[i])[k],
            ),
{
    lemma_refs_rank(h, i);
    lemma_denote_seq(h, cell_refs(h[i]), i);
    assert forall|k: int| 0 <= k < cell_refs(h[i]).len() implies ref_below(#[trigger] cell_refs(h[i])[k], i) by {
        assert(ref_rank(cell_refs(h[i])[k]) <= i);
    }
}


/// The builtin on values of any type named `k`, if there is one.
pub open spec fn any_builtin(k: Seq<char>) -> Option<crate::value::func::FuncId> {
    if k == "print"@ {
        Some(crate::value::func::FuncId::Print)
    } else if k == "="@ {
        Some(crate::value::func::FuncId::Equal)
    } else {
        None
    }
}

/// Defines `=` and `print`.
pub fn register_global(obj: &mut Object)
    requires
        old(obj).wf(),
    ensures
        final(obj).redefined_from(old(obj)),
        forall|k: Seq<char>|
            #[trigger] final(obj).global(k) == match any_builtin(k) {
                Some(id) => Some(Ref::Func(id)),
                None => old(obj).global(k),
            },
{
    obj.define_global_str("=", Ref::Func(crate::value::func::FuncId::Equal));
    obj.define_global_str("print", Ref::Func(crate::value::func::FuncId::Print));
}


/// A cell of the shape of the cell `i` of `h`, added to the heap `d`, whose
/// references denote in `d` what those of cell `i` denote in `h`, denotes
/// what cell `i` denotes.
pub proof fn lemma_copy_cell(h: Seq<Cell>, i: int, d: Seq<Cell>, c: Cell)
    requires
        heap_wf(h),
        0 <= i < h.len(),
        same_shape(c, h[i]),
        cell_refs(c).len() == cell_refs(h[i]).len(),
        forall|k: int|
            0 <= k < cell_refs(c).len() ==> ref_below(#[trigger] cell_refs(c)[k], d.len() as int) && denote(
                d,
                cell_refs(c)[k],
            ) == denote(h, cell_refs(h[i])[k]),
    ensures
        denote_cell(d.push(c), d.len() as int) == denote_cell(h, i),
{
    let nd = d.push(c);
    let n = d.len() as int;
    assert(nd.subrange(0, n) =~= d);
    lemma_refs_rank(h, i);
    let rc = cell_refs(c);
    let rh = cell_refs(h[i]);
    assert forall|k: int| 0 <= k < rc.len() implies #[trigger] denote(nd, rc[k]) == denote(h, rh[k]) && ref_rank(rc[k]) <= n by {
        lemma_denote_extends(d, nd, rc[k]);
    }
    match c {
        Cell::Pair(a, b) => {
            assert(rc[0] == a && rc[1] == b);
            match h[i] {
                Cell::Pair(x, y) => {
                    assert(rh[0] == x && rh[1] == y);
                    assert(denote(nd, a) == denote(h, x));
                    assert(denote(nd, b) == denote(h, y));
                    assert(ref_rank(x) <= i && ref_rank(y) <= i);
                    assert(ref_rank(a) <= n && ref_rank(b) <= n);
                    assert(nd[n] == c);
                },
                _ => {},
            }
        },
        Cell::Reply(a) => {
            assert(rc[0] == a);
            match h[i] {
                Cell::Reply(x) => {
                    assert(rh[0] == x);
                    assert(denote(nd, a) == denote(h, x));
                    assert(ref_rank(x) <= i);
                    assert(ref_rank(a) <= n);
                    assert(nd[n] == c);
                },
                _ => {},
            }
        },
        Cell::Array(_) | Cell::Tuple(_) | Cell::Closure(_, _) => {
            lemma_denote_seq(nd, rc, n);
            lemma_denote_seq(h, rh, i);
            assert(denote_seq(nd, rc, n) =~= denote_seq(h, rh, i));
        },
        _ => {},
    }
}

} // verus!
