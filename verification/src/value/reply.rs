use vstd::prelude::*;

use crate::object::Object;
use crate::object::mm::{Cell, CellKind, OutOfMemory, cell_refs, cell_size, pair_size, seq_cell_size, MAX_HEAP_BYTES};
use crate::value::Ref;
use crate::value::any::{Val, denote, denote_seq, lemma_container_cell, lemma_denote_extends, lemma_denote_seq, lemma_refs_rank, ref_rank};
use crate::value::list::{all_valid, values_of};

verus! {

/// The value `v` with every reply in it replaced by the value it answered.
pub open spec fn forced(v: Val) -> Val
    decreases v,
{
    match v {
        Val::Reply(x) => forced(*x),
        Val::Pair(a, b) => Val::Pair(Box::new(forced(*a)), Box::new(forced(*b))),
        Val::Array(s) => Val::Array(forced_seq(s)),
        Val::Tuple(s) => Val::Tuple(forced_seq(s)),
        _ => v,
    }
}

/// Each value of `s`, forced.
pub open spec fn forced_seq(s: Seq<Val>) -> Seq<Val>
    decreases s,
{
    if s.len() == 0 {
        Seq::empty()
    } else {
        proof {
            vstd::seq::axiom_seq_subrange_decreases(s, 0, s.len() - 1);
        }
        forced_seq(s.drop_last()).push(forced(s.last()))
    }
}

/// `forced_seq` forces each value in place.
pub proof fn lemma_forced_seq(s: Seq<Val>)
    ensures
        forced_seq(s).len() == s.len(),
        forall|k: int| 0 <= k < s.len() ==> #[trigger] forced_seq(s)[k] == forced(s[k]),
    decreases s.len(),
{
    if s.len() > 0 {
        lemma_forced_seq(s.drop_last());
        assert forall|k: int| 0 <= k < s.len() implies #[trigger] forced_seq(s)[k] == forced(s[k]) by {
            if k < s.len() - 1 {
                assert(s.drop_last()[k] == s[k]);
            }
        }
    }
}

/// The number of bytes forcing `v` takes in the heap: a new list cell for
/// each list cell, and a new array or tuple cell for each array or tuple
/// that holds a value.
pub open spec fn force_size(v: Val) -> nat
    decreases v,
{
    match v {
        Val::Reply(x) => force_size(*x),
        Val::Pair(a, b) => force_size(*a) + force_size(*b) + pair_size(),
        Val::Array(s) => if s.len() == 0 {
            0
        } else {
            seq_force_size(s) + seq_cell_size(s.len())
        },
        Val::Tuple(s) => if s.len() == 0 {
            0
        } else {
            seq_force_size(s) + seq_cell_size(s.len())
        },
        _ => 0,
    }
}

/// The number of bytes forcing each value of `s` takes.
pub open spec fn seq_force_size(s: Seq<Val>) -> nat
    decreases s,
{
    if s.len() == 0 {
        0
    } else {
        proof {
            vstd::seq::axiom_seq_subrange_decreases(s, 0, s.len() - 1);
        }
        seq_force_size(s.drop_last()) + force_size(s.last())
    }
}

/// Forcing the first values of `s` takes no more than forcing all of them.
proof fn lemma_seq_force_size_take(s: Seq<Val>, j: int)
    requires
        0 <= j <= s.len(),
    ensures
        seq_force_size(s.take(j)) <= seq_force_size(s),
    decreases s.len() - j,
{
    if j < s.len() {
        lemma_seq_force_size_take(s, j + 1);
        assert(s.take(j + 1).drop_last() =~= s.take(j));
    } else {
        assert(s.take(j) =~= s);
    }
}

/// Forcing twice is forcing once: a forced value holds no reply.
pub proof fn lemma_forced_idempotent(v: Val)
    ensures
        forced(forced(v)) == forced(v),
    decreases v,
{
    match v {
        Val::Reply(x) => {
            lemma_forced_idempotent(*x);
        },
        Val::Pair(a, b) => {
            lemma_forced_idempotent(*a);
            lemma_forced_idempotent(*b);
        },
        Val::Array(s) => {
            lemma_forced_seq_idempotent(s);
        },
        Val::Tuple(s) => {
            lemma_forced_seq_idempotent(s);
        },
        _ => {},
    }
}

/// Forcing the values of a sequence twice is forcing them once.
pub proof fn lemma_forced_seq_idempotent(s: Seq<Val>)
    ensures
        forced_seq(forced_seq(s)) == forced_seq(s),
    decreases s,
{
    lemma_forced_seq(s);
    lemma_forced_seq(forced_seq(s));
    assert forall|k: int| 0 <= k < s.len() implies #[trigger] forced_seq(forced_seq(s))[k] == forced_seq(s)[k] by {
        assert(decreases_to!(s => s[k]));
        lemma_forced_idempotent(s[k]);
    }
    assert(forced_seq(forced_seq(s)) =~= forced_seq(s));
}

/// Operations on replies to messages.
pub struct Reply {}

impl Reply {
    /// `v` is a reply.
    pub fn is(obj: &Object, v: Ref) -> (res: bool)
        requires
            obj.wf(),
        ensures
            res == (obj.value_of(v) is Reply),
    {
        proof {
            obj.lemma_wf();
            if let Ref::Ptr(i, _) = v {
                if i < obj.heap_view().len() {
                    lemma_refs_rank(obj.heap_view(), i as int);
                    if let Cell::Reply(a) = obj.heap_view()[i as int] {
                        assert(cell_refs(obj.heap_view()[i as int])[0] == a);
                    }
                }
            }
        }
        match v {
            Ref::Ptr(i, _) => i < obj.heap().len() && obj.heap().kind(i) == CellKind::Reply,
            _ => false,
        }
    }

    /// A new reply that answers `v`.
    pub fn allocate(obj: &mut Object, v: Ref) -> (res: Result<Ref, OutOfMemory>)
        requires
            old(obj).wf(),
            old(obj).valid(v),
        ensures
            final(obj).wf(),
            final(obj).grown_from(old(obj)),
            res matches Ok(r) ==> final(obj).valid(r) && final(obj).value_of(r) == Val::Reply(
                Box::new(old(obj).value_of(v)),
            ),
    {
        proof {
            assert(cell_refs(Cell::Reply(v)) =~= seq![v]);
        }
        let r = obj.allocate(Cell::Reply(v));
        proof {
            if r is Ok {
                lemma_denote_extends(old(obj).heap_view(), obj.heap_view(), v);
            }
        }
        r
    }

    /// The value the reply `v` answered, if `v` is a reply; the reply is
    /// always answered by the time it is made.
    pub fn try_get_reply_value(obj: &Object, v: Ref) -> (res: Option<Ref>)
        requires
            obj.wf(),
        ensures
            match obj.value_of(v) {
                Val::Reply(x) => res matches Some(r) && obj.valid(r) && obj.value_of(r) == *x,
                _ => res is None,
            },
    {
        match v {
            Ref::Ptr(i, _) => {
                if i < obj.heap().len() && obj.heap().kind(i) == CellKind::Reply {
                    let r = obj.heap().reply_value(i);
                    proof {
                        obj.lemma_wf();
                        lemma_refs_rank(obj.heap_view(), i as int);
                        assert(cell_refs(obj.heap_view()[i as int])[0] == r);
                    }
                    Some(r)
                } else {
                    None
                }
            },
            _ => None,
        }
    }
}

/// The value `v` with every reply in it replaced by the value it answered:
/// lists, arrays and tuples that hold replies are copied.
pub fn force(obj: &mut Object, v: Ref) -> (res: Result<Ref, OutOfMemory>)
    requires
        old(obj).wf(),
        old(obj).valid(v),
    ensures
        final(obj).wf(),
        final(obj).grown_from(old(obj)),
        res matches Ok(r) ==> final(obj).valid(r) && final(obj).value_of(r) == forced(old(obj).value_of(v)),
        res is Ok <==> (force_size(old(obj).value_of(v)) == 0 || old(obj).spec_used() + force_size(
            old(obj).value_of(v),
        ) < MAX_HEAP_BYTES),
        res is Ok ==> final(obj).spec_used() == old(obj).spec_used() + force_size(old(obj).value_of(v)),
    decreases ref_rank(v), 1nat,
{
    proof {
        obj.lemma_grown_refl();
    }
    match v {
        Ref::Ptr(i, _) => {
            proof {
                obj.lemma_wf();
                lemma_refs_rank(obj.heap_view(), i as int);
            }
            let ghost hc = obj.heap_view()[i as int];
            let kind = obj.heap().kind(i);
            match kind {
                CellKind::Reply => {
                    let a = obj.heap().reply_value(i);
                    proof {
                        assert(cell_refs(hc)[0] == a);
                    }
                    force(obj, a)
                },
                CellKind::Pair => {
                    let (a, b) = obj.heap().pair(i);
                    proof {
                        assert(cell_refs(hc)[0] == a);
                        assert(cell_refs(hc)[1] == b);
                    }
                    let ghost o0 = *obj;
                    let fa = match force(obj, a) {
                        Ok(r) => r,
                        Err(e) => {
                            return Err(e);
                        },
                    };
                    let ghost o1 = *obj;
                    proof {
                        lemma_denote_extends(o0.heap_view(), o1.heap_view(), b);
                    }
                    let fb = match force(obj, b) {
                        Ok(r) => r,
                        Err(e) => {
                            proof {
                                obj.lemma_grown_trans(&o1, &o0);
                            }
                            return Err(e);
                        },
                    };
                    let ghost o2 = *obj;
                    proof {
                        obj.lemma_grown_trans(&o1, &o0);
                        lemma_denote_extends(o1.heap_view(), o2.heap_view(), fa);
                    }
                    let r = crate::value::list::List::cons(obj, fa, fb);
                    proof {
                        obj.lemma_grown_trans(&o2, &o0);
                    }
                    r
                },
                CellKind::Array | CellKind::Tuple => {
                    let refs = obj.heap().cell_children(i);
                    if refs.len() == 0 {
                        proof {
                            lemma_container_cell(obj.heap_view(), i as int);
                            let s = denote_seq(obj.heap_view(), cell_refs(hc), i as int);
                            assert(s =~= Seq::<Val>::empty());
                            assert(forced_seq(s) =~= Seq::<Val>::empty());
                        }
                        return Ok(v);
                    }
                    let ghost o0 = *obj;
                    proof {
                        lemma_container_cell(obj.heap_view(), i as int);
                        lemma_denote_seq(o0.heap_view(), refs@, i as int);
                        let ds = denote_seq(o0.heap_view(), refs@, i as int);
                        assert(values_of(&o0, refs@) =~= ds);
                        assert(force_size(o0.value_of(v)) == seq_force_size(ds) + seq_cell_size(refs@.len()));
                    }
                    let forced_refs = match force_refs(obj, &refs, i) {
                        Ok(f) => f,
                        Err(e) => {
                            return Err(e);
                        },
                    };
                    let ghost o1 = *obj;
                    let cell = match kind {
                        CellKind::Array => Cell::Array(forced_refs),
                        _ => Cell::Tuple(forced_refs),
                    };
                    proof {
                        assert(cell_refs(cell) == forced_refs@);
                    }
                    let r = obj.allocate(cell);
                    proof {
                        assert(cell_size(cell) == seq_cell_size(refs@.len()));
                        if r is Ok {
                            crate::object::mm::lemma_sum_sizes_push(o1.heap_view(), cell);
                        }
                        obj.lemma_grown_trans(&o1, &o0);
                        if r is Ok {
                            let n = o1.heap_view().len() as int;
                            let nh = obj.heap_view();
                            let ds = denote_seq(o0.heap_view(), refs@, i as int);
                            lemma_forced_seq(ds);
                            lemma_denote_seq(nh, forced_refs@, n);
                            assert forall|k: int| 0 <= k < forced_refs@.len() implies #[trigger] denote(nh, forced_refs@[k])
                                == forced_seq(ds)[k] by {
                                lemma_denote_extends(o1.heap_view(), nh, forced_refs@[k]);
                                assert(o1.value_of(forced_refs@[k]) == forced(o0.value_of(refs@[k])));
                                assert(ds[k] == denote(o0.heap_view(), refs@[k]));
                            }
                            assert(denote_seq(nh, forced_refs@, n) =~= forced_seq(ds));
                        }
                    }
                    r
                },
                _ => Ok(v),
            }
        },
        _ => Ok(v),
    }
}

/// Forces each of the values `refs` (held by the cell `i`), in order.
fn force_refs(obj: &mut Object, refs: &Vec<Ref>, i: usize) -> (res: Result<Vec<Ref>, OutOfMemory>)
    requires
        old(obj).wf(),
        i < old(obj).heap_view().len(),
        forall|k: int| 0 <= k < refs@.len() ==> ref_rank(#[trigger] refs@[k]) <= i,
    ensures
        final(obj).wf(),
        final(obj).grown_from(old(obj)),
        res matches Ok(f) ==> f@.len() == refs@.len() && all_valid(final(obj), f@) && forall|k: int|
            0 <= k < f@.len() ==> #[trigger] final(obj).value_of(f@[k]) == forced(old(obj).value_of(refs@[k])),
        res is Ok ==> final(obj).spec_used() == old(obj).spec_used() + seq_force_size(values_of(old(obj), refs@)),
        res is Err ==> seq_force_size(values_of(old(obj), refs@)) > 0 && old(obj).spec_used() + seq_force_size(
            values_of(old(obj), refs@),
        ) >= MAX_HEAP_BYTES,
    decreases i + 1, 0nat,
{
    proof {
        obj.lemma_grown_refl();
    }
    let mut out: Vec<Ref> = Vec::new();
    let mut k: usize = 0;
    while k < refs.len()
        invariant
            k <= refs@.len(),
            out@.len() == k,
            i < old(obj).heap_view().len(),
            forall|j: int| 0 <= j < refs@.len() ==> ref_rank(#[trigger] refs@[j]) <= i,
            obj.wf(),
            obj.grown_from(old(obj)),
            all_valid(obj, out@),
            forall|j: int| 0 <= j < k ==> #[trigger] obj.value_of(out@[j]) == forced(old(obj).value_of(refs@[j])),
            obj.spec_used() == old(obj).spec_used() + seq_force_size(values_of(old(obj), refs@).take(k as int)),
        decreases refs@.len() - k,
    {
        let ghost vs = values_of(old(obj), refs@);
        proof {
            assert(vs.take(k + 1).drop_last() =~= vs.take(k as int));
            assert(vs.take(k + 1).last() == old(obj).value_of(refs@[k as int]));
        }
        let ghost o0 = *obj;
        proof {
            lemma_denote_extends(old(obj).heap_view(), obj.heap_view(), refs@[k as int]);
        }
        let f = match force(obj, refs[k]) {
            Ok(f) => f,
            Err(e) => {
                proof {
                    obj.lemma_grown_trans(&o0, old(obj));
                    lemma_seq_force_size_take(vs, k + 1);
                }
                return Err(e);
            },
        };
        proof {
            obj.lemma_grown_trans(&o0, old(obj));
        }
        let ghost p0 = out@;
        out.push(f);
        proof {
            assert(out@[k as int] == f);
            assert forall|j: int| 0 <= j < out@.len() implies obj.valid(#[trigger] out@[j]) by {
                if j < p0.len() {
                    assert(out@[j] == p0[j]);
                    assert(o0.valid(p0[j]));
                }
            }
            assert forall|j: int| 0 <= j < k + 1 implies #[trigger] obj.value_of(out@[j]) == forced(
                old(obj).value_of(refs@[j]),
            ) by {
                if j < k {
                    assert(out@[j] == p0[j]);
                    assert(o0.valid(p0[j]));
                    assert(o0.value_of(p0[j]) == forced(old(obj).value_of(refs@[j])));
                    lemma_denote_extends(o0.heap_view(), obj.heap_view(), p0[j]);
                }
            }
        }
        k = k + 1;
    }
    proof {
        assert(values_of(old(obj), refs@).take(k as int) =~= values_of(old(obj), refs@));
    }
    Ok(out)
}


/// The builtin on replies named `k`, if there is one.
pub open spec fn reply_builtin(k: Seq<char>) -> Option<crate::value::func::FuncId> {
    if k == "force"@ {
        Some(crate::value::func::FuncId::Force)
    } else {
        None
    }
}

/// Defines `force`.
pub fn register_global(obj: &mut Object)
    requires
        old(obj).wf(),
    ensures
        final(obj).redefined_from(old(obj)),
        forall|k: Seq<char>|
            #[trigger] final(obj).global(k) == match reply_builtin(k) {
                Some(id) => Some(Ref::Func(id)),
                None => old(obj).global(k),
            },
{
    obj.define_global_str("force", Ref::Func(crate::value::func::FuncId::Force));
}

} // verus!
