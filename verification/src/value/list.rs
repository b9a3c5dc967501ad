use vstd::prelude::*;

use crate::err::{Exception, OutOfBounds, TypeMismatch, is_type_mismatch, is_out_of_bounds};
use crate::object::Object;
use crate::object::mm::{Cell, OutOfMemory, cell_refs, cell_size, heap_wf, pair_size, valid_ref, MAX_HEAP_BYTES};
use crate::value::{Ref, TypeInfo, ref_below, ref_index};
use crate::value::any::{Val, denote, denote_cell, extends, lemma_denote_extends, lemma_refs_rank, ref_rank};

verus! {

/// The list of the values of `s`, ending in nil.
pub open spec fn list_val(s: Seq<Val>) -> Val
    decreases s.len(),
{
    if s.len() == 0 {
        Val::Nil
    } else {
        Val::Pair(Box::new(s[0]), Box::new(list_val(s.skip(1))))
    }
}

/// The number of list cells `v` starts with.
pub open spec fn chain_len(v: Val) -> nat
    decreases v,
{
    match v {
        Val::Pair(_, t) => 1 + chain_len(*t),
        _ => 0,
    }
}

/// `v` is a chain of list cells ending in nil.
pub open spec fn is_proper_list(v: Val) -> bool
    decreases v,
{
    match v {
        Val::Nil => true,
        Val::Pair(_, t) => is_proper_list(*t),
        _ => false,
    }
}

/// The heads of the chain of list cells `v` starts with.
pub open spec fn list_items(v: Val) -> Seq<Val>
    decreases v,
{
    match v {
        Val::Pair(h, t) => seq![*h] + list_items(*t),
        _ => Seq::empty(),
    }
}

/// There are as many items as list cells.
pub proof fn lemma_list_items_len(v: Val)
    ensures
        list_items(v).len() == chain_len(v),
    decreases v,
{
    match v {
        Val::Pair(h, t) => {
            lemma_list_items_len(*t);
        },
        _ => {},
    }
}

/// A proper list is the list of its items.
pub proof fn lemma_list_items(v: Val)
    requires
        is_proper_list(v),
    ensures
        list_val(list_items(v)) == v,
        list_items(v).len() == chain_len(v),
    decreases v,
{
    match v {
        Val::Pair(h, t) => {
            lemma_list_items(*t);
            assert((seq![*h] + list_items(*t)).skip(1) =~= list_items(*t));
        },
        _ => {},
    }
}

/// The list of `s` has `s` as its items.
pub proof fn lemma_list_val(s: Seq<Val>)
    ensures
        is_proper_list(list_val(s)),
        list_items(list_val(s)) == s,
        chain_len(list_val(s)) == s.len(),
    decreases s.len(),
{
    if s.len() > 0 {
        lemma_list_val(s.skip(1));
        assert(seq![s[0]] + s.skip(1) =~= s);
    }
}

/// In a well-formed heap a list cell denotes the pair of what its head and
/// rest denote, and both are older than it.
pub proof fn lemma_pair_cell(h: Seq<Cell>, r: Ref)
    requires
        heap_wf(h),
        r is Ptr,
        ref_index(r) < h.len(),
        h[ref_index(r)] is Pair,
    ensures
        match h[ref_index(r)] {
            Cell::Pair(a, b) => {
                &&& ref_below(a, ref_index(r))
                &&& ref_below(b, ref_index(r))
                &&& denote(h, r) == Val::Pair(Box::new(denote(h, a)), Box::new(denote(h, b)))
            },
            _ => false,
        },
{
    let i = ref_index(r);
    lemma_refs_rank(h, i);
    match h[i] {
        Cell::Pair(a, b) => {
            assert(cell_refs(h[i])[0] == a);
            assert(cell_refs(h[i])[1] == b);
            assert(ref_below(a, i));
            assert(ref_below(b, i));
        },
        _ => {},
    }
}

/// Only a list cell denotes a pair.
pub proof fn lemma_pair_value(h: Seq<Cell>, r: Ref)
    requires
        denote(h, r) is Pair,
    ensures
        r is Ptr && ref_index(r) < h.len() && h[ref_index(r)] is Pair,
{
    match r {
        Ref::Ptr(i, _) => {
            if (i as int) < h.len() {
                match h[i as int] {
                    Cell::Pair(_, _) => {},
                    _ => {},
                }
            }
        },
        _ => {},
    }
}

/// Operations on lists.
pub struct List {}

impl List {
    /// The empty list.
    pub fn nil() -> (r: Ref)
        ensures
            r == Ref::Nil,
    {
        Ref::Nil
    }

    /// `v` is the empty list.
    pub fn is_nil(v: Ref) -> (res: bool)
        ensures
            res == (v == Ref::Nil),
    {
        match v {
            Ref::Nil => true,
            _ => false,
        }
    }

    /// `v` is a list cell.
    pub fn is_pair(obj: &Object, v: Ref) -> (res: bool)
        requires
            obj.wf(),
        ensures
            res == (obj.value_of(v) is Pair),
    {
        match v {
            Ref::Ptr(i, _) => {
                if i < obj.heap().len() {
                    match obj.heap().kind(i) {
                        crate::object::mm::CellKind::Pair => {
                            proof {
                                obj.lemma_wf();
                                lemma_pair_cell(obj.heap_view(), v);
                            }
                            true
                        },
                        _ => {
                            proof {
                                if obj.value_of(v) is Pair {
                                    lemma_pair_value(obj.heap_view(), v);
                                }
                            }
                            false
                        },
                    }
                } else {
                    false
                }
            },
            _ => false,
        }
    }

    /// The head and the rest of the list cell `v`.
    pub fn parts(obj: &Object, v: Ref) -> (res: (Ref, Ref))
        requires
            obj.wf(),
            obj.value_of(v) is Pair,
        ensures
            obj.valid(res.0),
            obj.valid(res.1),
            obj.value_of(v) == Val::Pair(Box::new(obj.value_of(res.0)), Box::new(obj.value_of(res.1))),
            v is Ptr && ref_below(res.0, ref_index(v)) && ref_below(res.1, ref_index(v)),
    {
        proof {
            lemma_pair_value(obj.heap_view(), v);
            obj.lemma_wf();
            lemma_pair_cell(obj.heap_view(), v);
        }
        match v {
            Ref::Ptr(i, _) => obj.heap().pair(i),
            _ => (Ref::Nil, Ref::Nil),
        }
    }

    /// The first value of the list cell `v`.
    pub fn head(obj: &Object, v: Ref) -> (res: Ref)
        requires
            obj.wf(),
            obj.value_of(v) is Pair,
        ensures
            obj.valid(res),
            obj.value_of(v) matches Val::Pair(h, _) && *h == obj.value_of(res),
    {
        Self::parts(obj, v).0
    }

    /// The list after the first value of the list cell `v`.
    pub fn tail(obj: &Object, v: Ref) -> (res: Ref)
        requires
            obj.wf(),
            obj.value_of(v) is Pair,
        ensures
            obj.valid(res),
            obj.value_of(v) matches Val::Pair(_, t) && *t == obj.value_of(res),
    {
        Self::parts(obj, v).1
    }

    /// The number of list cells `v` starts with.
    pub fn count(obj: &Object, v: Ref) -> (n: usize)
        requires
            obj.wf(),
            obj.valid(v),
        ensures
            n == chain_len(obj.value_of(v)),
    {
        let mut cur = v;
        let mut n: usize = 0;
        let hl = obj.heap().len();
        while Self::is_pair(obj, cur)
            invariant
                obj.wf(),
                hl == obj.heap_view().len(),
                ref_below(v, hl as int),
                obj.valid(cur),
                n + chain_len(obj.value_of(cur)) == chain_len(obj.value_of(v)),
                n <= ref_rank(v) - ref_rank(cur),
                ref_rank(cur) <= ref_rank(v),
            decreases ref_rank(cur),
        {
            proof {
                lemma_pair_value(obj.heap_view(), cur);
            }
            let (_, t) = Self::parts(obj, cur);
            n = n + 1;
            cur = t;
        }
        n
    }

    /// The list `v` has at least `count` values (`count` is positive unless
    /// the list is empty).
    pub fn len_more_than(obj: &Object, v: Ref, count: usize) -> (res: bool)
        requires
            obj.wf(),
            obj.valid(v),
            is_proper_list(obj.value_of(v)),
            count > 0 || v == Ref::Nil,
        ensures
            res == (chain_len(obj.value_of(v)) >= count),
    {
        let mut cur = v;
        let mut i: usize = 0;
        while i < count && Self::is_pair(obj, cur)
            invariant
                obj.wf(),
                obj.valid(cur),
                i <= count,
                chain_len(obj.value_of(v)) == i + chain_len(obj.value_of(cur)),
            decreases count - i,
        {
            cur = Self::tail(obj, cur);
            i = i + 1;
        }
        i >= count
    }

    /// The list `v` has exactly `count` values (`count` is positive unless
    /// the list is empty).
    pub fn len_exactly(obj: &Object, v: Ref, count: usize) -> (res: bool)
        requires
            obj.wf(),
            obj.valid(v),
            is_proper_list(obj.value_of(v)),
            count > 0 || v == Ref::Nil,
        ensures
            res == (chain_len(obj.value_of(v)) == count),
    {
        let n = Self::count(obj, v);
        n == count
    }

    /// The value at `index` of the list `v`.
    pub fn get(obj: &Object, v: Ref, index: usize) -> (res: Ref)
        requires
            obj.wf(),
            obj.valid(v),
            index < chain_len(obj.value_of(v)),
        ensures
            obj.valid(res),
            obj.value_of(res) == list_items(obj.value_of(v))[index as int],
    {
        let mut cur = v;
        let mut k: usize = 0;
        proof {
            lemma_list_items_len(obj.value_of(v));
        }
        while k < index
            invariant
                obj.wf(),
                obj.valid(cur),
                k <= index,
                index < chain_len(obj.value_of(v)),
                index - k < chain_len(obj.value_of(cur)),
                list_items(obj.value_of(cur)) == list_items(obj.value_of(v)).skip(k as int),
            decreases index - k,
        {
            let ghost before = obj.value_of(cur);
            let (_, t) = Self::parts(obj, cur);
            proof {
                lemma_list_items_len(before);
                lemma_list_items_len(obj.value_of(v));
                assert(k + 1 <= list_items(obj.value_of(v)).len());
                assert(list_items(obj.value_of(t)) =~= list_items(before).skip(1));
                assert(list_items(obj.value_of(v)).skip(k as int).skip(1) =~= list_items(obj.value_of(v)).skip(
                    k + 1,
                ));
            }
            cur = t;
            k = k + 1;
        }
        let (h, _) = Self::parts(obj, cur);
        proof {
            lemma_list_items_len(obj.value_of(cur));
            lemma_list_items_len(obj.value_of(v));
            assert(list_items(obj.value_of(cur))[0] == obj.value_of(h));
            assert(list_items(obj.value_of(v))[index as int] == list_items(obj.value_of(v)).skip(index as int)[0]);
        }
        h
    }

    /// A new list cell with head `head` and rest `tail`.
    pub fn cons(obj: &mut Object, head: Ref, tail: Ref) -> (res: Result<Ref, OutOfMemory>)
        requires
            old(obj).wf(),
            old(obj).valid(head),
            old(obj).valid(tail),
        ensures
            final(obj).wf(),
            final(obj).grown_from(old(obj)),
            res is Ok <==> old(obj).spec_used() + cell_size(Cell::Pair(head, tail)) < MAX_HEAP_BYTES,
            res is Err ==> final(obj).heap_view() == old(obj).heap_view(),
            res matches Ok(r) ==> final(obj).valid(r) && final(obj).value_of(r) == Val::Pair(
                Box::new(old(obj).value_of(head)),
                Box::new(old(obj).value_of(tail)),
            ),
            res is Ok ==> final(obj).spec_used() == old(obj).spec_used() + pair_size(),
    {
        proof {
            assert(cell_refs(Cell::Pair(head, tail)) =~= seq![head, tail]);
        }
        let res = obj.allocate(Cell::Pair(head, tail));
        proof {
            if let Ok(r) = res {
                crate::object::mm::lemma_sum_sizes_push(old(obj).heap_view(), Cell::Pair(head, tail));
                obj.lemma_wf();
                assert(obj.heap_view()[ref_index(r)] == Cell::Pair(head, tail));
                lemma_pair_cell(obj.heap_view(), r);
                lemma_denote_extends(old(obj).heap_view(), obj.heap_view(), head);
                lemma_denote_extends(old(obj).heap_view(), obj.heap_view(), tail);
            }
        }
        res
    }
}

/// Builds a list from the front: the values are pushed in order, and the
/// list cells are made at the end, from the last value back.
pub struct ListBuilder {
    items: Vec<Ref>,
}

/// The values `s` denote in `obj`.
pub open spec fn values_of(obj: &Object, s: Seq<Ref>) -> Seq<Val> {
    s.map_values(|r: Ref| obj.value_of(r))
}

/// Every reference of `s` is valid in `obj`.
pub open spec fn all_valid(obj: &Object, s: Seq<Ref>) -> bool {
    forall|k: int| 0 <= k < s.len() ==> obj.valid(#[trigger] s[k])
}

impl ListBuilder {
    /// The values pushed so far.
    pub closed spec fn items(&self) -> Seq<Ref> {
        self.items@
    }

    /// A builder with no value.
    pub fn new() -> (b: Self)
        ensures
            b.items().len() == 0,
    {
        ListBuilder { items: Vec::new() }
    }

    /// Adds `v` after the values pushed so far.
    pub fn push(&mut self, v: Ref)
        ensures
            final(self).items() == old(self).items().push(v),
    {
        self.items.push(v);
    }

    /// The number of values pushed so far.
    pub fn len(&self) -> (n: usize)
        ensures
            n == self.items().len(),
    {
        self.items.len()
    }

    /// The list of the pushed values, followed by the list `tail`.
    pub fn append_get(&self, obj: &mut Object, tail: Ref) -> (res: Result<Ref, OutOfMemory>)
        requires
            old(obj).wf(),
            all_valid(old(obj), self.items()),
            old(obj).valid(tail),
        ensures
            final(obj).wf(),
            final(obj).grown_from(old(obj)),
            res matches Ok(r) ==> final(obj).valid(r) && final(obj).value_of(r) == list_cat(
                values_of(old(obj), self.items()),
                old(obj).value_of(tail),
            ),
            res is Ok <==> (self.items().len() == 0 || old(obj).spec_used() + self.items().len() * pair_size()
                < MAX_HEAP_BYTES),
            self.items().len() == 0 ==> res == Ok::<Ref, OutOfMemory>(tail) && final(obj).heap_view() == old(
                obj,
            ).heap_view(),
    {
        let mut cur = tail;
        let mut i = self.items.len();
        let ghost vals = values_of(obj, self.items@);
        proof {
            obj.lemma_grown_refl();
        }
        while i > 0
            invariant
                obj.wf(),
                obj.grown_from(old(obj)),
                i <= self.items@.len(),
                all_valid(old(obj), self.items@),
                obj.valid(cur),
                vals == values_of(old(obj), self.items@),
                obj.value_of(cur) == list_cat(vals.skip(i as int), old(obj).value_of(tail)),
                obj.spec_used() == old(obj).spec_used() + (self.items@.len() - i) * pair_size(),
                i == self.items@.len() ==> cur == tail && obj.heap_view() == old(obj).heap_view(),
                i < self.items@.len() ==> old(obj).spec_used() + (self.items@.len() - i) * pair_size()
                    < MAX_HEAP_BYTES,
            decreases i,
        {
            let ghost o1 = *obj;
            let v = self.items[i - 1];
            proof {
                assert(old(obj).valid(self.items@[i - 1]));
                lemma_denote_extends(old(obj).heap_view(), obj.heap_view(), v);
            }
            match List::cons(obj, v, cur) {
                Ok(r) => {
                    proof {
                        obj.lemma_grown_trans(&o1, old(obj));
                        let n: int = self.items@.len() as int;
                        let ii: int = i as int;
                        assert((n - (ii - 1)) * pair_size() == (n - ii) * pair_size() + pair_size()) by (nonlinear_arith);
                        assert(vals.skip(i - 1) =~= seq![vals[i - 1]] + vals.skip(i as int));
                        assert(vals.skip(i - 1)[0] == vals[i - 1]);
                        assert(vals.skip(i - 1).skip(1) =~= vals.skip(i as int));
                    }
                    cur = r;
                },
                Err(e) => {
                    proof {
                        obj.lemma_grown_trans(&o1, old(obj));
                        let n: int = self.items@.len() as int;
                        let ii: int = i as int;
                        assert(1 <= ii <= n);
                        assert((n - ii) * pair_size() + pair_size() <= n * pair_size()) by (nonlinear_arith)
                            requires 1 <= ii <= n;
                    }
                    return Err(e);
                },
            }
            i = i - 1;
        }
        proof {
            assert(vals.skip(0) =~= vals);
        }
        Ok(cur)
    }

    /// The list of the pushed values.
    pub fn get(&self, obj: &mut Object) -> (res: Result<Ref, OutOfMemory>)
        requires
            old(obj).wf(),
            all_valid(old(obj), self.items()),
        ensures
            final(obj).wf(),
            final(obj).grown_from(old(obj)),
            res matches Ok(r) ==> final(obj).valid(r) && final(obj).value_of(r) == list_val(
                values_of(old(obj), self.items()),
            ),
            res is Ok <==> (self.items().len() == 0 || old(obj).spec_used() + self.items().len() * pair_size()
                < MAX_HEAP_BYTES),
    {
        let res = self.append_get(obj, Ref::Nil);
        proof {
            lemma_list_cat_nil(values_of(old(obj), self.items()));
        }
        res
    }
}

/// The list of `s` followed by the list `tail`.
pub open spec fn list_cat(s: Seq<Val>, tail: Val) -> Val
    decreases s.len(),
{
    if s.len() == 0 {
        tail
    } else {
        Val::Pair(Box::new(s[0]), Box::new(list_cat(s.skip(1), tail)))
    }
}

/// Followed by nil, the list of `s` is just that list.
pub proof fn lemma_list_cat_nil(s: Seq<Val>)
    ensures
        list_cat(s, Val::Nil) == list_val(s),
    decreases s.len(),
{
    if s.len() > 0 {
        lemma_list_cat_nil(s.skip(1));
    }
}


/// The references of the values of the list `list`, in order, each older
/// than the list's first cell.
pub fn elements(obj: &Object, list: Ref) -> (res: Vec<Ref>)
    requires
        obj.wf(),
        obj.valid(list),
    ensures
        all_valid(obj, res@),
        values_of(obj, res@) == list_items(obj.value_of(list)),
        forall|k: int| 0 <= k < res@.len() ==> ref_rank(#[trigger] res@[k]) < ref_rank(list),
        res@.len() == chain_len(obj.value_of(list)),
{
    let mut res: Vec<Ref> = Vec::new();
    let mut cur = list;
    proof {
        assert(values_of(obj, res@) + list_items(obj.value_of(cur)) =~= list_items(obj.value_of(list)));
    }
    while List::is_pair(obj, cur)
        invariant
            obj.wf(),
            obj.valid(cur),
            all_valid(obj, res@),
            values_of(obj, res@) + list_items(obj.value_of(cur)) == list_items(obj.value_of(list)),
            ref_rank(cur) <= ref_rank(list),
            forall|k: int| 0 <= k < res@.len() ==> ref_rank(#[trigger] res@[k]) < ref_rank(list),
        decreases ref_rank(cur),
    {
        let ghost before = obj.value_of(cur);
        let ghost r0 = res@;
        proof {
            lemma_pair_value(obj.heap_view(), cur);
        }
        let (h, t) = List::parts(obj, cur);
        res.push(h);
        proof {
            assert(list_items(before) == seq![obj.value_of(h)] + list_items(obj.value_of(t)));
            assert(values_of(obj, res@) =~= values_of(obj, r0).push(obj.value_of(h)));
            assert(values_of(obj, r0) + list_items(before) =~= values_of(obj, res@) + list_items(obj.value_of(t)));
        }
        cur = t;
    }
    proof {
        assert(list_items(obj.value_of(cur)) =~= Seq::<Val>::empty());
        assert(values_of(obj, res@) + list_items(obj.value_of(cur)) =~= values_of(obj, res@));
        lemma_list_items_len(obj.value_of(list));
    }
    res
}


/// The items of the lists `s`, one list after the other.
pub open spec fn items_concat(s: Seq<Val>) -> Seq<Val>
    decreases s.len(),
{
    if s.len() == 0 {
        Seq::empty()
    } else {
        items_concat(s.drop_last()) + list_items(s.last())
    }
}

/// `v` is a list: nil or a list cell.
pub open spec fn is_list_val(v: Val) -> bool {
    v is Nil || v is Pair
}

/// `list?`: the value itself when it is a list, else false.
pub fn is_list(obj: &Object, v: Ref) -> (res: Ref)
    requires
        obj.wf(),
    ensures
        res == (if is_list_val(obj.value_of(v)) {
            v
        } else {
            Ref::False
        }),
{
    if List::is_nil(v) || List::is_pair(obj, v) {
        v
    } else {
        Ref::False
    }
}

/// `list-len`: the number of list cells of the list `v`.
pub fn list_len(obj: &Object, v: Ref) -> (res: Result<Ref, Exception>)
    requires
        obj.wf(),
        obj.valid(v),
    ensures
        is_list_val(obj.value_of(v)) ==> res == Ok::<Ref, Exception>(Ref::Fixnum(chain_len(obj.value_of(v)) as i64)),
        !is_list_val(obj.value_of(v)) ==> is_type_mismatch(res, v, TypeInfo::List),
{
    if List::is_nil(v) || List::is_pair(obj, v) {
        let n = List::count(obj, v);
        Ok(Ref::Fixnum(n as i64))
    } else {
        Err(Exception::TypeMismatch(TypeMismatch::new(v, TypeInfo::List)))
    }
}

/// `list-ref`: the value at `index` of the list `v`.
pub fn list_ref(obj: &Object, v: Ref, index: Ref) -> (res: Result<Ref, Exception>)
    requires
        obj.wf(),
        obj.valid(v),
    ensures
        !is_list_val(obj.value_of(v)) ==> is_type_mismatch(res, v, TypeInfo::List),
        is_list_val(obj.value_of(v)) ==> match index {
            Ref::Fixnum(i) => if 0 <= i < chain_len(obj.value_of(v)) {
                obj.ok_value(res, list_items(obj.value_of(v))[i as int])
            } else {
                is_out_of_bounds(res, v)
            },
            _ => is_type_mismatch(res, index, TypeInfo::Fixnum),
        },
{
    if !(List::is_nil(v) || List::is_pair(obj, v)) {
        return Err(Exception::TypeMismatch(TypeMismatch::new(v, TypeInfo::List)));
    }
    match index {
        Ref::Fixnum(i) => {
            let n = List::count(obj, v);
            if i < 0 || i as u64 >= n as u64 {
                let shown: usize = if i < 0 { 0 } else { i as usize };
                Err(Exception::OutOfBounds(OutOfBounds::new(v, shown)))
            } else {
                Ok(List::get(obj, v, i as usize))
            }
        },
        _ => Err(Exception::TypeMismatch(TypeMismatch::new(index, TypeInfo::Fixnum))),
    }
}

/// `append`: the lists `args` one after the other; the last is shared.
pub fn append(obj: &mut Object, args: &Vec<Ref>) -> (res: Result<Ref, Exception>)
    requires
        old(obj).wf(),
        all_valid(old(obj), args@),
    ensures
        final(obj).wf(),
        final(obj).grown_from(old(obj)),
        res is Ok ==> forall|k: int| 0 <= k < args@.len() ==> is_list_val(#[trigger] old(obj).value_of(args@[k])),
        (exists|k: int| 0 <= k < args@.len() && !is_list_val(#[trigger] old(obj).value_of(args@[k]))) ==> res is Err,
        res matches Ok(r) ==> final(obj).valid(r),
        res matches Ok(r) ==> args@.len() > 0 ==> final(obj).value_of(r) == list_cat(
            items_concat(values_of(old(obj), args@.drop_last())),
            old(obj).value_of(args@.last()),
        ),
        args@.len() == 0 ==> res == Ok::<Ref, Exception>(Ref::Nil),
        (forall|k: int| 0 <= k < args@.len() ==> is_list_val(#[trigger] old(obj).value_of(args@[k]))) ==> (res matches Err(
            e,
        ) ==> e is OutOfMemory),
{
    proof {
        obj.lemma_grown_refl();
    }
    let n = args.len();
    if n == 0 {
        return Ok(Ref::Nil);
    }
    let mut k: usize = 0;
    while k < n
        invariant
            obj.wf(),
            *obj == *old(obj),
            n == args@.len(),
            k <= n,
            forall|j: int| 0 <= j < k ==> is_list_val(#[trigger] obj.value_of(args@[j])),
        decreases n - k,
    {
        if !(List::is_nil(args[k]) || List::is_pair(obj, args[k])) {
            proof {
                obj.lemma_grown_refl();
            }
            return Err(Exception::TypeMismatch(TypeMismatch::new(args[k], TypeInfo::List)));
        }
        k = k + 1;
    }
    let mut builder = ListBuilder::new();
    let mut i: usize = 0;
    proof {
        assert(values_of(obj, args@.take(0)) =~= Seq::<Val>::empty());
        assert(values_of(obj, builder.items()) =~= Seq::<Val>::empty());
    }
    while i + 1 < n
        invariant
            obj.wf(),
            *obj == *old(obj),
            n == args@.len(),
            n >= 1,
            i < n,
            all_valid(obj, args@),
            all_valid(obj, builder.items()),
            values_of(obj, builder.items()) == items_concat(values_of(obj, args@.take(i as int))),
        decreases n - i,
    {
        let elems = elements(obj, args[i]);
        let ghost start = builder.items();
        let mut j: usize = 0;
        while j < elems.len()
            invariant
                all_valid(obj, elems@),
                all_valid(obj, builder.items()),
                j <= elems@.len(),
                builder.items() == start + elems@.take(j as int),
            decreases elems@.len() - j,
        {
            let ghost b0 = builder.items();
            builder.push(elems[j]);
            proof {
                assert forall|x: int| 0 <= x < builder.items().len() implies obj.valid(#[trigger] builder.items()[x]) by {
                    if x < b0.len() {
                        assert(builder.items()[x] == b0[x]);
                    }
                }
                assert(elems@.take(j + 1) =~= elems@.take(j as int).push(elems@[j as int]));
            }
            j = j + 1;
        }
        proof {
            assert(elems@.take(elems@.len() as int) =~= elems@);
            let vs = values_of(obj, args@.take(i + 1));
            assert(vs.drop_last() =~= values_of(obj, args@.take(i as int)));
            assert(values_of(obj, builder.items()) =~= values_of(obj, start) + values_of(obj, elems@));
        }
        i = i + 1;
    }
    proof {
        assert(args@.take((n - 1) as int) =~= args@.drop_last());
    }
    match builder.append_get(obj, args[n - 1]) {
        Ok(r) => Ok(r),
        Err(_) => Err(Exception::OutOfMemory),
    }
}


/// The list builtin named `k`, if there is one.
pub open spec fn list_builtin(k: Seq<char>) -> Option<crate::value::func::FuncId> {
    if k == "append"@ {
        Some(crate::value::func::FuncId::Append)
    } else if k == "list-ref"@ {
        Some(crate::value::func::FuncId::ListRef)
    } else if k == "list-len"@ {
        Some(crate::value::func::FuncId::ListLen)
    } else if k == "list?"@ {
        Some(crate::value::func::FuncId::IsList)
    } else if k == "list"@ {
        Some(crate::value::func::FuncId::List)
    } else if k == "cons"@ {
        Some(crate::value::func::FuncId::Cons)
    } else {
        None
    }
}

/// Defines the list builtins.
pub fn register_global(obj: &mut Object)
    requires
        old(obj).wf(),
    ensures
        final(obj).redefined_from(old(obj)),
        forall|k: Seq<char>|
            #[trigger] final(obj).global(k) == match list_builtin(k) {
                Some(id) => Some(Ref::Func(id)),
                None => old(obj).global(k),
            },
{
    obj.define_global_str("cons", Ref::Func(crate::value::func::FuncId::Cons));
    obj.define_global_str("list", Ref::Func(crate::value::func::FuncId::List));
    obj.define_global_str("list?", Ref::Func(crate::value::func::FuncId::IsList));
    obj.define_global_str("list-len", Ref::Func(crate::value::func::FuncId::ListLen));
    obj.define_global_str("list-ref", Ref::Func(crate::value::func::FuncId::ListRef));
    obj.define_global_str("append", Ref::Func(crate::value::func::FuncId::Append));
}

} // verus!
