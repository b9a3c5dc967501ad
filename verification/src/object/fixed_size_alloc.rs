use vstd::prelude::*;

verus! {

/// The values of the used slots of `s`, in slot order.
pub open spec fn used_values<T>(s: Seq<Option<T>>) -> Seq<T>
    decreases s.len(),
{
    if s.len() == 0 {
        Seq::empty()
    } else {
        let rest = used_values(s.drop_last());
        match s.last() {
            Some(v) => rest.push(v),
            None => rest,
        }
    }
}

/// The number of used slots of `s`.
pub open spec fn used_count<T>(s: Seq<Option<T>>) -> nat {
    used_values(s).len()
}

/// `t` has the used slots of `s`, holding `vals` in order.
pub open spec fn replaced_used<T>(s: Seq<Option<T>>, t: Seq<Option<T>>, vals: Seq<T>) -> bool {
    &&& t.len() == s.len()
    &&& forall|i: int| 0 <= i < s.len() ==> (#[trigger] t[i] is Some <==> s[i] is Some)
    &&& used_values(t) == vals
}

/// A store of same-sized values in numbered slots. A freed slot is handed out
/// again before any new slot is made, the most recently freed first.
pub struct FixedSizeAllocator<T> {
    slots: Vec<Option<T>>,
    free: Vec<usize>,
}

impl<T: Copy> FixedSizeAllocator<T> {
    /// The slots: `Some` for a used slot, `None` for a free one.
    pub closed spec fn view(&self) -> Seq<Option<T>> {
        self.slots@
    }

    /// The free slots, the next one to be handed out last.
    pub closed spec fn free_list(&self) -> Seq<usize> {
        self.free@
    }

    /// The free list names exactly the free slots, each once.
    pub closed spec fn wf(&self) -> bool {
        &&& forall|k: int| 0 <= k < self.free@.len() ==> #[trigger] self.free@[k] < self.slots@.len()
        &&& forall|k: int| 0 <= k < self.free@.len() ==> self.slots@[#[trigger] self.free@[k] as int] is None
        &&& forall|k1: int, k2: int|
            0 <= k1 < k2 < self.free@.len() ==> #[trigger] self.free@[k1] != #[trigger] self.free@[k2]
        &&& forall|i: int| 0 <= i < self.slots@.len() && #[trigger] self.slots@[i] is None ==> self.free@.contains(
            i as usize,
        )
    }

    /// An allocator with no slot.
    pub fn new() -> (res: Self)
        ensures
            res.wf(),
            res@ == Seq::<Option<T>>::empty(),
    {
        FixedSizeAllocator { slots: Vec::new(), free: Vec::new() }
    }

    /// Stores `v` in a free slot and returns its number: the most recently
    /// freed slot if there is one, else a new slot after the others.
    pub fn allocate(&mut self, v: T) -> (index: usize)
        requires
            old(self).wf(),
        ensures
            final(self).wf(),
            old(self).free_list().len() > 0 ==> index == old(self).free_list().last() && final(self).free_list()
                == old(self).free_list().drop_last(),
            old(self).free_list().len() == 0 ==> index == old(self)@.len() && final(self).free_list()
                == old(self).free_list(),
            index <= old(self)@.len(),
            index < old(self)@.len() ==> old(self)@[index as int] is None,
            final(self)@ == (if index < old(self)@.len() {
                old(self)@.update(index as int, Some(v))
            } else {
                old(self)@.push(Some(v))
            }),
    {
        match self.free.pop() {
            Some(index) => {
                proof {
                    let f = old(self).free@;
                    assert(f.last() == index);
                    assert(f.drop_last() == self.free@);
                    assert forall|k: int| 0 <= k < self.free@.len() implies #[trigger] self.free@[k] != index by {
                        assert(f[k] == self.free@[k]);
                        assert(f[f.len() - 1] == index);
                    }
                }
                self.slots.set(index, Some(v));
                proof {
                    let f = old(self).free@;
                    assert forall|i: int| 0 <= i < self.slots@.len() && #[trigger] self.slots@[i] is None implies self.free@.contains(
                        i as usize,
                    ) by {
                        assert(i != index);
                        assert(old(self).slots@[i] is None);
                        let k = choose|k: int| 0 <= k < f.len() && f[k] == i as usize;
                        assert(k != f.len() - 1);
                        assert(self.free@[k] == i as usize);
                    }
                }
                index
            },
            None => {
                let index = self.slots.len();
                self.slots.push(Some(v));
                proof {
                    assert forall|i: int| 0 <= i < self.slots@.len() && #[trigger] self.slots@[i] is None implies self.free@.contains(
                        i as usize,
                    ) by {
                        assert(old(self).slots@[i] is None);
                    }
                }
                index
            },
        }
    }

    /// Frees the used slot `index`; the next `alloc` hands it out again.
    pub fn free(&mut self, index: usize)
        requires
            old(self).wf(),
            index < old(self)@.len(),
            old(self)@[index as int] is Some,
        ensures
            final(self).wf(),
            final(self)@ == old(self)@.update(index as int, None),
            final(self).free_list() == old(self).free_list().push(index),
    {
        proof {
            assert(!self.free@.contains(index)) by {
                if self.free@.contains(index) {
                    let k = choose|k: int| 0 <= k < self.free@.len() && self.free@[k] == index;
                    assert(self.slots@[self.free@[k] as int] is None);
                }
            }
        }
        self.slots.set(index, None);
        self.free.push(index);
        proof {
            let f = old(self).free@;
            assert forall|i: int| 0 <= i < self.slots@.len() && #[trigger] self.slots@[i] is None implies self.free@.contains(
                i as usize,
            ) by {
                if i == index {
                    assert(self.free@[f.len() as int] == index);
                } else {
                    assert(old(self).slots@[i] is None);
                    let k = choose|k: int| 0 <= k < f.len() && f[k] == i as usize;
                    assert(self.free@[k] == i as usize);
                }
            }
            assert forall|k1: int, k2: int|
                0 <= k1 < k2 < self.free@.len() implies #[trigger] self.free@[k1] != #[trigger] self.free@[k2] by {
                if k2 == f.len() {
                    assert(self.free@[k1] == f[k1]);
                    assert(old(self).slots@[f[k1] as int] is None);
                }
            }
        }
    }

    /// The value in the used slot `index`.
    pub fn get(&self, index: usize) -> (v: T)
        requires
            index < self@.len(),
            self@[index as int] is Some,
        ensures
            Some(v) == self@[index as int],
    {
        self.slots[index].unwrap()
    }

    /// Replaces the value in the used slot `index`.
    pub fn set(&mut self, index: usize, v: T)
        requires
            old(self).wf(),
            index < old(self)@.len(),
            old(self)@[index as int] is Some,
        ensures
            final(self).wf(),
            final(self)@ == old(self)@.update(index as int, Some(v)),
            final(self).free_list() == old(self).free_list(),
    {
        self.slots.set(index, Some(v));
        proof {
            assert forall|i: int| 0 <= i < self.slots@.len() && #[trigger] self.slots@[i] is None implies self.free@.contains(
                i as usize,
            ) by {
                assert(old(self).slots@[i] is None);
            }
        }
    }

    /// For every slot, whether it is used.
    pub fn used_vec(&self) -> (res: Vec<bool>)
        ensures
            res@.len() == self@.len(),
            forall|i: int| 0 <= i < res@.len() ==> #[trigger] res@[i] == self@[i] is Some,
    {
        let mut res = Vec::new();
        let mut i: usize = 0;
        while i < self.slots.len()
            invariant
                i <= self.slots@.len(),
                res@.len() == i,
                forall|k: int| 0 <= k < i ==> #[trigger] res@[k] == self.slots@[k] is Some,
            decreases self.slots@.len() - i,
        {
            res.push(self.slots[i].is_some());
            i = i + 1;
        }
        res
    }

    /// The values of the used slots, in slot order.
    pub fn used_values(&self) -> (res: Vec<T>)
        ensures
            res@ == used_values(self@),
    {
        let mut res = Vec::new();
        let mut i: usize = 0;
        while i < self.slots.len()
            invariant
                i <= self.slots@.len(),
                res@ == used_values(self.slots@.take(i as int)),
            decreases self.slots@.len() - i,
        {
            proof {
                assert(self.slots@.take(i + 1).drop_last() =~= self.slots@.take(i as int));
            }
            match self.slots[i] {
                Some(v) => res.push(v),
                None => {},
            }
            i = i + 1;
        }
        assert(self.slots@.take(self.slots@.len() as int) =~= self.slots@);
        res
    }

    /// Replaces the values of the used slots, in slot order, by `vals`.
    pub fn set_used_values(&mut self, vals: &Vec<T>)
        requires
            old(self).wf(),
            vals@.len() == used_count(old(self)@),
        ensures
            final(self).wf(),
            replaced_used(old(self)@, final(self)@, vals@),
            final(self).free_list() == old(self).free_list(),
    {
        let mut i: usize = 0;
        let mut k: usize = 0;
        let ghost s = self.slots@;
        let n_vals = vals.len();
        while i < self.slots.len()
            invariant
                n_vals == vals@.len(),
                s == old(self).slots@,
                self.free@ == old(self).free@,
                self.slots@.len() == s.len(),
                vals@.len() == used_count(s),
                i <= s.len(),
                k == used_values(s.take(i as int)).len(),
                forall|x: int| 0 <= x < s.len() ==> (#[trigger] self.slots@[x] is Some <==> s[x] is Some),
                forall|x: int| i <= x < s.len() ==> #[trigger] self.slots@[x] == s[x],
                used_values(self.slots@.take(i as int)) == vals@.take(k as int),
            decreases s.len() - i,
        {
            proof {
                assert(s.take(i + 1).drop_last() =~= s.take(i as int));
                assert(self.slots@.take(i + 1).drop_last() =~= self.slots@.take(i as int));
                lemma_used_values_prefix_len(s, i + 1);
            }
            let ghost before = self.slots@;
            if self.slots[i].is_some() {
                proof {
                    assert(s[i as int] is Some);
                    assert(used_values(s.take(i + 1)).len() == k + 1);
                }
                self.slots.set(i, Some(vals[k]));
                proof {
                    assert(self.slots@.take(i as int) =~= before.take(i as int));
                    assert(self.slots@.take(i + 1).drop_last() =~= self.slots@.take(i as int));
                    assert(vals@.take(k + 1) =~= vals@.take(k as int).push(vals@[k as int]));
                    assert(k < vals@.len());
                }
                k = k + 1;
            } else {
                proof {
                    assert(s[i as int] is None);
                }
            }
            i = i + 1;
        }
        proof {
            assert(self.slots@.take(s.len() as int) =~= self.slots@);
            assert(s.take(s.len() as int) =~= s);
            assert(vals@.take(k as int) =~= vals@);
            assert forall|x: int| 0 <= x < self.slots@.len() && #[trigger] self.slots@[x] is None implies self.free@.contains(
                x as usize,
            ) by {
                assert(s[x] is None);
            }
        }
    }
}

pub proof fn lemma_used_values_prefix_len<T>(s: Seq<Option<T>>, i: int)
    requires
        0 <= i <= s.len(),
    ensures
        used_values(s.take(i)).len() <= used_values(s).len(),
    decreases s.len() - i,
{
    if i < s.len() {
        assert(s.take(i + 1).drop_last() =~= s.take(i));
        lemma_used_values_prefix_len(s, i + 1);
    } else {
        assert(s.take(i) =~= s);
    }
}


/// Every used value comes from a used slot.
pub proof fn lemma_used_values_contains<T>(s: Seq<Option<T>>, k: int)
    requires
        0 <= k < used_values(s).len(),
    ensures
        exists|j: int| 0 <= j < s.len() && s[j] == Some(used_values(s)[k]),
    decreases s.len(),
{
    let t = s.drop_last();
    let rest = used_values(t);
    match s.last() {
        Some(v) => {
            if k == rest.len() {
                assert(s[s.len() - 1] == Some(used_values(s)[k]));
            } else {
                lemma_used_values_contains(t, k);
                let j = choose|j: int| 0 <= j < t.len() && t[j] == Some(used_values(t)[k]);
                assert(s[j] == t[j]);
            }
        },
        None => {
            lemma_used_values_contains(t, k);
            let j = choose|j: int| 0 <= j < t.len() && t[j] == Some(used_values(t)[k]);
            assert(s[j] == t[j]);
        },
    }
}

/// Every used slot's value is among the used values.
pub proof fn lemma_slot_in_used_values<T>(s: Seq<Option<T>>, i: int)
    requires
        0 <= i < s.len(),
        s[i] is Some,
    ensures
        exists|k: int| 0 <= k < used_values(s).len() && used_values(s)[k] == s[i].unwrap(),
    decreases s.len(),
{
    let t = s.drop_last();
    if i == s.len() - 1 {
        let k = used_values(t).len() as int;
        assert(s.last() == s[i]);
        assert(used_values(s) == used_values(t).push(s[i].unwrap()));
        assert(used_values(s)[k] == s[i].unwrap());
        assert(0 <= k < used_values(s).len());
    } else {
        assert(t[i] == s[i]);
        lemma_slot_in_used_values(t, i);
        let k = choose|k: int| 0 <= k < used_values(t).len() && used_values(t)[k] == t[i].unwrap();
        match s.last() {
            Some(v) => {
                assert(used_values(s) == used_values(t).push(v));
                assert(used_values(s)[k] == used_values(t)[k]);
            },
            None => {},
        }
        assert(0 <= k < used_values(s).len() && used_values(s)[k] == s[i].unwrap());
    }
}

} // verus!
