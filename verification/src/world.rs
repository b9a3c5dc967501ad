use vstd::prelude::*;

use crate::value::Ref;
use crate::world::map::PatriciaTree;

pub mod map;

verus! {

/// The global variables of an object: each name is mapped to a slot, and
/// the slots hold the values. The slots are what a collection updates.
pub struct World {
    area: PatriciaTree<usize>,
    values: Vec<Ref>,
}

impl World {
    /// Every name is mapped to an existing slot.
    pub closed spec fn wf(&self) -> bool {
        &&& self.area.wf()
        &&& forall|k: Seq<char>| #[trigger] self.area.lookup(k) matches Some(i) ==> i < self.values@.len()
        &&& forall|k1: Seq<char>, k2: Seq<char>|
            #[trigger] self.area.lookup(k1) is Some && #[trigger] self.area.lookup(k2) is Some && self.area.lookup(k1)
                == self.area.lookup(k2) ==> k1 == k2
    }

    /// The value of the global variable `k`.
    pub closed spec fn lookup(&self, k: Seq<char>) -> Option<Ref> {
        match self.area.lookup(k) {
            Some(i) => Some(self.values@[i as int]),
            None => None,
        }
    }

    /// The values of all the slots.
    pub closed spec fn slots(&self) -> Seq<Ref> {
        self.values@
    }

    /// A world without global variables.
    pub fn new() -> (w: Self)
        ensures
            w.wf(),
            forall|k: Seq<char>| w.lookup(k) is None,
            w.slots().len() == 0,
    {
        World { area: PatriciaTree::new(), values: Vec::new() }
    }

    /// Sets the global variable `key` to `v`.
    pub fn set(&mut self, key: &Vec<char>, v: Ref)
        requires
            old(self).wf(),
        ensures
            final(self).wf(),
            forall|k: Seq<char>|
                #[trigger] final(self).lookup(k) == if k == key@ {
                    Some(v)
                } else {
                    old(self).lookup(k)
                },
            final(self).slots().len() >= old(self).slots().len(),
            forall|i: int|
                0 <= i < final(self).slots().len() ==> (#[trigger] final(self).slots()[i] == v || (i < old(
                    self,
                ).slots().len() && final(self).slots()[i] == old(self).slots()[i])),
    {
        match self.area.get(key) {
            Some(i) => {
                self.values.set(i, v);
                proof {
                    assert forall|k: Seq<char>|
                        #[trigger] self.lookup(k) == if k == key@ {
                            Some(v)
                        } else {
                            old(self).lookup(k)
                        } by {
                        if let Some(j) = self.area.lookup(k) {
                            assert(j < old(self).values@.len());
                            if k != key@ {
                                assert(self.area.lookup(key@) is Some);
                            }
                        }
                    }
                }
            },
            None => {
                let i = self.values.len();
                self.values.push(v);
                self.area.add(key, i);
                proof {
                    assert forall|k: Seq<char>| (#[trigger] self.area.lookup(k)) is Some implies self.area.lookup(
                        k,
                    ).unwrap() < self.values@.len() by {
                        if k != key@ {
                            assert(old(self).area.lookup(k) == self.area.lookup(k));
                        }
                    }
                    assert forall|k1: Seq<char>, k2: Seq<char>|
                        #[trigger] self.area.lookup(k1) is Some && #[trigger] self.area.lookup(k2) is Some
                            && self.area.lookup(k1) == self.area.lookup(k2) implies k1 == k2 by {
                        if k1 != key@ {
                            assert(old(self).area.lookup(k1) == self.area.lookup(k1));
                            assert(self.area.lookup(k1).unwrap() < i);
                        }
                        if k2 != key@ {
                            assert(old(self).area.lookup(k2) == self.area.lookup(k2));
                            assert(self.area.lookup(k2).unwrap() < i);
                        }
                    }
                    assert forall|k: Seq<char>|
                        #[trigger] self.lookup(k) == if k == key@ {
                            Some(v)
                        } else {
                            old(self).lookup(k)
                        } by {
                        if k != key@ {
                            if let Some(j) = old(self).area.lookup(k) {
                                assert(j < old(self).values@.len());
                                assert(self.values@[j as int] == old(self).values@[j as int]);
                            }
                        }
                    }
                }
            },
        }
    }

    /// The value of the global variable `key`, if it is set.
    pub fn get(&self, key: &Vec<char>) -> (res: Option<Ref>)
        requires
            self.wf(),
        ensures
            res == self.lookup(key@),
    {
        match self.area.get(key) {
            Some(i) => Some(self.values[i]),
            None => None,
        }
    }

    /// A copy of the slots.
    pub fn slot_values(&self) -> (res: Vec<Ref>)
        ensures
            res@ == self.slots(),
    {
        crate::object::mm::copy_refs(&self.values)
    }

    /// Replaces the slots by `vals`, one for one: each variable keeps its
    /// slot and takes the new value there.
    pub fn set_slot_values(&mut self, vals: Vec<Ref>)
        requires
            old(self).wf(),
            vals@.len() == old(self).slots().len(),
        ensures
            final(self).wf(),
            final(self).slots() == vals@,
            forall|k: Seq<char>|
                #[trigger] final(self).lookup(k) == match old(self).lookup(k) {
                    Some(_) => Some(vals@[old(self).slot_of(k) as int]),
                    None => None,
                },
    {
        self.values = vals;
    }

    /// The slot of the global variable `k`.
    pub closed spec fn slot_of(&self, k: Seq<char>) -> nat {
        match self.area.lookup(k) {
            Some(i) => i as nat,
            None => 0,
        }
    }

    /// The slot of a set variable holds its value.
    pub proof fn lemma_slot_of(&self, k: Seq<char>)
        requires
            self.wf(),
        ensures
            self.lookup(k) matches Some(r) ==> self.slot_of(k) < self.slots().len() && self.slots()[self.slot_of(
                k,
            ) as int] == r,
    {
    }
}

} // verus!
