use vstd::prelude::*;

use crate::object::fixed_size_alloc::{FixedSizeAllocator, used_values};
use crate::object::mm::{Cell, Heap, HeapSize, OutOfMemory, StartHeapSize, cell_refs, cell_size, valid_ref, valid_refs, MAX_HEAP_BYTES};
use crate::value::Ref;
use crate::value::any::{Val, denote, extends, lemma_denote_extends, lemma_gc_preserves_values};
use crate::world::World;
use crate::err::Exception;

pub mod mm;
pub mod fixed_size_alloc;
pub mod context;

verus! {

/// An object: a heap of values with its own global variables, and the
/// values held for the code that runs in it (captured values).
pub struct Object {
    id: usize,
    heap: Heap,
    world: World,
    captures: FixedSizeAllocator<Ref>,
    gensym_counter: u64,
    prev_object: Option<usize>,
    receivers: Vec<(usize, usize)>,
    output: Vec<char>,
}

/// Every receiver's pattern and body are held in capture slots of `caps`.
pub open spec fn receivers_held(caps: Seq<Option<Ref>>, recvs: Seq<(usize, usize)>) -> bool {
    forall|i: int|
        0 <= i < recvs.len() ==> {
            &&& (#[trigger] recvs[i]).0 < caps.len()
            &&& caps[recvs[i].0 as int] is Some
            &&& recvs[i].1 < caps.len()
            &&& caps[recvs[i].1 as int] is Some
        }
}

/// Every object of `s` is well formed.
pub open spec fn objects_wf(s: Seq<Object>) -> bool {
    forall|i: int| 0 <= i < s.len() ==> (#[trigger] s[i]).wf()
}

/// Every captured value in `caps` names a cell of `h`.
pub open spec fn captures_valid(h: Seq<Cell>, caps: Seq<Option<Ref>>) -> bool {
    forall|i: int| 0 <= i < caps.len() ==> (#[trigger] caps[i] matches Some(r) ==> valid_ref(h, r))
}

impl Object {
    /// The heap, the world and the captures are well formed, and every value
    /// they hold names a cell of the heap.
    pub closed spec fn wf(&self) -> bool {
        &&& self.heap.wf()
        &&& self.world.wf()
        &&& valid_refs(self.heap@, self.world.slots())
        &&& self.captures.wf()
        &&& captures_valid(self.heap@, self.captures@)
        &&& receivers_held(self.captures@, self.receivers@)
    }

    /// The text printed and not yet taken.
    pub closed spec fn spec_output(&self) -> Seq<char> {
        self.output@
    }

    /// The capture slots of the receivers' patterns and bodies, in the
    /// order they were defined.
    pub closed spec fn receiver_slots(&self) -> Seq<(usize, usize)> {
        self.receivers@
    }

    /// A receiver's pattern or body is held in `slot`.
    pub open spec fn uses_slot(&self, slot: usize) -> bool {
        exists|i: int|
            0 <= i < self.receiver_slots().len() && ((#[trigger] self.receiver_slots()[i]).0 == slot
                || self.receiver_slots()[i].1 == slot)
    }

    /// The cells of the heap.
    pub closed spec fn heap_view(&self) -> Seq<Cell> {
        self.heap@
    }

    /// What a collection keeps alive: the values of the global variables'
    /// slots, then the captured values.
    pub closed spec fn gc_roots(&self) -> Seq<Ref> {
        self.world.slots() + used_values(self.captures@)
    }

    /// The value of the global variable `k`.
    pub closed spec fn global(&self, k: Seq<char>) -> Option<Ref> {
        self.world.lookup(k)
    }

    /// The capture slots.
    pub closed spec fn captured(&self) -> Seq<Option<Ref>> {
        self.captures@
    }

    /// The object's number.
    pub closed spec fn spec_id(&self) -> usize {
        self.id
    }

    /// The counter that makes generated symbols unique.
    pub closed spec fn spec_gensym(&self) -> u64 {
        self.gensym_counter
    }

    /// The object that switched to this one, if any.
    pub closed spec fn spec_prev(&self) -> Option<usize> {
        self.prev_object
    }

    /// The number of bytes the cells of the heap take.
    pub open spec fn spec_used(&self) -> nat {
        crate::object::mm::sum_sizes(self.heap_view())
    }

    /// `r` is an immediate value or names a cell of the heap.
    pub open spec fn valid(&self, r: Ref) -> bool {
        valid_ref(self.heap_view(), r)
    }

    /// `res` succeeded with a reference to a value that denotes `v`.
    pub open spec fn ok_value(&self, res: Result<Ref, crate::err::Exception>, v: Val) -> bool {
        match res {
            Ok(r) => self.valid(r) && self.value_of(r) == v,
            Err(_) => false,
        }
    }

    /// What `r` denotes in the heap.
    pub open spec fn value_of(&self, r: Ref) -> Val {
        denote(self.heap_view(), r)
    }

    /// `self` is `old` with cells added to its heap and nothing else changed.
    pub open spec fn grown_from(&self, old: &Object) -> bool {
        &&& extends(self.heap_view(), old.heap_view())
        &&& forall|k: Seq<char>| #[trigger] self.global(k) == old.global(k)
        &&& self.captured() == old.captured()
        &&& self.receiver_slots() == old.receiver_slots()
        &&& self.spec_id() == old.spec_id()
        &&& self.spec_gensym() == old.spec_gensym()
        &&& self.spec_prev() == old.spec_prev()
    }

    /// A well-formed object's cells refer only to older cells.
    pub proof fn lemma_wf(&self)
        requires
            self.wf(),
        ensures
            crate::object::mm::heap_wf(self.heap_view()),
    {
        self.heap.lemma_wf();
    }

    /// The global variables of a well-formed object hold valid values.
    pub proof fn lemma_globals_valid(&self)
        requires
            self.wf(),
        ensures
            forall|k: Seq<char>| #[trigger] self.global(k) is Some ==> self.valid(self.global(k)->0),
    {
        assert forall|k: Seq<char>| #[trigger] self.global(k) is Some implies self.valid(self.global(k)->0) by {
            self.world.lemma_slot_of(k);
        }
    }

    /// `self` is `old` with cells added to its heap; its global variables
    /// and receivers may have changed, values may have been captured, and
    /// every value captured before is still held.
    pub open spec fn evolved_from(&self, old: &Object) -> bool {
        &&& extends(self.heap_view(), old.heap_view())
        &&& self.captured().len() >= old.captured().len()
        &&& forall|i: int|
            0 <= i < old.captured().len() && (#[trigger] old.captured()[i]) is Some ==> self.captured()[i]
                == old.captured()[i]
        &&& self.spec_id() == old.spec_id()
    }

    /// Evolving twice is evolving.
    pub proof fn lemma_evolved_trans(&self, mid: &Object, first: &Object)
        requires
            self.evolved_from(mid),
            mid.evolved_from(first),
        ensures
            self.evolved_from(first),
    {
        let a = self.heap_view();
        let b = mid.heap_view();
        let c = first.heap_view();
        assert(a.subrange(0, c.len() as int) =~= b.subrange(0, c.len() as int));
    }

    /// An object has grown from itself.
    pub proof fn lemma_grown_refl(&self)
        ensures
            self.grown_from(self),
    {
        assert(self.heap_view().subrange(0, self.heap_view().len() as int) =~= self.heap_view());
    }

    /// Growing twice is growing.
    pub proof fn lemma_grown_trans(&self, mid: &Object, first: &Object)
        requires
            self.grown_from(mid),
            mid.grown_from(first),
        ensures
            self.grown_from(first),
    {
        let a = self.heap_view();
        let b = mid.heap_view();
        let c = first.heap_view();
        assert(a.subrange(0, c.len() as int) =~= b.subrange(0, c.len() as int));
    }

    /// A new object with an empty heap and no global variables.
    pub fn new(id: usize) -> (obj: Self)
        ensures
            obj.wf(),
            obj.spec_id() == id,
            obj.heap_view().len() == 0,
            forall|k: Seq<char>| obj.global(k) is None,
            obj.captured().len() == 0,
            obj.receiver_slots().len() == 0,
            obj.spec_prev() is None,
    {
        Object {
            id,
            heap: Heap::new(StartHeapSize::Default),
            world: World::new(),
            captures: FixedSizeAllocator::new(),
            gensym_counter: 0,
            prev_object: None,
            receivers: Vec::new(),
            output: Vec::new(),
        }
    }

    /// The object's number.
    pub fn id(&self) -> (n: usize)
        ensures
            n == self.spec_id(),
    {
        self.id
    }

    /// The heap of the object.
    pub fn heap(&self) -> (h: &Heap)
        ensures
            h@ == self.heap_view(),
            self.wf() ==> h.wf(),
    {
        &self.heap
    }

    /// The number of bytes the cells of the heap take.
    pub fn heap_used(&self) -> (n: usize)
        requires
            self.wf(),
        ensures
            n == self.spec_used(),
    {
        self.heap.used()
    }

    /// Stores `cell` in the heap. It fails, leaving the object unchanged,
    /// when the heap cannot grow to hold it.
    pub fn allocate(&mut self, cell: Cell) -> (res: Result<Ref, OutOfMemory>)
        requires
            old(self).wf(),
            valid_refs(old(self).heap_view(), cell_refs(cell)),
        ensures
            final(self).wf(),
            final(self).grown_from(old(self)),
            res is Ok <==> old(self).spec_used() + cell_size(cell) < MAX_HEAP_BYTES,
            res matches Ok(r) ==> r == Ref::Ptr(old(self).heap_view().len() as usize, false)
                && final(self).heap_view() == old(self).heap_view().push(cell),
            res matches Ok(r) ==> r is Ptr && crate::value::ref_index(r) == old(self).heap_view().len(),
            res is Err ==> final(self).heap_view() == old(self).heap_view(),
    {
        let res = self.heap.allocate(cell);
        proof {
            assert(self.heap@.subrange(0, old(self).heap@.len() as int) =~= old(self).heap@);
            assert forall|i: int| 0 <= i < self.world.slots().len() implies crate::value::ref_below(
                #[trigger] self.world.slots()[i],
                self.heap@.len() as int,
            ) by {
                assert(crate::value::ref_below(self.world.slots()[i], old(self).heap@.len() as int));
            }
            assert forall|i: int| 0 <= i < self.captures@.len() implies (#[trigger] self.captures@[i] matches Some(
                r,
            ) ==> valid_ref(self.heap@, r)) by {
                if let Some(r) = self.captures@[i] {
                    assert(valid_ref(old(self).heap@, r));
                }
            }
        }
        res
    }

    /// Sets the global variable `key` to `v`.
    pub fn define_global_value(&mut self, key: &Vec<char>, v: Ref)
        requires
            old(self).wf(),
            old(self).valid(v),
        ensures
            final(self).wf(),
            final(self).heap_view() == old(self).heap_view(),
            final(self).captured() == old(self).captured(),
            final(self).spec_id() == old(self).spec_id(),
            final(self).receiver_slots() == old(self).receiver_slots(),
            final(self).spec_gensym() == old(self).spec_gensym(),
            final(self).spec_prev() == old(self).spec_prev(),
            forall|k: Seq<char>|
                #[trigger] final(self).global(k) == if k == key@ {
                    Some(v)
                } else {
                    old(self).global(k)
                },
    {
        self.world.set(key, v);
        proof {
            assert forall|i: int| 0 <= i < self.world.slots().len() implies crate::value::ref_below(
                #[trigger] self.world.slots()[i],
                self.heap@.len() as int,
            ) by {
                if self.world.slots()[i] != v {
                    assert(crate::value::ref_below(old(self).world.slots()[i], old(self).heap@.len() as int));
                }
            }
        }
    }

    /// `self` is `old` with some global variables set and nothing else
    /// changed.
    pub open spec fn redefined_from(&self, old: &Object) -> bool {
        &&& self.wf()
        &&& self.heap_view() == old.heap_view()
        &&& self.captured() == old.captured()
        &&& self.receiver_slots() == old.receiver_slots()
        &&& self.spec_id() == old.spec_id()
        &&& self.spec_gensym() == old.spec_gensym()
        &&& self.spec_prev() == old.spec_prev()
    }

    /// Sets the global variable named by the text `key` to `v`.
    pub fn define_global_str(&mut self, key: &str, v: Ref)
        requires
            old(self).wf(),
            old(self).valid(v),
        ensures
            final(self).wf(),
            final(self).heap_view() == old(self).heap_view(),
            final(self).captured() == old(self).captured(),
            final(self).spec_id() == old(self).spec_id(),
            final(self).receiver_slots() == old(self).receiver_slots(),
            final(self).spec_gensym() == old(self).spec_gensym(),
            final(self).spec_prev() == old(self).spec_prev(),
            forall|k: Seq<char>|
                #[trigger] final(self).global(k) == if k == key@ {
                    Some(v)
                } else {
                    old(self).global(k)
                },
    {
        let k = crate::value::string::str_to_chars(key);
        self.define_global_value(&k, v);
    }

    /// The value of the global variable `key`, if it is set.
    pub fn find_global_value(&self, key: &Vec<char>) -> (res: Option<Ref>)
        requires
            self.wf(),
        ensures
            res == self.global(key@),
            res matches Some(r) ==> self.valid(r),
    {
        proof {
            self.world.lemma_slot_of(key@);
        }
        self.world.get(key)
    }

    /// Holds `v` for the code that runs in the object: a collection keeps it
    /// and moves it with its cell. Answers the slot it is held in.
    pub fn capture(&mut self, v: Ref) -> (slot: usize)
        requires
            old(self).wf(),
            old(self).valid(v),
        ensures
            final(self).wf(),
            final(self).heap_view() == old(self).heap_view(),
            forall|k: Seq<char>| #[trigger] final(self).global(k) == old(self).global(k),
            slot < final(self).captured().len(),
            final(self).captured()[slot as int] == Some(v),
            forall|i: int|
                0 <= i < old(self).captured().len() && i != slot ==> #[trigger] final(self).captured()[i] == old(
                    self,
                ).captured()[i],
            old(self).captured().len() <= final(self).captured().len(),
            slot < old(self).captured().len() ==> old(self).captured()[slot as int] is None,
            final(self).receiver_slots() == old(self).receiver_slots(),
            final(self).spec_id() == old(self).spec_id(),
            final(self).spec_gensym() == old(self).spec_gensym(),
            final(self).spec_prev() == old(self).spec_prev(),
    {
        let slot = self.captures.allocate(v);
        slot
    }

    /// The value held in the capture slot `slot`.
    pub fn captured_value(&self, slot: usize) -> (v: Ref)
        requires
            self.wf(),
            slot < self.captured().len(),
            self.captured()[slot as int] is Some,
        ensures
            Some(v) == self.captured()[slot as int],
            self.valid(v),
    {
        self.captures.get(slot)
    }

    /// Stops holding the value of the capture slot `slot`.
    pub fn release(&mut self, slot: usize)
        requires
            old(self).wf(),
            slot < old(self).captured().len(),
            old(self).captured()[slot as int] is Some,
            !old(self).uses_slot(slot),
        ensures
            final(self).wf(),
            final(self).heap_view() == old(self).heap_view(),
            forall|k: Seq<char>| #[trigger] final(self).global(k) == old(self).global(k),
            final(self).captured() == old(self).captured().update(slot as int, None),
            final(self).receiver_slots() == old(self).receiver_slots(),
            final(self).spec_id() == old(self).spec_id(),
            final(self).spec_gensym() == old(self).spec_gensym(),
            final(self).spec_prev() == old(self).spec_prev(),
    {
        self.captures.free(slot);
        proof {
            assert forall|i: int| 0 <= i < self.receivers@.len() implies {
                &&& (#[trigger] self.receivers@[i]).0 < self.captures@.len()
                &&& self.captures@[self.receivers@[i].0 as int] is Some
                &&& self.receivers@[i].1 < self.captures@.len()
                &&& self.captures@[self.receivers@[i].1 as int] is Some
            } by {
                assert(old(self).receiver_slots()[i] == self.receivers@[i]);
                assert(self.receivers@[i].0 != slot);
                assert(self.receivers@[i].1 != slot);
            }
        }
    }

    /// Adds a receiver of messages: the messages that match `pattern` are
    /// answered by evaluating `body`. Both are held as captured values.
    pub fn add_receiver(&mut self, pattern: Ref, body: Ref)
        requires
            old(self).wf(),
            old(self).valid(pattern),
            old(self).valid(body),
        ensures
            final(self).wf(),
            final(self).heap_view() == old(self).heap_view(),
            forall|k: Seq<char>| #[trigger] final(self).global(k) == old(self).global(k),
            final(self).evolved_from(old(self)),
            final(self).receiver_slots().len() == old(self).receiver_slots().len() + 1,
            forall|i: int|
                0 <= i < old(self).receiver_slots().len() ==> #[trigger] final(self).receiver_slots()[i] == old(
                    self,
                ).receiver_slots()[i],
            final(self).receiver(old(self).receiver_slots().len() as int) == (pattern, body),
            final(self).spec_gensym() == old(self).spec_gensym(),
            final(self).spec_prev() == old(self).spec_prev(),
    {
        let p = self.capture(pattern);
        let ghost o1 = *self;
        let b = self.capture(body);
        let ghost o2 = *self;
        self.receivers.push((p, b));
        proof {
            assert forall|k: Seq<char>| #[trigger] self.global(k) == old(self).global(k) by {
                assert(o2.global(k) == o1.global(k));
                assert(o1.global(k) == old(self).global(k));
            }
            assert forall|i: int|
                0 <= i < old(self).captured().len() && (#[trigger] old(self).captured()[i]) is Some implies self.captured()[i]
                == old(self).captured()[i] by {
                assert(o1.captured()[i] == old(self).captured()[i]);
            }
            assert(self.heap_view().subrange(0, old(self).heap_view().len() as int) =~= old(self).heap_view());
            assert forall|i: int| 0 <= i < self.receivers@.len() implies {
                &&& (#[trigger] self.receivers@[i]).0 < self.captures@.len()
                &&& self.captures@[self.receivers@[i].0 as int] is Some
                &&& self.receivers@[i].1 < self.captures@.len()
                &&& self.captures@[self.receivers@[i].1 as int] is Some
            } by {
                if i < old(self).receivers@.len() {
                    assert(self.receivers@[i] == old(self).receivers@[i]);
                }
            }
        }
    }

    /// The pattern and body of the receiver `i`.
    pub open spec fn receiver(&self, i: int) -> (Ref, Ref) {
        (self.captured()[self.receiver_slots()[i].0 as int].unwrap(), self.captured()[self.receiver_slots()[i].1 as int].unwrap())
    }

    /// Adds `text` to the printed text.
    pub fn write_output(&mut self, text: &mut Vec<char>)
        ensures
            final(self).spec_output() == old(self).spec_output() + old(text)@,
            final(self).heap_view() == old(self).heap_view(),
            forall|k: Seq<char>| #[trigger] final(self).global(k) == old(self).global(k),
            final(self).captured() == old(self).captured(),
            final(self).receiver_slots() == old(self).receiver_slots(),
            final(self).spec_id() == old(self).spec_id(),
            final(self).spec_gensym() == old(self).spec_gensym(),
            final(self).spec_prev() == old(self).spec_prev(),
            final(self).wf() == old(self).wf(),
    {
        self.output.append(text);
    }

    /// Takes the printed text, leaving none.
    pub fn take_output(&mut self) -> (res: Vec<char>)
        ensures
            res@ == old(self).spec_output(),
            final(self).spec_output().len() == 0,
            final(self).heap_view() == old(self).heap_view(),
            forall|k: Seq<char>| #[trigger] final(self).global(k) == old(self).global(k),
            final(self).captured() == old(self).captured(),
            final(self).receiver_slots() == old(self).receiver_slots(),
            final(self).spec_id() == old(self).spec_id(),
            final(self).spec_gensym() == old(self).spec_gensym(),
            final(self).spec_prev() == old(self).spec_prev(),
            final(self).wf() == old(self).wf(),
    {
        let mut res: Vec<char> = Vec::new();
        std::mem::swap(&mut res, &mut self.output);
        res
    }

    /// The number of receivers.
    pub fn receivers_len(&self) -> (n: usize)
        ensures
            n == self.receiver_slots().len(),
    {
        self.receivers.len()
    }

    /// The pattern and body of every receiver name cells of the heap.
    pub proof fn lemma_receivers_valid(&self, i: int)
        requires
            self.wf(),
            0 <= i < self.receiver_slots().len(),
        ensures
            self.valid(self.receiver(i).0),
            self.valid(self.receiver(i).1),
    {
        let rs = self.receiver_slots()[i];
        assert(self.captured()[rs.0 as int] matches Some(r) ==> valid_ref(self.heap_view(), r));
        assert(self.captured()[rs.1 as int] matches Some(r) ==> valid_ref(self.heap_view(), r));
    }

    /// The pattern and body of the receiver `i`.
    pub fn get_receiver(&self, i: usize) -> (res: (Ref, Ref))
        requires
            self.wf(),
            i < self.receiver_slots().len(),
        ensures
            res == self.receiver(i as int),
            self.valid(res.0),
            self.valid(res.1),
    {
        let (p, b) = self.receivers[i];
        (self.captured_value(p), self.captured_value(b))
    }

    /// Remembers the object that switched to this one.
    pub fn set_prev_object(&mut self, prev: usize)
        ensures
            final(self).spec_prev() == Some(prev),
            final(self).heap_view() == old(self).heap_view(),
            forall|k: Seq<char>| #[trigger] final(self).global(k) == old(self).global(k),
            final(self).captured() == old(self).captured(),
            final(self).spec_id() == old(self).spec_id(),
            final(self).receiver_slots() == old(self).receiver_slots(),
            final(self).wf() == old(self).wf(),
            final(self).spec_gensym() == old(self).spec_gensym(),
            final(self).spec_output() == old(self).spec_output(),
            same_but_prev(&*final(self), &*old(self)),
    {
        self.prev_object = Some(prev);
    }

    /// Takes the object that switched to this one, leaving none.
    pub fn take_prev_object(&mut self) -> (res: Option<usize>)
        ensures
            res == old(self).spec_prev(),
            final(self).spec_prev() is None,
            final(self).heap_view() == old(self).heap_view(),
            forall|k: Seq<char>| #[trigger] final(self).global(k) == old(self).global(k),
            final(self).captured() == old(self).captured(),
            final(self).spec_id() == old(self).spec_id(),
            final(self).receiver_slots() == old(self).receiver_slots(),
            final(self).wf() == old(self).wf(),
            final(self).spec_gensym() == old(self).spec_gensym(),
            final(self).spec_output() == old(self).spec_output(),
            same_but_prev(&*final(self), &*old(self)),
    {
        let res = self.prev_object;
        self.prev_object = None;
        res
    }

    /// A fresh number for a generated symbol.
    pub fn next_gensym(&mut self) -> (n: u64)
        requires
            old(self).wf(),
        ensures
            final(self).wf(),
            n == old(self).spec_gensym(),
            final(self).spec_gensym() == if n < u64::MAX {
                (n + 1) as u64
            } else {
                0
            },
            final(self).heap_view() == old(self).heap_view(),
            forall|k: Seq<char>| #[trigger] final(self).global(k) == old(self).global(k),
            final(self).captured() == old(self).captured(),
            final(self).spec_id() == old(self).spec_id(),
            final(self).receiver_slots() == old(self).receiver_slots(),
            final(self).spec_prev() == old(self).spec_prev(),
    {
        let n = self.gensym_counter;
        self.gensym_counter = if n < u64::MAX {
            n + 1
        } else {
            0
        };
        n
    }

    /// Collects the cells that neither a global variable nor a captured value
    /// can reach. Every global variable and every captured value keeps
    /// denoting what it denoted.
    pub fn do_gc(&mut self)
        requires
            old(self).wf(),
        ensures
            final(self).wf(),
            forall|k: Seq<char>|
                (#[trigger] final(self).global(k)) is Some == old(self).global(k) is Some,
            forall|k: Seq<char>|
                #[trigger] final(self).global(k) matches Some(r) ==> final(self).value_of(r) == old(self).value_of(
                    old(self).global(k).unwrap(),
                ),
            final(self).captured().len() == old(self).captured().len(),
            forall|i: int|
                0 <= i < old(self).captured().len() ==> (#[trigger] final(self).captured()[i] is Some
                    == old(self).captured()[i] is Some),
            used_values(final(self).captured()).len() == used_values(old(self).captured()).len(),
            forall|i: int|
                0 <= i < used_values(old(self).captured()).len() ==> #[trigger] final(self).value_of(
                    used_values(final(self).captured())[i],
                ) == old(self).value_of(used_values(old(self).captured())[i]),
            final(self).spec_id() == old(self).spec_id(),
            final(self).receiver_slots() == old(self).receiver_slots(),
            final(self).spec_gensym() == old(self).spec_gensym(),
            final(self).spec_prev() == old(self).spec_prev(),
            crate::object::mm::gc_cells_law(old(self).heap_view(), old(self).gc_roots(), final(self).heap_view()),
    {
        let ghost old_h = self.heap@;
        proof {
            self.heap.lemma_wf();
        }
        let mut roots = self.world.slot_values();
        let nw = roots.len();
        let mut caps = self.captures.used_values();
        let ghost ws = roots@;
        let ghost cs = caps@;
        roots.append(&mut caps);
        let ghost all = roots@;
        proof {
            assert(all =~= old(self).gc_roots());
            assert forall|i: int| 0 <= i < all.len() implies crate::value::ref_below(
                #[trigger] all[i],
                old_h.len() as int,
            ) by {
                if i >= ws.len() {
                    assert(all[i] == cs[i - ws.len()]);
                    crate::object::fixed_size_alloc::lemma_used_values_contains(self.captures@, i - ws.len());
                    let j = choose|j: int| 0 <= j < self.captures@.len() && self.captures@[j] == Some(cs[i - ws.len()]);
                    assert(self.captures@[j] matches Some(r) ==> valid_ref(old_h, r));
                }
            }
        }
        self.heap.gc(&mut roots);
        proof {
            lemma_gc_preserves_values(old_h, all, self.heap@, roots@);
        }
        let rest = roots.split_off(nw);
        let ghost new_all = roots@ + rest@;
        proof {
            assert(new_all =~= crate::object::mm::forward_refs(all, crate::object::mm::live_set(old_h, all)));
        }
        self.world.set_slot_values(roots);
        self.captures.set_used_values(&rest);
        proof {
            let h = self.heap@;
            assert forall|i: int| 0 <= i < self.world.slots().len() implies crate::value::ref_below(
                #[trigger] self.world.slots()[i],
                h.len() as int,
            ) by {
                assert(self.world.slots()[i] == new_all[i]);
            }
            assert forall|i: int| 0 <= i < self.captures@.len() implies (#[trigger] self.captures@[i] matches Some(
                r,
            ) ==> valid_ref(h, r)) by {
                if let Some(r) = self.captures@[i] {
                    crate::object::fixed_size_alloc::lemma_slot_in_used_values(self.captures@, i);
                    let k = choose|k: int| 0 <= k < used_values(self.captures@).len() && used_values(self.captures@)[k] == r;
                    assert(rest@[k] == new_all[nw + k]);
                }
            }
            assert forall|k: Seq<char>| (#[trigger] self.global(k)) is Some implies self.value_of(
                self.global(k).unwrap(),
            ) == old(self).value_of(old(self).global(k).unwrap()) by {
                old(self).world.lemma_slot_of(k);
                let s = old(self).world.slot_of(k);
                assert(new_all[s as int] == self.world.slots()[s as int]);
                assert(all[s as int] == ws[s as int]);
            }
            assert forall|i: int| 0 <= i < used_values(old(self).captured()).len() implies #[trigger] self.value_of(
                used_values(self.captured())[i],
            ) == old(self).value_of(used_values(old(self).captured())[i]) by {
                assert(new_all[nw + i] == rest@[i]);
                assert(all[nw + i] == cs[i]);
            }
        }
    }
}


/// The builtin that controls the running program named `k`, if there is one.
pub open spec fn control_builtin(k: Seq<char>) -> Option<crate::value::func::FuncId> {
    if k == "exit"@ {
        Some(crate::value::func::FuncId::Exit)
    } else {
        None
    }
}

/// Defines `exit`.
pub fn register_global(obj: &mut Object)
    requires
        old(obj).wf(),
    ensures
        final(obj).redefined_from(old(obj)),
        forall|k: Seq<char>|
            #[trigger] final(obj).global(k) == match control_builtin(k) {
                Some(id) => Some(Ref::Func(id)),
                None => old(obj).global(k),
            },
{
    obj.define_global_str("exit", Ref::Func(crate::value::func::FuncId::Exit));
}


/// The value a new object's global variable `k` holds: a builtin function
/// or syntax, if one has that name.
pub open spec fn core_global(k: Seq<char>) -> Option<Ref> {
    match crate::value::reply::reply_builtin(k) {
        Some(id) => Some(Ref::Func(id)),
        None => match crate::eval::eval_builtin(k) {
            Some(id) => Some(Ref::Func(id)),
            None => match crate::value::list::list_builtin(k) {
                Some(id) => Some(Ref::Func(id)),
                None => match crate::value::array::array_builtin(k) {
                    Some(id) => Some(Ref::Func(id)),
                    None => match crate::value::tuple::tuple_builtin(k) {
                        Some(id) => Some(Ref::Func(id)),
                        None => match crate::value::any::any_builtin(k) {
                            Some(id) => Some(Ref::Func(id)),
                            None => match crate::compile::core_syntax(k) {
                                Some(id) => Some(Ref::Syntax(id)),
                                None => match crate::value::number::number_builtin(k) {
                                    Some(id) => Some(Ref::Func(id)),
                                    None => match crate::value::object_ref::object_builtin(k) {
                                        Some(id) => Some(Ref::Func(id)),
                                        None => match control_builtin(k) {
                                            Some(id) => Some(Ref::Func(id)),
                                            None => None,
                                        },
                                    },
                                },
                            },
                        },
                    },
                },
            },
        },
    }
}

impl Object {
    /// Defines every builtin function and syntax as a global variable.
    pub fn register_core_global(&mut self)
        requires
            old(self).wf(),
        ensures
            final(self).redefined_from(old(self)),
            forall|k: Seq<char>|
                #[trigger] final(self).global(k) == match core_global(k) {
                    Some(v) => Some(v),
                    None => old(self).global(k),
                },
    {
        register_global(self);
        crate::value::object_ref::register_global(self);
        crate::value::number::register_global(self);
        crate::compile::register_global(self);
        crate::value::any::register_global(self);
        crate::value::tuple::register_global(self);
        crate::value::array::register_global(self);
        crate::value::list::register_global(self);
        crate::eval::register_global(self);
        crate::value::reply::register_global(self);
    }
}


/// `a` is `b` but for the object it remembers having been switched from.
pub open spec fn same_but_prev(a: &Object, b: &Object) -> bool {
    &&& a.heap_view() == b.heap_view()
    &&& forall|k: Seq<char>| #[trigger] a.global(k) == b.global(k)
    &&& a.captured() == b.captured()
    &&& a.spec_id() == b.spec_id()
    &&& a.receiver_slots() == b.receiver_slots()
    &&& a.spec_gensym() == b.spec_gensym()
    &&& a.spec_output() == b.spec_output()
    &&& a.wf() == b.wf()
}

/// The object at `k` of `p0` became the current one `c1`, remembering the
/// object `c0` it was switched from, which joined the others `p1`.
pub open spec fn switched(c0: Object, p0: Seq<Object>, k: int, c1: Object, p1: Seq<Object>) -> bool {
    &&& 0 <= k < p0.len()
    &&& same_but_prev(&c1, &p0[k])
    &&& c1.spec_prev() == Some(c0.spec_id())
    &&& p1 == p0.remove(k).push(c0)
}

/// The object at `k` of `p0`, the one `c0` was switched from, became the
/// current one `c1`; `c0`, remembering no object, joined the others `p1`.
pub open spec fn returned(c0: Object, p0: Seq<Object>, k: int, c1: Object, p1: Seq<Object>) -> bool {
    &&& 0 <= k < p0.len()
    &&& c0.spec_prev() == Some(p0[k].spec_id())
    &&& c1 == p0[k]
    &&& p1.len() == p0.len()
    &&& p1.drop_last() == p0.remove(k)
    &&& same_but_prev(&p1.last(), &c0)
    &&& p1.last().spec_prev() is None
}

/// Switching from an object to another and straight back makes the first
/// object current again exactly as it was, when no other object has its
/// number; the other returns among the rest as it was but for forgetting the
/// switch, which it remembered while current.
pub proof fn lemma_switch_and_return(
    c0: Object,
    p0: Seq<Object>,
    k: int,
    c1: Object,
    p1: Seq<Object>,
    j: int,
    c2: Object,
    p2: Seq<Object>,
)
    requires
        forall|i: int| 0 <= i < p0.len() ==> (#[trigger] p0[i]).spec_id() != c0.spec_id(),
        switched(c0, p0, k, c1, p1),
        returned(c1, p1, j, c2, p2),
    ensures
        c2 == c0,
        p2.drop_last() == p0.remove(k),
        same_but_prev(&p2.last(), &p0[k]),
        p2.last().spec_prev() is None,
{
    assert(p1[j].spec_id() == c0.spec_id());
    if j < p1.len() - 1 {
        if j < k {
            assert(p1[j] == p0[j]);
        } else {
            assert(p1[j] == p0[j + 1]);
        }
    }
    assert(j == p1.len() - 1);
    assert(p1.remove(j) =~= p0.remove(k));
}

/// The position in `peers` of the object numbered `id`, if there is one.
fn find_object(peers: &Vec<Object>, id: usize) -> (res: Option<usize>)
    ensures
        match res {
            Some(i) => i < peers@.len() && peers@[i as int].spec_id() == id,
            None => forall|k: int| 0 <= k < peers@.len() ==> (#[trigger] peers@[k]).spec_id() != id,
        },
{
    let mut i: usize = 0;
    while i < peers.len()
        invariant
            i <= peers@.len(),
            forall|k: int| 0 <= k < i ==> (#[trigger] peers@[k]).spec_id() != id,
        decreases peers@.len() - i,
    {
        if peers[i].id() == id {
            return Some(i);
        }
        i = i + 1;
    }
    None
}

/// Makes the object numbered `id`, taken out of `peers`, the current one;
/// the current one joins `peers`. Nothing changes when no such object is
/// among `peers`.
fn switch_to(cur: &mut Object, peers: &mut Vec<Object>, id: usize) -> (res: bool)
    requires
        old(cur).wf(),
        objects_wf(old(peers)@),
    ensures
        final(cur).wf(),
        objects_wf(final(peers)@),
        res == exists|k: int| 0 <= k < old(peers)@.len() && (#[trigger] old(peers)@[k]).spec_id() == id,
        res ==> final(cur).spec_id() == id && final(peers)@.len() == old(peers)@.len(),
        res ==> exists|k: int|
            0 <= k < old(peers)@.len() && (#[trigger] old(peers)@[k]).spec_id() == id && *final(cur) == old(peers)@[k]
                && final(peers)@ == old(peers)@.remove(k).push(*old(cur)),
        !res ==> *final(cur) == *old(cur) && final(peers)@ == old(peers)@,
{
    match find_object(peers, id) {
        Some(i) => {
            let ghost p0 = peers@;
            let mut other = peers.remove(i);
            std::mem::swap(cur, &mut other);
            peers.push(other);
            proof {
                assert(peers@ =~= p0.remove(i as int).push(*old(cur)));
                assert forall|k: int| 0 <= k < peers@.len() implies (#[trigger] peers@[k]).wf() by {
                    if k < i {
                        assert(peers@[k] == p0[k]);
                    } else if k < peers@.len() - 1 {
                        assert(peers@[k] == p0[k + 1]);
                    }
                }
                assert(p0[i as int].spec_id() == id);
            }
            true
        },
        None => false,
    }
}

/// Switches to the object `target` refers to: it becomes the current
/// object and remembers the one it was switched from, which joins `peers`.
pub fn object_switch(cur: &mut Object, peers: &mut Vec<Object>, target: Ref) -> (res: Result<(), Exception>)
    requires
        old(cur).wf(),
        objects_wf(old(peers)@),
    ensures
        final(cur).wf(),
        objects_wf(final(peers)@),
        res is Ok ==> final(cur).spec_prev() == Some(old(cur).spec_id()),
        res is Err ==> *final(cur) == *old(cur) && final(peers)@ == old(peers)@,
        res is Ok <==> match old(cur).value_of(target) {
            Val::Object(id) => exists|k: int|
                0 <= k < old(peers)@.len() && (#[trigger] old(peers)@[k]).spec_id() == id,
            _ => false,
        },
        !(old(cur).value_of(target) is Object) ==> res matches Err(Exception::TypeMismatch(_)),
        old(cur).value_of(target) is Object && res is Err ==> res == Err::<(), Exception>(Exception::MySelfObjectDeleted),
        res is Ok ==> exists|k: int|
            #![trigger old(peers)@[k]]
            switched(*old(cur), old(peers)@, k, *final(cur), final(peers)@) && old(cur).value_of(target) == Val::Object(
                old(peers)@[k].spec_id() as nat,
            ),
{
    let id = match crate::value::object_ref::ObjectRef::get(cur, target) {
        Some(id) => id,
        None => {
            return Err(Exception::TypeMismatch(crate::err::TypeMismatch::new(target, crate::value::TypeInfo::ObjectRef)));
        },
    };
    let from = cur.id();
    if switch_to(cur, peers, id) {
        let ghost c1 = *cur;
        cur.set_prev_object(from);
        proof {
            let k = choose|k: int|
                0 <= k < old(peers)@.len() && (#[trigger] old(peers)@[k]).spec_id() == id && c1 == old(peers)@[k]
                    && peers@ == old(peers)@.remove(k).push(*old(cur));
            assert(switched(*old(cur), old(peers)@, k, *cur, peers@));
        }
        Ok(())
    } else {
        Err(Exception::MySelfObjectDeleted)
    }
}

/// Switches back to the object the current one was switched from; false
/// when there is none.
pub fn return_object_switch(cur: &mut Object, peers: &mut Vec<Object>) -> (res: bool)
    requires
        old(cur).wf(),
        objects_wf(old(peers)@),
    ensures
        final(cur).wf(),
        objects_wf(final(peers)@),
        old(cur).spec_prev() is None ==> !res && *final(cur) == *old(cur),
        res ==> final(cur).spec_id() == old(cur).spec_prev().unwrap(),
        res <==> match old(cur).spec_prev() {
            Some(p) => exists|k: int| 0 <= k < old(peers)@.len() && (#[trigger] old(peers)@[k]).spec_id() == p,
            None => false,
        },
        res ==> exists|k: int| #![trigger old(peers)@[k]] returned(*old(cur), old(peers)@, k, *final(cur), final(peers)@),
        !res ==> *final(cur) == *old(cur) && final(peers)@ == old(peers)@,
{
    match cur.prev_object {
        Some(prev) => {
            let ghost c0 = *cur;
            cur.prev_object = None;
            let ghost c1 = *cur;
            if switch_to(cur, peers, prev) {
                proof {
                    let k = choose|k: int|
                        0 <= k < old(peers)@.len() && (#[trigger] old(peers)@[k]).spec_id() == prev && *cur == old(
                            peers,
                        )@[k] && peers@ == old(peers)@.remove(k).push(c1);
                    assert(peers@.drop_last() =~= old(peers)@.remove(k));
                    assert(returned(*old(cur), old(peers)@, k, *cur, peers@));
                }
                true
            } else {
                cur.prev_object = Some(prev);
                false
            }
        },
        None => false,
    }
}

} // verus!
