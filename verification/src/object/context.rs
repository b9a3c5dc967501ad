use vstd::prelude::*;

use crate::object::Object;
use crate::object::mm::copy_chars;
use crate::value::Ref;
use crate::value::list::all_valid;

verus! {

/// The local variables of a running evaluation: names and values, in the
/// order they were bound, split into frames.
pub struct Context {
    names: Vec<Vec<char>>,
    values: Vec<Ref>,
    frames: Vec<usize>,
}

impl Context {
    /// Every name has its value and every frame starts within the bindings.
    pub closed spec fn wf(&self) -> bool {
        &&& self.names@.len() == self.values@.len()
        &&& forall|i: int| 0 <= i < self.frames@.len() ==> #[trigger] self.frames@[i] <= self.names@.len()
        &&& forall|i: int, j: int| 0 <= i < j < self.frames@.len() ==> #[trigger] self.frames@[i] <= #[trigger] self.frames@[j]
    }

    /// Every value is valid in `obj`.
    pub open spec fn valid_in(&self, obj: &Object) -> bool {
        all_valid(obj, self.spec_values())
    }

    /// The number of frames.
    pub closed spec fn depth(&self) -> nat {
        self.frames@.len()
    }

    /// The values bound, in order.
    pub closed spec fn spec_values(&self) -> Seq<Ref> {
        self.values@
    }

    /// The names bound, in order.
    pub closed spec fn spec_names(&self) -> Seq<Seq<char>> {
        self.names@.map_values(|n: Vec<char>| n@)
    }

    /// `self` binds what `e` binds, in the same frames, and possibly more in
    /// the innermost frame.
    pub closed spec fn extends_frame(&self, e: &Context) -> bool {
        &&& self.frames@ == e.frames@
        &&& e.names@.len() <= self.names@.len()
        &&& e.values@.len() <= self.values@.len()
        &&& self.names@.subrange(0, e.names@.len() as int) == e.names@
        &&& self.values@.subrange(0, e.values@.len() as int) == e.values@
    }

    /// `self` is `e` with one more frame, which may hold bindings of its own.
    pub closed spec fn opened_from(&self, e: &Context) -> bool {
        &&& e.names@.len() == e.values@.len()
        &&& self.frames@ == e.frames@.push(e.names@.len() as usize)
        &&& e.names@.len() <= self.names@.len()
        &&& e.values@.len() <= self.values@.len()
        &&& self.names@.subrange(0, e.names@.len() as int) == e.names@
        &&& self.values@.subrange(0, e.values@.len() as int) == e.values@
    }

    /// `self` and `e` bind the same names to the same values in the same
    /// frames.
    pub closed spec fn same_as(&self, e: &Context) -> bool {
        &&& self.names@ == e.names@
        &&& self.values@ == e.values@
        &&& self.frames@ == e.frames@
    }

    /// A context extends itself.
    pub proof fn lemma_extends_refl(&self)
        ensures
            self.extends_frame(self),
            self.same_as(self),
    {
        assert(self.names@.subrange(0, self.names@.len() as int) =~= self.names@);
        assert(self.values@.subrange(0, self.values@.len() as int) =~= self.values@);
    }

    /// Extending the innermost frame twice extends it.
    pub proof fn lemma_extends_trans(&self, b: &Context, c: &Context)
        requires
            self.extends_frame(b),
            b.extends_frame(c),
        ensures
            self.extends_frame(c),
    {
        assert(self.names@.subrange(0, c.names@.len() as int) =~= b.names@.subrange(0, c.names@.len() as int));
        assert(self.values@.subrange(0, c.values@.len() as int) =~= b.values@.subrange(0, c.values@.len() as int));
    }

    /// Binding more in a frame just opened keeps it opened from `c`.
    pub proof fn lemma_opened_extends(&self, b: &Context, c: &Context)
        requires
            self.extends_frame(b),
            b.opened_from(c),
        ensures
            self.opened_from(c),
    {
        assert(self.names@.subrange(0, c.names@.len() as int) =~= b.names@.subrange(0, c.names@.len() as int));
        assert(self.values@.subrange(0, c.values@.len() as int) =~= b.values@.subrange(0, c.values@.len() as int));
    }

    /// The value of a bound variable is one of the values bound.
    pub proof fn lemma_lookup_valid(&self, obj: &Object)
        requires
            self.wf(),
            self.valid_in(obj),
        ensures
            forall|k: Seq<char>| #[trigger] self.spec_lookup(k) is Some ==> obj.valid(self.spec_lookup(k)->0),
    {
        assert forall|k: Seq<char>| #[trigger] self.spec_lookup(k) is Some implies obj.valid(self.spec_lookup(k)->0) by {
            lemma_find_last_in(self.names@, self.values@, k, self.names@.len() as int);
        }
    }

    /// Having the same bindings is transitive.
    pub proof fn lemma_same_trans(&self, b: &Context, c: &Context)
        requires
            self.same_as(b),
            b.same_as(c),
        ensures
            self.same_as(c),
    {
    }

    /// Contexts with the same bindings agree on everything they tell.
    pub proof fn lemma_same_as(&self, e: &Context)
        requires
            self.same_as(e),
        ensures
            self.wf() == e.wf(),
            self.depth() == e.depth(),
            self.spec_values() == e.spec_values(),
            forall|k: Seq<char>| #[trigger] self.spec_lookup(k) == e.spec_lookup(k),
            forall|o: &Object| #[trigger] self.valid_in(o) == e.valid_in(o),
            self.extends_frame(e),
    {
        e.lemma_extends_refl();
    }

    /// The values stay valid as the heap grows.
    pub proof fn lemma_valid_grow(&self, a: &Object, b: &Object)
        requires
            self.valid_in(a),
            crate::value::any::extends(b.heap_view(), a.heap_view()),
        ensures
            self.valid_in(b),
    {
        assert forall|k: int| 0 <= k < self.values@.len() implies b.valid(#[trigger] self.values@[k]) by {
            assert(a.valid(self.values@[k]));
        }
    }

    /// No variables and no frames.
    pub fn new() -> (e: Self)
        ensures
            e.wf(),
            e.depth() == 0,
            e.spec_values().len() == 0,
            forall|o: &Object| e.valid_in(o),
            forall|k: Seq<char>| #[trigger] e.spec_lookup(k) is None,
    {
        Context { names: Vec::new(), values: Vec::new(), frames: Vec::new() }
    }

    /// There is no frame of local variables: definitions are global.
    pub fn is_toplevel(&self) -> (b: bool)
        ensures
            b == (self.depth() == 0),
    {
        self.frames.len() == 0
    }

    /// Opens a frame with no variables.
    fn push_empty_frame(&mut self)
        requires
            old(self).wf(),
        ensures
            final(self).wf(),
            final(self).depth() == old(self).depth() + 1,
            final(self).spec_values() == old(self).spec_values(),
            final(self).names@ == old(self).names@,
            final(self).values@ == old(self).values@,
            final(self).frames@ == old(self).frames@.push(old(self).names@.len() as usize),
    {
        self.frames.push(self.names.len());
        proof {
            assert forall|i: int, j: int| 0 <= i < j < self.frames@.len() implies #[trigger] self.frames@[i]
                <= #[trigger] self.frames@[j] by {
                if j < old(self).frames@.len() {
                    assert(self.frames@[i] == old(self).frames@[i]);
                    assert(self.frames@[j] == old(self).frames@[j]);
                } else {
                    assert(self.frames@[i] == old(self).frames@[i]);
                }
            }
        }
    }

    /// Closes the innermost frame and forgets the variables bound in it.
    pub fn pop_local_frame(&mut self)
        requires
            old(self).wf(),
            old(self).depth() > 0,
        ensures
            final(self).wf(),
            final(self).depth() == old(self).depth() - 1,
            final(self).spec_values().len() <= old(self).spec_values().len(),
            forall|k: int| 0 <= k < final(self).spec_values().len() ==> #[trigger] final(self).spec_values()[k] == old(self).spec_values()[k],
            forall|e: Context| #[trigger] old(self).opened_from(&e) ==> final(self).same_as(&e),
    {
        let m = self.frames.pop().unwrap();
        self.names.truncate(m);
        self.values.truncate(m);
        proof {
            assert forall|i: int| 0 <= i < self.frames@.len() implies #[trigger] self.frames@[i] <= self.names@.len() by {
                assert(self.frames@[i] == old(self).frames@[i]);
                assert(old(self).frames@[i] <= old(self).frames@[old(self).frames@.len() - 1]);
            }
            assert forall|i: int, j: int| 0 <= i < j < self.frames@.len() implies #[trigger] self.frames@[i]
                <= #[trigger] self.frames@[j] by {
                assert(self.frames@[i] == old(self).frames@[i]);
                assert(self.frames@[j] == old(self).frames@[j]);
            }
            assert forall|e: Context| #[trigger] old(self).opened_from(&e) implies self.same_as(&e) by {
                assert(self.frames@ =~= e.frames@);
                assert(self.names@ =~= e.names@);
                assert(self.values@ =~= e.values@);
            }
        }
    }
}


impl Context {
    /// Binds `name` to `v` in the innermost frame.
    fn bind(&mut self, name: Vec<char>, v: Ref)
        requires
            old(self).wf(),
        ensures
            final(self).wf(),
            final(self).depth() == old(self).depth(),
            final(self).spec_values() == old(self).spec_values().push(v),
            final(self).spec_names() == old(self).spec_names().push(name@),
            final(self).extends_frame(old(self)),
            forall|k: Seq<char>|
                #[trigger] final(self).spec_lookup(k) == if k == name@ {
                    Some(v)
                } else {
                    old(self).spec_lookup(k)
                },
    {
        let ghost n0 = self.names@;
        let ghost v0 = self.values@;
        let ghost key = name@;
        self.names.push(name);
        self.values.push(v);
        proof {
            assert(self.spec_names() =~= old(self).spec_names().push(key));
            assert forall|k: Seq<char>| #[trigger] self.spec_lookup(k) == if k == key {
                Some(v)
            } else {
                old(self).spec_lookup(k)
            } by {
                lemma_find_last_prefix(n0, v0, self.names@, self.values@, k, n0.len() as int);
            }
            assert forall|i: int| 0 <= i < self.frames@.len() implies #[trigger] self.frames@[i] <= self.names@.len() by {
                assert(self.frames@[i] == old(self).frames@[i]);
            }
            assert(self.names@.subrange(0, n0.len() as int) =~= n0);
            assert(self.values@.subrange(0, v0.len() as int) =~= v0);
        }
    }

    /// The value of the innermost variable named `name`.
    pub closed spec fn spec_lookup(&self, name: Seq<char>) -> Option<Ref> {
        find_last(self.names@, self.values@, name, self.names@.len() as int)
    }

    /// The value of the innermost variable named `name`.
    pub fn find_local_value(&self, name: &Vec<char>) -> (res: Option<Ref>)
        requires
            self.wf(),
        ensures
            res == self.spec_lookup(name@),
            res matches Some(v) ==> exists|k: int| 0 <= k < self.spec_values().len() && self.spec_values()[k] == v,
    {
        let mut i = self.names.len();
        while i > 0
            invariant
                i <= self.names@.len(),
                self.names@.len() == self.values@.len(),
                find_last(self.names@, self.values@, name@, self.names@.len() as int) == find_last(
                    self.names@,
                    self.values@,
                    name@,
                    i as int,
                ),
            decreases i,
        {
            i = i - 1;
            if crate::object::mm::chars_equal(&self.names[i], name) {
                proof {
                    assert(self.spec_values()[i as int] == self.values@[i as int]);
                }
                return Some(self.values[i]);
            }
        }
        None
    }

    /// The innermost variable named `name` is the last one bound with that
    /// name.
    pub proof fn lemma_lookup_bound(&self, name: Seq<char>)
        requires
            self.wf(),
        ensures
            self.spec_lookup(name) == last_bound(self.spec_names(), self.spec_values(), name, self.spec_values().len() as int),
            self.spec_names().len() == self.spec_values().len(),
    {
        lemma_find_last_bound(self.names@, self.values@, name, self.names@.len() as int);
    }

    /// A copy of the names, in order.
    pub fn names(&self) -> (res: Vec<Vec<char>>)
        requires
            self.wf(),
        ensures
            res@.len() == self.spec_values().len(),
            forall|k: int| 0 <= k < res@.len() ==> (#[trigger] res@[k])@ == self.spec_names()[k],
    {
        let mut res: Vec<Vec<char>> = Vec::new();
        let mut i: usize = 0;
        while i < self.names.len()
            invariant
                i <= self.names@.len(),
                res@.len() == i,
                forall|k: int| 0 <= k < i ==> (#[trigger] res@[k])@ == self.names@[k]@,
            decreases self.names@.len() - i,
        {
            res.push(copy_chars(&self.names[i]));
            i = i + 1;
        }
        res
    }
}

/// The value bound to the last of the first `n` names that is `name`, with
/// the names given as sequences of characters.
pub open spec fn last_bound(names: Seq<Seq<char>>, values: Seq<Ref>, name: Seq<char>, n: int) -> Option<Ref>
    decreases n,
{
    if n <= 0 {
        None
    } else if names[n - 1] == name {
        Some(values[n - 1])
    } else {
        last_bound(names, values, name, n - 1)
    }
}

/// A name found bound is one of the names.
pub proof fn lemma_last_bound_named(names: Seq<Seq<char>>, values: Seq<Ref>, name: Seq<char>, n: int)
    requires
        n <= names.len(),
    ensures
        last_bound(names, values, name, n) is Some ==> exists|j: int| 0 <= j < n && names[j] == name,
    decreases n,
{
    if n > 0 && names[n - 1] != name {
        lemma_last_bound_named(names, values, name, n - 1);
    }
}

/// The value bound to the last of the first `n` names that is `name`.
pub open spec fn find_last(names: Seq<Vec<char>>, values: Seq<Ref>, name: Seq<char>, n: int) -> Option<Ref>
    decreases n,
{
    if n <= 0 {
        None
    } else if names[n - 1]@ == name {
        Some(values[n - 1])
    } else {
        find_last(names, values, name, n - 1)
    }
}

/// `find_last` over names kept as vectors is `last_bound` over their views.
proof fn lemma_find_last_bound(names: Seq<Vec<char>>, values: Seq<Ref>, name: Seq<char>, n: int)
    requires
        n <= names.len(),
    ensures
        find_last(names, values, name, n) == last_bound(names.map_values(|x: Vec<char>| x@), values, name, n),
    decreases n,
{
    if n > 0 {
        lemma_find_last_bound(names, values, name, n - 1);
    }
}

/// `find_last` finds one of the first `n` values.
pub proof fn lemma_find_last_in(names: Seq<Vec<char>>, values: Seq<Ref>, name: Seq<char>, n: int)
    requires
        n <= names.len(),
        n <= values.len(),
    ensures
        find_last(names, values, name, n) is Some ==> exists|i: int|
            0 <= i < n && values[i] == find_last(names, values, name, n)->0,
    decreases n,
{
    if n > 0 && names[n - 1]@ != name {
        lemma_find_last_in(names, values, name, n - 1);
    }
}

/// Names and values added after the first `n` leave `find_last` over the
/// first `n` unchanged.
pub proof fn lemma_find_last_prefix(
    a: Seq<Vec<char>>,
    av: Seq<Ref>,
    b: Seq<Vec<char>>,
    bv: Seq<Ref>,
    name: Seq<char>,
    n: int,
)
    requires
        0 <= n <= a.len(),
        n <= av.len(),
        n <= b.len(),
        n <= bv.len(),
        forall|i: int| 0 <= i < n ==> #[trigger] b[i] == a[i] && bv[i] == av[i],
    ensures
        find_last(b, bv, name, n) == find_last(a, av, name, n),
    decreases n,
{
    if n > 0 {
        lemma_find_last_prefix(a, av, b, bv, name, n - 1);
    }
}


impl Context {
    /// The number of variables bound.
    pub fn len(&self) -> (n: usize)
        requires
            self.wf(),
        ensures
            n == self.spec_values().len(),
    {
        self.values.len()
    }

    /// The name of the variable `i`, in the order they were bound.
    pub fn name_at(&self, i: usize) -> (n: &Vec<char>)
        requires
            self.wf(),
            i < self.spec_values().len(),
        ensures
            n@ == self.spec_names()[i as int],
    {
        &self.names[i]
    }

    /// The value of the variable `i`, in the order they were bound.
    pub fn value_at(&self, i: usize) -> (v: Ref)
        requires
            self.wf(),
            i < self.spec_values().len(),
        ensures
            v == self.spec_values()[i as int],
    {
        self.values[i]
    }

    /// Opens a frame holding the variables `frame`, in order.
    pub fn push_local_frame(&mut self, frame: &Vec<(Vec<char>, Ref)>)
        requires
            old(self).wf(),
        ensures
            final(self).wf(),
            final(self).depth() == old(self).depth() + 1,
            final(self).spec_values() == old(self).spec_values() + frame@.map_values(|p: (Vec<char>, Ref)| p.1),
            final(self).opened_from(old(self)),
            frame@.len() == 0 ==> forall|k: Seq<char>| #[trigger] final(self).spec_lookup(k) == old(self).spec_lookup(k),
    {
        self.push_empty_frame();
        proof {
            assert(self.names@.subrange(0, old(self).names@.len() as int) =~= old(self).names@);
            assert(self.values@.subrange(0, old(self).values@.len() as int) =~= old(self).values@);
        }
        let ghost v0 = self.spec_values();
        let mut i: usize = 0;
        while i < frame.len()
            invariant
                self.wf(),
                self.depth() == old(self).depth() + 1,
                i <= frame@.len(),
                v0 == old(self).spec_values(),
                self.spec_values() == v0 + frame@.take(i as int).map_values(|p: (Vec<char>, Ref)| p.1),
                self.opened_from(old(self)),
                i == 0 ==> self.names@ == old(self).names@ && self.values@ == old(self).values@,
            decreases frame@.len() - i,
        {
            let ghost e1 = *self;
            self.bind(copy_chars(&frame[i].0), frame[i].1);
            proof {
                self.lemma_opened_extends(&e1, old(self));
                assert(frame@.take(i + 1).map_values(|p: (Vec<char>, Ref)| p.1) =~= frame@.take(i as int).map_values(
                    |p: (Vec<char>, Ref)| p.1,
                ).push(frame@[i as int].1));
                assert(self.spec_values() =~= v0 + frame@.take(i + 1).map_values(|p: (Vec<char>, Ref)| p.1));
            }
            i = i + 1;
        }
        proof {
            assert(frame@.take(frame@.len() as int) =~= frame@);
        }
    }

    /// Binds `symbol` to `value` in the innermost frame; false, with nothing
    /// bound, when there is no frame.
    pub fn add_to_current_frame(&mut self, symbol: Vec<char>, value: Ref) -> (res: bool)
        requires
            old(self).wf(),
        ensures
            final(self).wf(),
            res == (old(self).depth() > 0),
            final(self).depth() == old(self).depth(),
            res ==> final(self).spec_values() == old(self).spec_values().push(value),
            res ==> final(self).spec_names() == old(self).spec_names().push(symbol@),
            res ==> forall|k: Seq<char>|
                #[trigger] final(self).spec_lookup(k) == if k == symbol@ {
                    Some(value)
                } else {
                    old(self).spec_lookup(k)
                },
            !res ==> *final(self) == *old(self),
            final(self).extends_frame(old(self)),
    {
        if self.frames.len() == 0 {
            proof {
                self.lemma_extends_refl();
            }
            return false;
        }
        self.bind(symbol, value);
        true
    }
}

} // verus!
