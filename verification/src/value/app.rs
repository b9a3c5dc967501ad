use vstd::prelude::*;

use crate::value::TypeInfo;

verus! {

/// How an argument is passed.
#[derive(Clone, Copy, Debug, PartialEq, Eq, Structural)]
pub enum ParamKind {
    Require,
    Optional,
    Rest,
}

/// A parameter of a function: its name, how it is passed, the type its
/// argument must have, and whether a reply passed to it is waited for.
#[derive(Clone, Copy, Debug)]
pub struct Param {
    pub name: &'static str,
    pub kind: ParamKind,
    pub typeinfo: TypeInfo,
    pub force: bool,
}

impl Param {
    /// A parameter whose reply arguments are waited for.
    pub fn new(name: &'static str, kind: ParamKind, typeinfo: TypeInfo) -> (p: Self)
        ensures
            p.name == name,
            p.kind == kind,
            p.typeinfo == typeinfo,
            p.force,
    {
        Param { name, kind, typeinfo, force: true }
    }

    /// A parameter that takes reply arguments as they are.
    pub fn new_no_force(name: &'static str, kind: ParamKind, typeinfo: TypeInfo) -> (p: Self)
        ensures
            p.name == name,
            p.kind == kind,
            p.typeinfo == typeinfo,
            !p.force,
    {
        Param { name, kind, typeinfo, force: false }
    }
}

/// The number of parameters of `s` passed as `k`.
pub open spec fn count_kind(s: Seq<Param>, k: ParamKind) -> nat
    decreases s.len(),
{
    if s.len() == 0 {
        0
    } else {
        count_kind(s.drop_last(), k) + if s.last().kind == k {
            1nat
        } else {
            0nat
        }
    }
}

/// The parameters of a function.
pub struct Parameter {
    params: Vec<Param>,
}

impl Parameter {
    /// The parameters.
    pub closed spec fn spec_params(&self) -> Seq<Param> {
        self.params@
    }

    /// The parameters `params`, in order.
    pub fn new(params: Vec<Param>) -> (p: Self)
        ensures
            p.spec_params() == params@,
    {
        Parameter { params }
    }

    /// The parameters, in order.
    pub fn params(&self) -> (v: &Vec<Param>)
        ensures
            v@ == self.spec_params(),
    {
        &self.params
    }

    /// The number of parameters passed as `k`.
    fn count(&self, k: ParamKind) -> (n: usize)
        ensures
            n == count_kind(self.spec_params(), k),
    {
        let mut n: usize = 0;
        let mut i: usize = 0;
        while i < self.params.len()
            invariant
                i <= self.params@.len(),
                n == count_kind(self.params@.take(i as int), k),
                n <= i,
            decreases self.params@.len() - i,
        {
            proof {
                assert(self.params@.take(i + 1).drop_last() =~= self.params@.take(i as int));
            }
            if self.params[i].kind == k {
                n = n + 1;
            }
            i = i + 1;
        }
        proof {
            assert(self.params@.take(self.params@.len() as int) =~= self.params@);
        }
        n
    }

    /// The number of required parameters.
    pub fn num_require(&self) -> (n: usize)
        ensures
            n == count_kind(self.spec_params(), ParamKind::Require),
    {
        self.count(ParamKind::Require)
    }

    /// The number of optional parameters.
    pub fn num_optional(&self) -> (n: usize)
        ensures
            n == count_kind(self.spec_params(), ParamKind::Optional),
    {
        self.count(ParamKind::Optional)
    }

    /// There is a rest parameter.
    pub fn has_rest(&self) -> (b: bool)
        ensures
            b == (count_kind(self.spec_params(), ParamKind::Rest) > 0),
    {
        self.count(ParamKind::Rest) > 0
    }
}

} // verus!
