use vstd::prelude::*;

use crate::object::Object;
use crate::value::{Ref, TypeInfo, spec_typename, typename};
use crate::value::symbol::{decimal, push_decimal};
use crate::value::text::{display, push_str, show};

verus! {

/// An index past the end of a container.
#[derive(Clone, Copy, Debug)]
pub struct OutOfBounds {
    pub related_exp: Ref,
    pub index: usize,
}

impl OutOfBounds {
    pub fn new(related_exp: Ref, index: usize) -> (res: Self)
        ensures
            res.related_exp == related_exp,
            res.index == index,
    {
        OutOfBounds { related_exp, index }
    }
}

/// A value of another type than the one required.
#[derive(Clone, Copy, Debug)]
pub struct TypeMismatch {
    pub found_exp: Ref,
    pub require_type: TypeInfo,
}

impl TypeMismatch {
    pub fn new(found_exp: Ref, require_type: TypeInfo) -> (res: Self)
        ensures
            res.found_exp == found_exp,
            res.require_type == require_type,
    {
        TypeMismatch { found_exp, require_type }
    }
}

/// An expression whose shape is not what its syntax requires.
#[derive(Clone, Debug)]
pub struct MalformedFormat {
    pub related_exp: Option<Ref>,
    pub message: String,
}

impl MalformedFormat {
    pub fn new(related_exp: Option<Ref>, message: &str) -> (res: Self)
        ensures
            res.related_exp == related_exp,
            res.message@ == message@,
    {
        MalformedFormat { related_exp, message: message.to_owned() }
    }
}

/// A syntax used where it is not allowed.
#[derive(Clone, Copy, Debug)]
pub struct DisallowContext {}

/// The heap could not hold a new value.
#[derive(Clone, Copy, Debug)]
pub struct OutOfMemory {}

/// The object that runs the code was deleted.
#[derive(Clone, Copy, Debug)]
pub struct MySelfObjectDeleted {}

/// A variable that has no value.
#[derive(Clone, Copy, Debug)]
pub struct UnboundVariable {
    pub symbol: Ref,
}

impl UnboundVariable {
    pub fn new(symbol: Ref) -> (res: Self)
        ensures
            res.symbol == symbol,
    {
        UnboundVariable { symbol }
    }
}

/// What stops an evaluation.
#[derive(Clone, Debug)]
pub enum Exception {
    OutOfBounds(OutOfBounds),
    TypeMismatch(TypeMismatch),
    MalformedFormat(MalformedFormat),
    UnboundVariable(UnboundVariable),
    DisallowContext,
    OutOfMemory,
    MySelfObjectDeleted,
    /// `exit` was called: the program ends.
    Exit,
    Other(String),
}

impl Exception {
    /// The values the exception refers to.
    pub open spec fn spec_values(&self) -> Seq<Ref> {
        match self {
            Exception::OutOfBounds(e) => seq![e.related_exp],
            Exception::TypeMismatch(e) => seq![e.found_exp],
            Exception::MalformedFormat(e) => match e.related_exp {
                Some(r) => seq![r],
                None => Seq::empty(),
            },
            Exception::UnboundVariable(e) => seq![e.symbol],
            _ => Seq::empty(),
        }
    }

    /// The values the exception refers to, in order.
    pub fn for_each_alived_value(&self) -> (res: Vec<Ref>)
        ensures
            res@ == self.spec_values(),
    {
        let mut res = Vec::new();
        match self {
            Exception::OutOfBounds(e) => res.push(e.related_exp),
            Exception::TypeMismatch(e) => res.push(e.found_exp),
            Exception::MalformedFormat(e) => match e.related_exp {
                Some(r) => res.push(r),
                None => {},
            },
            Exception::UnboundVariable(e) => res.push(e.symbol),
            _ => {},
        }
        proof {
            assert(res@ =~= self.spec_values());
        }
        res
    }
}

/// `res` failed with a type mismatch on `found`, which should be of type `t`.
pub open spec fn is_type_mismatch(res: Result<Ref, Exception>, found: Ref, t: TypeInfo) -> bool {
    match res {
        Err(Exception::TypeMismatch(e)) => e.found_exp == found && e.require_type == t,
        _ => false,
    }
}

/// `res` failed with an index out of the bounds of `related`.
pub open spec fn is_out_of_bounds(res: Result<Ref, Exception>, related: Ref) -> bool {
    match res {
        Err(Exception::OutOfBounds(e)) => e.related_exp == related,
        _ => false,
    }
}

/// A result whose error is an out-of-memory condition becomes one whose
/// error is an exception.
pub fn into_value(result: Result<Ref, crate::object::mm::OutOfMemory>) -> (res: Result<Ref, Exception>)
    ensures
        match result {
            Ok(r) => res == Ok::<Ref, Exception>(r),
            Err(_) => res matches Err(Exception::OutOfMemory),
        },
{
    match result {
        Ok(r) => Ok(r),
        Err(_) => Err(Exception::OutOfMemory),
    }
}

/// The outcome of an operation that may have no result.
pub enum ResultNone<R, E> {
    NoResult,
    Value(R),
    Error(E),
}


/// The message that reports the exception `e`, raised in `obj`.
pub open spec fn exception_text(obj: &Object, e: Exception) -> Seq<char> {
    "*** Error:"@ + match e {
        Exception::OutOfBounds(x) => "out of bounds "@ + decimal(x.index as nat) + ": "@ + show(obj.value_of(x.related_exp)),
        Exception::TypeMismatch(x) => "mismatched type.\n  expected:"@ + spec_typename(x.require_type) + "\n  found:"@
            + show(obj.value_of(x.found_exp)),
        Exception::MalformedFormat(x) => "malformed format.\n  "@ + x.message@ + match x.related_exp {
            Some(r) => "\n  expression:"@ + show(obj.value_of(r)),
            None => Seq::empty(),
        },
        Exception::UnboundVariable(x) => "unbound variable:"@ + show(obj.value_of(x.symbol)),
        Exception::DisallowContext => "Disallow context"@,
        Exception::OutOfMemory => "Out of memory"@,
        Exception::MySelfObjectDeleted => "the object is gone"@,
        Exception::Exit => "exit"@,
        Exception::Other(m) => m@,
    }
}

impl Exception {
    /// The message that reports the exception, raised in `obj`.
    pub fn message(&self, obj: &Object) -> (res: Vec<char>)
        requires
            obj.wf(),
        ensures
            res@ == exception_text(obj, *self),
    {
        let mut out: Vec<char> = Vec::new();
        push_str("*** Error:", &mut out);
        let ghost o0 = out@;
        match self {
            Exception::OutOfBounds(x) => {
                push_str("out of bounds ", &mut out);
                push_decimal(x.index as u64, &mut out);
                push_str(": ", &mut out);
                display(obj, x.related_exp, &mut out);
            },
            Exception::TypeMismatch(x) => {
                push_str("mismatched type.\n  expected:", &mut out);
                push_str(typename(x.require_type), &mut out);
                push_str("\n  found:", &mut out);
                display(obj, x.found_exp, &mut out);
            },
            Exception::MalformedFormat(x) => {
                push_str("malformed format.\n  ", &mut out);
                let mut m = crate::value::string::str_to_chars(x.message.as_str());
                out.append(&mut m);
                match x.related_exp {
                    Some(r) => {
                        push_str("\n  expression:", &mut out);
                        display(obj, r, &mut out);
                    },
                    None => {},
                }
            },
            Exception::UnboundVariable(x) => {
                push_str("unbound variable:", &mut out);
                display(obj, x.symbol, &mut out);
            },
            Exception::DisallowContext => push_str("Disallow context", &mut out),
            Exception::OutOfMemory => push_str("Out of memory", &mut out),
            Exception::MySelfObjectDeleted => push_str("the object is gone", &mut out),
            Exception::Exit => push_str("exit", &mut out),
            Exception::Other(m) => {
                let mut t = crate::value::string::str_to_chars(m.as_str());
                out.append(&mut t);
            },
        }
        proof {
            assert(out@ =~= exception_text(obj, *self));
        }
        out
    }
}

} // verus!
