use vstd::prelude::*;

pub mod matcher;

verus! {

/// The builtin syntaxes.
#[derive(Clone, Copy, Debug, PartialEq, Eq, Structural)]
pub enum SyntaxId {
    If,
    Begin,
    Cond,
    DefRecv,
    Fun,
    Local,
    Let,
    LetGlobal,
    Quote,
    Unquote,
    Bind,
    Match,
    And,
    Or,
    ObjectSwitch,
    ReturnObjectSwitch,
    FailCatch,
}

} // verus!
