use vstd::prelude::*;

use crate::value::iform::IForm;

verus! {

/// Compiled code: the intermediate form the evaluator runs.
pub struct Code {
    program: IForm,
}

impl Code {
    /// The form the code runs.
    pub closed spec fn spec_program(&self) -> IForm {
        self.program
    }

    /// The code that runs `program`.
    pub fn new(program: IForm) -> (c: Self)
        ensures
            c.spec_program() == program,
    {
        Code { program }
    }

    /// The form the code runs.
    pub fn program(&self) -> (p: &IForm)
        ensures
            *p == self.spec_program(),
    {
        &self.program
    }
}

} // verus!
