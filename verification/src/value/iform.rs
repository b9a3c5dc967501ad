use vstd::prelude::*;

use crate::value::{Ref, ref_below};

verus! {

/// A local or global variable definition.
pub struct IFormLet {
    pub symbol: Vec<char>,
    pub val: Box<IForm>,
    pub force_global: bool,
}

/// A conditional.
pub struct IFormIf {
    pub test: Box<IForm>,
    pub then_: Box<IForm>,
    pub else_: Box<IForm>,
}

/// A new frame of local variables around a body.
pub struct IFormLocal {
    pub body: Box<IForm>,
}

/// A reference to a local variable.
pub struct IFormLRef {
    pub symbol: Vec<char>,
}

/// A reference to a global variable.
pub struct IFormGRef {
    pub symbol: Vec<char>,
}

/// A function: its parameter list and its body, both as written.
pub struct IFormFun {
    pub params: Ref,
    pub body: Ref,
    pub len_params: usize,
}

/// Expressions evaluated in order; the last gives the value.
pub struct IFormSeq {
    pub body: Vec<IForm>,
}

/// A call of a function.
pub struct IFormCall {
    pub app: Box<IForm>,
    pub args: Vec<IForm>,
    pub is_tail: bool,
}

/// A constant.
pub struct IFormConst {
    pub value: Ref,
}

/// How the expressions of an `IFormAndOr` combine.
#[derive(Clone, Copy, Debug, PartialEq, Eq, Structural)]
pub enum AndOrKind {
    And,
    Or,
    MatchSuccess,
}

/// `and`, `or`, and the catching of a failed match.
pub struct IFormAndOr {
    pub exprs: Vec<IForm>,
    pub kind: AndOrKind,
}

/// The definition of what the object does with a message.
pub struct IFormDefRecv {
    pub pattern: Ref,
    pub body: Ref,
}

/// A switch to another object, or back to the previous one.
pub struct IFormObjectSwitch {
    pub target_obj: Option<Box<IForm>>,
}

/// A pattern of `match`.
pub enum Pattern {
    /// A value the target must equal.
    Literal(Ref),
    /// A variable the target is bound to.
    Bind(Vec<char>),
    /// A list whose elements match the patterns.
    List(Vec<Pattern>),
    /// An array whose elements match the patterns.
    Array(Vec<Pattern>),
    /// A tuple whose elements match the patterns.
    Tuple(Vec<Pattern>),
}

/// A pattern and the body evaluated when it matches.
pub struct MatchClause {
    pub pattern: Pattern,
    pub body: Ref,
}

/// A `match`: the target and the clauses.
pub struct IFormMatch {
    pub target: Box<IForm>,
    pub clauses: Vec<MatchClause>,
}

/// The intermediate form of an expression.
pub enum IForm {
    Let(IFormLet),
    If(IFormIf),
    Local(IFormLocal),
    LRef(IFormLRef),
    GRef(IFormGRef),
    Fun(IFormFun),
    Sequence(IFormSeq),
    Call(IFormCall),
    Const(IFormConst),
    AndOr(IFormAndOr),
    DefRecv(IFormDefRecv),
    ObjectSwitch(IFormObjectSwitch),
    Match(IFormMatch),
}

/// The kinds of intermediate forms.
#[derive(Clone, Copy, Debug, PartialEq, Eq, Structural)]
pub enum IFormKind {
    Let,
    If,
    Local,
    LRef,
    GRef,
    Fun,
    Sequence,
    Call,
    Const,
    AndOr,
    DefRecv,
    ObjectSwitch,
    Match,
}

/// Every value a pattern holds is below `n`.
pub open spec fn pattern_below(p: Pattern, n: int) -> bool
    decreases p,
{
    match p {
        Pattern::Literal(r) => ref_below(r, n),
        Pattern::Bind(_) => true,
        Pattern::List(v) => patterns_below(v@, n),
        Pattern::Array(v) => patterns_below(v@, n),
        Pattern::Tuple(v) => patterns_below(v@, n),
    }
}

/// Every value the patterns hold is below `n`.
pub open spec fn patterns_below(s: Seq<Pattern>, n: int) -> bool
    decreases s,
{
    if s.len() == 0 {
        true
    } else {
        patterns_below(s.drop_last(), n) && pattern_below(s.last(), n)
    }
}

/// Every value the clauses hold is below `n`.
pub open spec fn clauses_below(s: Seq<MatchClause>, n: int) -> bool {
    forall|k: int| 0 <= k < s.len() ==> pattern_below(#[trigger] s[k].pattern, n) && ref_below(s[k].body, n)
}

/// Every value the form holds is below `n`.
pub open spec fn iform_below(f: IForm, n: int) -> bool
    decreases f,
{
    match f {
        IForm::Let(x) => iform_below(*x.val, n),
        IForm::If(x) => iform_below(*x.test, n) && iform_below(*x.then_, n) && iform_below(*x.else_, n),
        IForm::Local(x) => iform_below(*x.body, n),
        IForm::LRef(_) => true,
        IForm::GRef(_) => true,
        IForm::Fun(x) => ref_below(x.params, n) && ref_below(x.body, n),
        IForm::Sequence(x) => iforms_below(x.body@, n),
        IForm::Call(x) => iform_below(*x.app, n) && iforms_below(x.args@, n),
        IForm::Const(x) => ref_below(x.value, n),
        IForm::AndOr(x) => iforms_below(x.exprs@, n),
        IForm::DefRecv(x) => ref_below(x.pattern, n) && ref_below(x.body, n),
        IForm::ObjectSwitch(x) => match x.target_obj {
            Some(t) => iform_below(*t, n),
            None => true,
        },
        IForm::Match(x) => iform_below(*x.target, n) && clauses_below(x.clauses@, n),
    }
}

/// Every value the forms hold is below `n`.
pub open spec fn iforms_below(s: Seq<IForm>, n: int) -> bool
    decreases s,
{
    if s.len() == 0 {
        true
    } else {
        iforms_below(s.drop_last(), n) && iform_below(s.last(), n)
    }
}

/// `iforms_below` holds exactly when every form is below `n`.
pub proof fn lemma_iforms_below(s: Seq<IForm>, n: int)
    ensures
        iforms_below(s, n) <==> forall|k: int| 0 <= k < s.len() ==> iform_below(#[trigger] s[k], n),
    decreases s.len(),
{
    if s.len() > 0 {
        let t = s.drop_last();
        lemma_iforms_below(t, n);
        assert forall|k: int| 0 <= k < t.len() implies #[trigger] t[k] == s[k] by {}
        if iforms_below(s, n) {
            assert forall|k: int| 0 <= k < s.len() implies iform_below(#[trigger] s[k], n) by {
                if k < t.len() {
                    assert(iform_below(t[k], n));
                }
            }
        }
        if forall|k: int| 0 <= k < s.len() ==> iform_below(#[trigger] s[k], n) {
            assert forall|k: int| 0 <= k < t.len() implies iform_below(#[trigger] t[k], n) by {
                assert(iform_below(s[k], n));
            }
            assert(iform_below(s[s.len() - 1], n));
        }
    }
}

/// `patterns_below` holds exactly when every pattern is below `n`.
pub proof fn lemma_patterns_below(s: Seq<Pattern>, n: int)
    ensures
        patterns_below(s, n) <==> forall|k: int| 0 <= k < s.len() ==> pattern_below(#[trigger] s[k], n),
    decreases s.len(),
{
    if s.len() > 0 {
        let t = s.drop_last();
        lemma_patterns_below(t, n);
        assert forall|k: int| 0 <= k < t.len() implies #[trigger] t[k] == s[k] by {}
        if patterns_below(s, n) {
            assert forall|k: int| 0 <= k < s.len() implies pattern_below(#[trigger] s[k], n) by {
                if k < t.len() {
                    assert(pattern_below(t[k], n));
                }
            }
        }
        if forall|k: int| 0 <= k < s.len() ==> pattern_below(#[trigger] s[k], n) {
            assert forall|k: int| 0 <= k < t.len() implies pattern_below(#[trigger] t[k], n) by {
                assert(pattern_below(s[k], n));
            }
            assert(pattern_below(s[s.len() - 1], n));
        }
    }
}

/// What is below `n` is below every larger bound.
pub proof fn lemma_iform_below_mono(f: IForm, n: int, m: int)
    requires
        iform_below(f, n),
        n <= m,
    ensures
        iform_below(f, m),
    decreases f,
{
    match f {
        IForm::Let(x) => lemma_iform_below_mono(*x.val, n, m),
        IForm::If(x) => {
            lemma_iform_below_mono(*x.test, n, m);
            lemma_iform_below_mono(*x.then_, n, m);
            lemma_iform_below_mono(*x.else_, n, m);
        },
        IForm::Local(x) => lemma_iform_below_mono(*x.body, n, m),
        IForm::Sequence(x) => lemma_iforms_below_mono(x.body@, n, m),
        IForm::Call(x) => {
            lemma_iform_below_mono(*x.app, n, m);
            lemma_iforms_below_mono(x.args@, n, m);
        },
        IForm::AndOr(x) => lemma_iforms_below_mono(x.exprs@, n, m),
        IForm::ObjectSwitch(x) => match x.target_obj {
            Some(t) => lemma_iform_below_mono(*t, n, m),
            None => {},
        },
        IForm::Match(x) => {
            lemma_iform_below_mono(*x.target, n, m);
            assert forall|k: int| 0 <= k < x.clauses@.len() implies pattern_below(
                #[trigger] x.clauses@[k].pattern,
                m,
            ) && ref_below(x.clauses@[k].body, m) by {
                lemma_pattern_below_mono(x.clauses@[k].pattern, n, m);
            }
        },
        _ => {},
    }
}

/// What is below `n` is below every larger bound.
pub proof fn lemma_iforms_below_mono(s: Seq<IForm>, n: int, m: int)
    requires
        iforms_below(s, n),
        n <= m,
    ensures
        iforms_below(s, m),
    decreases s,
{
    if s.len() > 0 {
        lemma_iforms_below_mono(s.drop_last(), n, m);
        lemma_iform_below_mono(s.last(), n, m);
    }
}

/// What is below `n` is below every larger bound.
pub proof fn lemma_pattern_below_mono(p: Pattern, n: int, m: int)
    requires
        pattern_below(p, n),
        n <= m,
    ensures
        pattern_below(p, m),
    decreases p,
{
    match p {
        Pattern::List(v) => lemma_patterns_below_mono(v@, n, m),
        Pattern::Array(v) => lemma_patterns_below_mono(v@, n, m),
        Pattern::Tuple(v) => lemma_patterns_below_mono(v@, n, m),
        _ => {},
    }
}

/// What is below `n` is below every larger bound.
pub proof fn lemma_patterns_below_mono(s: Seq<Pattern>, n: int, m: int)
    requires
        patterns_below(s, n),
        n <= m,
    ensures
        patterns_below(s, m),
    decreases s,
{
    if s.len() > 0 {
        lemma_patterns_below_mono(s.drop_last(), n, m);
        lemma_pattern_below_mono(s.last(), n, m);
    }
}

impl IForm {
    /// The kind of the form.
    pub fn kind(&self) -> (k: IFormKind)
        ensures
            k == match self {
                IForm::Let(_) => IFormKind::Let,
                IForm::If(_) => IFormKind::If,
                IForm::Local(_) => IFormKind::Local,
                IForm::LRef(_) => IFormKind::LRef,
                IForm::GRef(_) => IFormKind::GRef,
                IForm::Fun(_) => IFormKind::Fun,
                IForm::Sequence(_) => IFormKind::Sequence,
                IForm::Call(_) => IFormKind::Call,
                IForm::Const(_) => IFormKind::Const,
                IForm::AndOr(_) => IFormKind::AndOr,
                IForm::DefRecv(_) => IFormKind::DefRecv,
                IForm::ObjectSwitch(_) => IFormKind::ObjectSwitch,
                IForm::Match(_) => IFormKind::Match,
            },
    {
        match self {
            IForm::Let(_) => IFormKind::Let,
            IForm::If(_) => IFormKind::If,
            IForm::Local(_) => IFormKind::Local,
            IForm::LRef(_) => IFormKind::LRef,
            IForm::GRef(_) => IFormKind::GRef,
            IForm::Fun(_) => IFormKind::Fun,
            IForm::Sequence(_) => IFormKind::Sequence,
            IForm::Call(_) => IFormKind::Call,
            IForm::Const(_) => IFormKind::Const,
            IForm::AndOr(_) => IFormKind::AndOr,
            IForm::DefRecv(_) => IFormKind::DefRecv,
            IForm::ObjectSwitch(_) => IFormKind::ObjectSwitch,
            IForm::Match(_) => IFormKind::Match,
        }
    }

    /// The form is of the kind `k`.
    pub fn is(&self, k: IFormKind) -> (res: bool)
        ensures
            res == (self.spec_kind() == k),
    {
        self.kind() == k
    }

    /// The kind of the form.
    pub open spec fn spec_kind(&self) -> IFormKind {
        match self {
            IForm::Let(_) => IFormKind::Let,
            IForm::If(_) => IFormKind::If,
            IForm::Local(_) => IFormKind::Local,
            IForm::LRef(_) => IFormKind::LRef,
            IForm::GRef(_) => IFormKind::GRef,
            IForm::Fun(_) => IFormKind::Fun,
            IForm::Sequence(_) => IFormKind::Sequence,
            IForm::Call(_) => IFormKind::Call,
            IForm::Const(_) => IFormKind::Const,
            IForm::AndOr(_) => IFormKind::AndOr,
            IForm::DefRecv(_) => IFormKind::DefRecv,
            IForm::ObjectSwitch(_) => IFormKind::ObjectSwitch,
            IForm::Match(_) => IFormKind::Match,
        }
    }
}

impl IFormLet {
    /// The name of the variable.
    pub fn symbol(&self) -> (s: &Vec<char>)
        ensures
            s@ == self.symbol@,
    {
        &self.symbol
    }

    /// The form of the value.
    pub fn val(&self) -> (v: &IForm)
        ensures
            *v == *self.val,
    {
        &self.val
    }

    /// The variable is global even inside a local frame.
    pub fn force_global(&self) -> (b: bool)
        ensures
            b == self.force_global,
    {
        self.force_global
    }
}

impl IFormIf {
    /// The condition.
    pub fn test(&self) -> (v: &IForm)
        ensures
            *v == *self.test,
    {
        &self.test
    }

    /// The form for a true condition.
    pub fn then_(&self) -> (v: &IForm)
        ensures
            *v == *self.then_,
    {
        &self.then_
    }

    /// The form for a false condition.
    pub fn else_(&self) -> (v: &IForm)
        ensures
            *v == *self.else_,
    {
        &self.else_
    }
}

impl IFormLocal {
    /// The body.
    pub fn body(&self) -> (v: &IForm)
        ensures
            *v == *self.body,
    {
        &self.body
    }
}

impl IFormLRef {
    /// The name of the variable.
    pub fn symbol(&self) -> (s: &Vec<char>)
        ensures
            s@ == self.symbol@,
    {
        &self.symbol
    }
}

impl IFormGRef {
    /// The name of the variable.
    pub fn symbol(&self) -> (s: &Vec<char>)
        ensures
            s@ == self.symbol@,
    {
        &self.symbol
    }
}

impl IFormFun {
    /// The number of parameters.
    pub fn len_params(&self) -> (n: usize)
        ensures
            n == self.len_params,
    {
        self.len_params
    }

    /// The parameter list as written.
    pub fn get_param(&self) -> (r: Ref)
        ensures
            r == self.params,
    {
        self.params
    }

    /// The body as written.
    pub fn body(&self) -> (r: Ref)
        ensures
            r == self.body,
    {
        self.body
    }
}

impl IFormSeq {
    /// The forms of the sequence.
    pub fn body(&self) -> (v: &Vec<IForm>)
        ensures
            v@ == self.body@,
    {
        &self.body
    }
}

impl IFormCall {
    /// The form of the function.
    pub fn app(&self) -> (v: &IForm)
        ensures
            *v == *self.app,
    {
        &self.app
    }

    /// The number of arguments.
    pub fn len_args(&self) -> (n: usize)
        ensures
            n == self.args@.len(),
    {
        self.args.len()
    }

    /// The form of the argument `index`.
    pub fn get_arg(&self, index: usize) -> (v: &IForm)
        requires
            index < self.args@.len(),
        ensures
            *v == self.args@[index as int],
    {
        &self.args[index]
    }

    /// The call is the last thing its function does.
    pub fn is_tail(&self) -> (b: bool)
        ensures
            b == self.is_tail,
    {
        self.is_tail
    }
}

impl IFormConst {
    /// The constant.
    pub fn value(&self) -> (r: Ref)
        ensures
            r == self.value,
    {
        self.value
    }
}

impl IFormAndOr {
    /// The number of expressions.
    pub fn len_exprs(&self) -> (n: usize)
        ensures
            n == self.exprs@.len(),
    {
        self.exprs.len()
    }

    /// The form of the expression `index`.
    pub fn get_expr(&self, index: usize) -> (v: &IForm)
        requires
            index < self.exprs@.len(),
        ensures
            *v == self.exprs@[index as int],
    {
        &self.exprs[index]
    }

    /// How the expressions combine.
    pub fn kind(&self) -> (k: AndOrKind)
        ensures
            k == self.kind,
    {
        self.kind
    }
}

impl IFormDefRecv {
    /// The pattern of the messages.
    pub fn pattern(&self) -> (r: Ref)
        ensures
            r == self.pattern,
    {
        self.pattern
    }

    /// The body as written.
    pub fn body(&self) -> (r: Ref)
        ensures
            r == self.body,
    {
        self.body
    }
}

impl IFormObjectSwitch {
    /// The form of the object to switch to; none to switch back.
    pub fn target_obj(&self) -> (v: Option<&IForm>)
        ensures
            match self.target_obj {
                Some(t) => v == Some(&*t),
                None => v is None,
            },
    {
        match &self.target_obj {
            Some(t) => Some(&**t),
            None => None,
        }
    }
}

} // verus!
