//! Core data types: operators, symbols, expression trees, errors, and the
//! function registry, together with their mathematical views.

use vstd::prelude::*;

verus! {

broadcast use
    vstd::std_specs::vec::axiom_vec_index_decreases,
    vstd::std_specs::vec::axiom_vec_decreases_to_view,
    vstd::seq::axiom_seq_index_decreases,
    vstd::seq::axiom_seq_subrange_decreases,
;

/// Tie-break rule for chains of equal-precedence operators.
#[derive(Clone, Copy, PartialEq, Eq, Structural, Debug)]
pub enum Associativity {
    Left,
    Right,
}

/// An infix operator. `LPa`/`RPa` are parentheses and carry no precedence;
/// `Custom` carries an explicit precedence and associativity and is used
/// internally to give unary negation its binding strength.
#[derive(Clone, Copy, PartialEq, Eq, Structural, Debug)]
pub enum Operator {
    Add,
    Sub,
    Mul,
    Div,
    Pow,
    LPa,
    RPa,
    Custom(u8, Associativity),
}

impl Operator {
    /// Precedence of the operator; parentheses have none.
    pub open spec fn spec_precedence(self) -> Option<u8> {
        match self {
            Operator::Add => Some(2u8),
            Operator::Sub => Some(2u8),
            Operator::Mul => Some(3u8),
            Operator::Div => Some(3u8),
            Operator::Pow => Some(5u8),
            Operator::LPa => None,
            Operator::RPa => None,
            Operator::Custom(p, _) => Some(p),
        }
    }

    pub fn precedence(&self) -> (r: Option<u8>)
        ensures
            r == self.spec_precedence(),
    {
        match self {
            Operator::Add => Some(2),
            Operator::Sub => Some(2),
            Operator::Mul => Some(3),
            Operator::Div => Some(3),
            Operator::Pow => Some(5),
            Operator::LPa => None,
            Operator::RPa => None,
            Operator::Custom(p, _) => Some(*p),
        }
    }

    /// Associativity of the operator; parentheses have none.
    pub open spec fn spec_associativity(self) -> Option<Associativity> {
        match self {
            Operator::Add => Some(Associativity::Left),
            Operator::Sub => Some(Associativity::Left),
            Operator::Mul => Some(Associativity::Left),
            Operator::Div => Some(Associativity::Left),
            Operator::Pow => Some(Associativity::Right),
            Operator::LPa => None,
            Operator::RPa => None,
            Operator::Custom(_, a) => Some(a),
        }
    }

    pub fn associativity(&self) -> (r: Option<Associativity>)
        ensures
            r == self.spec_associativity(),
    {
        match self {
            Operator::Add => Some(Associativity::Left),
            Operator::Sub => Some(Associativity::Left),
            Operator::Mul => Some(Associativity::Left),
            Operator::Div => Some(Associativity::Left),
            Operator::Pow => Some(Associativity::Right),
            Operator::LPa => None,
            Operator::RPa => None,
            Operator::Custom(_, a) => Some(*a),
        }
    }

    pub open spec fn spec_is_parenthesis(self) -> bool {
        self == Operator::LPa || self == Operator::RPa
    }

    pub fn is_parenthesis(&self) -> (r: bool)
        ensures
            r == self.spec_is_parenthesis(),
    {
        match self {
            Operator::LPa => true,
            Operator::RPa => true,
            _ => false,
        }
    }

    /// Which characters the tokenizer splits at (besides the comma).
    pub open spec fn spec_is_operator_char(c: char) -> bool {
        c == '+' || c == '-' || c == '*' || c == '/' || c == '^' || c == '(' || c == ')'
    }

    pub fn is_operator(c: char) -> (r: bool)
        ensures
            r == Self::spec_is_operator_char(c),
    {
        c == '+' || c == '-' || c == '*' || c == '/' || c == '^' || c == '(' || c == ')'
    }

    pub open spec fn spec_from_char(c: char) -> Option<Operator> {
        if c == '+' {
            Some(Operator::Add)
        } else if c == '-' {
            Some(Operator::Sub)
        } else if c == '*' {
            Some(Operator::Mul)
        } else if c == '/' {
            Some(Operator::Div)
        } else if c == '^' {
            Some(Operator::Pow)
        } else if c == '(' {
            Some(Operator::LPa)
        } else if c == ')' {
            Some(Operator::RPa)
        } else {
            None
        }
    }

    pub fn from_char(c: char) -> (r: Option<Operator>)
        ensures
            r == Self::spec_from_char(c),
    {
        if c == '+' {
            Some(Operator::Add)
        } else if c == '-' {
            Some(Operator::Sub)
        } else if c == '*' {
            Some(Operator::Mul)
        } else if c == '/' {
            Some(Operator::Div)
        } else if c == '^' {
            Some(Operator::Pow)
        } else if c == '(' {
            Some(Operator::LPa)
        } else if c == ')' {
            Some(Operator::RPa)
        } else {
            None
        }
    }
}

/// A typed token: what the lexer produces and the converter and tree
/// builder consume. Numbers are modeled as integers.
#[derive(Clone, Debug)]
pub enum Symbol {
    Number(i64),
    Variable(String),
    Function(String),
    Operator(Operator),
    Negate,
}

/// Mathematical view of a `Symbol`: names as character sequences,
/// numbers as unbounded integers.
pub ghost enum SymbolV {
    Number(int),
    Variable(Seq<char>),
    Function(Seq<char>),
    Operator(Operator),
    Negate,
}

impl View for Symbol {
    type V = SymbolV;

    open spec fn view(&self) -> SymbolV {
        match self {
            Symbol::Number(n) => SymbolV::Number(*n as int),
            Symbol::Variable(s) => SymbolV::Variable(s@),
            Symbol::Function(s) => SymbolV::Function(s@),
            Symbol::Operator(o) => SymbolV::Operator(*o),
            Symbol::Negate => SymbolV::Negate,
        }
    }
}

/// The expression tree. `Operator` nodes have exactly two ordered children,
/// `Negate` exactly one, and a `Function` node's child count equals the
/// arity registered for its name. `Identifier` is a pattern-matching
/// placeholder internal to the simplifier and never appears in a tree
/// handed to a caller as a final result.
#[derive(Debug)]
pub enum Expr {
    Number(i64),
    Variable(String),
    Identifier(u32),
    Operator(Operator, Box<Expr>, Box<Expr>),
    Negate(Box<Expr>),
    Function(String, Vec<Expr>),
}

/// Mathematical view of an `Expr`.
pub ghost enum ExprV {
    Number(int),
    Variable(Seq<char>),
    Identifier(u32),
    Operator(Operator, Box<ExprV>, Box<ExprV>),
    Negate(Box<ExprV>),
    Function(Seq<char>, Seq<ExprV>),
}

pub open spec fn expr_view(e: &Expr) -> ExprV
    decreases e,
{
    match e {
        Expr::Number(n) => ExprV::Number(*n as int),
        Expr::Variable(s) => ExprV::Variable(s@),
        Expr::Identifier(i) => ExprV::Identifier(*i),
        Expr::Operator(o, a, b) => ExprV::Operator(
            *o,
            Box::new(expr_view(&**a)),
            Box::new(expr_view(&**b)),
        ),
        Expr::Negate(a) => ExprV::Negate(Box::new(expr_view(&**a))),
        Expr::Function(s, args) => ExprV::Function(s@, exprs_view(args@)),
    }
}

pub open spec fn exprs_view(s: Seq<Expr>) -> Seq<ExprV>
    decreases s,
{
    if s.len() == 0 {
        Seq::empty()
    } else {
        seq![expr_view(&s[0])] + exprs_view(s.drop_first())
    }
}

impl View for Expr {
    type V = ExprV;

    open spec fn view(&self) -> ExprV {
        expr_view(self)
    }
}

impl Symbol {
    /// A copy with the same view.
    pub fn dup(&self) -> (r: Symbol)
        ensures
            r@ == self@,
    {
        match self {
            Symbol::Number(n) => Symbol::Number(*n),
            Symbol::Variable(s) => Symbol::Variable(s.clone()),
            Symbol::Function(s) => Symbol::Function(s.clone()),
            Symbol::Operator(o) => Symbol::Operator(*o),
            Symbol::Negate => Symbol::Negate,
        }
    }
}

/// Value equality of two symbols, decided by their views.
pub fn sym_eq(a: &Symbol, b: &Symbol) -> (r: bool)
    ensures
        r == (a@ == b@),
{
    match (a, b) {
        (Symbol::Number(x), Symbol::Number(y)) => *x == *y,
        (Symbol::Variable(x), Symbol::Variable(y)) => *x == *y,
        (Symbol::Function(x), Symbol::Function(y)) => *x == *y,
        (Symbol::Operator(x), Symbol::Operator(y)) => *x == *y,
        (Symbol::Negate, Symbol::Negate) => true,
        _ => false,
    }
}

pub proof fn lemma_exprs_view_index(s: Seq<Expr>)
    ensures
        exprs_view(s).len() == s.len(),
        forall|i: int| 0 <= i < s.len() ==> exprs_view(s)[i] == expr_view(&s[i]),
    decreases s,
{
    if s.len() > 0 {
        lemma_exprs_view_index(s.drop_first());
    }
}

pub proof fn lemma_exprs_view_pointwise(s1: Seq<Expr>, s2: Seq<Expr>)
    requires
        s1.len() == s2.len(),
        forall|i: int| 0 <= i < s1.len() ==> expr_view(&s1[i]) == expr_view(&s2[i]),
    ensures
        exprs_view(s1) == exprs_view(s2),
    decreases s1,
{
    if s1.len() > 0 {
        lemma_exprs_view_pointwise(s1.drop_first(), s2.drop_first());
        assert(exprs_view(s1) =~= exprs_view(s2));
    }
}

/// Structural equality of two expression trees, decided by their views:
/// same shape and the same leaf values.
pub fn expr_eq(a: &Expr, b: &Expr) -> (r: bool)
    ensures
        r == (a@ == b@),
    decreases a,
{
    match (a, b) {
        (Expr::Number(x), Expr::Number(y)) => *x == *y,
        (Expr::Variable(x), Expr::Variable(y)) => *x == *y,
        (Expr::Identifier(x), Expr::Identifier(y)) => *x == *y,
        (Expr::Operator(o1, a1, b1), Expr::Operator(o2, a2, b2)) => {
            *o1 == *o2 && expr_eq(&**a1, &**a2) && expr_eq(&**b1, &**b2)
        },
        (Expr::Negate(a1), Expr::Negate(a2)) => expr_eq(&**a1, &**a2),
        (Expr::Function(n1, args1), Expr::Function(n2, args2)) => {
            proof {
                lemma_exprs_view_index(args1@);
                lemma_exprs_view_index(args2@);
            }
            if !(*n1 == *n2) {
                false
            } else if args1.len() != args2.len() {
                false
            } else {
                let mut i: usize = 0;
                #[verifier::loop_isolation(false)]
                while i < args1.len()
                    invariant
                        0 <= i <= args1@.len(),
                        forall|j: int| 0 <= j < i
                            ==> expr_view(&args1@[j]) == expr_view(&args2@[j]),
                    decreases args1@.len() - i,
                {
                    if !expr_eq(&args1[i], &args2[i]) {
                        proof {
                            assert(exprs_view(args1@)[i as int] != exprs_view(args2@)[i as int]);
                        }
                        return false;
                    }
                    i = i + 1;
                }
                proof {
                    lemma_exprs_view_pointwise(args1@, args2@);
                }
                true
            }
        },
        _ => false,
    }
}

/// The function registry: maps a function name to its arity. Lookups take
/// the earliest entry with the name, so a later registration never
/// overrides an earlier one.
pub struct Registry {
    pub entries: Vec<(String, u32)>,
}

impl View for Registry {
    type V = Seq<(Seq<char>, u32)>;

    open spec fn view(&self) -> Seq<(Seq<char>, u32)> {
        Seq::new(self.entries@.len(), |i: int| (self.entries@[i].0@, self.entries@[i].1))
    }
}

/// Arity of `name` in the registry: the first entry with that name.
pub open spec fn spec_arity_of(reg: Seq<(Seq<char>, u32)>, name: Seq<char>) -> Option<u32>
    decreases reg.len(),
{
    if reg.len() == 0 {
        None
    } else if reg[0].0 == name {
        Some(reg[0].1)
    } else {
        spec_arity_of(reg.drop_first(), name)
    }
}

impl Registry {
    pub fn new() -> (r: Registry)
        ensures
            r@ == Seq::<(Seq<char>, u32)>::empty(),
    {
        let r = Registry { entries: Vec::new() };
        proof {
            assert(r@ =~= Seq::<(Seq<char>, u32)>::empty());
        }
        r
    }

    /// Adds an entry at the end of the registry.
    pub fn register(&mut self, name: String, arity: u32)
        ensures
            final(self)@ == old(self)@.push((name@, arity)),
    {
        let ghost n = name@;
        self.entries.push((name, arity));
        proof {
            assert(final(self)@ =~= old(self)@.push((n, arity)));
        }
    }

    /// Registered arity of the function `name`, if any.
    pub fn arity_of(&self, name: &String) -> (r: Option<u32>)
        ensures
            r == spec_arity_of(self@, name@),
    {
        let mut i: usize = 0;
        let ghost regv = self@;
        proof {
            assert(regv.skip(0) =~= regv);
        }
        while i < self.entries.len()
            invariant
                0 <= i <= self.entries@.len(),
                regv == self@,
                regv.len() == self.entries@.len(),
                forall|j: int| 0 <= j < regv.len()
                    ==> regv[j] == (self.entries@[j].0@, self.entries@[j].1),
                spec_arity_of(regv, name@) == spec_arity_of(regv.skip(i as int), name@),
            decreases self.entries@.len() - i,
        {
            if self.entries[i].0 == *name {
                proof {
                    assert(regv.skip(i as int)[0] == (name@, regv[i as int].1));
                }
                return Some(self.entries[i].1);
            }
            proof {
                assert(regv.skip(i as int).drop_first() =~= regv.skip(i as int + 1));
            }
            i = i + 1;
        }
        proof {
            assert(regv.skip(i as int) =~= Seq::<(Seq<char>, u32)>::empty());
        }
        None
    }

    /// Whether `name` is a registered function name.
    pub fn is_known(&self, name: &String) -> (r: bool)
        ensures
            r == spec_arity_of(self@, name@) is Some,
    {
        self.arity_of(name).is_some()
    }
}

/// Every error the pipeline can report.
#[derive(Clone, Copy, PartialEq, Eq, Structural, Debug)]
pub enum SymErr {
    /// A non-additive operator stands where only a sign may.
    InvalidSign,
    /// A closing parenthesis has no matching open one.
    ParenthesesMismatch,
    /// Postfix-to-tree reduction needed an operand that is not there.
    StackEmpty,
    /// A function token has no registry entry.
    UnknownFunction,
    /// Too few operands for a function's registered arity.
    InvalidFunctionArgCount,
    /// A postfix sequence reduced to more than one tree: an internal,
    /// programming-error-class condition, not bad user input.
    MalformedPostfix,
}

} // verus!
