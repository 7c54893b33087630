//! Tokens of an arithmetic expression: numeric literals and operator symbols.

use vstd::prelude::*;

verus! {

/// The eight operator symbols an expression may contain.
#[derive(Clone, Copy, Debug, PartialEq, Eq, Structural)]
pub enum Operator {
    Add,
    Sub,
    Mul,
    Div,
    Mod,
    Exp,
    LPar,
    RPar,
}

/// The characters that stand for an operator.
pub open spec fn is_operator_char(c: char) -> bool {
    c == '+' || c == '-' || c == '*' || c == '/' || c == '%' || c == '^' || c == '(' || c == ')'
}

impl Operator {
    /// The operator written as the character `c`.
    pub open spec fn spec_from_symbol(c: char) -> Operator {
        if c == '+' {
            Operator::Add
        } else if c == '-' {
            Operator::Sub
        } else if c == '*' {
            Operator::Mul
        } else if c == '/' {
            Operator::Div
        } else if c == '%' {
            Operator::Mod
        } else if c == '^' {
            Operator::Exp
        } else if c == '(' {
            Operator::LPar
        } else {
            Operator::RPar
        }
    }

    /// Binding strength: additive operators bind loosest, then the
    /// multiplicative ones, then exponentiation; parentheses never take part
    /// in a precedence comparison and sit at zero.
    pub open spec fn spec_precedence(self) -> nat {
        match self {
            Operator::Add | Operator::Sub => 2,
            Operator::Mul | Operator::Div | Operator::Mod => 3,
            Operator::Exp => 4,
            Operator::LPar | Operator::RPar => 0,
        }
    }

    /// Every binary operator except exponentiation groups left to right.
    pub open spec fn spec_is_left_associative(self) -> bool {
        match self {
            Operator::Add | Operator::Sub | Operator::Mul | Operator::Div | Operator::Mod => true,
            Operator::Exp | Operator::LPar | Operator::RPar => false,
        }
    }

    /// Reads one operator symbol.
    pub fn from_symbol(s: char) -> (r: Self)
        requires
            is_operator_char(s),
        ensures
            r == Operator::spec_from_symbol(s),
    {
        if s == '+' {
            Operator::Add
        } else if s == '-' {
            Operator::Sub
        } else if s == '*' {
            Operator::Mul
        } else if s == '/' {
            Operator::Div
        } else if s == '%' {
            Operator::Mod
        } else if s == '^' {
            Operator::Exp
        } else if s == '(' {
            Operator::LPar
        } else {
            Operator::RPar
        }
    }

    /// The precedence used when deciding whether a stacked operator is
    /// applied before a newly read one.
    pub fn precedence(&self) -> (p: usize)
        ensures
            p == self.spec_precedence(),
    {
        match self {
            Operator::Add | Operator::Sub => 2,
            Operator::Mul | Operator::Div | Operator::Mod => 3,
            Operator::Exp => 4,
            Operator::LPar | Operator::RPar => 0,
        }
    }

    /// Whether the operator groups left to right.
    pub fn is_left_associative(&self) -> (r: bool)
        ensures
            r == self.spec_is_left_associative(),
    {
        matches!(
            self,
            Operator::Add | Operator::Sub | Operator::Mul | Operator::Div | Operator::Mod
        )
    }
}

/// One lexical unit of an expression: a numeric literal, kept as the
/// characters it was written with, or an operator symbol.
#[derive(Debug, PartialEq)]
pub enum Token {
    Number(Vec<char>),
    Operator(Operator),
}

/// The mathematical image of a token: the literal's characters as a sequence.
pub enum TokenView {
    Number(Seq<char>),
    Operator(Operator),
}

impl View for Token {
    type V = TokenView;

    open spec fn view(&self) -> TokenView {
        match self {
            Token::Number(s) => TokenView::Number(s@),
            Token::Operator(op) => TokenView::Operator(*op),
        }
    }
}

/// The images of a whole token sequence.
pub open spec fn token_views(ts: Seq<Token>) -> Seq<TokenView> {
    ts.map_values(|t: Token| t@)
}

/// Why evaluation of a token sequence failed.
#[derive(Clone, Copy, Debug, PartialEq, Eq, Structural)]
pub enum EvalError {
    /// A right parenthesis had no unclosed left parenthesis to match.
    UnmatchedParenthesis,
    /// A left parenthesis was never closed.
    MismatchedParenthesis,
    /// An operator was applied with fewer than two operands available.
    StackUnderflow,
    /// No operand remained at the end of evaluation.
    EmptyResult,
    /// More than one operand remained at the end of evaluation.
    MalformedExpression,
}

} // verus!
