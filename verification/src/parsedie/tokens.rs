//! Lexical tokens and the binding power of each.

use super::render::{decimal_text, push_decimal};
use vstd::prelude::*;
use vstd::string::StringExecFns;

verus! {

/// One lexical unit of a dice expression.
#[derive(Debug, PartialEq, Eq, Clone, Copy, Structural)]
pub enum Token {
    Add,
    Subtract,
    Multiply,
    Divide,
    Caret,
    LeftParen,
    RightParen,
    Num(i128),
    Die,
    EOF,
}

/// Binding power of an operator class, weakest first.
#[derive(Debug, PartialEq, Eq, PartialOrd, Ord, Clone, Copy, Structural)]
pub enum OperPrec {
    DefaultZero,
    AddSub,
    MulDiv,
    Power,
    DieRoll,
    Negative,
}

impl OperPrec {
    /// Position in the order `DefaultZero < AddSub < MulDiv < Power < DieRoll < Negative`.
    pub open spec fn level(self) -> int {
        match self {
            OperPrec::DefaultZero => 0,
            OperPrec::AddSub => 1,
            OperPrec::MulDiv => 2,
            OperPrec::Power => 3,
            OperPrec::DieRoll => 4,
            OperPrec::Negative => 5,
        }
    }

    /// The level as a machine integer.
    pub fn rank(&self) -> (r: u8)
        ensures
            r == self.level(),
    {
        match self {
            OperPrec::DefaultZero => 0,
            OperPrec::AddSub => 1,
            OperPrec::MulDiv => 2,
            OperPrec::Power => 3,
            OperPrec::DieRoll => 4,
            OperPrec::Negative => 5,
        }
    }

    /// Whether `self` binds strictly weaker than `other`.
    pub fn weaker_than(&self, other: &OperPrec) -> (b: bool)
        ensures
            b == (self.level() < other.level()),
    {
        self.rank() < other.rank()
    }
}

impl Token {
    /// The binding power of a token: that of its operator class, and
    /// `DefaultZero` for everything that is not a binary operator.
    pub open spec fn oper_prec(self) -> OperPrec {
        match self {
            Token::Add | Token::Subtract => OperPrec::AddSub,
            Token::Multiply | Token::Divide => OperPrec::MulDiv,
            Token::Caret => OperPrec::Power,
            Token::Die => OperPrec::DieRoll,
            _ => OperPrec::DefaultZero,
        }
    }

    /// Whether the token is one of the six binary operators.
    pub open spec fn is_operator(self) -> bool {
        self is Add || self is Subtract || self is Multiply || self is Divide || self is Caret
            || self is Die
    }

    /// The binding power of the token; above `DefaultZero` for the six
    /// binary operators only.
    pub fn get_oper_prec(&self) -> (p: OperPrec)
        ensures
            p == self.oper_prec(),
            p.level() > 0 <==> self.is_operator(),
    {
        match self {
            Token::Add | Token::Subtract => OperPrec::AddSub,
            Token::Multiply | Token::Divide => OperPrec::MulDiv,
            Token::Caret => OperPrec::Power,
            Token::Die => OperPrec::DieRoll,
            _ => OperPrec::DefaultZero,
        }
    }
}

impl Token {
    /// The token's name, a number with its value in brackets: `Add`,
    /// `Num(12)`, `EOF`.
    pub open spec fn name(self) -> Seq<char> {
        match self {
            Token::Add => "Add"@,
            Token::Subtract => "Subtract"@,
            Token::Multiply => "Multiply"@,
            Token::Divide => "Divide"@,
            Token::Caret => "Caret"@,
            Token::LeftParen => "LeftParen"@,
            Token::RightParen => "RightParen"@,
            Token::Num(i) => "Num("@ + decimal_text(i as int) + ")"@,
            Token::Die => "Die"@,
            Token::EOF => "EOF"@,
        }
    }

    /// Appends the token's name to `out`.
    pub fn push_name(&self, out: &mut String)
        ensures
            final(out)@ == old(out)@ + self.name(),
    {
        match self {
            Token::Add => out.append("Add"),
            Token::Subtract => out.append("Subtract"),
            Token::Multiply => out.append("Multiply"),
            Token::Divide => out.append("Divide"),
            Token::Caret => out.append("Caret"),
            Token::LeftParen => out.append("LeftParen"),
            Token::RightParen => out.append("RightParen"),
            Token::Num(i) => {
                out.append("Num(");
                push_decimal(out, *i);
                out.append(")");
                assert(out@ =~= old(out)@ + self.name());
            },
            Token::Die => out.append("Die"),
            Token::EOF => out.append("EOF"),
        }
    }
}

} // verus!
