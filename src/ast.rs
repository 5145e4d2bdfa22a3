//! Operators and blocks of the front end's syntax tree.

use vstd::prelude::*;

verus! {

/// The operator tokens of the lexer.
#[derive(Debug, Clone, Copy, PartialEq, Eq, Structural, Hash)]
pub enum Token {
    Plus,
    Minus,
    Star,
    Slash,
    Percent,
    Equal,
    NotEqual,
    Less,
    LessEqual,
    Greater,
    GreaterEqual,
    Ampersand,
    Pipe,
    Caret,
    ShiftLeft,
    ShiftRight,
    Bang,
}

#[derive(PartialEq, PartialOrd, Eq, Ord, Hash, Debug, Copy, Clone, Structural)]
pub enum BinaryOpKind {
    Add,
    Subtract,
    Multiply,
    Divide,
    Equal,
    NotEqual,
    Less,
    LessEqual,
    Greater,
    GreaterEqual,
    And,
    Or,
    Xor,
    ShiftRight,
    ShiftLeft,
    Modulo,
}

/// The source text of an operator.
pub open spec fn operator_text(op: BinaryOpKind) -> &'static str {
    match op {
        BinaryOpKind::Add => "+",
        BinaryOpKind::Subtract => "-",
        BinaryOpKind::Multiply => "*",
        BinaryOpKind::Divide => "/",
        BinaryOpKind::Equal => "==",
        BinaryOpKind::NotEqual => "!=",
        BinaryOpKind::Less => "<",
        BinaryOpKind::LessEqual => "<=",
        BinaryOpKind::Greater => ">",
        BinaryOpKind::GreaterEqual => ">=",
        BinaryOpKind::And => "&",
        BinaryOpKind::Or => "|",
        BinaryOpKind::Xor => "^",
        BinaryOpKind::ShiftRight => ">>",
        BinaryOpKind::ShiftLeft => "<<",
        BinaryOpKind::Modulo => "%",
    }
}

/// The token that spells an operator.
pub open spec fn operator_token(op: BinaryOpKind) -> Token {
    match op {
        BinaryOpKind::Add => Token::Plus,
        BinaryOpKind::Subtract => Token::Minus,
        BinaryOpKind::Multiply => Token::Star,
        BinaryOpKind::Divide => Token::Slash,
        BinaryOpKind::Equal => Token::Equal,
        BinaryOpKind::NotEqual => Token::NotEqual,
        BinaryOpKind::Less => Token::Less,
        BinaryOpKind::LessEqual => Token::LessEqual,
        BinaryOpKind::Greater => Token::Greater,
        BinaryOpKind::GreaterEqual => Token::GreaterEqual,
        BinaryOpKind::And => Token::Ampersand,
        BinaryOpKind::Or => Token::Pipe,
        BinaryOpKind::Xor => Token::Caret,
        BinaryOpKind::ShiftLeft => Token::ShiftLeft,
        BinaryOpKind::ShiftRight => Token::ShiftRight,
        BinaryOpKind::Modulo => Token::Percent,
    }
}

impl BinaryOpKind {
    /// Comparator operators return a 0 or 1. When seen in the middle of an
    /// infix operator, they make the infix expression a predicate.
    pub fn is_comparator(self) -> (r: bool)
        ensures
            r == (self == BinaryOpKind::Equal || self == BinaryOpKind::NotEqual || self
                == BinaryOpKind::LessEqual || self == BinaryOpKind::Less || self
                == BinaryOpKind::Greater || self == BinaryOpKind::GreaterEqual),
    {
        match self {
            BinaryOpKind::Equal | BinaryOpKind::NotEqual | BinaryOpKind::LessEqual
            | BinaryOpKind::Less | BinaryOpKind::Greater | BinaryOpKind::GreaterEqual => true,
            _ => false,
        }
    }

    pub fn is_valid_for_field_type(self) -> (r: bool)
        ensures
            r == (self == BinaryOpKind::Equal || self == BinaryOpKind::NotEqual),
    {
        match self {
            BinaryOpKind::Equal | BinaryOpKind::NotEqual => true,
            _ => false,
        }
    }

    pub fn as_string(self) -> (r: &'static str)
        ensures
            r == operator_text(self),
    {
        match self {
            BinaryOpKind::Add => "+",
            BinaryOpKind::Subtract => "-",
            BinaryOpKind::Multiply => "*",
            BinaryOpKind::Divide => "/",
            BinaryOpKind::Equal => "==",
            BinaryOpKind::NotEqual => "!=",
            BinaryOpKind::Less => "<",
            BinaryOpKind::LessEqual => "<=",
            BinaryOpKind::Greater => ">",
            BinaryOpKind::GreaterEqual => ">=",
            BinaryOpKind::And => "&",
            BinaryOpKind::Or => "|",
            BinaryOpKind::Xor => "^",
            BinaryOpKind::ShiftRight => ">>",
            BinaryOpKind::ShiftLeft => "<<",
            BinaryOpKind::Modulo => "%",
        }
    }

    pub fn as_token(self) -> (r: Token)
        ensures
            r == operator_token(self),
    {
        match self {
            BinaryOpKind::Add => Token::Plus,
            BinaryOpKind::Subtract => Token::Minus,
            BinaryOpKind::Multiply => Token::Star,
            BinaryOpKind::Divide => Token::Slash,
            BinaryOpKind::Equal => Token::Equal,
            BinaryOpKind::NotEqual => Token::NotEqual,
            BinaryOpKind::Less => Token::Less,
            BinaryOpKind::LessEqual => Token::LessEqual,
            BinaryOpKind::Greater => Token::Greater,
            BinaryOpKind::GreaterEqual => Token::GreaterEqual,
            BinaryOpKind::And => Token::Ampersand,
            BinaryOpKind::Or => Token::Pipe,
            BinaryOpKind::Xor => Token::Caret,
            BinaryOpKind::ShiftLeft => Token::ShiftLeft,
            BinaryOpKind::ShiftRight => Token::ShiftRight,
            BinaryOpKind::Modulo => Token::Percent,
        }
    }

    pub fn is_bit_shift(&self) -> (r: bool)
        ensures
            r == (*self == BinaryOpKind::ShiftRight || *self == BinaryOpKind::ShiftLeft),
    {
        match self {
            BinaryOpKind::ShiftRight | BinaryOpKind::ShiftLeft => true,
            _ => false,
        }
    }
}

#[derive(PartialEq, PartialOrd, Eq, Ord, Hash, Debug, Copy, Clone, Structural)]
pub enum UnaryOp {
    Minus,
    Not,
    MutableReference,
    /// If `implicitly_added` is true, the compiler added this dereference for
    /// a field access, and may undo it when the reference turns out to be
    /// needed.
    Dereference { implicitly_added: bool },
}

impl UnaryOp {
    /// The prefix operator that a token stands for, if any.
    pub fn from(token: &Token) -> (r: Option<UnaryOp>)
        ensures
            r == (match *token {
                Token::Minus => Some(UnaryOp::Minus),
                Token::Bang => Some(UnaryOp::Not),
                _ => None,
            }),
    {
        match token {
            Token::Minus => Some(UnaryOp::Minus),
            Token::Bang => Some(UnaryOp::Not),
            _ => None,
        }
    }
}

/// The source text of a prefix operator.
pub open spec fn unary_text(op: UnaryOp) -> &'static str {
    match op {
        UnaryOp::Minus => "-",
        UnaryOp::Not => "!",
        UnaryOp::MutableReference => "&mut",
        UnaryOp::Dereference { .. } => "*",
    }
}

impl UnaryOp {
    /// How the operator is written in source.
    pub fn as_string(&self) -> (r: &'static str)
        ensures
            r == unary_text(*self),
    {
        match self {
            UnaryOp::Minus => "-",
            UnaryOp::Not => "!",
            UnaryOp::MutableReference => "&mut",
            UnaryOp::Dereference { .. } => "*",
        }
    }
}

/// The kinds of smart contract functions that are allowed. All programs
/// outside a contract can be seen as `Secret`.
#[derive(Debug, Copy, Clone, PartialEq, Eq, Structural)]
pub enum ContractFunctionType {
    /// Executed in a private context.
    Secret,
    /// Executed in a public context.
    Open,
}

/// The kind of a statement of a block.
#[derive(Debug, Copy, Clone, PartialEq, Eq, Structural)]
pub enum Statement {
    Let,
    Constrain,
    Expression,
    Assign,
    Semi,
    Error,
}

#[derive(Debug, Clone)]
pub struct BlockExpression(pub Vec<Statement>);

impl BlockExpression {
    /// Removes and returns the last statement.
    pub fn pop(&mut self) -> (r: Option<Statement>)
        ensures
            old(self).0@.len() == 0 ==> r is None && final(self).0@ == old(self).0@,
            old(self).0@.len() > 0 ==> r == Some(old(self).0@.last()) && final(self).0@ == old(self).0@.drop_last(),
    {
        self.0.pop()
    }

    pub fn len(&self) -> (r: usize)
        ensures
            r == self.0@.len(),
    {
        self.0.len()
    }

    pub fn is_empty(&self) -> (r: bool)
        ensures
            r == (self.0@.len() == 0),
    {
        self.0.is_empty()
    }
}

} // verus!
