//! The syntax tree: instructions (statements, expressions and
//! declarations), the constants written in the source, the operators read
//! off tokens, and the measure by which the tree shrinks towards its leaves.
use vstd::prelude::*;
use crate::lexer::TokenKind;
use crate::symbol_table::SymbolIndex;
use crate::types::{SourceRange, SourcedDataType};

verus! {

/// A function declared in an extern block: its name in the library, its
/// name in the program, and its signature.
#[derive(Debug, PartialEq)]
pub struct ExternFunctionAST {
    pub raw_name: SymbolIndex,
    pub identifier: SymbolIndex,
    pub return_type: SourcedDataType,
    pub arguments: Vec<SourcedDataType>,
}

/// An operator between two operands.
#[derive(Debug, PartialEq, Eq, Clone, Copy, Structural)]
pub enum BinaryOperator {
    Add,
    Subtract,
    Multiply,
    Divide,
    Modulo,
    Equals,
    NotEquals,
    GreaterThan,
    LesserThan,
    GreaterEquals,
    LesserEquals,
}

/// The operator a token stands for between two operands.
pub open spec fn binary_of(token: TokenKind) -> Option<BinaryOperator> {
    match token {
        TokenKind::Plus => Some(BinaryOperator::Add),
        TokenKind::Minus => Some(BinaryOperator::Subtract),
        TokenKind::Star => Some(BinaryOperator::Multiply),
        TokenKind::Slash => Some(BinaryOperator::Divide),
        TokenKind::Percent => Some(BinaryOperator::Modulo),
        TokenKind::RightAngle => Some(BinaryOperator::GreaterThan),
        TokenKind::LeftAngle => Some(BinaryOperator::LesserThan),
        TokenKind::GreaterEquals => Some(BinaryOperator::GreaterEquals),
        TokenKind::LesserEquals => Some(BinaryOperator::LesserEquals),
        TokenKind::EqualsTo => Some(BinaryOperator::Equals),
        TokenKind::NotEqualsTo => Some(BinaryOperator::NotEquals),
        _ => None,
    }
}

/// Distinct operator tokens stand for distinct operators: no two tokens
/// are read as the same operation.
pub proof fn law_operator_tokens_distinct(a: TokenKind, b: TokenKind)
    ensures
        binary_of(a) is Some && binary_of(a) == binary_of(b) ==> a == b,
{
}

impl BinaryOperator {
    /// The operator a token stands for, if any.
    pub fn from_token(token: &TokenKind) -> (r: Option<BinaryOperator>)
        ensures
            r == binary_of(*token),
    {
        match token {
            TokenKind::Plus => Some(BinaryOperator::Add),
            TokenKind::Minus => Some(BinaryOperator::Subtract),
            TokenKind::Star => Some(BinaryOperator::Multiply),
            TokenKind::Slash => Some(BinaryOperator::Divide),
            TokenKind::Percent => Some(BinaryOperator::Modulo),
            TokenKind::RightAngle => Some(BinaryOperator::GreaterThan),
            TokenKind::LeftAngle => Some(BinaryOperator::LesserThan),
            TokenKind::GreaterEquals => Some(BinaryOperator::GreaterEquals),
            TokenKind::LesserEquals => Some(BinaryOperator::LesserEquals),
            TokenKind::EqualsTo => Some(BinaryOperator::Equals),
            TokenKind::NotEqualsTo => Some(BinaryOperator::NotEquals),
            _ => None,
        }
    }

    /// The operation's name as messages show it.
    pub fn name(&self) -> (r: &'static str)
        ensures
            r@ == binary_name(*self),
    {
        match self {
            BinaryOperator::Add => "addision",
            BinaryOperator::Subtract => "subtraction",
            BinaryOperator::Multiply => "multiplication",
            BinaryOperator::Divide => "division",
            BinaryOperator::Modulo => "modulo",
            BinaryOperator::Equals => "equals",
            BinaryOperator::NotEquals => "not equals",
            BinaryOperator::GreaterThan => "greater than",
            BinaryOperator::LesserThan => "lesser than",
            BinaryOperator::GreaterEquals => "greater equals",
            BinaryOperator::LesserEquals => "lesser equals",
        }
    }
}

pub open spec fn binary_name(op: BinaryOperator) -> Seq<char> {
    match op {
        BinaryOperator::Add => "addision"@,
        BinaryOperator::Subtract => "subtraction"@,
        BinaryOperator::Multiply => "multiplication"@,
        BinaryOperator::Divide => "division"@,
        BinaryOperator::Modulo => "modulo"@,
        BinaryOperator::Equals => "equals"@,
        BinaryOperator::NotEquals => "not equals"@,
        BinaryOperator::GreaterThan => "greater than"@,
        BinaryOperator::LesserThan => "lesser than"@,
        BinaryOperator::GreaterEquals => "greater equals"@,
        BinaryOperator::LesserEquals => "lesser equals"@,
    }
}

/// An operator before one operand.
#[derive(Debug, PartialEq, Eq, Clone, Copy, Structural)]
pub enum UnaryOperator {
    Not,
    Negate,
}

impl UnaryOperator {
    /// The operator a token stands for before an operand, if any.
    pub fn from_token(token: &TokenKind) -> (r: Option<UnaryOperator>)
        ensures
            r == match *token {
                TokenKind::Minus => Some(UnaryOperator::Negate),
                TokenKind::Bang => Some(UnaryOperator::Not),
                _ => None::<UnaryOperator>,
            },
    {
        match token {
            TokenKind::Minus => Some(UnaryOperator::Negate),
            TokenKind::Bang => Some(UnaryOperator::Not),
            _ => None,
        }
    }

    /// The operation's name as messages show it.
    pub fn name(&self) -> (r: &'static str)
        ensures
            r@ == match *self {
                UnaryOperator::Not => "not"@,
                UnaryOperator::Negate => "negate"@,
            },
    {
        match self {
            UnaryOperator::Not => "not",
            UnaryOperator::Negate => "negate",
        }
    }
}

/// A constant written in the source.
#[derive(Debug, PartialEq, Clone, Copy)]
pub enum Data {
    I8(i8),
    I16(i16),
    I32(i32),
    I64(i64),
    U8(u8),
    U16(u16),
    U32(u32),
    U64(u64),
    /// A float, held as the bits of its IEEE 754 double.
    Float(u64),
    String(SymbolIndex),
    Bool(bool),
    Empty,
}

/// A constant together with where it was written.
#[derive(Debug, PartialEq, Clone, Copy)]
pub struct SourcedData {
    pub source_range: SourceRange,
    pub data: Data,
}

/// One node of the syntax tree and the source it was read from.
#[derive(Debug, PartialEq)]
pub struct Instruction {
    pub instruction_kind: InstructionKind,
    pub source_range: SourceRange,
}

#[derive(Debug, PartialEq)]
pub enum InstructionKind {
    Statement(Statement),
    Expression(Expression),
    Declaration(Declaration),
}

#[derive(Debug, PartialEq)]
pub enum Statement {
    DeclareVar { identifier: SymbolIndex, type_hint: Option<SourcedDataType>, data: Box<Instruction> },
    VariableUpdate { left: Box<Instruction>, right: Box<Instruction> },
    FieldUpdate { structure: Box<Instruction>, right: Box<Instruction>, identifier: SymbolIndex, index_to: usize },
    Loop { body: Vec<Instruction> },
    Break,
    Continue,
    Return(Box<Instruction>),
}

#[derive(Debug, PartialEq)]
pub enum Expression {
    AsCast { value: Box<Instruction>, cast_type: SourcedDataType },
    Data(SourcedData),
    BinaryOp { operator: BinaryOperator, left: Box<Instruction>, right: Box<Instruction> },
    UnaryOp { operator: UnaryOperator, value: Box<Instruction> },
    Block { body: Vec<Instruction> },
    IfExpression { body: Vec<Instruction>, condition: Box<Instruction>, else_part: Option<Box<Instruction>> },
    Identifier(SymbolIndex),
    FunctionCall { identifier: SymbolIndex, arguments: Vec<Instruction>, generics: Vec<SourcedDataType>, created_by_accessing: bool },
    StructureCreation {
        identifier: SymbolIndex,
        identifier_range: SourceRange,
        fields: Vec<(SymbolIndex, Instruction)>,
        generics: Vec<SourcedDataType>,
    },
    AccessStructureData { structure: Box<Instruction>, identifier: SymbolIndex, index_to: usize },
    WithinNamespace { namespace: SymbolIndex, do_within: Box<Instruction> },
}

#[derive(Debug, PartialEq)]
pub enum Declaration {
    FunctionDeclaration {
        name: SymbolIndex,
        arguments: Vec<(SymbolIndex, SourcedDataType)>,
        return_type: SourcedDataType,
        body: Vec<Instruction>,
        generics: Vec<SymbolIndex>,
        source_range_declaration: SourceRange,
    },
    StructDeclaration { name: SymbolIndex, fields: Vec<(SymbolIndex, SourcedDataType)>, generics: Vec<SymbolIndex> },
    Namespace { body: Vec<Instruction>, identifier: SymbolIndex },
    ImplBlock { body: Vec<Instruction>, datatype: SourcedDataType },
    Extern { file: SymbolIndex, functions: Vec<ExternFunctionAST> },
    UseFile { file_name: SymbolIndex },
}

/// The number of nodes of an instruction, counting each kind, each block
/// and each argument of a declared function as one more.
pub open spec fn size(i: Instruction) -> nat
    decreases i,
{
    1 + match i.instruction_kind {
        InstructionKind::Statement(s) => statement_size(s),
        InstructionKind::Expression(e) => expression_size(e),
        InstructionKind::Declaration(d) => declaration_size(d),
    }
}

pub open spec fn sizes(items: Seq<Instruction>) -> nat
    decreases items,
{
    if items.len() == 0 {
        0
    } else {
        size(items[0]) + sizes(items.subrange(1, items.len() as int))
    }
}

pub open spec fn field_sizes(fields: Seq<(SymbolIndex, Instruction)>) -> nat
    decreases fields,
{
    if fields.len() == 0 {
        0
    } else {
        size(fields[0].1) + field_sizes(fields.subrange(1, fields.len() as int))
    }
}

pub open spec fn statement_size(s: Statement) -> nat
    decreases s,
{
    1 + match s {
        Statement::DeclareVar { data, .. } => size(*data),
        Statement::VariableUpdate { left, right } => size(*left) + size(*right),
        Statement::FieldUpdate { structure, right, .. } => size(*structure) + size(*right),
        Statement::Loop { body } => sizes(body@),
        Statement::Break => 0,
        Statement::Continue => 0,
        Statement::Return(e) => size(*e),
    }
}

pub open spec fn expression_size(e: Expression) -> nat
    decreases e,
{
    1 + match e {
        Expression::AsCast { value, .. } => size(*value),
        Expression::Data(_) => 0,
        Expression::BinaryOp { left, right, .. } => size(*left) + size(*right),
        Expression::UnaryOp { value, .. } => size(*value),
        Expression::Block { body } => sizes(body@),
        Expression::IfExpression { body, condition, else_part } => size(*condition) + sizes(body@) + match else_part {
            Some(x) => size(*x),
            None => 0,
        },
        Expression::Identifier(_) => 0,
        Expression::FunctionCall { arguments, .. } => sizes(arguments@),
        Expression::StructureCreation { fields, .. } => field_sizes(fields@),
        Expression::AccessStructureData { structure, .. } => size(*structure),
        Expression::WithinNamespace { do_within, .. } => size(*do_within),
    }
}

pub open spec fn declaration_size(d: Declaration) -> nat
    decreases d,
{
    1 + match d {
        Declaration::FunctionDeclaration { arguments, body, .. } => (arguments.len() + sizes(body@)) as nat,
        Declaration::Namespace { body, .. } => sizes(body@),
        Declaration::ImplBlock { body, .. } => sizes(body@),
        Declaration::Extern { functions, .. } => functions.len() as nat,
        _ => 0,
    }
}

} // verus!
