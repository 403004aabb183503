//! The syntax tree of a body of code, held in tables.
use vstd::prelude::*;

use crate::base::{Op, Span, Word};

verus! {

/// An entry of the table of expressions.
#[derive(Clone, Copy, Debug, PartialEq, Eq, Structural)]
pub struct Expr {
    pub index: usize,
}

/// An entry of the table of named expressions.
#[derive(Clone, Copy, Debug, PartialEq, Eq, Structural)]
pub struct NamedExpr {
    pub index: usize,
}

/// An entry of the table of blocks.
#[derive(Clone, Copy, Debug, PartialEq, Eq, Structural)]
pub struct Block {
    pub index: usize,
}

/// What an expression is.
#[derive(Debug, PartialEq, Eq)]
pub enum ExprData {
    /// `name`
    Id(Word),
    /// `owner.field`
    Dot(Expr, Word),
    /// `callee(name: argument ...)`
    Call(Expr, Vec<NamedExpr>),
    /// `if condition block`, perhaps with `else block`
    If(Expr, Expr, Option<Expr>),
    /// `while condition block`
    While(Expr, Expr),
    /// `loop block`
    Loop(Expr),
    /// `continue`
    Continue,
    /// `break`, perhaps with a value
    Break(Option<Expr>),
    /// `return`, perhaps with a value
    Return(Option<Expr>),
    /// `(inner)`
    Parenthesized(Expr),
    /// `{ expressions }`
    Block(Block),
    /// `left op right`
    Op(Expr, Op, Expr),
    /// `op operand`
    Unary(Op, Expr),
    /// Stands where an expression was expected and none was found.
    Error,
}

/// An argument `name: expr`.
#[derive(Clone, Copy, Debug, PartialEq, Eq, Structural)]
pub struct NamedExprData {
    pub name: Word,
    pub expr: Expr,
}

/// A series of expressions.
#[derive(Debug, PartialEq, Eq)]
pub struct BlockData {
    pub exprs: Vec<Expr>,
}

/// Where an argument stands in the source.
#[derive(Clone, Copy, Debug, PartialEq, Eq, Structural)]
pub struct NamedExprSpan {
    /// The argument as a whole.
    pub span: Span,
    /// The name alone.
    pub name_span: Span,
}

/// What every expression, named expression and block is.
#[derive(Debug, PartialEq, Eq)]
pub struct Tables {
    pub exprs: Vec<ExprData>,
    pub named_exprs: Vec<NamedExprData>,
    pub blocks: Vec<BlockData>,
}

/// Where every expression and named expression stands in the source.
#[derive(Debug, PartialEq, Eq)]
pub struct Spans {
    pub exprs: Vec<Span>,
    pub named_exprs: Vec<NamedExprSpan>,
}

/// A parsed body of code.
#[derive(Debug, PartialEq, Eq)]
pub struct Ast {
    pub tables: Tables,
    pub block: Block,
}

/// The mathematical reading of `ExprData`.
pub enum ExprShape {
    Id(Word),
    Dot(Expr, Word),
    Call(Expr, Seq<NamedExpr>),
    If(Expr, Expr, Option<Expr>),
    While(Expr, Expr),
    Loop(Expr),
    Continue,
    Break(Option<Expr>),
    Return(Option<Expr>),
    Parenthesized(Expr),
    Block(Block),
    Op(Expr, Op, Expr),
    Unary(Op, Expr),
    Error,
}

impl View for ExprData {
    type V = ExprShape;

    open spec fn view(&self) -> ExprShape {
        match *self {
            ExprData::Id(name) => ExprShape::Id(name),
            ExprData::Dot(owner, field) => ExprShape::Dot(owner, field),
            ExprData::Call(callee, arguments) => ExprShape::Call(callee, arguments@),
            ExprData::If(condition, if_true, if_false) => ExprShape::If(
                condition,
                if_true,
                if_false,
            ),
            ExprData::While(condition, body) => ExprShape::While(condition, body),
            ExprData::Loop(body) => ExprShape::Loop(body),
            ExprData::Continue => ExprShape::Continue,
            ExprData::Break(value) => ExprShape::Break(value),
            ExprData::Return(value) => ExprShape::Return(value),
            ExprData::Parenthesized(inner) => ExprShape::Parenthesized(inner),
            ExprData::Block(block) => ExprShape::Block(block),
            ExprData::Op(left, op, right) => ExprShape::Op(left, op, right),
            ExprData::Unary(op, operand) => ExprShape::Unary(op, operand),
            ExprData::Error => ExprShape::Error,
        }
    }
}

/// The contents of `Tables` and `Spans` together.
#[verifier::ext_equal]
pub struct Arena {
    pub exprs: Seq<ExprShape>,
    pub expr_spans: Seq<Span>,
    pub named_exprs: Seq<NamedExprData>,
    pub named_expr_spans: Seq<NamedExprSpan>,
    pub blocks: Seq<Seq<Expr>>,
}

/// The contents of `tables` and `spans` together.
pub open spec fn arena(tables: Tables, spans: Spans) -> Arena {
    Arena {
        exprs: tables.exprs@.map_values(|data: ExprData| data@),
        expr_spans: spans.exprs@,
        named_exprs: tables.named_exprs@,
        named_expr_spans: spans.named_exprs@,
        blocks: tables.blocks@.map_values(|data: BlockData| data.exprs@),
    }
}

impl Tables {
    /// Whether these are the tables of `arena`.
    pub open spec fn holds(self, arena: Arena) -> bool {
        &&& self.exprs@.map_values(|data: ExprData| data@) =~= arena.exprs
        &&& self.named_exprs@ =~= arena.named_exprs
        &&& self.blocks@.map_values(|data: BlockData| data.exprs@) =~= arena.blocks
    }
}

impl Arena {
    pub open spec fn empty() -> Arena {
        Arena {
            exprs: seq![],
            expr_spans: seq![],
            named_exprs: seq![],
            named_expr_spans: seq![],
            blocks: seq![],
        }
    }

    /// Every expression and every named expression has a span.
    pub open spec fn well_formed(self) -> bool {
        &&& self.exprs.len() == self.expr_spans.len()
        &&& self.named_exprs.len() == self.named_expr_spans.len()
    }

    /// The arena with one more expression.
    pub open spec fn add_expr(self, shape: ExprShape, span: Span) -> Arena {
        Arena { exprs: self.exprs.push(shape), expr_spans: self.expr_spans.push(span), ..self }
    }

    /// The arena with one more named expression.
    pub open spec fn add_named_expr(self, data: NamedExprData, span: NamedExprSpan) -> Arena {
        Arena {
            named_exprs: self.named_exprs.push(data),
            named_expr_spans: self.named_expr_spans.push(span),
            ..self
        }
    }

    /// The arena with one more block.
    pub open spec fn add_block(self, exprs: Seq<Expr>) -> Arena {
        Arena { blocks: self.blocks.push(exprs), ..self }
    }

    /// The most recent expression.
    pub open spec fn last_expr(self) -> Expr {
        Expr { index: (self.exprs.len() - 1) as usize }
    }

    /// The most recent named expression.
    pub open spec fn last_named_expr(self) -> NamedExpr {
        NamedExpr { index: (self.named_exprs.len() - 1) as usize }
    }

    /// The most recent block.
    pub open spec fn last_block(self) -> Block {
        Block { index: (self.blocks.len() - 1) as usize }
    }

    /// Whether all of `self` stands unchanged at the start of `later`.
    pub open spec fn grows_to(self, later: Arena) -> bool {
        &&& self.exprs.is_prefix_of(later.exprs)
        &&& self.expr_spans.is_prefix_of(later.expr_spans)
        &&& self.named_exprs.is_prefix_of(later.named_exprs)
        &&& self.named_expr_spans.is_prefix_of(later.named_expr_spans)
        &&& self.blocks.is_prefix_of(later.blocks)
    }
}

impl Tables {
    /// Tables with no entries.
    pub fn new() -> (tables: Tables)
        ensures
            tables.exprs@ == Seq::<ExprData>::empty(),
            tables.named_exprs@ == Seq::<NamedExprData>::empty(),
            tables.blocks@ == Seq::<BlockData>::empty(),
    {
        Tables { exprs: Vec::new(), named_exprs: Vec::new(), blocks: Vec::new() }
    }
}

impl Spans {
    /// Tables with no entries.
    pub fn new() -> (spans: Spans)
        ensures
            spans.exprs@ == Seq::<Span>::empty(),
            spans.named_exprs@ == Seq::<NamedExprSpan>::empty(),
    {
        Spans { exprs: Vec::new(), named_exprs: Vec::new() }
    }
}

} // verus!
