//! The grammar of expressions, as a function from tokens to trees.
//!
//! Each function reads the tokens of one token tree from a position onward and gives the position
//! after the last token that it takes, the problems that it reports, in order, and the tree that
//! it finds, if it finds one.
use vstd::prelude::*;

use crate::base::{Keyword, Op, Span, Word};
use crate::diagnostic::{Diagnostic, DiagnosticKind};
use crate::token::TokenTree;

verus! {

/// An expression with the part of the source that it covers.
pub struct Node {
    pub span: Span,
    pub kind: NodeKind,
}

/// What an expression is made of.
pub enum NodeKind {
    Id(Word),
    Dot(Box<Node>, Word),
    Call(Box<Node>, Seq<Argument>),
    If(Box<Node>, Box<Node>, Option<Box<Node>>),
    While(Box<Node>, Box<Node>),
    Loop(Box<Node>),
    Continue,
    Break(Option<Box<Node>>),
    Return(Option<Box<Node>>),
    Parenthesized(Box<Node>),
    Block(Seq<Node>),
    Op(Box<Node>, Op, Box<Node>),
    Unary(Op, Box<Node>),
    Error,
}

/// An argument `name: value`.
pub struct Argument {
    pub span: Span,
    pub name_span: Span,
    pub name: Word,
    pub value: Node,
}

/// The outcome of looking for one expression.
#[verifier::ext_equal]
pub struct Parsed {
    pub pos: int,
    pub errors: Seq<Diagnostic>,
    pub node: Option<Node>,
}

/// The outcome of looking for one argument.
pub struct ParsedArgument {
    pub pos: int,
    pub errors: Seq<Diagnostic>,
    pub argument: Option<Argument>,
}

/// The outcome of reading all that is left of a token tree as a series of expressions.
pub struct ParsedBlock {
    pub errors: Seq<Diagnostic>,
    pub nodes: Seq<Node>,
}

/// The outcome of reading all that is left of a token tree as a series of arguments.
pub struct ParsedArguments {
    pub errors: Seq<Diagnostic>,
    pub arguments: Seq<Argument>,
}

/// A delimited token tree and what is known of the delimiters around it.
pub struct Delimited {
    pub tree: TokenTree,
    /// From the opening delimiter to the closing one, if there is one.
    pub span: Span,
    /// The position after the closing delimiter.
    pub pos: int,
    pub errors: Seq<Diagnostic>,
}

impl Parsed {
    /// No expression, with nothing taken and nothing reported.
    pub open spec fn nothing(pos: int) -> Parsed {
        Parsed { pos, errors: seq![], node: None }
    }

    /// An expression, with nothing to report.
    pub open spec fn found(pos: int, span: Span, kind: NodeKind) -> Parsed {
        Parsed { pos, errors: seq![], node: Some(Node { span, kind }) }
    }

    /// The same outcome, preceded by other reports.
    pub open spec fn after(self, errors: Seq<Diagnostic>) -> Parsed {
        Parsed { errors: errors + self.errors, ..self }
    }

    /// If there is no expression, reports that and puts an error expression in its place.
    pub open spec fn or_error(self, tokens: TokenTree, kind: DiagnosticKind) -> Parsed {
        match self.node {
            Some(_) => self,
            None => Parsed {
                pos: self.pos,
                errors: self.errors.push(report(tokens, self.pos, kind)),
                node: Some(Node { span: tokens.span_at(self.pos), kind: NodeKind::Error }),
            },
        }
    }

    /// Whether at least one token was taken from `pos` onward, and none beyond the end.
    pub open spec fn advances(self, tokens: TokenTree, pos: int) -> bool {
        pos < self.pos <= tokens.count()
    }
}

/// A report about the token at `pos`.
pub open spec fn report(tokens: TokenTree, pos: int, kind: DiagnosticKind) -> Diagnostic {
    Diagnostic { span: tokens.span_at(pos), kind }
}

/// One report about the token at `pos` unless `fine`.
pub open spec fn report_unless(
    fine: bool,
    tokens: TokenTree,
    pos: int,
    kind: DiagnosticKind,
) -> Seq<Diagnostic> {
    if fine {
        seq![]
    } else {
        seq![report(tokens, pos, kind)]
    }
}

/// The span from the token at `start` to the last token before `end`.
pub open spec fn taken(tokens: TokenTree, start: int, end: int) -> Span {
    tokens.span_at(start).up_to(tokens.span_before(end))
}

/// The position after skipping one token, if there is one to skip.
pub open spec fn skip_token(tokens: TokenTree, pos: int) -> int {
    if pos < tokens.count() {
        pos + 1
    } else {
        pos
    }
}

/// The delimiter that closes what `delimiter` opens.
pub open spec fn closing(delimiter: char) -> char {
    if delimiter == '(' {
        ')'
    } else if delimiter == '{' {
        '}'
    } else {
        delimiter
    }
}

/// The token tree that `delimiter` opens at `pos`, if there is one.
pub open spec fn delimited(tokens: TokenTree, pos: int, delimiter: char) -> Option<Delimited> {
    match tokens.delimited_at(pos, delimiter) {
        Some(tree) => {
            let closed = tokens.delimiter_at(pos + 2, closing(delimiter));
            let end = if closed {
                pos + 3
            } else {
                pos + 2
            };
            Some(
                Delimited {
                    tree,
                    span: taken(tokens, pos, end),
                    pos: end,
                    errors: report_unless(
                        closed,
                        tokens,
                        pos + 2,
                        DiagnosticKind::ExpectedClosing(closing(delimiter)),
                    ),
                },
            )
        },
        None => None,
    }
}

/// ```text
/// Expr := Id
///       | UnaryOp Expr
///       | `if` Expr Block [`else` Block]
///       | `while` Expr Block
///       | `loop` Block
///       | `continue`
///       | `break` [Expr]
///       | `return` [Expr]
///       | `(` Expr `)`
///       | Block
///       | Expr . Ident
///       | Expr BinaryOp Expr
///       | Expr ( args )
/// ```
pub open spec fn expr(tokens: TokenTree, pos: int) -> Parsed
    decreases tokens, tokens.count() - pos, 5int,
{
    expr_3(tokens, pos)
}

/// Sums: the operators `+` and `-`, or anything that binds more tightly. What stands to the right
/// of an operator extends as far as it can.
pub open spec fn expr_3(tokens: TokenTree, pos: int) -> Parsed
    decreases tokens, tokens.count() - pos, 4int,
{
    let left = expr_2(tokens, pos);
    match (left.node, tokens.operator_at(left.pos, seq![Op::Plus, Op::Minus])) {
        (Some(base), Some(op)) if left.advances(tokens, pos) => binary(
            left,
            base,
            op,
            required_expr(tokens, left.pos + 1, op),
        ),
        _ => left,
    }
}

/// Products: the operators `/` and `*`, or anything that binds more tightly.
pub open spec fn expr_2(tokens: TokenTree, pos: int) -> Parsed
    decreases tokens, tokens.count() - pos, 3int,
{
    let left = expr_1(tokens, pos);
    match (left.node, tokens.operator_at(left.pos, seq![Op::DividedBy, Op::Times])) {
        (Some(base), Some(op)) if left.advances(tokens, pos) => binary(
            left,
            base,
            op,
            required_expr(tokens, left.pos + 1, op),
        ),
        _ => left,
    }
}

/// The operation `op` on `base`, which `left` found, and what `right` found.
pub open spec fn binary(left: Parsed, base: Node, op: Op, right: Parsed) -> Parsed {
    let operand = right.node->0;
    Parsed {
        pos: right.pos,
        errors: left.errors + right.errors,
        node: Some(
            Node {
                span: base.span.up_to(operand.span),
                kind: NodeKind::Op(Box::new(base), op, Box::new(operand)),
            },
        ),
    }
}

/// An expression that must follow operator `op`.
pub open spec fn required_expr(tokens: TokenTree, pos: int, op: Op) -> Parsed
    decreases tokens, tokens.count() - pos, 6int,
{
    expr(tokens, pos).or_error(tokens, DiagnosticKind::ExpectedExpressionAfter(op))
}

/// An expression followed by any number of field accesses and argument lists.
pub open spec fn expr_1(tokens: TokenTree, pos: int) -> Parsed
    decreases tokens, tokens.count() - pos, 2int,
{
    let head = expr_0(tokens, pos);
    match head.node {
        Some(base) if head.advances(tokens, pos) => suffixes(tokens, head.pos, base).after(
            head.errors,
        ),
        _ => head,
    }
}

/// The field accesses and argument lists that follow `base`.
pub open spec fn suffixes(tokens: TokenTree, pos: int, base: Node) -> Parsed
    decreases tokens, tokens.count() - pos, 0int,
{
    let dot = tokens.op_at(pos, Op::Dot);
    if dot && tokens.identifier_at(pos + 1) is Some {
        let access = Node {
            span: base.span.up_to(tokens.span_at(pos + 1)),
            kind: NodeKind::Dot(Box::new(base), tokens.identifier_at(pos + 1)->0),
        };
        suffixes(tokens, pos + 2, access)
    } else {
        let start = if dot {
            pos + 1
        } else {
            pos
        };
        let errors = report_unless(
            !dot,
            tokens,
            pos + 1,
            DiagnosticKind::ExpectedIdentifierAfterDot,
        );
        match delimited(tokens, start, '(') {
            Some(list) => {
                let arguments = arguments(list.tree, 0);
                let call = Node {
                    span: base.span.up_to(list.span),
                    kind: NodeKind::Call(Box::new(base), arguments.arguments),
                };
                suffixes(tokens, list.pos, call).after(
                    errors + list.errors + arguments.errors,
                )
            },
            None => Parsed { pos: start, errors, node: Some(base) },
        }
    }
}

/// An expression that begins with the token at `pos` and is no operation on what precedes it.
pub open spec fn expr_0(tokens: TokenTree, pos: int) -> Parsed
    decreases tokens, tokens.count() - pos, 1int,
{
    if tokens.identifier_at(pos) is Some {
        Parsed::found(
            pos + 1,
            tokens.span_at(pos),
            NodeKind::Id(tokens.identifier_at(pos)->0),
        )
    } else if delimited(tokens, pos, '{') is Some {
        block_expr(tokens, pos)
    } else if tokens.keyword_at(pos, Keyword::If) {
        let condition = condition(tokens, pos + 1);
        match condition.node {
            Some(test) => {
                let if_true = required_block(tokens, condition.pos, Keyword::If);
                let errors = condition.errors + if_true.errors;
                if tokens.keyword_at(if_true.pos, Keyword::Else) {
                    let if_false = required_block(tokens, if_true.pos + 1, Keyword::Else);
                    Parsed::found(
                        if_false.pos,
                        taken(tokens, pos, if_false.pos),
                        NodeKind::If(
                            Box::new(test),
                            Box::new(if_true.node->0),
                            Some(Box::new(if_false.node->0)),
                        ),
                    ).after(errors + if_false.errors)
                } else {
                    Parsed::found(
                        if_true.pos,
                        taken(tokens, pos, if_true.pos),
                        NodeKind::If(Box::new(test), Box::new(if_true.node->0), None),
                    ).after(errors)
                }
            },
            None => no_condition(tokens, condition, Keyword::If),
        }
    } else if tokens.keyword_at(pos, Keyword::While) {
        let condition = condition(tokens, pos + 1);
        match condition.node {
            Some(test) => {
                let body = required_block(tokens, condition.pos, Keyword::While);
                Parsed::found(
                    body.pos,
                    taken(tokens, pos, body.pos),
                    NodeKind::While(Box::new(test), Box::new(body.node->0)),
                ).after(condition.errors + body.errors)
            },
            None => no_condition(tokens, condition, Keyword::While),
        }
    } else if tokens.keyword_at(pos, Keyword::Loop) {
        let body = required_block(tokens, pos + 1, Keyword::Loop);
        Parsed::found(
            body.pos,
            taken(tokens, pos, body.pos),
            NodeKind::Loop(Box::new(body.node->0)),
        ).after(body.errors)
    } else if tokens.keyword_at(pos, Keyword::Continue) {
        Parsed::found(pos + 1, tokens.span_at(pos), NodeKind::Continue)
    } else if tokens.keyword_at(pos, Keyword::Break) {
        let value = expr(tokens, pos + 1);
        Parsed::found(
            value.pos,
            taken(tokens, pos, value.pos),
            NodeKind::Break(boxed(value.node)),
        ).after(value.errors)
    } else if tokens.keyword_at(pos, Keyword::Return) {
        let value = expr(tokens, pos + 1);
        Parsed::found(
            value.pos,
            taken(tokens, pos, value.pos),
            NodeKind::Return(boxed(value.node)),
        ).after(value.errors)
    } else if tokens.op_at(pos, Op::Minus) {
        let operand = required_expr(tokens, pos + 1, Op::Minus);
        Parsed::found(
            operand.pos,
            tokens.span_at(pos).up_to(operand.node->0.span),
            NodeKind::Unary(Op::Minus, Box::new(operand.node->0)),
        ).after(operand.errors)
    } else {
        match delimited(tokens, pos, '(') {
            Some(group) => {
                let inner = only_expr(group.tree, 0);
                Parsed::found(
                    group.pos,
                    group.span,
                    NodeKind::Parenthesized(Box::new(inner.node->0)),
                ).after(group.errors + inner.errors)
            },
            None => Parsed::nothing(pos),
        }
    }
}

/// The same node in a box.
pub open spec fn boxed(node: Option<Node>) -> Option<Box<Node>> {
    match node {
        Some(node) => Some(Box::new(node)),
        None => None,
    }
}

/// The condition of an `if` or a `while`: any expression but a block.
pub open spec fn condition(tokens: TokenTree, pos: int) -> Parsed
    decreases tokens, tokens.count() - pos, 6int,
{
    if tokens.delimiter_at(pos, '{') {
        Parsed::nothing(pos)
    } else {
        expr(tokens, pos)
    }
}

/// The outcome when the condition that must follow `kw` is not there.
pub open spec fn no_condition(tokens: TokenTree, condition: Parsed, kw: Keyword) -> Parsed {
    Parsed {
        pos: condition.pos,
        errors: condition.errors.push(
            report(tokens, condition.pos, DiagnosticKind::ExpectedCondition(kw)),
        ),
        node: None,
    }
}

/// A block in braces.
pub open spec fn block_expr(tokens: TokenTree, pos: int) -> Parsed
    decreases tokens, 0int, 0int,
{
    match delimited(tokens, pos, '{') {
        Some(group) => {
            let block = block_contents(group.tree, 0);
            Parsed::found(group.pos, group.span, NodeKind::Block(block.nodes)).after(
                group.errors + block.errors,
            )
        },
        None => Parsed::nothing(pos),
    }
}

/// A block in braces that must follow `kw`.
pub open spec fn required_block(tokens: TokenTree, pos: int, kw: Keyword) -> Parsed
    decreases tokens, 0int, 1int,
{
    block_expr(tokens, pos).or_error(tokens, DiagnosticKind::ExpectedBlockAfter(kw))
}

/// All of the tokens from `pos` on, as a series of expressions. A token that begins no expression
/// is reported and skipped.
pub open spec fn block_contents(tokens: TokenTree, pos: int) -> ParsedBlock
    decreases tokens, tokens.count() - pos, 7int,
{
    if pos >= tokens.count() {
        ParsedBlock { errors: seq![], nodes: seq![] }
    } else {
        let first = expr(tokens, pos);
        match first.node {
            Some(node) => {
                let rest = if first.advances(tokens, pos) {
                    block_contents(tokens, first.pos)
                } else {
                    ParsedBlock { errors: seq![], nodes: seq![] }
                };
                ParsedBlock { errors: first.errors + rest.errors, nodes: seq![node] + rest.nodes }
            },
            None => {
                let next = skip_token(tokens, first.pos);
                let rest = if pos < next <= tokens.count() {
                    block_contents(tokens, next)
                } else {
                    ParsedBlock { errors: seq![], nodes: seq![] }
                };
                ParsedBlock {
                    errors: first.errors.push(
                        report(tokens, first.pos, DiagnosticKind::ExpectedExpression),
                    ) + rest.errors,
                    nodes: rest.nodes,
                }
            },
        }
    }
}

/// All of the tokens from `pos` on, as one expression. Tokens after the expression are reported.
pub open spec fn only_expr(tokens: TokenTree, pos: int) -> Parsed
    decreases tokens, tokens.count() - pos, 7int,
{
    let only = expr(tokens, pos);
    match only.node {
        Some(_) => Parsed {
            errors: only.errors + report_unless(
                only.pos >= tokens.count(),
                tokens,
                only.pos,
                DiagnosticKind::ExtraTokens,
            ),
            ..only
        },
        None => only.or_error(tokens, DiagnosticKind::ExpectedExpression),
    }
}

/// An argument `name: value`.
pub open spec fn argument(tokens: TokenTree, pos: int) -> ParsedArgument
    decreases tokens, tokens.count() - pos, 6int,
{
    match tokens.identifier_at(pos) {
        Some(name) => {
            let colon = tokens.op_at(pos + 1, Op::Colon);
            let start = if colon {
                pos + 2
            } else {
                pos + 1
            };
            let value = expr(tokens, start).or_error(tokens, DiagnosticKind::ExpectedExpression);
            ParsedArgument {
                pos: value.pos,
                errors: report_unless(colon, tokens, pos + 1, DiagnosticKind::ExpectedColon)
                    + value.errors,
                argument: Some(
                    Argument {
                        span: taken(tokens, pos, value.pos),
                        name_span: tokens.span_at(pos),
                        name,
                        value: value.node->0,
                    },
                ),
            }
        },
        None => ParsedArgument {
            pos,
            errors: seq![report(tokens, pos, DiagnosticKind::ExpectedArgumentName)],
            argument: None,
        },
    }
}

/// All of the tokens from `pos` on, as a series of arguments. A token that begins no argument is
/// reported and skipped.
pub open spec fn arguments(tokens: TokenTree, pos: int) -> ParsedArguments
    decreases tokens, tokens.count() - pos, 7int,
{
    if pos >= tokens.count() {
        ParsedArguments { errors: seq![], arguments: seq![] }
    } else {
        let first = argument(tokens, pos);
        match first.argument {
            Some(argument) => {
                let rest = if pos < first.pos <= tokens.count() {
                    arguments(tokens, first.pos)
                } else {
                    ParsedArguments { errors: seq![], arguments: seq![] }
                };
                ParsedArguments {
                    errors: first.errors + rest.errors,
                    arguments: seq![argument] + rest.arguments,
                }
            },
            None => {
                let next = skip_token(tokens, first.pos);
                let rest = if pos < next <= tokens.count() {
                    arguments(tokens, next)
                } else {
                    ParsedArguments { errors: seq![], arguments: seq![] }
                };
                ParsedArguments {
                    errors: first.errors.push(
                        report(tokens, first.pos, DiagnosticKind::ExpectedExpression),
                    ) + rest.errors,
                    arguments: rest.arguments,
                }
            },
        }
    }
}

} // verus!
