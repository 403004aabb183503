//! How the outcome of parsing an expression follows from those of its parts, whatever they report.
use vstd::prelude::*;

use crate::acceptance;
use crate::base::{Keyword, Op, Span};
use crate::diagnostic::{Diagnostic, DiagnosticKind};
use crate::grammar;
use crate::grammar::{Argument, Node, NodeKind, Parsed};
use crate::progress;
use crate::recovery;
use crate::token::TokenTree;

verus! {

/// The position after the token tree that is opened at `pos`, and after `close` if it is there.
pub open spec fn group_end(tokens: TokenTree, pos: int, close: char) -> int {
    if tokens.delimiter_at(pos + 2, close) {
        pos + 3
    } else {
        pos + 2
    }
}

/// What is reported of the delimiters of the token tree that is opened at `pos`.
pub open spec fn group_errors(tokens: TokenTree, pos: int, close: char) -> Seq<Diagnostic> {
    if tokens.delimiter_at(pos + 2, close) {
        seq![]
    } else {
        seq![
            Diagnostic {
                span: tokens.span_at(pos + 2),
                kind: DiagnosticKind::ExpectedClosing(close),
            },
        ]
    }
}

/// Whether `parsed` is the expression `kind` from `pos` up to `end`, with the reports `errors`.
pub open spec fn is_read(
    parsed: Parsed,
    tokens: TokenTree,
    pos: int,
    end: int,
    kind: NodeKind,
    errors: Seq<Diagnostic>,
) -> bool {
    &&& parsed.pos == end
    &&& parsed.node == Some(Node { span: acceptance::from_to(tokens, pos, end), kind })
    &&& parsed.errors == errors
}

/// The block in braces at `pos`, which must follow `kw`.
pub open spec fn body_at(tokens: TokenTree, pos: int, kw: Keyword) -> Parsed {
    match tokens.delimited_at(pos, '{') {
        Some(inside) => {
            let end = group_end(tokens, pos, '}');
            let contents = grammar::block_contents(inside, 0);
            Parsed {
                pos: end,
                errors: group_errors(tokens, pos, '}') + contents.errors,
                node: Some(
                    Node {
                        span: acceptance::from_to(tokens, pos, end),
                        kind: NodeKind::Block(contents.nodes),
                    },
                ),
            }
        },
        None => Parsed {
            pos,
            errors: seq![
                Diagnostic {
                    span: tokens.span_at(pos),
                    kind: DiagnosticKind::ExpectedBlockAfter(kw),
                },
            ],
            node: Some(recovery::error_at(tokens, pos)),
        },
    }
}

proof fn lemma_body(tokens: TokenTree, pos: int, kw: Keyword)
    ensures
        grammar::required_block(tokens, pos, kw) == body_at(tokens, pos, kw),
{
    let found = grammar::required_block(tokens, pos, kw);
    let body = body_at(tokens, pos, kw);
    assert(found.errors =~= body.errors);
    assert(found.node == body.node);
    assert(found.pos == body.pos);
}

/// Parentheses hold one expression, and nothing but that. Where they are not closed, that is
/// reported before the problems inside them.
pub proof fn lemma_parentheses_are_read(tokens: TokenTree, pos: int, inside: TokenTree)
    requires
        0 <= pos,
        tokens.delimited_at(pos, '(') == Some(inside),
    ensures
        ({
            let only = grammar::only_expr(inside, 0);
            &&& only.node is Some
            &&& is_read(
                grammar::expr_0(tokens, pos),
                tokens,
                pos,
                group_end(tokens, pos, ')'),
                NodeKind::Parenthesized(Box::new(only.node->0)),
                group_errors(tokens, pos, ')') + only.errors,
            )
        }),
{
    let only = grammar::only_expr(inside, 0);
    let errors = grammar::expr_0(tokens, pos).errors;
    assert(errors =~= group_errors(tokens, pos, ')') + only.errors);
}

/// Braces hold a series of expressions. Where they are not closed, that is reported before the
/// problems inside them.
pub proof fn lemma_block_is_read(tokens: TokenTree, pos: int, inside: TokenTree)
    requires
        0 <= pos,
        tokens.delimited_at(pos, '{') == Some(inside),
    ensures
        ({
            let contents = grammar::block_contents(inside, 0);
            is_read(
                grammar::expr_0(tokens, pos),
                tokens,
                pos,
                group_end(tokens, pos, '}'),
                NodeKind::Block(contents.nodes),
                group_errors(tokens, pos, '}') + contents.errors,
            )
        }),
{
    let contents = grammar::block_contents(inside, 0);
    let errors = grammar::expr_0(tokens, pos).errors;
    assert(errors =~= group_errors(tokens, pos, '}') + contents.errors);
}

/// Whether `chain` is what the tokens from `pos` on begin with, and then, one after the other, what
/// becomes of it with each of the field accesses and argument lists that follow.
pub open spec fn is_chain(tokens: TokenTree, pos: int, chain: Seq<Parsed>) -> bool {
    &&& chain.len() > 0
    &&& chain[0] == grammar::expr_0(tokens, pos)
    &&& forall|k: int|
        0 <= k < chain.len() - 1 ==> #[trigger] is_link(tokens, chain[k], chain[k + 1])
}

/// Whether a field access or an argument list turns `before` into `after`.
pub open spec fn is_link(tokens: TokenTree, before: Parsed, after: Parsed) -> bool {
    &&& before.node is Some
    &&& after.node is Some
    &&& {
        ||| after.errors == before.errors && is_access(
            tokens,
            before.node->0,
            before.pos,
            after.node->0,
            after.pos,
        )
        ||| is_call(
            tokens,
            before.node->0,
            before.pos,
            after.node->0,
            after.pos,
            before.errors,
            after.errors,
        )
    }
}

/// Whether `node` is an access to a field of `base`: a dot and a name, from `start` up to `end`.
pub open spec fn is_access(
    tokens: TokenTree,
    base: Node,
    start: int,
    node: Node,
    end: int,
) -> bool {
    &&& tokens.op_at(start, Op::Dot)
    &&& tokens.identifier_at(start + 1) matches Some(name)
    &&& end == start + 2
    &&& node.span == (Span { start: base.span.start, end: tokens.span_at(start + 1).end })
    &&& node.kind == NodeKind::Dot(Box::new(base), name)
}

/// Whether `node` is a call of `base` with the arguments that are in parentheses from `start` up to
/// `end`, perhaps after a dot that no name follows. `errors` are the reports `before`, then that of
/// the dot, then that of parentheses that are not closed, then those of the arguments.
pub open spec fn is_call(
    tokens: TokenTree,
    base: Node,
    start: int,
    node: Node,
    end: int,
    before: Seq<Diagnostic>,
    errors: Seq<Diagnostic>,
) -> bool {
    let dot = tokens.op_at(start, Op::Dot);
    let open = if dot {
        start + 1
    } else {
        start
    };
    &&& tokens.delimited_at(open, '(') matches Some(inside)
    &&& end == group_end(tokens, open, ')')
    &&& node.span == (Span { start: base.span.start, end: tokens.span_before(end).end })
    &&& node.kind == NodeKind::Call(Box::new(base), grammar::arguments(inside, 0).arguments)
    &&& errors == before + dot_errors(tokens, start) + group_errors(tokens, open, ')')
        + grammar::arguments(inside, 0).errors
}

/// What is reported of a dot at `pos` that no name follows, if there is one.
pub open spec fn dot_errors(tokens: TokenTree, pos: int) -> Seq<Diagnostic> {
    if tokens.op_at(pos, Op::Dot) && tokens.identifier_at(pos + 1) is None {
        seq![
            Diagnostic {
                span: tokens.span_at(pos + 1),
                kind: DiagnosticKind::ExpectedIdentifierAfterDot,
            },
        ]
    } else {
        seq![]
    }
}

/// Field accesses and argument lists are read one after the other, whatever is reported on the
/// way, as long as there are any. A dot that neither a name nor an argument list follows is
/// reported and skipped.
pub proof fn lemma_chain_is_read(tokens: TokenTree, pos: int, chain: Seq<Parsed>)
    requires
        0 <= pos <= tokens.count(),
        is_chain(tokens, pos, chain),
        chain.last().node is Some,
        ({
            let end = chain.last().pos;
            let stop = if tokens.op_at(end, Op::Dot) {
                end + 1
            } else {
                end
            };
            &&& tokens.op_at(end, Op::Dot) ==> tokens.identifier_at(end + 1) is None
            &&& tokens.delimited_at(stop, '(') is None
        }),
    ensures
        ({
            let end = chain.last().pos;
            let parsed = grammar::expr_1(tokens, pos);
            &&& parsed.node == chain.last().node
            &&& parsed.errors == chain.last().errors + dot_errors(tokens, end)
            &&& parsed.pos == if tokens.op_at(end, Op::Dot) {
                end + 1
            } else {
                end
            }
        }),
{
    let end = chain.last().pos;
    lemma_chain_so_far(tokens, pos, chain);
    progress::lemma_expr_0_progress(tokens, pos);
    let stop = grammar::suffixes(tokens, end, chain.last().node->0);
    assert(stop.errors =~= dot_errors(tokens, end));
}

/// What is read of a chain before its end.
proof fn lemma_chain_so_far(tokens: TokenTree, pos: int, chain: Seq<Parsed>)
    requires
        is_chain(tokens, pos, chain),
        chain.last().node is Some,
    ensures
        ({
            let head = grammar::expr_0(tokens, pos);
            let last = chain.last();
            let rest = grammar::suffixes(tokens, head.pos, head.node->0);
            let stop = grammar::suffixes(tokens, last.pos, last.node->0);
            &&& head.node is Some
            &&& rest.pos == stop.pos
            &&& rest.node == stop.node
            &&& head.errors + rest.errors == last.errors + stop.errors
        }),
    decreases chain.len(),
{
    if chain.len() > 1 {
        let shorter = chain.drop_last();
        let before = shorter.last();
        let after = chain.last();
        assert(is_link(tokens, chain[chain.len() - 2], chain[chain.len() - 2 + 1]));
        assert forall|k: int| 0 <= k < shorter.len() - 1 implies #[trigger] is_link(
            tokens,
            shorter[k],
            shorter[k + 1],
        ) by {
            assert(is_link(tokens, chain[k], chain[k + 1]));
        }
        lemma_chain_so_far(tokens, pos, shorter);
        let stop = grammar::suffixes(tokens, after.pos, after.node->0);
        let whole = grammar::suffixes(tokens, before.pos, before.node->0);
        if is_call(
            tokens,
            before.node->0,
            before.pos,
            after.node->0,
            after.pos,
            before.errors,
            after.errors,
        ) {
            lemma_call_so_far(
                tokens,
                before.node->0,
                before.pos,
                after.node->0,
                after.pos,
                before.errors,
                after.errors,
            );
        } else {
            assert(whole == stop);
        }
    }
}

/// What is read of a call before its end.
proof fn lemma_call_so_far(
    tokens: TokenTree,
    base: Node,
    start: int,
    node: Node,
    end: int,
    before: Seq<Diagnostic>,
    errors: Seq<Diagnostic>,
)
    requires
        is_call(tokens, base, start, node, end, before, errors),
    ensures
        ({
            let whole = grammar::suffixes(tokens, start, base);
            let stop = grammar::suffixes(tokens, end, node);
            &&& whole.pos == stop.pos
            &&& whole.node == stop.node
            &&& before + whole.errors == errors + stop.errors
        }),
{
    let whole = grammar::suffixes(tokens, start, base);
    let stop = grammar::suffixes(tokens, end, node);
    let open = if tokens.op_at(start, Op::Dot) {
        start + 1
    } else {
        start
    };
    let list = grammar::delimited(tokens, open, '(')->0;
    let arguments = grammar::arguments(list.tree, 0);
    let call = Node {
        span: base.span.up_to(list.span),
        kind: NodeKind::Call(Box::new(base), arguments.arguments),
    };
    assert(call == node);
    let reports = dot_errors(tokens, start) + group_errors(tokens, open, ')') + arguments.errors;
    assert(whole.errors =~= reports + stop.errors);
    assert(before + whole.errors =~= errors + stop.errors);
}

/// What must follow operator `op` at `pos`: the whole expression that begins there. Where none
/// does, that is reported, and an error expression stands in its place.
pub open spec fn operand_at(tokens: TokenTree, pos: int, op: Op) -> Parsed {
    let right = grammar::expr(tokens, pos);
    match right.node {
        Some(_) => right,
        None => Parsed {
            pos: right.pos,
            errors: right.errors.push(
                Diagnostic {
                    span: tokens.span_at(right.pos),
                    kind: DiagnosticKind::ExpectedExpressionAfter(op),
                },
            ),
            node: Some(recovery::error_at(tokens, right.pos)),
        },
    }
}

/// Whether `parsed` is the operation `op` on what `left` and `right` read, with the reports of
/// both, in order.
pub open spec fn is_operation(parsed: Parsed, left: Parsed, op: Op, right: Parsed) -> bool {
    &&& parsed.pos == right.pos
    &&& parsed.errors == left.errors + right.errors
    &&& parsed.node == Some(
        Node {
            span: Span { start: left.node->0.span.start, end: right.node->0.span.end },
            kind: NodeKind::Op(Box::new(left.node->0), op, Box::new(right.node->0)),
        },
    )
}

/// What stands to the right of `*` or `/` extends as far as it can; without such an operator, there
/// is no product.
pub proof fn lemma_product_is_read(tokens: TokenTree, pos: int)
    requires
        0 <= pos <= tokens.count(),
        grammar::expr_1(tokens, pos).node is Some,
    ensures
        ({
            let left = grammar::expr_1(tokens, pos);
            let parsed = grammar::expr_2(tokens, pos);
            if tokens.op_at(left.pos, Op::Times) {
                let right = operand_at(tokens, left.pos + 1, Op::Times);
                is_operation(parsed, left, Op::Times, right)
            } else if tokens.op_at(left.pos, Op::DividedBy) {
                let right = operand_at(tokens, left.pos + 1, Op::DividedBy);
                is_operation(parsed, left, Op::DividedBy, right)
            } else {
                parsed == left
            }
        }),
{
    progress::lemma_expr_1_progress(tokens, pos);
    acceptance::lemma_operators(tokens, grammar::expr_1(tokens, pos).pos);
}

/// What stands to the right of `+` or `-` extends as far as it can; what stands to the left of them
/// is at most a product. Without such an operator, there is no sum.
pub proof fn lemma_sum_is_read(tokens: TokenTree, pos: int)
    requires
        0 <= pos <= tokens.count(),
        grammar::expr_2(tokens, pos).node is Some,
    ensures
        ({
            let left = grammar::expr_2(tokens, pos);
            let parsed = grammar::expr(tokens, pos);
            if tokens.op_at(left.pos, Op::Plus) {
                let right = operand_at(tokens, left.pos + 1, Op::Plus);
                is_operation(parsed, left, Op::Plus, right)
            } else if tokens.op_at(left.pos, Op::Minus) {
                let right = operand_at(tokens, left.pos + 1, Op::Minus);
                is_operation(parsed, left, Op::Minus, right)
            } else {
                parsed == left
            }
        }),
{
    progress::lemma_expr_2_progress(tokens, pos);
    acceptance::lemma_operators(tokens, grammar::expr_2(tokens, pos).pos);
    assert(grammar::expr(tokens, pos) == grammar::expr_3(tokens, pos));
}

/// What stands after a sign extends as far as it can.
pub proof fn lemma_negation_is_read(tokens: TokenTree, pos: int)
    requires
        0 <= pos,
        tokens.op_at(pos, Op::Minus),
    ensures
        ({
            let operand = operand_at(tokens, pos + 1, Op::Minus);
            let parsed = grammar::expr_0(tokens, pos);
            let end = operand.node->0.span.end;
            &&& parsed.pos == operand.pos
            &&& parsed.errors == operand.errors
            &&& parsed.node == Some(
                Node {
                    span: Span { start: tokens.span_at(pos).start, end },
                    kind: NodeKind::Unary(Op::Minus, Box::new(operand.node->0)),
                },
            )
        }),
{
    let operand = grammar::required_expr(tokens, pos + 1, Op::Minus);
    assert(operand == operand_at(tokens, pos + 1, Op::Minus));
    assert(grammar::expr_0(tokens, pos).errors =~= operand.errors);
}

/// A `break` or a `return` takes the expression after it, if there is one.
pub proof fn lemma_jump_is_read(tokens: TokenTree, pos: int, kw: Keyword)
    requires
        0 <= pos,
        kw == Keyword::Break || kw == Keyword::Return,
        tokens.keyword_at(pos, kw),
    ensures
        ({
            let value = grammar::expr(tokens, pos + 1);
            let given = match value.node {
                Some(node) => Some(Box::new(node)),
                None => None,
            };
            is_read(
                grammar::expr_0(tokens, pos),
                tokens,
                pos,
                value.pos,
                if kw == Keyword::Break {
                    NodeKind::Break(given)
                } else {
                    NodeKind::Return(given)
                },
                value.errors,
            )
        }),
{
    let value = grammar::expr(tokens, pos + 1);
    assert(grammar::expr_0(tokens, pos).errors =~= value.errors);
}

/// A `loop` has a block.
pub proof fn lemma_loop_is_read(tokens: TokenTree, pos: int)
    requires
        0 <= pos,
        tokens.keyword_at(pos, Keyword::Loop),
    ensures
        ({
            let body = body_at(tokens, pos + 1, Keyword::Loop);
            is_read(
                grammar::expr_0(tokens, pos),
                tokens,
                pos,
                body.pos,
                NodeKind::Loop(Box::new(body.node->0)),
                body.errors,
            )
        }),
{
    lemma_body(tokens, pos + 1, Keyword::Loop);
    let body = body_at(tokens, pos + 1, Keyword::Loop);
    assert(grammar::expr_0(tokens, pos).errors =~= body.errors);
}

/// A `while` has a condition, which does not begin with a block, and a block.
pub proof fn lemma_while_is_read(tokens: TokenTree, pos: int)
    requires
        0 <= pos,
        tokens.keyword_at(pos, Keyword::While),
        !tokens.delimiter_at(pos + 1, '{'),
        grammar::expr(tokens, pos + 1).node is Some,
    ensures
        ({
            let condition = grammar::expr(tokens, pos + 1);
            let body = body_at(tokens, condition.pos, Keyword::While);
            is_read(
                grammar::expr_0(tokens, pos),
                tokens,
                pos,
                body.pos,
                NodeKind::While(Box::new(condition.node->0), Box::new(body.node->0)),
                condition.errors + body.errors,
            )
        }),
{
    let condition = grammar::expr(tokens, pos + 1);
    assert(grammar::condition(tokens, pos + 1) == condition);
    lemma_body(tokens, condition.pos, Keyword::While);
    let body = body_at(tokens, condition.pos, Keyword::While);
    assert(grammar::expr_0(tokens, pos).errors =~= condition.errors + body.errors);
}

/// An `if` or `while` without a condition, which cannot begin with a block, is no expression. That
/// is reported where the condition should end, after the problems in it.
pub proof fn lemma_nothing_is_read_without_condition(tokens: TokenTree, pos: int, kw: Keyword)
    requires
        0 <= pos,
        kw == Keyword::If || kw == Keyword::While,
        tokens.keyword_at(pos, kw),
        !tokens.delimiter_at(pos + 1, '{') ==> grammar::expr(tokens, pos + 1).node is None,
    ensures
        ({
            let condition = grammar::expr(tokens, pos + 1);
            let (end, errors) = if tokens.delimiter_at(pos + 1, '{') {
                (pos + 1, Seq::<Diagnostic>::empty())
            } else {
                (condition.pos, condition.errors)
            };
            let missing = Diagnostic {
                span: tokens.span_at(end),
                kind: DiagnosticKind::ExpectedCondition(kw),
            };
            let parsed = grammar::expr_0(tokens, pos);
            &&& parsed.pos == end
            &&& parsed.node is None
            &&& parsed.errors == errors.push(missing)
        }),
{
    let condition = grammar::condition(tokens, pos + 1);
    assert(condition.node is None);
}

/// An `if` has a condition, which does not begin with a block, a block, and after `else` another
/// block.
pub proof fn lemma_if_is_read(tokens: TokenTree, pos: int)
    requires
        0 <= pos,
        tokens.keyword_at(pos, Keyword::If),
        !tokens.delimiter_at(pos + 1, '{'),
        grammar::expr(tokens, pos + 1).node is Some,
    ensures
        ({
            let condition = grammar::expr(tokens, pos + 1);
            let if_true = body_at(tokens, condition.pos, Keyword::If);
            let if_false = body_at(tokens, if_true.pos + 1, Keyword::Else);
            if tokens.keyword_at(if_true.pos, Keyword::Else) {
                is_read(
                    grammar::expr_0(tokens, pos),
                    tokens,
                    pos,
                    if_false.pos,
                    NodeKind::If(
                        Box::new(condition.node->0),
                        Box::new(if_true.node->0),
                        Some(Box::new(if_false.node->0)),
                    ),
                    condition.errors + if_true.errors + if_false.errors,
                )
            } else {
                is_read(
                    grammar::expr_0(tokens, pos),
                    tokens,
                    pos,
                    if_true.pos,
                    NodeKind::If(
                        Box::new(condition.node->0),
                        Box::new(if_true.node->0),
                        None,
                    ),
                    condition.errors + if_true.errors,
                )
            }
        }),
{
    let condition = grammar::expr(tokens, pos + 1);
    assert(grammar::condition(tokens, pos + 1) == condition);
    lemma_body(tokens, condition.pos, Keyword::If);
    let if_true = body_at(tokens, condition.pos, Keyword::If);
    lemma_body(tokens, if_true.pos + 1, Keyword::Else);
    let if_false = body_at(tokens, if_true.pos + 1, Keyword::Else);
    let errors = grammar::expr_0(tokens, pos).errors;
    if tokens.keyword_at(if_true.pos, Keyword::Else) {
        assert(errors =~= condition.errors + if_true.errors + if_false.errors);
    } else {
        assert(errors =~= condition.errors + if_true.errors);
    }
}

/// The expression at `pos`, which must be there: where there is none, that is reported, and an
/// error expression stands in its place.
pub open spec fn expected_at(tokens: TokenTree, pos: int) -> Parsed {
    let found = grammar::expr(tokens, pos);
    match found.node {
        Some(_) => found,
        None => Parsed {
            pos: found.pos,
            errors: found.errors.push(
                Diagnostic {
                    span: tokens.span_at(found.pos),
                    kind: DiagnosticKind::ExpectedExpression,
                },
            ),
            node: Some(recovery::error_at(tokens, found.pos)),
        },
    }
}

/// An argument has a name and, after a colon, a value, which is the whole expression that begins
/// there. Where the colon is missing, that is reported before the problems in the value.
pub proof fn lemma_argument_is_read(tokens: TokenTree, pos: int)
    requires
        0 <= pos,
        tokens.identifier_at(pos) is Some,
    ensures
        ({
            let colon = tokens.op_at(pos + 1, Op::Colon);
            let start = if colon {
                pos + 2
            } else {
                pos + 1
            };
            let value = expected_at(tokens, start);
            let missing = Diagnostic {
                span: tokens.span_at(pos + 1),
                kind: DiagnosticKind::ExpectedColon,
            };
            let parsed = grammar::argument(tokens, pos);
            &&& parsed.pos == value.pos
            &&& parsed.argument == Some(
                Argument {
                    span: acceptance::from_to(tokens, pos, value.pos),
                    name_span: tokens.span_at(pos),
                    name: tokens.identifier_at(pos)->0,
                    value: value.node->0,
                },
            )
            &&& parsed.errors == if colon {
                value.errors
            } else {
                seq![missing] + value.errors
            }
        }),
{
    let colon = tokens.op_at(pos + 1, Op::Colon);
    let start = if colon {
        pos + 2
    } else {
        pos + 1
    };
    let value = expected_at(tokens, start);
    let missing = grammar::report(tokens, pos + 1, DiagnosticKind::ExpectedColon);
    let errors = grammar::argument(tokens, pos).errors;
    if colon {
        assert(errors =~= value.errors);
    } else {
        assert(errors =~= seq![missing] + value.errors);
    }
}

/// What should be the only expression is read, and then the first of the tokens after it is
/// reported, if there are any. Where there is no expression, only that is reported.
pub proof fn lemma_only_expr_is_read(tokens: TokenTree, pos: int)
    ensures
        ({
            let first = grammar::expr(tokens, pos);
            let parsed = grammar::only_expr(tokens, pos);
            let extra = Diagnostic {
                span: tokens.span_at(first.pos),
                kind: DiagnosticKind::ExtraTokens,
            };
            &&& parsed.pos == first.pos
            &&& parsed.node == expected_at(tokens, pos).node
            &&& parsed.errors == if first.node is Some && first.pos < tokens.count() {
                first.errors.push(extra)
            } else {
                expected_at(tokens, pos).errors
            }
        }),
{
    let first = grammar::expr(tokens, pos);
    let extra = grammar::report(tokens, first.pos, DiagnosticKind::ExtraTokens);
    assert(first.errors + seq![extra] =~= first.errors.push(extra));
    assert(first.errors + Seq::<Diagnostic>::empty() =~= first.errors);
}

/// A block is read expression by expression, in order, and its reports come in that order. Where
/// there is none, the token is reported and skipped.
pub proof fn lemma_contents_are_read(tokens: TokenTree, pos: int)
    requires
        0 <= pos < tokens.count(),
    ensures
        ({
            let first = grammar::expr(tokens, pos);
            let contents = grammar::block_contents(tokens, pos);
            let stray = Diagnostic {
                span: tokens.span_at(first.pos),
                kind: DiagnosticKind::ExpectedExpression,
            };
            match first.node {
                Some(node) => {
                    let rest = grammar::block_contents(tokens, first.pos);
                    &&& contents.nodes == seq![node] + rest.nodes
                    &&& contents.errors == first.errors + rest.errors
                },
                None => {
                    let rest = grammar::block_contents(tokens, first.pos + 1);
                    &&& contents.nodes == rest.nodes
                    &&& contents.errors == first.errors.push(stray) + rest.errors
                },
            }
        }),
{
    progress::lemma_expr_progress(tokens, pos);
    let first = grammar::expr(tokens, pos);
    if first.node is None && first.pos >= tokens.count() {
        let rest = grammar::block_contents(tokens, first.pos + 1);
        assert(rest.errors.len() == 0 && rest.nodes.len() == 0);
        let next = grammar::skip_token(tokens, first.pos);
        if pos < next <= tokens.count() {
            let other = grammar::block_contents(tokens, next);
            assert(other.errors.len() == 0 && other.nodes.len() == 0);
            assert(other.errors =~= rest.errors);
            assert(other.nodes =~= rest.nodes);
        } else {
            assert(Seq::<Diagnostic>::empty() =~= rest.errors);
            assert(Seq::<Node>::empty() =~= rest.nodes);
        }
    }
}

/// Arguments are read one by one, in order, and their reports come in that order. Where there is
/// none, the token is reported and skipped.
pub proof fn lemma_arguments_are_read(tokens: TokenTree, pos: int)
    requires
        0 <= pos < tokens.count(),
    ensures
        ({
            let first = grammar::argument(tokens, pos);
            let list = grammar::arguments(tokens, pos);
            let stray = Diagnostic {
                span: tokens.span_at(first.pos),
                kind: DiagnosticKind::ExpectedExpression,
            };
            match first.argument {
                Some(argument) => {
                    let rest = grammar::arguments(tokens, first.pos);
                    &&& list.arguments == seq![argument] + rest.arguments
                    &&& list.errors == first.errors + rest.errors
                },
                None => {
                    let rest = grammar::arguments(tokens, pos + 1);
                    &&& first.pos == pos
                    &&& list.arguments == rest.arguments
                    &&& list.errors == first.errors.push(stray) + rest.errors
                },
            }
        }),
{
    progress::lemma_argument_progress(tokens, pos);
}

} // verus!
