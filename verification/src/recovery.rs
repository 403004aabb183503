//! What is reported where the source is flawed, and how parsing goes on from there.
use vstd::prelude::*;

use crate::acceptance;
use crate::base::{Keyword, Op, Span};
use crate::diagnostic::{Diagnostic, DiagnosticKind};
use crate::grammar;
use crate::grammar::{Argument, Node, NodeKind};
use crate::token::{Token, TokenTree};

verus! {

/// Whether the token at `pos` continues no expression.
pub open spec fn continues_nothing(tokens: TokenTree, pos: int) -> bool {
    &&& match tokens.token_at(pos) {
        Some(Token::Op(op)) => op == Op::Colon || op == Op::Comma,
        _ => true,
    }
    &&& tokens.delimited_at(pos, '(') is None
}

/// Whether `errors` is the one report `kind` about the token at `pos`.
pub open spec fn is_only_report(
    errors: Seq<Diagnostic>,
    tokens: TokenTree,
    pos: int,
    kind: DiagnosticKind,
) -> bool {
    errors == seq![Diagnostic { span: tokens.span_at(pos), kind }]
}

/// An error expression in place of the token at `pos`.
pub open spec fn error_at(tokens: TokenTree, pos: int) -> Node {
    Node { span: tokens.span_at(pos), kind: NodeKind::Error }
}

/// Where nothing continues an expression, it ends.
pub proof fn lemma_ends(tokens: TokenTree, pos: int)
    requires
        0 <= pos,
        grammar::expr_0(tokens, pos).node is Some ==> grammar::expr_0(tokens, pos).advances(
            tokens,
            pos,
        ),
        grammar::expr_0(tokens, pos).node is Some ==> continues_nothing(
            tokens,
            grammar::expr_0(tokens, pos).pos,
        ),
    ensures
        grammar::expr(tokens, pos) == grammar::expr_0(tokens, pos),
{
    let head = grammar::expr_0(tokens, pos);
    acceptance::lemma_operators(tokens, head.pos);
    if let Some(base) = head.node {
        let stop = grammar::suffixes(tokens, head.pos, base);
        assert(stop.pos == head.pos && stop.node == Some(base) && stop.errors.len() == 0);
        assert(head.errors + stop.errors =~= head.errors);
        assert(grammar::expr_1(tokens, pos) =~= head);
    }
    assert(grammar::expr_1(tokens, pos) == head);
    assert(grammar::expr_2(tokens, pos) == head);
    assert(grammar::expr_3(tokens, pos) == head);
}

/// A token in a block that begins no expression is reported and skipped; the rest of the block is
/// read as if it were not there.
pub proof fn lemma_stray_token_in_block_is_skipped(tokens: TokenTree, pos: int)
    requires
        0 <= pos < tokens.count(),
        !acceptance::can_begin(tokens, pos),
    ensures
        ({
            let block = grammar::block_contents(tokens, pos);
            let rest = grammar::block_contents(tokens, pos + 1);
            let report = Diagnostic {
                span: tokens.span_at(pos),
                kind: DiagnosticKind::ExpectedExpression,
            };
            &&& block.nodes == rest.nodes
            &&& block.errors == seq![report] + rest.errors
        }),
{
    acceptance::lemma_no_expr(tokens, pos);
    let none = Seq::<Diagnostic>::empty();
    let report = grammar::report(tokens, pos, DiagnosticKind::ExpectedExpression);
    assert(none.push(report) =~= seq![report]);
}

/// An expression in a block is read, and then the rest of the block.
pub proof fn lemma_block_goes_on_after_expr(tokens: TokenTree, pos: int, node: Node)
    requires
        acceptance::spells(tokens, pos, node),
        acceptance::can_end(tokens, pos + acceptance::width(node), node),
    ensures
        ({
            let block = grammar::block_contents(tokens, pos);
            let rest = grammar::block_contents(tokens, pos + acceptance::width(node));
            &&& block.nodes == seq![node] + rest.nodes
            &&& block.errors == rest.errors
        }),
{
    acceptance::lemma_width_is_positive(tokens, pos, node);
    acceptance::lemma_expr_is_accepted(tokens, pos, node);
    let first = grammar::expr(tokens, pos);
    let rest = grammar::block_contents(tokens, pos + acceptance::width(node));
    assert(first.advances(tokens, pos));
    assert(first.errors + rest.errors =~= rest.errors);
}

/// A token among arguments that is no name is reported and skipped: there is neither a name nor an
/// argument. The rest of the arguments are read as if it were not there.
pub proof fn lemma_stray_token_in_arguments_is_skipped(tokens: TokenTree, pos: int)
    requires
        0 <= pos < tokens.count(),
        tokens.identifier_at(pos) is None,
    ensures
        ({
            let list = grammar::arguments(tokens, pos);
            let rest = grammar::arguments(tokens, pos + 1);
            let span = tokens.span_at(pos);
            &&& list.arguments == rest.arguments
            &&& list.errors == seq![
                Diagnostic { span, kind: DiagnosticKind::ExpectedArgumentName },
                Diagnostic { span, kind: DiagnosticKind::ExpectedExpression },
            ] + rest.errors
        }),
{
    let span = tokens.span_at(pos);
    let one = Diagnostic { span, kind: DiagnosticKind::ExpectedArgumentName };
    let two = Diagnostic { span, kind: DiagnosticKind::ExpectedExpression };
    let first = grammar::argument(tokens, pos);
    assert(first.errors =~= seq![one]);
    assert(first.errors.push(two) =~= seq![one, two]);
}

/// An argument is read, and then the rest of the arguments.
pub proof fn lemma_arguments_go_on_after_argument(
    tokens: TokenTree,
    pos: int,
    argument: Argument,
)
    requires
        0 <= pos,
        acceptance::spells_argument(tokens, pos, argument),
        acceptance::can_end(
            tokens,
            pos + 2 + acceptance::width(argument.value),
            argument.value,
        ),
    ensures
        ({
            let end = pos + 2 + acceptance::width(argument.value);
            let list = grammar::arguments(tokens, pos);
            let rest = grammar::arguments(tokens, end);
            &&& list.arguments == seq![argument] + rest.arguments
            &&& list.errors == rest.errors
        }),
{
    let end = pos + 2 + acceptance::width(argument.value);
    assert(acceptance::spells(tokens, pos + 2, argument.value));
    acceptance::lemma_width_is_positive(tokens, pos + 2, argument.value);
    acceptance::lemma_argument_is_accepted(tokens, pos, argument);
    let first = grammar::argument(tokens, pos);
    let rest = grammar::arguments(tokens, end);
    assert(first.errors + rest.errors =~= rest.errors);
}

/// Tokens after what should be the only expression are reported once, at the first of them; the
/// expression is what it is.
pub proof fn lemma_extra_tokens_are_reported(tokens: TokenTree, pos: int, node: Node)
    requires
        acceptance::spells(tokens, pos, node),
        acceptance::can_end(tokens, pos + acceptance::width(node), node),
        pos + acceptance::width(node) < tokens.count(),
    ensures
        ({
            let end = pos + acceptance::width(node);
            let parsed = grammar::only_expr(tokens, pos);
            &&& parsed.pos == end
            &&& parsed.node == Some(node)
            &&& is_only_report(parsed.errors, tokens, end, DiagnosticKind::ExtraTokens)
        }),
{
    acceptance::lemma_expr_is_accepted(tokens, pos, node);
    let end = pos + acceptance::width(node);
    let report = grammar::report(tokens, end, DiagnosticKind::ExtraTokens);
    assert(grammar::expr(tokens, pos).errors + seq![report] =~= seq![report]);
}

/// Where there should be an expression and none begins, that is reported, and an error expression
/// stands in its place; nothing is skipped.
pub proof fn lemma_missing_expr_is_reported(tokens: TokenTree, pos: int)
    requires
        0 <= pos <= tokens.count(),
        !acceptance::can_begin(tokens, pos),
    ensures
        ({
            let parsed = grammar::only_expr(tokens, pos);
            &&& parsed.pos == pos
            &&& parsed.node == Some(error_at(tokens, pos))
            &&& is_only_report(parsed.errors, tokens, pos, DiagnosticKind::ExpectedExpression)
        }),
{
    acceptance::lemma_no_expr(tokens, pos);
    let none = Seq::<Diagnostic>::empty();
    let report = grammar::report(tokens, pos, DiagnosticKind::ExpectedExpression);
    assert(none.push(report) =~= seq![report]);
}

/// An operator without a right operand is reported at the token where the operand should begin;
/// an error expression stands in its place. (A sum may follow a product that lacks its operand.)
pub proof fn lemma_missing_operand_is_reported(
    tokens: TokenTree,
    pos: int,
    left: Node,
    op: Op,
)
    requires
        acceptance::spells(tokens, pos, left),
        acceptance::is_closed(left),
        op == Op::Plus || op == Op::Minus || op == Op::Times || op == Op::DividedBy,
        tokens.op_at(pos + acceptance::width(left), op),
        !acceptance::can_begin(tokens, pos + acceptance::width(left) + 1),
        op == Op::Times || op == Op::DividedBy ==> !tokens.op_at(
            pos + acceptance::width(left) + 1,
            Op::Plus,
        ),
    ensures
        ({
            let end = pos + acceptance::width(left) + 1;
            let parsed = grammar::expr(tokens, pos);
            let operand = error_at(tokens, end);
            &&& parsed.pos == end
            &&& parsed.node == Some(
                Node {
                    span: Span { start: left.span.start, end: operand.span.end },
                    kind: NodeKind::Op(Box::new(left), op, Box::new(operand)),
                },
            )
            &&& is_only_report(
                parsed.errors,
                tokens,
                end,
                DiagnosticKind::ExpectedExpressionAfter(op),
            )
        }),
{
    let end = pos + acceptance::width(left) + 1;
    acceptance::lemma_width_is_positive(tokens, pos, left);
    acceptance::lemma_closed_is_accepted(tokens, pos, left);
    acceptance::lemma_operators(tokens, end - 1);
    acceptance::lemma_operators(tokens, end);
    acceptance::lemma_no_expr(tokens, end);
    let first = grammar::expr_1(tokens, pos);
    let report = grammar::report(tokens, end, DiagnosticKind::ExpectedExpressionAfter(op));
    let right = grammar::required_expr(tokens, end, op);
    assert(right.errors =~= seq![report]);
    assert(first.errors + right.errors =~= seq![report]);
    if op == Op::Times || op == Op::DividedBy {
        assert(grammar::expr_2(tokens, pos) == grammar::binary(first, left, op, right));
        assert(grammar::expr_3(tokens, pos) == grammar::binary(first, left, op, right));
    } else {
        assert(grammar::expr_2(tokens, pos) == first);
        assert(grammar::expr_3(tokens, pos) == grammar::binary(first, left, op, right));
    }
}

/// A sign without an operand is reported at the token where the operand should begin.
pub proof fn lemma_missing_negated_is_reported(tokens: TokenTree, pos: int)
    requires
        0 <= pos,
        tokens.op_at(pos, Op::Minus),
        !acceptance::can_begin(tokens, pos + 1),
        continues_nothing(tokens, pos + 1),
    ensures
        ({
            let parsed = grammar::expr(tokens, pos);
            let operand = error_at(tokens, pos + 1);
            &&& parsed.pos == pos + 1
            &&& parsed.node == Some(
                Node {
                    span: Span { start: tokens.span_at(pos).start, end: operand.span.end },
                    kind: NodeKind::Unary(Op::Minus, Box::new(operand)),
                },
            )
            &&& is_only_report(
                parsed.errors,
                tokens,
                pos + 1,
                DiagnosticKind::ExpectedExpressionAfter(Op::Minus),
            )
        }),
{
    acceptance::lemma_no_expr(tokens, pos + 1);
    let kind = DiagnosticKind::ExpectedExpressionAfter(Op::Minus);
    let report = grammar::report(tokens, pos + 1, kind);
    let operand = grammar::required_expr(tokens, pos + 1, Op::Minus);
    assert(operand.errors =~= seq![report]);
    assert(grammar::expr_0(tokens, pos).errors =~= seq![report]);
    lemma_ends(tokens, pos);
}

/// A dot without a field name is reported at the token where the name should be; the expression is
/// what stands before the dot.
pub proof fn lemma_missing_field_is_reported(tokens: TokenTree, pos: int, base: Node)
    requires
        acceptance::spells(tokens, pos, base),
        acceptance::is_closed(base),
        tokens.op_at(pos + acceptance::width(base), Op::Dot),
        tokens.identifier_at(pos + acceptance::width(base) + 1) is None,
        continues_nothing(tokens, pos + acceptance::width(base) + 1),
    ensures
        ({
            let end = pos + acceptance::width(base) + 1;
            let parsed = grammar::expr(tokens, pos);
            &&& parsed.pos == end
            &&& parsed.node == Some(base)
            &&& is_only_report(
                parsed.errors,
                tokens,
                end,
                DiagnosticKind::ExpectedIdentifierAfterDot,
            )
        }),
{
    let end = pos + acceptance::width(base) + 1;
    acceptance::lemma_chain_is_accepted(tokens, pos, base);
    let report = grammar::report(tokens, end, DiagnosticKind::ExpectedIdentifierAfterDot);
    let suffixes = grammar::suffixes(tokens, end - 1, base);
    assert(suffixes.errors =~= seq![report]);
    let found = grammar::expr_1(tokens, pos);
    assert(grammar::expr_0(tokens, pos).advances(tokens, pos));
    assert(found.errors =~= seq![report]);
    assert(found.node == Some(base) && found.pos == end);
    acceptance::lemma_operators(tokens, end);
    assert(grammar::expr_2(tokens, pos) == found);
    assert(grammar::expr_3(tokens, pos) == found);
}

/// An `if` or `while` without a condition, which cannot begin with a block, is reported at the
/// token after it, and there is no expression.
pub proof fn lemma_missing_condition_is_reported(tokens: TokenTree, pos: int, kw: Keyword)
    requires
        0 <= pos,
        kw == Keyword::If || kw == Keyword::While,
        tokens.keyword_at(pos, kw),
        tokens.delimiter_at(pos + 1, '{') || !acceptance::can_begin(tokens, pos + 1),
    ensures
        ({
            let parsed = grammar::expr(tokens, pos);
            &&& parsed.pos == pos + 1
            &&& parsed.node is None
            &&& is_only_report(
                parsed.errors,
                tokens,
                pos + 1,
                DiagnosticKind::ExpectedCondition(kw),
            )
        }),
{
    if !tokens.delimiter_at(pos + 1, '{') {
        acceptance::lemma_no_expr(tokens, pos + 1);
    }
    let report = grammar::report(tokens, pos + 1, DiagnosticKind::ExpectedCondition(kw));
    assert(grammar::expr_0(tokens, pos).errors =~= seq![report]);
    lemma_ends(tokens, pos);
}

} // verus!
