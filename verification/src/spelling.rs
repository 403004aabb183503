//! What a tree says can be read back from it: the tokens that spell it out.
use vstd::prelude::*;

use crate::base::{Keyword, Op};
use crate::grammar;
use crate::grammar::{Argument, Node, NodeKind, Parsed};
use crate::layout;
use crate::progress;
use crate::syntax::{Arena, Expr};
use crate::token::{Token, TokenTree};

verus! {

/// The tokens from `start` up to `end`, with those inside token trees in their places.
pub open spec fn flattened(tokens: TokenTree, start: int, end: int) -> Seq<Token>
    decreases tokens, end - start,
{
    if start < end && 0 < end <= tokens.count() {
        flattened(tokens, start, end - 1) + match tokens.tokens@[end - 1].1 {
            Token::Tree(tree) => flattened(tree, 0, tree.count()),
            token => seq![token],
        }
    } else {
        seq![]
    }
}

/// The tokens that spell `node`.
pub open spec fn spelled(node: Node) -> Seq<Token>
    decreases node,
{
    match node.kind {
        NodeKind::Id(name) => seq![Token::Identifier(name)],
        NodeKind::Dot(owner, field) => spelled(*owner) + seq![
            Token::Op(Op::Dot),
            Token::Identifier(field),
        ],
        NodeKind::Call(callee, arguments) => spelled(*callee) + seq![Token::Delimiter('(')]
            + spelled_arguments(arguments) + seq![Token::Delimiter(')')],
        NodeKind::If(condition, if_true, if_false) => {
            let start = seq![Token::Keyword(Keyword::If)] + spelled(*condition) + spelled(*if_true);
            match if_false {
                Some(other) => start + seq![Token::Keyword(Keyword::Else)] + spelled(*other),
                None => start,
            }
        },
        NodeKind::While(condition, body) => seq![Token::Keyword(Keyword::While)] + spelled(
            *condition,
        ) + spelled(*body),
        NodeKind::Loop(body) => seq![Token::Keyword(Keyword::Loop)] + spelled(*body),
        NodeKind::Continue => seq![Token::Keyword(Keyword::Continue)],
        NodeKind::Break(Some(value)) => seq![Token::Keyword(Keyword::Break)] + spelled(*value),
        NodeKind::Break(None) => seq![Token::Keyword(Keyword::Break)],
        NodeKind::Return(Some(value)) => seq![Token::Keyword(Keyword::Return)] + spelled(*value),
        NodeKind::Return(None) => seq![Token::Keyword(Keyword::Return)],
        NodeKind::Parenthesized(inner) => seq![Token::Delimiter('(')] + spelled(*inner) + seq![
            Token::Delimiter(')'),
        ],
        NodeKind::Block(nodes) => seq![Token::Delimiter('{')] + spelled_nodes(nodes) + seq![
            Token::Delimiter('}'),
        ],
        NodeKind::Op(left, op, right) => spelled(*left) + seq![Token::Op(op)] + spelled(*right),
        NodeKind::Unary(op, operand) => seq![Token::Op(op)] + spelled(*operand),
        NodeKind::Error => seq![],
    }
}

/// The tokens that spell `nodes`, one after the other.
pub open spec fn spelled_nodes(nodes: Seq<Node>) -> Seq<Token>
    decreases nodes,
{
    if nodes.len() == 0 {
        seq![]
    } else {
        spelled_nodes(nodes.drop_last()) + spelled(nodes.last())
    }
}

/// The tokens that spell `arguments`, one after the other.
pub open spec fn spelled_arguments(arguments: Seq<Argument>) -> Seq<Token>
    decreases arguments,
{
    if arguments.len() == 0 {
        seq![]
    } else {
        spelled_arguments(arguments.drop_last()) + spelled_argument(arguments.last())
    }
}

/// The tokens that spell `argument`.
pub open spec fn spelled_argument(argument: Argument) -> Seq<Token>
    decreases argument,
{
    seq![Token::Identifier(argument.name), Token::Op(Op::Colon)] + spelled(argument.value)
}

/// The number of error expressions in `node`.
pub open spec fn gaps(node: Node) -> nat
    decreases node,
{
    match node.kind {
        NodeKind::Dot(owner, _) => gaps(*owner),
        NodeKind::Call(callee, arguments) => gaps(*callee) + gaps_in_arguments(arguments),
        NodeKind::If(condition, if_true, if_false) => gaps(*condition) + gaps(*if_true)
            + match if_false {
            Some(other) => gaps(*other),
            None => 0,
        },
        NodeKind::While(condition, body) => gaps(*condition) + gaps(*body),
        NodeKind::Loop(body) => gaps(*body),
        NodeKind::Break(Some(value)) => gaps(*value),
        NodeKind::Return(Some(value)) => gaps(*value),
        NodeKind::Parenthesized(inner) => gaps(*inner),
        NodeKind::Block(nodes) => gaps_in_nodes(nodes),
        NodeKind::Op(left, _, right) => gaps(*left) + gaps(*right),
        NodeKind::Unary(_, operand) => gaps(*operand),
        NodeKind::Error => 1,
        _ => 0,
    }
}

/// The number of error expressions in `nodes`.
pub open spec fn gaps_in_nodes(nodes: Seq<Node>) -> nat
    decreases nodes,
{
    if nodes.len() == 0 {
        0
    } else {
        gaps_in_nodes(nodes.drop_last()) + gaps(nodes.last())
    }
}

/// The number of error expressions in `arguments`.
pub open spec fn gaps_in_arguments(arguments: Seq<Argument>) -> nat
    decreases arguments,
{
    if arguments.len() == 0 {
        0
    } else {
        gaps_in_arguments(arguments.drop_last()) + gaps(arguments.last().value)
    }
}

/// Whether `node` covers the tokens from `start` up to `end` and spells them.
pub open spec fn matches_tokens(tokens: TokenTree, start: int, end: int, node: Node) -> bool {
    &&& node.span == grammar::taken(tokens, start, end)
    &&& spelled(node) == flattened(tokens, start, end)
}

/// Whether what `parsed` found at `pos` matches the tokens that it took, unless something was
/// reported, and has no more error expressions than there are reports. Where it found nothing,
/// it took no tokens, unless something was reported.
pub open spec fn faithful(tokens: TokenTree, pos: int, parsed: Parsed) -> bool {
    match parsed.node {
        Some(node) => {
            &&& gaps(node) <= parsed.errors.len()
            &&& parsed.errors.len() == 0 ==> matches_tokens(tokens, pos, parsed.pos, node)
        },
        None => parsed.errors.len() == 0 ==> parsed.pos == pos,
    }
}

proof fn lemma_flattened_parts(tokens: TokenTree, start: int, middle: int, end: int)
    requires
        0 <= start <= middle <= end <= tokens.count(),
    ensures
        flattened(tokens, start, end) == flattened(tokens, start, middle) + flattened(
            tokens,
            middle,
            end,
        ),
    decreases end - middle,
{
    if middle < end {
        lemma_flattened_parts(tokens, start, middle, end - 1);
        assert(flattened(tokens, start, end) =~= flattened(tokens, start, middle) + flattened(
            tokens,
            middle,
            end,
        ));
    } else {
        assert(flattened(tokens, start, end) =~= flattened(tokens, start, middle) + seq![]);
    }
}

/// A token that is no tree stands for itself.
proof fn lemma_flattened_token(tokens: TokenTree, pos: int)
    requires
        0 <= pos < tokens.count(),
    ensures
        tokens.token_at(pos)->0 !is Tree ==> flattened(tokens, pos, pos + 1) == seq![
            tokens.token_at(pos)->0,
        ],
{
    assert(flattened(tokens, pos, pos) =~= seq![]);
    if tokens.token_at(pos)->0 !is Tree {
        assert(flattened(tokens, pos, pos + 1) =~= seq![tokens.token_at(pos)->0]);
    }
}

/// A token and those after it.
proof fn lemma_flattened_first(tokens: TokenTree, pos: int, end: int)
    requires
        0 <= pos < end <= tokens.count(),
    ensures
        tokens.token_at(pos)->0 !is Tree ==> flattened(tokens, pos, end) == seq![
            tokens.token_at(pos)->0,
        ] + flattened(tokens, pos + 1, end),
{
    lemma_flattened_parts(tokens, pos, pos + 1, end);
    lemma_flattened_token(tokens, pos);
}

/// A closed delimited tree is spelled by its delimiters and what is in it.
proof fn lemma_flattened_delimited(tokens: TokenTree, pos: int, delimiter: char)
    requires
        0 <= pos <= tokens.count(),
    ensures
        grammar::delimited(tokens, pos, delimiter) matches Some(group) ==> {
            &&& pos + 2 <= group.pos <= tokens.count()
            &&& group.span == grammar::taken(tokens, pos, group.pos)
            &&& group.errors.len() == 0 ==> flattened(tokens, pos, group.pos) == seq![
                Token::Delimiter(delimiter),
            ] + flattened(group.tree, 0, group.tree.count()) + seq![
                Token::Delimiter(grammar::closing(delimiter)),
            ]
        },
{
    if let Some(group) = grammar::delimited(tokens, pos, delimiter) {
        if group.errors.len() == 0 {
            lemma_flattened_token(tokens, pos);
            lemma_flattened_token(tokens, pos + 2);
            lemma_flattened_parts(tokens, pos, pos + 1, pos + 2);
            lemma_flattened_parts(tokens, pos, pos + 2, pos + 3);
            assert(flattened(tokens, pos + 1, pos + 1) =~= seq![]);
            assert(flattened(tokens, pos + 1, pos + 2) =~= flattened(
                group.tree,
                0,
                group.tree.count(),
            ));
        }
    }
}

/// An expression that was read with nothing to report is spelled by the tokens that it took and
/// covers them, and there are never more error expressions than reports. Where there is no
/// expression, and nothing to report, no token was taken.
pub proof fn lemma_expr_is_faithful(tokens: TokenTree, pos: int)
    requires
        0 <= pos <= tokens.count(),
    ensures
        faithful(tokens, pos, grammar::expr(tokens, pos)),
    decreases tokens, tokens.count() - pos, 5int,
{
    lemma_expr_3_is_faithful(tokens, pos);
}

proof fn lemma_required_expr_is_faithful(tokens: TokenTree, pos: int, op: Op)
    requires
        0 <= pos <= tokens.count(),
    ensures
        faithful(tokens, pos, grammar::required_expr(tokens, pos, op)),
        grammar::required_expr(tokens, pos, op).node is Some,
        pos <= grammar::required_expr(tokens, pos, op).pos <= tokens.count(),
        grammar::required_expr(tokens, pos, op).errors.len() == 0
            ==> pos < grammar::required_expr(tokens, pos, op).pos,
    decreases tokens, tokens.count() - pos, 6int,
{
    lemma_expr_is_faithful(tokens, pos);
    progress::lemma_expr_progress(tokens, pos);
}

proof fn lemma_binary_is_faithful(
    tokens: TokenTree,
    pos: int,
    left: Parsed,
    base: Node,
    op: Op,
    right: Parsed,
)
    requires
        0 <= pos < left.pos < tokens.count(),
        left.node == Some(base),
        tokens.op_at(left.pos, op),
        left.pos < right.pos <= tokens.count(),
        right.node is Some,
        right.errors.len() == 0 ==> left.pos + 1 < right.pos,
        faithful(tokens, pos, left),
        faithful(tokens, left.pos + 1, right),
    ensures
        faithful(tokens, pos, grammar::binary(left, base, op, right)),
{
    let whole = grammar::binary(left, base, op, right);
    let operand = right.node->0;
    if whole.errors.len() == 0 {
        lemma_flattened_parts(tokens, pos, left.pos, right.pos);
        lemma_flattened_first(tokens, left.pos, right.pos);
        assert(spelled(whole.node->0) =~= flattened(tokens, pos, right.pos));
    }
}

proof fn lemma_expr_3_is_faithful(tokens: TokenTree, pos: int)
    requires
        0 <= pos <= tokens.count(),
    ensures
        faithful(tokens, pos, grammar::expr_3(tokens, pos)),
    decreases tokens, tokens.count() - pos, 4int,
{
    lemma_expr_2_is_faithful(tokens, pos);
    progress::lemma_expr_2_progress(tokens, pos);
    let left = grammar::expr_2(tokens, pos);
    if let (Some(base), Some(op)) = (
        left.node,
        tokens.operator_at(left.pos, seq![Op::Plus, Op::Minus]),
    ) {
        lemma_required_expr_is_faithful(tokens, left.pos + 1, op);
        let right = grammar::required_expr(tokens, left.pos + 1, op);
        lemma_binary_is_faithful(tokens, pos, left, base, op, right);
    }
}

proof fn lemma_expr_2_is_faithful(tokens: TokenTree, pos: int)
    requires
        0 <= pos <= tokens.count(),
    ensures
        faithful(tokens, pos, grammar::expr_2(tokens, pos)),
    decreases tokens, tokens.count() - pos, 3int,
{
    lemma_expr_1_is_faithful(tokens, pos);
    progress::lemma_expr_1_progress(tokens, pos);
    let left = grammar::expr_1(tokens, pos);
    if let (Some(base), Some(op)) = (
        left.node,
        tokens.operator_at(left.pos, seq![Op::DividedBy, Op::Times]),
    ) {
        lemma_required_expr_is_faithful(tokens, left.pos + 1, op);
        let right = grammar::required_expr(tokens, left.pos + 1, op);
        lemma_binary_is_faithful(tokens, pos, left, base, op, right);
    }
}

proof fn lemma_expr_1_is_faithful(tokens: TokenTree, pos: int)
    requires
        0 <= pos <= tokens.count(),
    ensures
        faithful(tokens, pos, grammar::expr_1(tokens, pos)),
    decreases tokens, tokens.count() - pos, 2int,
{
    lemma_expr_0_is_faithful(tokens, pos);
    progress::lemma_expr_0_progress(tokens, pos);
    let head = grammar::expr_0(tokens, pos);
    if let Some(base) = head.node {
        lemma_suffixes_are_faithful(tokens, pos, head.pos, base);
    }
}

/// The field accesses and argument lists after `base`, which begins at `start`.
proof fn lemma_suffixes_are_faithful(tokens: TokenTree, start: int, pos: int, base: Node)
    requires
        0 <= start < pos <= tokens.count(),
    ensures
        grammar::suffixes(tokens, pos, base).node is Some,
        gaps(grammar::suffixes(tokens, pos, base).node->0) <= gaps(base) + grammar::suffixes(
            tokens,
            pos,
            base,
        ).errors.len(),
        matches_tokens(tokens, start, pos, base) && grammar::suffixes(
            tokens,
            pos,
            base,
        ).errors.len() == 0 ==> matches_tokens(
            tokens,
            start,
            grammar::suffixes(tokens, pos, base).pos,
            grammar::suffixes(tokens, pos, base).node->0,
        ),
    decreases tokens, tokens.count() - pos, 0int,
{
    let dot = tokens.op_at(pos, Op::Dot);
    if dot && tokens.identifier_at(pos + 1) is Some {
        let access = Node {
            span: base.span.up_to(tokens.span_at(pos + 1)),
            kind: NodeKind::Dot(Box::new(base), tokens.identifier_at(pos + 1)->0),
        };
        if matches_tokens(tokens, start, pos, base) {
            lemma_flattened_parts(tokens, start, pos, pos + 2);
            lemma_flattened_first(tokens, pos, pos + 2);
            lemma_flattened_token(tokens, pos + 1);
            assert(spelled(access) =~= flattened(tokens, start, pos + 2));
        }
        lemma_suffixes_are_faithful(tokens, start, pos + 2, access);
    } else {
        let from = if dot {
            pos + 1
        } else {
            pos
        };
        if let Some(list) = grammar::delimited(tokens, from, '(') {
            let arguments = grammar::arguments(list.tree, 0);
            let call = Node {
                span: base.span.up_to(list.span),
                kind: NodeKind::Call(Box::new(base), arguments.arguments),
            };
            lemma_flattened_delimited(tokens, from, '(');
            lemma_arguments_are_faithful(list.tree, 0);
            if matches_tokens(tokens, start, pos, base) && !dot && list.errors.len() == 0
                && arguments.errors.len() == 0 {
                lemma_flattened_parts(tokens, start, pos, list.pos);
                assert(spelled(call) =~= flattened(tokens, start, list.pos));
            }
            lemma_suffixes_are_faithful(tokens, start, list.pos, call);
        }
    }
}

proof fn lemma_block_expr_is_faithful(tokens: TokenTree, pos: int)
    requires
        0 <= pos <= tokens.count(),
    ensures
        faithful(tokens, pos, grammar::block_expr(tokens, pos)),
        pos <= grammar::block_expr(tokens, pos).pos <= tokens.count(),
        grammar::block_expr(tokens, pos).node is Some ==> pos < grammar::block_expr(
            tokens,
            pos,
        ).pos,
    decreases tokens, 0int, 0int,
{
    lemma_flattened_delimited(tokens, pos, '{');
    if let Some(group) = grammar::delimited(tokens, pos, '{') {
        lemma_block_contents_are_faithful(group.tree, 0);
        let block = grammar::block_expr(tokens, pos);
        if block.errors.len() == 0 {
            assert(spelled(block.node->0) =~= flattened(tokens, pos, block.pos));
        }
    }
}

proof fn lemma_required_block_is_faithful(tokens: TokenTree, pos: int, kw: Keyword)
    requires
        0 <= pos <= tokens.count(),
    ensures
        faithful(tokens, pos, grammar::required_block(tokens, pos, kw)),
        grammar::required_block(tokens, pos, kw).node is Some,
        pos <= grammar::required_block(tokens, pos, kw).pos <= tokens.count(),
        grammar::required_block(tokens, pos, kw).errors.len() == 0
            ==> pos < grammar::required_block(tokens, pos, kw).pos,
    decreases tokens, 0int, 1int,
{
    lemma_block_expr_is_faithful(tokens, pos);
}

proof fn lemma_expr_0_is_faithful(tokens: TokenTree, pos: int)
    requires
        0 <= pos <= tokens.count(),
    ensures
        faithful(tokens, pos, grammar::expr_0(tokens, pos)),
    decreases tokens, tokens.count() - pos, 1int,
{
    if tokens.identifier_at(pos) is Some {
        lemma_flattened_token(tokens, pos);
    } else if grammar::delimited(tokens, pos, '{') is Some {
        lemma_block_expr_is_faithful(tokens, pos);
    } else if tokens.keyword_at(pos, Keyword::If) {
        lemma_if_is_faithful(tokens, pos);
    } else if tokens.keyword_at(pos, Keyword::While) {
        lemma_while_is_faithful(tokens, pos);
    } else if tokens.keyword_at(pos, Keyword::Continue) {
        lemma_flattened_token(tokens, pos);
    } else if tokens.token_at(pos) is Some && tokens.token_at(pos)->0 !is Delimiter {
        lemma_prefixed_is_faithful(tokens, pos);
    } else if grammar::delimited(tokens, pos, '(') is Some {
        lemma_group_is_faithful(tokens, pos);
    }
}

/// What begins with `loop`, `break`, `return` or `-`.
proof fn lemma_prefixed_is_faithful(tokens: TokenTree, pos: int)
    requires
        0 <= pos < tokens.count(),
        tokens.identifier_at(pos) is None,
        tokens.token_at(pos)->0 !is Delimiter,
        !tokens.keyword_at(pos, Keyword::If),
        !tokens.keyword_at(pos, Keyword::While),
        !tokens.keyword_at(pos, Keyword::Continue),
    ensures
        faithful(tokens, pos, grammar::expr_0(tokens, pos)),
    decreases tokens, tokens.count() - pos, 0int,
{
    let parsed = grammar::expr_0(tokens, pos);
    if parsed.node is Some {
        progress::lemma_expr_0_progress(tokens, pos);
        progress::lemma_expr_progress(tokens, pos + 1);
        lemma_flattened_token(tokens, pos);
        lemma_flattened_first(tokens, pos, parsed.pos);
        if tokens.keyword_at(pos, Keyword::Loop) {
            lemma_required_block_is_faithful(tokens, pos + 1, Keyword::Loop);
        } else if tokens.op_at(pos, Op::Minus) {
            lemma_required_expr_is_faithful(tokens, pos + 1, Op::Minus);
        } else {
            lemma_expr_is_faithful(tokens, pos + 1);
            if parsed.errors.len() == 0 {
                assert(spelled(parsed.node->0) =~= flattened(tokens, pos, parsed.pos));
            }
        }
    }
}

proof fn lemma_group_is_faithful(tokens: TokenTree, pos: int)
    requires
        0 <= pos <= tokens.count(),
        grammar::delimited(tokens, pos, '(') is Some,
    ensures
        faithful(tokens, pos, grammar::expr_0(tokens, pos)),
    decreases tokens, tokens.count() - pos, 0int,
{
    let parsed = grammar::expr_0(tokens, pos);
    lemma_flattened_delimited(tokens, pos, '(');
    lemma_only_expr_is_faithful(grammar::delimited(tokens, pos, '(')->0.tree, 0);
    if parsed.errors.len() == 0 {
        assert(spelled(parsed.node->0) =~= flattened(tokens, pos, parsed.pos));
    }
}

proof fn lemma_while_is_faithful(tokens: TokenTree, pos: int)
    requires
        0 <= pos <= tokens.count(),
        tokens.keyword_at(pos, Keyword::While),
    ensures
        faithful(tokens, pos, grammar::expr_0(tokens, pos)),
    decreases tokens, tokens.count() - pos, 0int,
{
    let parsed = grammar::expr_0(tokens, pos);
    let condition = grammar::condition(tokens, pos + 1);
    progress::lemma_expr_0_progress(tokens, pos);
    progress::lemma_expr_progress(tokens, pos + 1);
    lemma_expr_is_faithful(tokens, pos + 1);
    if condition.node is Some {
        lemma_flattened_first(tokens, pos, parsed.pos);
        lemma_required_block_is_faithful(tokens, condition.pos, Keyword::While);
        lemma_flattened_parts(tokens, pos + 1, condition.pos, parsed.pos);
        if parsed.errors.len() == 0 {
            assert(spelled(parsed.node->0) =~= flattened(tokens, pos, parsed.pos));
        }
    }
}

#[verifier::rlimit(30)]
proof fn lemma_if_is_faithful(tokens: TokenTree, pos: int)
    requires
        0 <= pos <= tokens.count(),
        tokens.keyword_at(pos, Keyword::If),
    ensures
        faithful(tokens, pos, grammar::expr_0(tokens, pos)),
    decreases tokens, tokens.count() - pos, 0int,
{
    let parsed = grammar::expr_0(tokens, pos);
    let end = parsed.pos;
    let condition = grammar::condition(tokens, pos + 1);
    progress::lemma_expr_0_progress(tokens, pos);
    progress::lemma_expr_progress(tokens, pos + 1);
    lemma_expr_is_faithful(tokens, pos + 1);
    if let Some(test) = condition.node {
        let if_true = grammar::required_block(tokens, condition.pos, Keyword::If);
        lemma_required_block_is_faithful(tokens, condition.pos, Keyword::If);
        lemma_flattened_first(tokens, pos, if_true.pos);
        lemma_flattened_parts(tokens, pos + 1, condition.pos, if_true.pos);
        let start = seq![Token::Keyword(Keyword::If)] + spelled(test) + spelled(if_true.node->0);
        if condition.errors.len() == 0 && if_true.errors.len() == 0 {
            assert(start =~= flattened(tokens, pos, if_true.pos));
        }
        if tokens.keyword_at(if_true.pos, Keyword::Else) {
            lemma_required_block_is_faithful(tokens, if_true.pos + 1, Keyword::Else);
            lemma_flattened_parts(tokens, pos, if_true.pos, end);
            lemma_flattened_first(tokens, if_true.pos, end);
            if parsed.errors.len() == 0 {
                assert(spelled(parsed.node->0) =~= flattened(tokens, pos, end));
            }
        }
    }
}

/// Tokens that were read as one expression with nothing to report are spelled by that expression,
/// and there are never more error expressions than reports.
pub proof fn lemma_only_expr_is_faithful(tokens: TokenTree, pos: int)
    requires
        0 <= pos <= tokens.count(),
    ensures
        ({
            let parsed = grammar::only_expr(tokens, pos);
            &&& parsed.node matches Some(node)
            &&& gaps(node) <= parsed.errors.len()
            &&& parsed.errors.len() == 0 ==> matches_tokens(tokens, pos, tokens.count(), node)
        }),
    decreases tokens, tokens.count() - pos, 7int,
{
    lemma_expr_is_faithful(tokens, pos);
    progress::lemma_expr_progress(tokens, pos);
}

/// The first of a series of nodes, and the rest.
proof fn lemma_spelled_first_node(first: Node, rest: Seq<Node>)
    ensures
        spelled_nodes(seq![first] + rest) == spelled(first) + spelled_nodes(rest),
        gaps_in_nodes(seq![first] + rest) == gaps(first) + gaps_in_nodes(rest),
    decreases rest.len(),
{
    let all = seq![first] + rest;
    if rest.len() == 0 {
        assert(spelled_nodes(all.drop_last()) =~= seq![]);
        assert(gaps_in_nodes(all.drop_last()) == 0);
        assert(spelled_nodes(all) =~= spelled(first) + spelled_nodes(rest));
    } else {
        assert(all.drop_last() =~= seq![first] + rest.drop_last());
        lemma_spelled_first_node(first, rest.drop_last());
        assert(spelled_nodes(all) =~= spelled(first) + spelled_nodes(rest));
    }
}

/// Tokens that were read as a series of expressions with nothing to report are spelled by those
/// expressions, and there are never more error expressions than reports.
pub proof fn lemma_block_contents_are_faithful(tokens: TokenTree, pos: int)
    requires
        0 <= pos <= tokens.count(),
    ensures
        ({
            let block = grammar::block_contents(tokens, pos);
            &&& gaps_in_nodes(block.nodes) <= block.errors.len()
            &&& block.errors.len() == 0 ==> spelled_nodes(block.nodes) == flattened(
                tokens,
                pos,
                tokens.count(),
            )
        }),
    decreases tokens, tokens.count() - pos, 7int,
{
    if pos < tokens.count() {
        lemma_expr_is_faithful(tokens, pos);
        progress::lemma_expr_progress(tokens, pos);
        let first = grammar::expr(tokens, pos);
        match first.node {
            Some(node) => {
                lemma_block_contents_are_faithful(tokens, first.pos);
                lemma_spelled_first_node(
                    node,
                    grammar::block_contents(tokens, first.pos).nodes,
                );
                lemma_flattened_parts(tokens, pos, first.pos, tokens.count());
            },
            None => {
                let next = grammar::skip_token(tokens, first.pos);
                if pos < next <= tokens.count() {
                    lemma_block_contents_are_faithful(tokens, next);
                }
            },
        }
    }
}

proof fn lemma_argument_is_faithful(tokens: TokenTree, pos: int)
    requires
        0 <= pos <= tokens.count(),
    ensures
        grammar::argument(tokens, pos).argument matches Some(argument) ==> {
            let parsed = grammar::argument(tokens, pos);
            &&& gaps(argument.value) <= parsed.errors.len()
            &&& parsed.errors.len() == 0 ==> spelled_argument(argument) == flattened(
                tokens,
                pos,
                parsed.pos,
            )
        },
    decreases tokens, tokens.count() - pos, 6int,
{
    let parsed = grammar::argument(tokens, pos);
    if tokens.identifier_at(pos) is Some {
        lemma_expr_is_faithful(tokens, pos + 1);
        progress::lemma_argument_progress(tokens, pos);
        if tokens.op_at(pos + 1, Op::Colon) {
            progress::lemma_expr_progress(tokens, pos + 2);
            lemma_expr_is_faithful(tokens, pos + 2);
            lemma_flattened_first(tokens, pos, parsed.pos);
            lemma_flattened_first(tokens, pos + 1, parsed.pos);
        }
        if parsed.errors.len() == 0 {
            assert(spelled_argument(parsed.argument->0) =~= flattened(tokens, pos, parsed.pos));
        }
    }
}

/// The first of a series of arguments, and the rest.
proof fn lemma_spelled_first_argument(first: Argument, rest: Seq<Argument>)
    ensures
        spelled_arguments(seq![first] + rest) == spelled_argument(first) + spelled_arguments(rest),
        gaps_in_arguments(seq![first] + rest) == gaps(first.value) + gaps_in_arguments(rest),
    decreases rest.len(),
{
    let all = seq![first] + rest;
    if rest.len() == 0 {
        assert(spelled_arguments(all.drop_last()) =~= seq![]);
        assert(gaps_in_arguments(all.drop_last()) == 0);
        assert(spelled_arguments(all) =~= spelled_argument(first) + spelled_arguments(rest));
    } else {
        assert(all.drop_last() =~= seq![first] + rest.drop_last());
        lemma_spelled_first_argument(first, rest.drop_last());
        assert(spelled_arguments(all) =~= spelled_argument(first) + spelled_arguments(rest));
    }
}

/// Tokens that were read as a series of arguments with nothing to report are spelled by those
/// arguments, and there are never more error expressions than reports.
pub proof fn lemma_arguments_are_faithful(tokens: TokenTree, pos: int)
    requires
        0 <= pos <= tokens.count(),
    ensures
        ({
            let list = grammar::arguments(tokens, pos);
            &&& gaps_in_arguments(list.arguments) <= list.errors.len()
            &&& list.errors.len() == 0 ==> spelled_arguments(list.arguments) == flattened(
                tokens,
                pos,
                tokens.count(),
            )
        }),
    decreases tokens, tokens.count() - pos, 7int,
{
    if pos < tokens.count() {
        lemma_argument_is_faithful(tokens, pos);
        progress::lemma_argument_progress(tokens, pos);
        let first = grammar::argument(tokens, pos);
        match first.argument {
            Some(argument) => {
                lemma_arguments_are_faithful(tokens, first.pos);
                lemma_spelled_first_argument(
                    argument,
                    grammar::arguments(tokens, first.pos).arguments,
                );
                lemma_flattened_parts(tokens, pos, first.pos, tokens.count());
            },
            None => {
                let next = grammar::skip_token(tokens, first.pos);
                if pos < next <= tokens.count() {
                    lemma_arguments_are_faithful(tokens, next);
                }
            },
        }
    }
}

/// Parsing loses nothing: from the tables of a body that was parsed with nothing to report, the
/// trees can be read back that spell exactly the tokens of the body.
pub proof fn lemma_body_can_be_read_back(tokens: TokenTree, pos: int)
    requires
        0 <= pos <= tokens.count(),
        layout::fits(
            layout::lay_nodes(Arena::empty(), grammar::block_contents(tokens, pos).nodes).0,
        ),
    ensures
        ({
            let block = grammar::block_contents(tokens, pos);
            let (arena, exprs) = layout::lay_nodes(Arena::empty(), block.nodes);
            let end = Expr { index: arena.exprs.len() as usize };
            &&& layout::holds_nodes(arena.add_block(exprs), end, exprs, block.nodes)
            &&& block.errors.len() == 0 ==> {
                &&& spelled_nodes(block.nodes) == flattened(tokens, pos, tokens.count())
                &&& gaps_in_nodes(block.nodes) == 0
            }
        }),
{
    let nodes = grammar::block_contents(tokens, pos).nodes;
    let (arena, exprs) = layout::lay_nodes(Arena::empty(), nodes);
    let end = Expr { index: arena.exprs.len() as usize };
    lemma_block_contents_are_faithful(tokens, pos);
    layout::lemma_nodes_can_be_read_back(
        Arena::empty(),
        nodes,
        arena.add_block(exprs),
        end,
    );
}

} // verus!
