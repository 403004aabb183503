//! Every step of the grammar moves forward and stays inside its token tree.
use vstd::prelude::*;

use crate::base::Op;
use crate::grammar;
use crate::grammar::{Node, NodeKind};
use crate::token::TokenTree;

verus! {

/// Looking for an expression never moves back and never moves past the last token, and an
/// expression takes at least one token.
pub proof fn lemma_expr_progress(tokens: TokenTree, pos: int)
    requires
        0 <= pos <= tokens.count(),
    ensures
        pos <= grammar::expr(tokens, pos).pos <= tokens.count(),
        grammar::expr(tokens, pos).node is Some ==> grammar::expr(tokens, pos).advances(
            tokens,
            pos,
        ),
    decreases tokens.count() - pos, 5int,
{
    lemma_expr_3_progress(tokens, pos);
}

/// The same for sums.
pub proof fn lemma_expr_3_progress(tokens: TokenTree, pos: int)
    requires
        0 <= pos <= tokens.count(),
    ensures
        pos <= grammar::expr_3(tokens, pos).pos <= tokens.count(),
        grammar::expr_3(tokens, pos).node is Some ==> grammar::expr_3(tokens, pos).advances(
            tokens,
            pos,
        ),
    decreases tokens.count() - pos, 4int,
{
    lemma_expr_2_progress(tokens, pos);
    let left = grammar::expr_2(tokens, pos);
    if left.node is Some && tokens.token_at(left.pos) is Some {
        lemma_expr_progress(tokens, left.pos + 1);
    }
}

/// The same for products.
pub proof fn lemma_expr_2_progress(tokens: TokenTree, pos: int)
    requires
        0 <= pos <= tokens.count(),
    ensures
        pos <= grammar::expr_2(tokens, pos).pos <= tokens.count(),
        grammar::expr_2(tokens, pos).node is Some ==> grammar::expr_2(tokens, pos).advances(
            tokens,
            pos,
        ),
    decreases tokens.count() - pos, 3int,
{
    lemma_expr_1_progress(tokens, pos);
    let left = grammar::expr_1(tokens, pos);
    if left.node is Some && tokens.token_at(left.pos) is Some {
        lemma_expr_progress(tokens, left.pos + 1);
    }
}

/// The same for field accesses and calls.
pub proof fn lemma_expr_1_progress(tokens: TokenTree, pos: int)
    requires
        0 <= pos <= tokens.count(),
    ensures
        pos <= grammar::expr_1(tokens, pos).pos <= tokens.count(),
        grammar::expr_1(tokens, pos).node is Some ==> grammar::expr_1(tokens, pos).advances(
            tokens,
            pos,
        ),
    decreases tokens.count() - pos, 2int,
{
    lemma_expr_0_progress(tokens, pos);
    let head = grammar::expr_0(tokens, pos);
    if let Some(base) = head.node {
        lemma_suffixes_progress(tokens, head.pos, base);
    }
}

/// Reading what follows an expression never moves back and never moves past the last token.
pub proof fn lemma_suffixes_progress(tokens: TokenTree, pos: int, base: Node)
    requires
        0 <= pos <= tokens.count(),
    ensures
        pos <= grammar::suffixes(tokens, pos, base).pos <= tokens.count(),
        grammar::suffixes(tokens, pos, base).node is Some,
    decreases tokens.count() - pos, 0int,
{
    let dot = tokens.op_at(pos, Op::Dot);
    if dot && tokens.identifier_at(pos + 1) is Some {
        let access = Node {
            span: base.span.up_to(tokens.span_at(pos + 1)),
            kind: NodeKind::Dot(Box::new(base), tokens.identifier_at(pos + 1)->0),
        };
        lemma_suffixes_progress(tokens, pos + 2, access);
    } else {
        let start = if dot {
            pos + 1
        } else {
            pos
        };
        if let Some(list) = grammar::delimited(tokens, start, '(') {
            let call = Node {
                span: base.span.up_to(list.span),
                kind: NodeKind::Call(Box::new(base), grammar::arguments(list.tree, 0).arguments),
            };
            lemma_suffixes_progress(tokens, list.pos, call);
        }
    }
}

/// The same for expressions that are no operation on what precedes them.
pub proof fn lemma_expr_0_progress(tokens: TokenTree, pos: int)
    requires
        0 <= pos <= tokens.count(),
    ensures
        pos <= grammar::expr_0(tokens, pos).pos <= tokens.count(),
        grammar::expr_0(tokens, pos).node is Some ==> grammar::expr_0(tokens, pos).advances(
            tokens,
            pos,
        ),
    decreases tokens.count() - pos, 1int,
{
    if pos < tokens.count() {
        lemma_expr_progress(tokens, pos + 1);
    }
}

/// Looking for an argument never moves back and never moves past the last token, and an argument
/// takes at least one token.
pub proof fn lemma_argument_progress(tokens: TokenTree, pos: int)
    requires
        0 <= pos <= tokens.count(),
    ensures
        pos <= grammar::argument(tokens, pos).pos <= tokens.count(),
        grammar::argument(tokens, pos).argument is Some ==> pos < grammar::argument(
            tokens,
            pos,
        ).pos,
{
    if tokens.identifier_at(pos) is Some {
        lemma_expr_progress(tokens, pos + 1);
        if tokens.op_at(pos + 1, Op::Colon) {
            lemma_expr_progress(tokens, pos + 2);
        }
    }
}

} // verus!
