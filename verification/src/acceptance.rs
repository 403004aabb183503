//! Well-formed source is accepted: the tokens that spell a tree parse to that tree.
use vstd::prelude::*;

use crate::base::{Keyword, Op, Span};
use crate::grammar;
use crate::grammar::{Argument, Node, NodeKind, Parsed};
use crate::token::{Token, TokenTree};

verus! {

/// The number of tokens that spell `node`, a delimited tree counting as three.
pub open spec fn width(node: Node) -> int
    decreases node,
{
    match node.kind {
        NodeKind::Id(_) => 1,
        NodeKind::Dot(owner, _) => width(*owner) + 2,
        NodeKind::Call(callee, _) => width(*callee) + 3,
        NodeKind::If(condition, if_true, if_false) => 1 + width(*condition) + width(*if_true)
            + match if_false {
            Some(other) => 1 + width(*other),
            None => 0,
        },
        NodeKind::While(condition, body) => 1 + width(*condition) + width(*body),
        NodeKind::Loop(body) => 1 + width(*body),
        NodeKind::Continue => 1,
        NodeKind::Break(Some(value)) => 1 + width(*value),
        NodeKind::Break(None) => 1,
        NodeKind::Return(Some(value)) => 1 + width(*value),
        NodeKind::Return(None) => 1,
        NodeKind::Parenthesized(_) => 3,
        NodeKind::Block(_) => 3,
        NodeKind::Op(left, _, right) => width(*left) + 1 + width(*right),
        NodeKind::Unary(_, operand) => 1 + width(*operand),
        NodeKind::Error => 0,
    }
}

/// Whether a field, arguments or an operator may follow `node`: it does not itself extend as far
/// as it can.
pub open spec fn is_closed(node: Node) -> bool {
    match node.kind {
        NodeKind::Id(_) => true,
        NodeKind::Dot(_, _) => true,
        NodeKind::Call(_, _) => true,
        NodeKind::If(_, _, _) => true,
        NodeKind::While(_, _) => true,
        NodeKind::Loop(_) => true,
        NodeKind::Continue => true,
        NodeKind::Parenthesized(_) => true,
        NodeKind::Block(_) => true,
        _ => false,
    }
}

/// Whether the last part of `node` is an `if` without `else`.
pub open spec fn ends_with_if(node: Node) -> bool
    decreases node,
{
    match node.kind {
        NodeKind::If(_, _, None) => true,
        NodeKind::Break(Some(value)) => ends_with_if(*value),
        NodeKind::Return(Some(value)) => ends_with_if(*value),
        NodeKind::Op(_, _, right) => ends_with_if(*right),
        NodeKind::Unary(_, operand) => ends_with_if(*operand),
        _ => false,
    }
}

/// Whether the last part of `node` is a `break` or `return` without a value.
pub open spec fn ends_bare(node: Node) -> bool
    decreases node,
{
    match node.kind {
        NodeKind::Break(None) => true,
        NodeKind::Return(None) => true,
        NodeKind::Break(Some(value)) => ends_bare(*value),
        NodeKind::Return(Some(value)) => ends_bare(*value),
        NodeKind::Op(_, _, right) => ends_bare(*right),
        NodeKind::Unary(_, operand) => ends_bare(*operand),
        _ => false,
    }
}

/// Whether an expression can begin with the token at `pos`.
pub open spec fn can_begin(tokens: TokenTree, pos: int) -> bool {
    match tokens.token_at(pos) {
        Some(Token::Identifier(_)) => true,
        Some(Token::Keyword(kw)) => kw != Keyword::Else,
        Some(Token::Op(op)) => op == Op::Minus,
        _ => tokens.delimited_at(pos, '(') is Some || tokens.delimited_at(pos, '{') is Some,
    }
}

/// Whether `node` can end before the token at `pos`: that token continues no expression, and
/// nothing at the end of `node` is waiting for it.
pub open spec fn can_end(tokens: TokenTree, pos: int, node: Node) -> bool {
    &&& match tokens.token_at(pos) {
        Some(Token::Op(op)) => op == Op::Colon || op == Op::Comma,
        _ => true,
    }
    &&& tokens.delimited_at(pos, '(') is None
    &&& ends_with_if(node) ==> !tokens.keyword_at(pos, Keyword::Else)
    &&& ends_bare(node) ==> !can_begin(tokens, pos)
}

/// From the token at `start` to the last token before `end`.
pub open spec fn from_to(tokens: TokenTree, start: int, end: int) -> Span {
    Span { start: tokens.span_at(start).start, end: tokens.span_before(end).end }
}

/// Whether the delimiters at `pos` are closed and hold `tree`.
pub open spec fn encloses(tokens: TokenTree, pos: int, delimiter: char, tree: TokenTree) -> bool {
    &&& tokens.delimited_at(pos, delimiter) == Some(tree)
    &&& tokens.delimiter_at(
        pos + 2,
        if delimiter == '(' {
            ')'
        } else {
            '}'
        },
    )
}

/// Whether the tokens from `pos` on spell `node`, and every part of it covers the tokens that
/// spell it.
pub open spec fn spells(tokens: TokenTree, pos: int, node: Node) -> bool
    decreases node, 0int,
{
    &&& 0 <= pos
    &&& pos + width(node) <= tokens.count()
    &&& node.span == from_to(tokens, pos, pos + width(node))
    &&& match node.kind {
        NodeKind::Id(name) => tokens.identifier_at(pos) == Some(name),
        NodeKind::Dot(owner, field) => {
            let end = pos + width(*owner);
            &&& is_closed(*owner)
            &&& spells(tokens, pos, *owner)
            &&& tokens.op_at(end, Op::Dot)
            &&& tokens.identifier_at(end + 1) == Some(field)
        },
        NodeKind::Call(callee, arguments) => {
            let end = pos + width(*callee);
            &&& is_closed(*callee)
            &&& spells(tokens, pos, *callee)
            &&& tokens.delimited_at(end, '(') matches Some(list)
            &&& encloses(tokens, end, '(', list)
            &&& spells_arguments(list, 0, arguments)
        },
        NodeKind::If(condition, if_true, if_false) => {
            let block = pos + 1 + width(*condition);
            let end = block + width(*if_true);
            &&& tokens.keyword_at(pos, Keyword::If)
            &&& spells_condition(tokens, pos + 1, *condition)
            &&& if_true.kind is Block
            &&& spells(tokens, block, *if_true)
            &&& match if_false {
                Some(other) => {
                    &&& tokens.keyword_at(end, Keyword::Else)
                    &&& other.kind is Block
                    &&& spells(tokens, end + 1, *other)
                },
                None => true,
            }
        },
        NodeKind::While(condition, body) => {
            &&& tokens.keyword_at(pos, Keyword::While)
            &&& spells_condition(tokens, pos + 1, *condition)
            &&& body.kind is Block
            &&& spells(tokens, pos + 1 + width(*condition), *body)
        },
        NodeKind::Loop(body) => {
            &&& tokens.keyword_at(pos, Keyword::Loop)
            &&& body.kind is Block
            &&& spells(tokens, pos + 1, *body)
        },
        NodeKind::Continue => tokens.keyword_at(pos, Keyword::Continue),
        NodeKind::Break(value) => {
            &&& tokens.keyword_at(pos, Keyword::Break)
            &&& match value {
                Some(value) => spells(tokens, pos + 1, *value),
                None => true,
            }
        },
        NodeKind::Return(value) => {
            &&& tokens.keyword_at(pos, Keyword::Return)
            &&& match value {
                Some(value) => spells(tokens, pos + 1, *value),
                None => true,
            }
        },
        NodeKind::Parenthesized(inner) => {
            &&& tokens.delimited_at(pos, '(') matches Some(group)
            &&& encloses(tokens, pos, '(', group)
            &&& spells(group, 0, *inner)
            &&& width(*inner) == group.count()
        },
        NodeKind::Block(nodes) => {
            &&& tokens.delimited_at(pos, '{') matches Some(group)
            &&& encloses(tokens, pos, '{', group)
            &&& spells_nodes(group, 0, nodes)
        },
        NodeKind::Op(left, op, right) => {
            let end = pos + width(*left);
            &&& is_closed(*left)
            &&& spells(tokens, pos, *left)
            &&& op == Op::Plus || op == Op::Minus || op == Op::Times || op == Op::DividedBy
            &&& tokens.op_at(end, op)
            &&& spells(tokens, end + 1, *right)
        },
        NodeKind::Unary(op, operand) => {
            &&& op == Op::Minus
            &&& tokens.op_at(pos, op)
            &&& spells(tokens, pos + 1, *operand)
        },
        NodeKind::Error => false,
    }
}

/// Whether the tokens from `pos` on spell `node` as a condition: it does not begin with a block,
/// nor would it take the block that follows it.
pub open spec fn spells_condition(tokens: TokenTree, pos: int, node: Node) -> bool
    decreases node, 1int,
{
    &&& !tokens.delimiter_at(pos, '{')
    &&& !ends_bare(node)
    &&& spells(tokens, pos, node)
}

/// Whether all of the tokens from `pos` on spell `nodes`, each of which can end where the next one
/// begins.
pub open spec fn spells_nodes(tokens: TokenTree, pos: int, nodes: Seq<Node>) -> bool
    decreases nodes, 0int,
{
    if nodes.len() == 0 {
        pos == tokens.count()
    } else {
        let end = pos + width(nodes[0]);
        &&& spells(tokens, pos, nodes[0])
        &&& can_end(tokens, end, nodes[0])
        &&& spells_nodes(tokens, end, nodes.drop_first())
    }
}

/// Whether all of the tokens from `pos` on spell `arguments`, each of which can end where the next
/// one begins.
pub open spec fn spells_arguments(tokens: TokenTree, pos: int, arguments: Seq<Argument>) -> bool
    decreases arguments, 0int,
{
    if arguments.len() == 0 {
        pos == tokens.count()
    } else {
        let end = pos + 2 + width(arguments[0].value);
        &&& spells_argument(tokens, pos, arguments[0])
        &&& can_end(tokens, end, arguments[0].value)
        &&& spells_arguments(tokens, end, arguments.drop_first())
    }
}

/// Whether the tokens from `pos` on spell `argument`.
pub open spec fn spells_argument(tokens: TokenTree, pos: int, argument: Argument) -> bool
    decreases argument, 0int,
{
    &&& tokens.identifier_at(pos) == Some(argument.name)
    &&& tokens.op_at(pos + 1, Op::Colon)
    &&& spells(tokens, pos + 2, argument.value)
    &&& argument.name_span == tokens.span_at(pos)
    &&& argument.span == from_to(tokens, pos, pos + 2 + width(argument.value))
}

/// Whether `parsed` is `node`, taken from `pos` on, with nothing to report.
pub open spec fn is_exactly(parsed: Parsed, pos: int, node: Node) -> bool {
    &&& parsed.pos == pos + width(node)
    &&& parsed.errors.len() == 0
    &&& parsed.node == Some(node)
}

/// What is in front of the fields and arguments of `node`.
pub open spec fn head(node: Node) -> Node
    decreases node,
{
    match node.kind {
        NodeKind::Dot(owner, _) => head(*owner),
        NodeKind::Call(callee, _) => head(*callee),
        _ => node,
    }
}

pub proof fn lemma_width_is_positive(tokens: TokenTree, pos: int, node: Node)
    requires
        spells(tokens, pos, node),
    ensures
        width(node) > 0,
        node.span == from_to(tokens, pos, pos + width(node)),
    decreases node,
{
    match node.kind {
        NodeKind::Dot(owner, _) => lemma_width_is_positive(tokens, pos, *owner),
        NodeKind::Call(callee, _) => lemma_width_is_positive(tokens, pos, *callee),
        NodeKind::If(condition, if_true, if_false) => {
            let block = pos + 1 + width(*condition);
            assert(spells_condition(tokens, pos + 1, *condition));
            lemma_width_is_positive(tokens, pos + 1, *condition);
            lemma_width_is_positive(tokens, block, *if_true);
            if let Some(other) = if_false {
                lemma_width_is_positive(tokens, block + width(*if_true) + 1, *other);
            }
        },
        NodeKind::While(condition, body) => {
            assert(spells_condition(tokens, pos + 1, *condition));
            lemma_width_is_positive(tokens, pos + 1, *condition);
            lemma_width_is_positive(tokens, pos + 1 + width(*condition), *body);
        },
        NodeKind::Loop(body) => lemma_width_is_positive(tokens, pos + 1, *body),
        NodeKind::Break(Some(value)) => lemma_width_is_positive(tokens, pos + 1, *value),
        NodeKind::Return(Some(value)) => lemma_width_is_positive(tokens, pos + 1, *value),
        NodeKind::Op(left, _, right) => {
            lemma_width_is_positive(tokens, pos, *left);
            lemma_width_is_positive(tokens, pos + width(*left) + 1, *right);
        },
        NodeKind::Unary(_, operand) => lemma_width_is_positive(tokens, pos + 1, *operand),
        _ => {},
    }
}

/// A block is spelled by its delimiters and what is in them.
proof fn lemma_spelled_block(tokens: TokenTree, pos: int, node: Node)
    requires
        spells(tokens, pos, node),
        node.kind is Block,
    ensures
        width(node) == 3,
        tokens.delimited_at(pos, '{') is Some,
        node.span == from_to(tokens, pos, pos + 3),
{
}

/// Where no expression can begin, none is found and nothing is reported.
pub proof fn lemma_no_expr(tokens: TokenTree, pos: int)
    requires
        0 <= pos <= tokens.count(),
        !can_begin(tokens, pos),
    ensures
        grammar::expr(tokens, pos) == Parsed::nothing(pos),
{
    assert(grammar::expr_0(tokens, pos) == Parsed::nothing(pos));
    assert(grammar::expr_1(tokens, pos) == Parsed::nothing(pos));
    assert(grammar::expr_2(tokens, pos) == Parsed::nothing(pos));
    assert(grammar::expr_3(tokens, pos) == Parsed::nothing(pos));
}

/// Tokens that spell an expression which can end where they end parse to that expression, with
/// nothing to report.
pub proof fn lemma_expr_is_accepted(tokens: TokenTree, pos: int, node: Node)
    requires
        spells(tokens, pos, node),
        can_end(tokens, pos + width(node), node),
    ensures
        is_exactly(grammar::expr(tokens, pos), pos, node),
    decreases node, 5int,
{
    lemma_width_is_positive(tokens, pos, node);
    if node.kind is Op {
        lemma_operation_is_accepted(tokens, pos, node);
    } else {
        if is_closed(node) {
            lemma_closed_is_accepted(tokens, pos, node);
        } else {
            lemma_open_is_accepted(tokens, pos, node);
        }
        lemma_no_operator(tokens, pos, node);
    }
}

/// Which operators make a sum and which make a product.
pub proof fn lemma_operators(tokens: TokenTree, pos: int)
    ensures
        tokens.operator_at(pos, seq![Op::Plus, Op::Minus]) == match tokens.token_at(pos) {
            Some(Token::Op(Op::Plus)) => Some(Op::Plus),
            Some(Token::Op(Op::Minus)) => Some(Op::Minus),
            _ => None,
        },
        tokens.operator_at(pos, seq![Op::DividedBy, Op::Times]) == match tokens.token_at(pos) {
            Some(Token::Op(Op::DividedBy)) => Some(Op::DividedBy),
            Some(Token::Op(Op::Times)) => Some(Op::Times),
            _ => None,
        },
{
    let sums = seq![Op::Plus, Op::Minus];
    let products = seq![Op::DividedBy, Op::Times];
    assert(sums[0] == Op::Plus && sums[1] == Op::Minus);
    assert(products[0] == Op::DividedBy && products[1] == Op::Times);
}

/// An operation on two operands.
#[verifier::rlimit(30)]
proof fn lemma_operation_is_accepted(tokens: TokenTree, pos: int, node: Node)
    requires
        spells(tokens, pos, node),
        node.kind is Op,
        can_end(tokens, pos + width(node), node),
    ensures
        is_exactly(grammar::expr(tokens, pos), pos, node),
    decreases node, 4int,
{
    if let NodeKind::Op(left, op, right) = node.kind {
        let middle = pos + width(*left);
        let end = pos + width(node);
        lemma_width_is_positive(tokens, pos, node);
        lemma_width_is_positive(tokens, pos, *left);
        lemma_width_is_positive(tokens, middle + 1, *right);
        lemma_closed_is_accepted(tokens, pos, *left);
        lemma_expr_is_accepted(tokens, middle + 1, *right);
        let operand = grammar::required_expr(tokens, middle + 1, op);
        assert(is_exactly(operand, middle + 1, *right));
        let base = grammar::expr_1(tokens, pos);
        assert(is_exactly(base, pos, *left));
        let whole = grammar::binary(base, *left, op, operand);
        assert(whole.node->0.span == node.span);
        assert(is_exactly(whole, pos, node));
        lemma_operators(tokens, end);
        lemma_operators(tokens, middle);
        if op == Op::Times || op == Op::DividedBy {
            assert(grammar::expr_2(tokens, pos) == whole);
        } else {
            assert(grammar::expr_2(tokens, pos) == base);
        }
        assert(grammar::expr_3(tokens, pos) == whole);
    }
}

/// No operator follows.
proof fn lemma_no_operator(tokens: TokenTree, pos: int, node: Node)
    requires
        0 <= pos,
        0 < width(node),
        pos + width(node) <= tokens.count(),
        is_exactly(grammar::expr_1(tokens, pos), pos, node),
        can_end(tokens, pos + width(node), node),
    ensures
        is_exactly(grammar::expr(tokens, pos), pos, node),
{
    lemma_operators(tokens, pos + width(node));
    assert(is_exactly(grammar::expr_2(tokens, pos), pos, node));
    assert(is_exactly(grammar::expr_3(tokens, pos), pos, node));
}

/// A closed expression that no field and no arguments follow.
pub proof fn lemma_closed_is_accepted(tokens: TokenTree, pos: int, node: Node)
    requires
        spells(tokens, pos, node),
        is_closed(node),
        !tokens.op_at(pos + width(node), Op::Dot),
        tokens.delimited_at(pos + width(node), '(') is None,
        ends_with_if(node) ==> !tokens.keyword_at(pos + width(node), Keyword::Else),
    ensures
        is_exactly(grammar::expr_1(tokens, pos), pos, node),
    decreases node, 3int,
{
    let end = pos + width(node);
    lemma_chain_is_accepted(tokens, pos, node);
    let first = head(node);
    let start = grammar::expr_0(tokens, pos);
    assert(is_exactly(start, pos, first));
    let stop = grammar::suffixes(tokens, end, node);
    assert(stop.pos == end && stop.errors.len() == 0 && stop.node == Some(node));
}

/// The fields and arguments of a closed expression are read one after the other.
pub proof fn lemma_chain_is_accepted(tokens: TokenTree, pos: int, node: Node)
    requires
        spells(tokens, pos, node),
        is_closed(node),
        ends_with_if(node) ==> !tokens.keyword_at(pos + width(node), Keyword::Else),
    ensures
        0 < width(head(node)) <= width(node),
        is_exactly(grammar::expr_0(tokens, pos), pos, head(node)),
        grammar::suffixes(tokens, pos + width(head(node)), head(node)) == grammar::suffixes(
            tokens,
            pos + width(node),
            node,
        ),
    decreases node, 2int,
{
    let end = pos + width(node);
    match node.kind {
        NodeKind::Dot(owner, field) => {
            let middle = pos + width(*owner);
            lemma_width_is_positive(tokens, pos, *owner);
            lemma_chain_is_accepted(tokens, pos, *owner);
            let access = Node {
                span: owner.span.up_to(tokens.span_at(middle + 1)),
                kind: NodeKind::Dot(Box::new(*owner), field),
            };
            assert(access == node);
            assert(grammar::suffixes(tokens, middle, *owner) == grammar::suffixes(
                tokens,
                middle + 2,
                access,
            ));
        },
        NodeKind::Call(callee, arguments) => {
            let middle = pos + width(*callee);
            lemma_width_is_positive(tokens, pos, *callee);
            lemma_chain_is_accepted(tokens, pos, *callee);
            let list = tokens.delimited_at(middle, '(')->0;
            lemma_arguments_are_accepted(list, 0, arguments);
            let group = grammar::delimited(tokens, middle, '(')->0;
            let call = Node {
                span: callee.span.up_to(group.span),
                kind: NodeKind::Call(
                    Box::new(*callee),
                    grammar::arguments(list, 0).arguments,
                ),
            };
            assert(call == node);
            let rest = grammar::suffixes(tokens, middle + 3, call);
            assert(grammar::suffixes(tokens, middle, *callee) =~= rest);
        },
        _ => lemma_head_is_accepted(tokens, pos, node),
    }
}

/// A block in braces.
pub proof fn lemma_block_is_accepted(tokens: TokenTree, pos: int, node: Node)
    requires
        spells(tokens, pos, node),
        node.kind is Block,
    ensures
        is_exactly(grammar::block_expr(tokens, pos), pos, node),
        width(node) == 3,
    decreases node, 0int,
{
    if let NodeKind::Block(nodes) = node.kind {
        let group = tokens.delimited_at(pos, '{')->0;
        lemma_nodes_are_accepted(group, 0, nodes);
    }
}

/// A closed expression without fields or arguments.
proof fn lemma_head_is_accepted(tokens: TokenTree, pos: int, node: Node)
    requires
        spells(tokens, pos, node),
        is_closed(node),
        node.kind !is Dot,
        node.kind !is Call,
        ends_with_if(node) ==> !tokens.keyword_at(pos + width(node), Keyword::Else),
    ensures
        is_exactly(grammar::expr_0(tokens, pos), pos, node),
        width(node) > 0,
    decreases node, 1int,
{
    lemma_width_is_positive(tokens, pos, node);
    match node.kind {
        NodeKind::If(_, _, _) => lemma_if_is_accepted(tokens, pos, node),
        NodeKind::While(_, _) => lemma_while_is_accepted(tokens, pos, node),
        NodeKind::Loop(_) => lemma_loop_is_accepted(tokens, pos, node),
        NodeKind::Block(_) => {
            lemma_block_is_accepted(tokens, pos, node);
            assert(tokens.delimited_at(pos, '{') is Some);
        },
        NodeKind::Parenthesized(_) => lemma_group_is_accepted(tokens, pos, node),
        _ => {},
    }
}

/// An `if`.
#[verifier::rlimit(30)]
proof fn lemma_if_is_accepted(tokens: TokenTree, pos: int, node: Node)
    requires
        spells(tokens, pos, node),
        node.kind is If,
        node.kind->If_2 is None ==> !tokens.keyword_at(pos + width(node), Keyword::Else),
    ensures
        is_exactly(grammar::expr_0(tokens, pos), pos, node),
    decreases node, 0int,
{
    if let NodeKind::If(condition, if_true, if_false) = node.kind {
        let block = pos + 1 + width(*condition);
        assert(spells_condition(tokens, pos + 1, *condition));
        lemma_width_is_positive(tokens, pos + 1, *condition);
        lemma_spelled_block(tokens, block, *if_true);
        lemma_condition_is_accepted(tokens, pos + 1, *condition);
        lemma_block_is_accepted(tokens, block, *if_true);
        let body = grammar::required_block(tokens, block, Keyword::If);
        assert(is_exactly(body, block, *if_true));
        if let Some(other) = if_false {
            lemma_block_is_accepted(tokens, block + 4, *other);
            let rest = grammar::required_block(tokens, block + 4, Keyword::Else);
            assert(is_exactly(rest, block + 4, *other));
        }
    }
}

/// A `while`.
#[verifier::rlimit(30)]
proof fn lemma_while_is_accepted(tokens: TokenTree, pos: int, node: Node)
    requires
        spells(tokens, pos, node),
        node.kind is While,
    ensures
        is_exactly(grammar::expr_0(tokens, pos), pos, node),
    decreases node, 0int,
{
    if let NodeKind::While(condition, body) = node.kind {
        let block = pos + 1 + width(*condition);
        assert(spells_condition(tokens, pos + 1, *condition));
        lemma_width_is_positive(tokens, pos + 1, *condition);
        lemma_spelled_block(tokens, block, *body);
        lemma_condition_is_accepted(tokens, pos + 1, *condition);
        lemma_block_is_accepted(tokens, block, *body);
        let rest = grammar::required_block(tokens, block, Keyword::While);
        assert(is_exactly(rest, block, *body));
    }
}

/// A `loop`.
#[verifier::rlimit(30)]
proof fn lemma_loop_is_accepted(tokens: TokenTree, pos: int, node: Node)
    requires
        spells(tokens, pos, node),
        node.kind is Loop,
    ensures
        is_exactly(grammar::expr_0(tokens, pos), pos, node),
    decreases node, 0int,
{
    if let NodeKind::Loop(body) = node.kind {
        lemma_block_is_accepted(tokens, pos + 1, *body);
        let rest = grammar::required_block(tokens, pos + 1, Keyword::Loop);
        assert(is_exactly(rest, pos + 1, *body));
    }
}

/// An expression in parentheses.
#[verifier::rlimit(30)]
proof fn lemma_group_is_accepted(tokens: TokenTree, pos: int, node: Node)
    requires
        spells(tokens, pos, node),
        node.kind is Parenthesized,
    ensures
        is_exactly(grammar::expr_0(tokens, pos), pos, node),
    decreases node, 0int,
{
    if let NodeKind::Parenthesized(inner) = node.kind {
        let group = tokens.delimited_at(pos, '(')->0;
        assert(can_end(group, group.count(), *inner));
        lemma_expr_is_accepted(group, 0, *inner);
        let only = grammar::only_expr(group, 0);
        assert(is_exactly(only, 0, *inner));
    }
}

/// A condition, which a block follows.
pub proof fn lemma_condition_is_accepted(tokens: TokenTree, pos: int, node: Node)
    requires
        spells_condition(tokens, pos, node),
        tokens.delimited_at(pos + width(node), '{') is Some,
    ensures
        is_exactly(grammar::condition(tokens, pos), pos, node),
    decreases node, 6int,
{
    lemma_expr_is_accepted(tokens, pos, node);
}

/// An expression that extends as far as it can, other than an operation on two operands.
proof fn lemma_open_is_accepted(tokens: TokenTree, pos: int, node: Node)
    requires
        spells(tokens, pos, node),
        !is_closed(node),
        node.kind !is Op,
        can_end(tokens, pos + width(node), node),
    ensures
        is_exactly(grammar::expr_1(tokens, pos), pos, node),
    decreases node, 1int,
{
    let end = pos + width(node);
    match node.kind {
        NodeKind::Break(Some(value)) => {
            lemma_width_is_positive(tokens, pos + 1, *value);
            lemma_expr_is_accepted(tokens, pos + 1, *value);
        },
        NodeKind::Return(Some(value)) => {
            lemma_width_is_positive(tokens, pos + 1, *value);
            lemma_expr_is_accepted(tokens, pos + 1, *value);
        },
        NodeKind::Unary(op, operand) => {
            lemma_width_is_positive(tokens, pos + 1, *operand);
            lemma_expr_is_accepted(tokens, pos + 1, *operand);
            assert(is_exactly(
                grammar::required_expr(tokens, pos + 1, op),
                pos + 1,
                *operand,
            ));
        },
        _ => lemma_no_expr(tokens, pos + 1),
    }
    assert(is_exactly(grammar::expr_0(tokens, pos), pos, node));
    let stop = grammar::suffixes(tokens, end, node);
    assert(stop.pos == end && stop.errors.len() == 0 && stop.node == Some(node));
}

/// Tokens that spell a series of expressions parse to that series, with nothing to report.
pub proof fn lemma_nodes_are_accepted(tokens: TokenTree, pos: int, nodes: Seq<Node>)
    requires
        0 <= pos,
        spells_nodes(tokens, pos, nodes),
    ensures
        grammar::block_contents(tokens, pos).errors.len() == 0,
        grammar::block_contents(tokens, pos).nodes == nodes,
    decreases nodes, 6int,
{
    if nodes.len() > 0 {
        let end = pos + width(nodes[0]);
        lemma_width_is_positive(tokens, pos, nodes[0]);
        lemma_expr_is_accepted(tokens, pos, nodes[0]);
        lemma_nodes_are_accepted(tokens, end, nodes.drop_first());
        assert(spells(tokens, pos, nodes[0]));
        assert(grammar::expr(tokens, pos).advances(tokens, pos));
        let rest = grammar::block_contents(tokens, end).nodes;
        assert(grammar::block_contents(tokens, pos).nodes =~= seq![nodes[0]] + rest);
        assert(seq![nodes[0]] + nodes.drop_first() =~= nodes);
    } else {
        assert(grammar::block_contents(tokens, pos).nodes =~= nodes);
    }
}

/// Tokens that spell an argument parse to that argument, with nothing to report.
pub proof fn lemma_argument_is_accepted(tokens: TokenTree, pos: int, argument: Argument)
    requires
        0 <= pos,
        spells_argument(tokens, pos, argument),
        can_end(tokens, pos + 2 + width(argument.value), argument.value),
    ensures
        ({
            let parsed = grammar::argument(tokens, pos);
            &&& parsed.pos == pos + 2 + width(argument.value)
            &&& parsed.errors.len() == 0
            &&& parsed.argument == Some(argument)
        }),
    decreases argument, 6int,
{
    lemma_width_is_positive(tokens, pos + 2, argument.value);
    lemma_expr_is_accepted(tokens, pos + 2, argument.value);
}

/// Tokens that spell a series of arguments parse to that series, with nothing to report.
pub proof fn lemma_arguments_are_accepted(
    tokens: TokenTree,
    pos: int,
    arguments: Seq<Argument>,
)
    requires
        0 <= pos,
        spells_arguments(tokens, pos, arguments),
    ensures
        grammar::arguments(tokens, pos).errors.len() == 0,
        grammar::arguments(tokens, pos).arguments == arguments,
    decreases arguments, 7int,
{
    if arguments.len() > 0 {
        let end = pos + 2 + width(arguments[0].value);
        assert(spells_argument(tokens, pos, arguments[0]));
        lemma_width_is_positive(tokens, pos + 2, arguments[0].value);
        lemma_argument_is_accepted(tokens, pos, arguments[0]);
        lemma_arguments_are_accepted(tokens, end, arguments.drop_first());
        assert(seq![arguments[0]] + arguments.drop_first() =~= arguments);
    } else {
        assert(grammar::arguments(tokens, pos).arguments =~= arguments);
    }
}

/// Tokens that spell one expression, and nothing else, parse as a single expression with nothing
/// to report.
pub proof fn lemma_only_expr_is_accepted(tokens: TokenTree, pos: int, node: Node)
    requires
        spells(tokens, pos, node),
        pos + width(node) == tokens.count(),
    ensures
        is_exactly(grammar::only_expr(tokens, pos), pos, node),
{
    lemma_expr_is_accepted(tokens, pos, node);
}

/// Parentheses may stand around any expression: where all that is in them parses as an expression
/// with nothing to report, they parse, with nothing to report, as that expression in parentheses.
pub proof fn lemma_parentheses_hold_any_expr(tokens: TokenTree, pos: int, inside: TokenTree)
    requires
        0 <= pos,
        encloses(tokens, pos, '(', inside),
        grammar::expr(inside, 0).node is Some,
        grammar::expr(inside, 0).errors.len() == 0,
        grammar::expr(inside, 0).pos == inside.count(),
    ensures
        is_exactly(
            grammar::expr_0(tokens, pos),
            pos,
            Node {
                span: from_to(tokens, pos, pos + 3),
                kind: NodeKind::Parenthesized(Box::new(grammar::expr(inside, 0).node->0)),
            },
        ),
{
}

/// The value of an argument is any expression: where an expression follows `name :` with nothing
/// to report, the argument takes all of its tokens, has it as its value, and reports nothing.
pub proof fn lemma_argument_holds_any_expr(tokens: TokenTree, pos: int)
    requires
        0 <= pos,
        tokens.identifier_at(pos) is Some,
        tokens.op_at(pos + 1, Op::Colon),
        grammar::expr(tokens, pos + 2).node is Some,
        grammar::expr(tokens, pos + 2).errors.len() == 0,
    ensures
        ({
            let value = grammar::expr(tokens, pos + 2);
            let parsed = grammar::argument(tokens, pos);
            &&& parsed.pos == value.pos
            &&& parsed.errors.len() == 0
            &&& parsed.argument == Some(
                Argument {
                    span: from_to(tokens, pos, value.pos),
                    name_span: tokens.span_at(pos),
                    name: tokens.identifier_at(pos)->0,
                    value: value.node->0,
                },
            )
        }),
{
}

} // verus!
