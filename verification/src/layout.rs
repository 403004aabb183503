//! How a tree is laid out in tables: each part before the whole that it belongs to.
use vstd::prelude::*;

use crate::grammar::{Argument, Node, NodeKind};
use crate::syntax::{Arena, Expr, ExprShape, NamedExpr, NamedExprData, NamedExprSpan};

verus! {

/// The arena once `node` has been added to it. The expression that stands for `node` itself is
/// the last one.
pub open spec fn lay(arena: Arena, node: Node) -> Arena
    decreases node,
{
    match node.kind {
        NodeKind::Id(name) => arena.add_expr(ExprShape::Id(name), node.span),
        NodeKind::Dot(owner, field) => {
            let a = lay(arena, *owner);
            a.add_expr(ExprShape::Dot(a.last_expr(), field), node.span)
        },
        NodeKind::Call(callee, arguments) => {
            let a = lay(arena, *callee);
            let (b, named) = lay_arguments(a, arguments);
            b.add_expr(ExprShape::Call(a.last_expr(), named), node.span)
        },
        NodeKind::If(condition, if_true, if_false) => {
            let a = lay(arena, *condition);
            let b = lay(a, *if_true);
            match if_false {
                Some(other) => {
                    let c = lay(b, *other);
                    c.add_expr(
                        ExprShape::If(a.last_expr(), b.last_expr(), Some(c.last_expr())),
                        node.span,
                    )
                },
                None => b.add_expr(
                    ExprShape::If(a.last_expr(), b.last_expr(), None),
                    node.span,
                ),
            }
        },
        NodeKind::While(condition, body) => {
            let a = lay(arena, *condition);
            let b = lay(a, *body);
            b.add_expr(ExprShape::While(a.last_expr(), b.last_expr()), node.span)
        },
        NodeKind::Loop(body) => {
            let a = lay(arena, *body);
            a.add_expr(ExprShape::Loop(a.last_expr()), node.span)
        },
        NodeKind::Continue => arena.add_expr(ExprShape::Continue, node.span),
        NodeKind::Break(Some(value)) => {
            let a = lay(arena, *value);
            a.add_expr(ExprShape::Break(Some(a.last_expr())), node.span)
        },
        NodeKind::Break(None) => arena.add_expr(ExprShape::Break(None), node.span),
        NodeKind::Return(Some(value)) => {
            let a = lay(arena, *value);
            a.add_expr(ExprShape::Return(Some(a.last_expr())), node.span)
        },
        NodeKind::Return(None) => arena.add_expr(ExprShape::Return(None), node.span),
        NodeKind::Parenthesized(inner) => {
            let a = lay(arena, *inner);
            a.add_expr(ExprShape::Parenthesized(a.last_expr()), node.span)
        },
        NodeKind::Block(nodes) => {
            let (a, exprs) = lay_nodes(arena, nodes);
            let b = a.add_block(exprs);
            b.add_expr(ExprShape::Block(b.last_block()), node.span)
        },
        NodeKind::Op(left, op, right) => {
            let a = lay(arena, *left);
            let b = lay(a, *right);
            b.add_expr(ExprShape::Op(a.last_expr(), op, b.last_expr()), node.span)
        },
        NodeKind::Unary(op, operand) => {
            let a = lay(arena, *operand);
            a.add_expr(ExprShape::Unary(op, a.last_expr()), node.span)
        },
        NodeKind::Error => arena.add_expr(ExprShape::Error, node.span),
    }
}

/// The arena once all of `nodes` have been added to it, and the expressions that stand for them.
pub open spec fn lay_nodes(arena: Arena, nodes: Seq<Node>) -> (Arena, Seq<Expr>)
    decreases nodes,
{
    if nodes.len() == 0 {
        (arena, seq![])
    } else {
        let (a, exprs) = lay_nodes(arena, nodes.drop_last());
        let b = lay(a, nodes.last());
        (b, exprs.push(b.last_expr()))
    }
}

/// The arena once all of `arguments` have been added to it, and the named expressions that stand
/// for them.
pub open spec fn lay_arguments(arena: Arena, arguments: Seq<Argument>) -> (Arena, Seq<NamedExpr>)
    decreases arguments,
{
    if arguments.len() == 0 {
        (arena, seq![])
    } else {
        let (a, named) = lay_arguments(arena, arguments.drop_last());
        let b = lay_argument(a, arguments.last());
        (b, named.push(b.last_named_expr()))
    }
}

/// The arena once `argument` has been added to it: its value, then the argument itself, which is
/// the last named expression.
pub open spec fn lay_argument(arena: Arena, argument: Argument) -> Arena
    decreases argument,
{
    let a = lay(arena, argument.value);
    a.add_named_expr(
        NamedExprData { name: argument.name, expr: a.last_expr() },
        NamedExprSpan { span: argument.span, name_span: argument.name_span },
    )
}

/// Laying out a tree leaves what the arena held where it was, gives every new expression a span,
/// and ends with the expression that stands for the tree as a whole.
pub proof fn lemma_lay_grows(arena: Arena, node: Node)
    requires
        arena.well_formed(),
    ensures
        lay(arena, node).well_formed(),
        arena.grows_to(lay(arena, node)),
        arena.exprs.len() < lay(arena, node).exprs.len(),
        lay(arena, node).expr_spans.last() == node.span,
    decreases node,
{
    match node.kind {
        NodeKind::Dot(owner, _) => lemma_lay_grows(arena, *owner),
        NodeKind::Call(callee, arguments) => {
            lemma_lay_grows(arena, *callee);
            lemma_lay_arguments_grows(lay(arena, *callee), arguments);
        },
        NodeKind::If(condition, if_true, if_false) => {
            lemma_lay_grows(arena, *condition);
            let a = lay(arena, *condition);
            lemma_lay_grows(a, *if_true);
            if let Some(other) = if_false {
                lemma_lay_grows(lay(a, *if_true), *other);
            }
        },
        NodeKind::While(condition, body) => {
            lemma_lay_grows(arena, *condition);
            lemma_lay_grows(lay(arena, *condition), *body);
        },
        NodeKind::Loop(body) => lemma_lay_grows(arena, *body),
        NodeKind::Break(Some(value)) => lemma_lay_grows(arena, *value),
        NodeKind::Return(Some(value)) => lemma_lay_grows(arena, *value),
        NodeKind::Parenthesized(inner) => lemma_lay_grows(arena, *inner),
        NodeKind::Block(nodes) => lemma_lay_nodes_grows(arena, nodes),
        NodeKind::Op(left, _, right) => {
            lemma_lay_grows(arena, *left);
            lemma_lay_grows(lay(arena, *left), *right);
        },
        NodeKind::Unary(_, operand) => lemma_lay_grows(arena, *operand),
        _ => {},
    }
}

/// The span of a laid out tree can be found under its expression, also after more has been added.
pub proof fn lemma_span_kept(arena: Arena, node: Node, later: Arena)
    requires
        arena.well_formed(),
        lay(arena, node).exprs.len() <= usize::MAX,
        lay(arena, node).grows_to(later),
        later.well_formed(),
    ensures
        lay(arena, node).last_expr().index < later.exprs.len(),
        later.expr_spans[lay(arena, node).last_expr().index as int] == node.span,
{
    lemma_lay_grows(arena, node);
    let laid = lay(arena, node);
    let i = laid.last_expr().index as int;
    assert(later.expr_spans.subrange(0, laid.expr_spans.len() as int)[i] == laid.expr_spans[i]);
}

/// Laying out a series of trees leaves what the arena held where it was.
pub proof fn lemma_lay_nodes_grows(arena: Arena, nodes: Seq<Node>)
    requires
        arena.well_formed(),
    ensures
        lay_nodes(arena, nodes).0.well_formed(),
        arena.grows_to(lay_nodes(arena, nodes).0),
        lay_nodes(arena, nodes).1.len() == nodes.len(),
    decreases nodes,
{
    if nodes.len() > 0 {
        lemma_lay_nodes_grows(arena, nodes.drop_last());
        lemma_lay_grows(lay_nodes(arena, nodes.drop_last()).0, nodes.last());
    }
}

/// Laying out a series of arguments leaves what the arena held where it was.
pub proof fn lemma_lay_arguments_grows(arena: Arena, arguments: Seq<Argument>)
    requires
        arena.well_formed(),
    ensures
        lay_arguments(arena, arguments).0.well_formed(),
        arena.grows_to(lay_arguments(arena, arguments).0),
        lay_arguments(arena, arguments).1.len() == arguments.len(),
    decreases arguments,
{
    if arguments.len() > 0 {
        lemma_lay_arguments_grows(arena, arguments.drop_last());
        lemma_lay_argument_grows(
            lay_arguments(arena, arguments.drop_last()).0,
            arguments.last(),
        );
    }
}

/// Laying out an argument leaves what the arena held where it was.
pub proof fn lemma_lay_argument_grows(arena: Arena, argument: Argument)
    requires
        arena.well_formed(),
    ensures
        lay_argument(arena, argument).well_formed(),
        arena.grows_to(lay_argument(arena, argument)),
    decreases argument,
{
    lemma_lay_grows(arena, argument.value);
}

/// Whether entry `part` stands before entry `whole`, and `node` can be read back from it.
pub open spec fn holds_part(arena: Arena, whole: Expr, part: Expr, node: Node) -> bool
    decreases node, 1int,
{
    part.index < whole.index && holds(arena, part, node)
}

/// Whether `node` can be read back from the tables, starting at `expr`. Every part stands before
/// the whole that it belongs to.
pub open spec fn holds(arena: Arena, expr: Expr, node: Node) -> bool
    decreases node, 0int,
{
    &&& expr.index < arena.exprs.len()
    &&& arena.expr_spans[expr.index as int] == node.span
    &&& match (arena.exprs[expr.index as int], node.kind) {
        (ExprShape::Id(name), NodeKind::Id(word)) => name == word,
        (ExprShape::Dot(owner, field), NodeKind::Dot(base, word)) => {
            holds_part(arena, expr, owner, *base) && field == word
        },
        (ExprShape::Call(callee, named), NodeKind::Call(base, arguments)) => {
            &&& holds_part(arena, expr, callee, *base)
            &&& holds_arguments(arena, expr, named, arguments)
        },
        (ExprShape::If(condition, if_true, if_false), NodeKind::If(test, yes, no)) => {
            &&& holds_part(arena, expr, condition, *test)
            &&& holds_part(arena, expr, if_true, *yes)
            &&& holds_option(arena, expr, if_false, no)
        },
        (ExprShape::While(condition, body), NodeKind::While(test, block)) => {
            holds_part(arena, expr, condition, *test) && holds_part(arena, expr, body, *block)
        },
        (ExprShape::Loop(body), NodeKind::Loop(block)) => holds_part(arena, expr, body, *block),
        (ExprShape::Continue, NodeKind::Continue) => true,
        (ExprShape::Break(value), NodeKind::Break(inner)) => {
            holds_option(arena, expr, value, inner)
        },
        (ExprShape::Return(value), NodeKind::Return(inner)) => {
            holds_option(arena, expr, value, inner)
        },
        (ExprShape::Parenthesized(part), NodeKind::Parenthesized(inner)) => {
            holds_part(arena, expr, part, *inner)
        },
        (ExprShape::Block(block), NodeKind::Block(nodes)) => {
            &&& block.index < arena.blocks.len()
            &&& holds_nodes(arena, expr, arena.blocks[block.index as int], nodes)
        },
        (ExprShape::Op(left, op, right), NodeKind::Op(lhs, operator, rhs)) => {
            &&& holds_part(arena, expr, left, *lhs)
            &&& op == operator
            &&& holds_part(arena, expr, right, *rhs)
        },
        (ExprShape::Unary(op, part), NodeKind::Unary(operator, operand)) => {
            op == operator && holds_part(arena, expr, part, *operand)
        },
        (ExprShape::Error, NodeKind::Error) => true,
        _ => false,
    }
}

/// Whether there is a `part` exactly if there is a `node`, and the one can be read back from the
/// other.
pub open spec fn holds_option(
    arena: Arena,
    whole: Expr,
    part: Option<Expr>,
    node: Option<Box<Node>>,
) -> bool
    decreases node, 0int,
{
    match (part, node) {
        (Some(part), Some(node)) => holds_part(arena, whole, part, *node),
        (None, None) => true,
        _ => false,
    }
}

/// Whether `nodes` can be read back from `parts`, one from each.
pub open spec fn holds_nodes(arena: Arena, whole: Expr, parts: Seq<Expr>, nodes: Seq<Node>) -> bool
    decreases nodes, 0int,
{
    &&& parts.len() == nodes.len()
    &&& forall|k: int|
        #![trigger parts[k]]
        #![trigger nodes[k]]
        0 <= k < nodes.len() ==> holds_part(arena, whole, parts[k], nodes[k])
}

/// Whether `arguments` can be read back from `named`, one from each.
pub open spec fn holds_arguments(
    arena: Arena,
    whole: Expr,
    named: Seq<NamedExpr>,
    arguments: Seq<Argument>,
) -> bool
    decreases arguments, 0int,
{
    &&& named.len() == arguments.len()
    &&& forall|k: int|
        #![trigger named[k]]
        #![trigger arguments[k]]
        0 <= k < arguments.len() ==> holds_argument(arena, whole, named[k], arguments[k])
}

/// Whether `argument` can be read back from `named`.
pub open spec fn holds_argument(
    arena: Arena,
    whole: Expr,
    named: NamedExpr,
    argument: Argument,
) -> bool
    decreases argument, 0int,
{
    &&& named.index < arena.named_exprs.len()
    &&& arena.named_exprs[named.index as int].name == argument.name
    &&& arena.named_expr_spans[named.index as int] == NamedExprSpan {
        span: argument.span,
        name_span: argument.name_span,
    }
    &&& holds_part(arena, whole, arena.named_exprs[named.index as int].expr, argument.value)
}

/// Whether the entries of `arena` can be counted.
pub open spec fn fits(arena: Arena) -> bool {
    &&& arena.exprs.len() <= usize::MAX
    &&& arena.named_exprs.len() <= usize::MAX
    &&& arena.blocks.len() <= usize::MAX
}

/// What can be read back from the tables can be read back after more has been added.
pub proof fn lemma_held_after_growth(arena: Arena, later: Arena, expr: Expr, node: Node)
    requires
        arena.well_formed(),
        arena.grows_to(later),
        holds(arena, expr, node),
    ensures
        holds(later, expr, node),
    decreases node, 0int,
{
    let i = expr.index as int;
    assert(later.exprs[i] == arena.exprs[i]);
    assert(later.expr_spans[i] == arena.expr_spans[i]);
    match (arena.exprs[i], node.kind) {
        (ExprShape::Dot(owner, _), NodeKind::Dot(base, _)) => {
            lemma_held_after_growth(arena, later, owner, *base);
        },
        (ExprShape::Call(callee, named), NodeKind::Call(base, arguments)) => {
            lemma_held_after_growth(arena, later, callee, *base);
            assert forall|k: int|
                #![trigger named[k]]
                #![trigger arguments[k]]
                0 <= k < arguments.len() implies holds_argument(
                later,
                expr,
                named[k],
                arguments[k],
            ) by {
                assert(holds_argument(arena, expr, named[k], arguments[k]));
                let n = named[k].index as int;
                assert(later.named_exprs[n] == arena.named_exprs[n]);
                assert(later.named_expr_spans[n] == arena.named_expr_spans[n]);
                lemma_held_after_growth(
                    arena,
                    later,
                    arena.named_exprs[n].expr,
                    arguments[k].value,
                );
            }
        },
        (ExprShape::If(condition, if_true, if_false), NodeKind::If(test, yes, no)) => {
            lemma_held_after_growth(arena, later, condition, *test);
            lemma_held_after_growth(arena, later, if_true, *yes);
            lemma_option_held_after_growth(arena, later, expr, if_false, no);
        },
        (ExprShape::While(condition, body), NodeKind::While(test, block)) => {
            lemma_held_after_growth(arena, later, condition, *test);
            lemma_held_after_growth(arena, later, body, *block);
        },
        (ExprShape::Loop(body), NodeKind::Loop(block)) => {
            lemma_held_after_growth(arena, later, body, *block);
        },
        (ExprShape::Break(value), NodeKind::Break(inner)) => {
            lemma_option_held_after_growth(arena, later, expr, value, inner);
        },
        (ExprShape::Return(value), NodeKind::Return(inner)) => {
            lemma_option_held_after_growth(arena, later, expr, value, inner);
        },
        (ExprShape::Parenthesized(part), NodeKind::Parenthesized(inner)) => {
            lemma_held_after_growth(arena, later, part, *inner);
        },
        (ExprShape::Block(block), NodeKind::Block(nodes)) => {
            assert(later.blocks[block.index as int] == arena.blocks[block.index as int]);
            let parts = arena.blocks[block.index as int];
            assert forall|k: int|
                #![trigger parts[k]]
                #![trigger nodes[k]]
                0 <= k < nodes.len() implies holds_part(
                later,
                expr,
                parts[k],
                nodes[k],
            ) by {
                assert(holds_part(arena, expr, parts[k], nodes[k]));
                lemma_held_after_growth(arena, later, parts[k], nodes[k]);
            }
        },
        (ExprShape::Op(left, _, right), NodeKind::Op(lhs, _, rhs)) => {
            lemma_held_after_growth(arena, later, left, *lhs);
            lemma_held_after_growth(arena, later, right, *rhs);
        },
        (ExprShape::Unary(_, part), NodeKind::Unary(_, operand)) => {
            lemma_held_after_growth(arena, later, part, *operand);
        },
        _ => {},
    }
}

proof fn lemma_option_held_after_growth(
    arena: Arena,
    later: Arena,
    whole: Expr,
    part: Option<Expr>,
    node: Option<Box<Node>>,
)
    requires
        arena.well_formed(),
        arena.grows_to(later),
        holds_option(arena, whole, part, node),
    ensures
        holds_option(later, whole, part, node),
    decreases node, 0int,
{
    if let (Some(part), Some(node)) = (part, node) {
        assert(holds_part(arena, whole, part, *node));
        lemma_held_after_growth(arena, later, part, *node);
        assert(holds_part(later, whole, part, *node));
    }
}

/// A part that has been laid out can be read back later, and stands before what comes later.
proof fn lemma_part_can_be_read_back(arena: Arena, node: Node, later: Arena, whole: Expr)
    requires
        arena.well_formed(),
        fits(lay(arena, node)),
        lay(arena, node).grows_to(later),
        lay(arena, node).exprs.len() <= whole.index,
    ensures
        holds_part(later, whole, lay(arena, node).last_expr(), node),
    decreases node, 1int,
{
    lemma_lay_grows(arena, node);
    lemma_tree_can_be_read_back(arena, node);
    lemma_held_after_growth(lay(arena, node), later, lay(arena, node).last_expr(), node);
}

/// A tree that has been laid out can be read back from the tables, and every part of it stands
/// before the whole that it belongs to.
#[verifier::rlimit(60)]
#[verifier::spinoff_prover]
pub proof fn lemma_tree_can_be_read_back(arena: Arena, node: Node)
    requires
        arena.well_formed(),
        fits(lay(arena, node)),
    ensures
        holds(lay(arena, node), lay(arena, node).last_expr(), node),
    decreases node, 0int,
{
    let laid = lay(arena, node);
    let whole = laid.last_expr();
    lemma_lay_grows(arena, node);
    match node.kind {
        NodeKind::Dot(owner, _) => {
            lemma_lay_grows(arena, *owner);
            lemma_part_can_be_read_back(arena, *owner, laid, whole);
        },
        NodeKind::Call(callee, arguments) => {
            let a = lay(arena, *callee);
            lemma_lay_grows(arena, *callee);
            lemma_lay_arguments_grows(a, arguments);
            lemma_part_can_be_read_back(arena, *callee, laid, whole);
            lemma_arguments_can_be_read_back(a, arguments, laid, whole);
        },
        NodeKind::If(condition, if_true, if_false) => {
            let a = lay(arena, *condition);
            let b = lay(a, *if_true);
            lemma_lay_grows(arena, *condition);
            lemma_lay_grows(a, *if_true);
            if let Some(other) = if_false {
                lemma_lay_grows(b, *other);
                lemma_part_can_be_read_back(b, *other, laid, whole);
                assert(holds_option(laid, whole, Some(lay(b, *other).last_expr()), if_false));
            }
            lemma_part_can_be_read_back(arena, *condition, laid, whole);
            lemma_part_can_be_read_back(a, *if_true, laid, whole);
        },
        NodeKind::While(condition, body) => {
            let a = lay(arena, *condition);
            lemma_lay_grows(arena, *condition);
            lemma_lay_grows(a, *body);
            lemma_part_can_be_read_back(arena, *condition, laid, whole);
            lemma_part_can_be_read_back(a, *body, laid, whole);
        },
        NodeKind::Loop(body) => {
            lemma_lay_grows(arena, *body);
            lemma_part_can_be_read_back(arena, *body, laid, whole);
        },
        NodeKind::Break(Some(value)) => {
            lemma_lay_grows(arena, *value);
            lemma_part_can_be_read_back(arena, *value, laid, whole);
            assert(holds_option(laid, whole, Some(lay(arena, *value).last_expr()), Some(value)));
        },
        NodeKind::Return(Some(value)) => {
            lemma_lay_grows(arena, *value);
            lemma_part_can_be_read_back(arena, *value, laid, whole);
            assert(holds_option(laid, whole, Some(lay(arena, *value).last_expr()), Some(value)));
        },
        NodeKind::Parenthesized(inner) => {
            lemma_lay_grows(arena, *inner);
            lemma_part_can_be_read_back(arena, *inner, laid, whole);
        },
        NodeKind::Block(nodes) => {
            lemma_lay_nodes_grows(arena, nodes);
            lemma_nodes_can_be_read_back(arena, nodes, laid, whole);
        },
        NodeKind::Op(left, _, right) => {
            let a = lay(arena, *left);
            lemma_lay_grows(arena, *left);
            lemma_lay_grows(a, *right);
            lemma_part_can_be_read_back(arena, *left, laid, whole);
            lemma_part_can_be_read_back(a, *right, laid, whole);
        },
        NodeKind::Unary(_, operand) => {
            lemma_lay_grows(arena, *operand);
            lemma_part_can_be_read_back(arena, *operand, laid, whole);
        },
        _ => {},
    }
}

/// A series of trees that has been laid out can be read back from the tables.
pub proof fn lemma_nodes_can_be_read_back(
    arena: Arena,
    nodes: Seq<Node>,
    later: Arena,
    whole: Expr,
)
    requires
        arena.well_formed(),
        fits(lay_nodes(arena, nodes).0),
        lay_nodes(arena, nodes).0.grows_to(later),
        lay_nodes(arena, nodes).0.exprs.len() <= whole.index,
    ensures
        holds_nodes(later, whole, lay_nodes(arena, nodes).1, nodes),
    decreases nodes, 0int,
{
    lemma_lay_nodes_grows(arena, nodes);
    if nodes.len() > 0 {
        let (a, parts) = lay_nodes(arena, nodes.drop_last());
        lemma_lay_nodes_grows(arena, nodes.drop_last());
        lemma_lay_grows(a, nodes.last());
        lemma_nodes_can_be_read_back(arena, nodes.drop_last(), later, whole);
        lemma_part_can_be_read_back(a, nodes.last(), later, whole);
        let all = lay_nodes(arena, nodes).1;
        assert forall|k: int|
            #![trigger all[k]]
            #![trigger nodes[k]]
            0 <= k < nodes.len() implies holds_part(
            later,
            whole,
            all[k],
            nodes[k],
        ) by {
            if k < nodes.len() - 1 {
                assert(all[k] == parts[k]);
                assert(nodes[k] == nodes.drop_last()[k]);
            }
        }
    }
}

proof fn lemma_arguments_can_be_read_back(
    arena: Arena,
    arguments: Seq<Argument>,
    later: Arena,
    whole: Expr,
)
    requires
        arena.well_formed(),
        fits(lay_arguments(arena, arguments).0),
        lay_arguments(arena, arguments).0.grows_to(later),
        lay_arguments(arena, arguments).0.exprs.len() <= whole.index,
    ensures
        holds_arguments(later, whole, lay_arguments(arena, arguments).1, arguments),
    decreases arguments, 0int,
{
    lemma_lay_arguments_grows(arena, arguments);
    if arguments.len() > 0 {
        let (a, named) = lay_arguments(arena, arguments.drop_last());
        let last = arguments.last();
        let b = lay(a, last.value);
        let c = lay_argument(a, last);
        lemma_lay_arguments_grows(arena, arguments.drop_last());
        lemma_lay_argument_grows(a, last);
        lemma_lay_grows(a, last.value);
        lemma_arguments_can_be_read_back(arena, arguments.drop_last(), later, whole);
        lemma_part_can_be_read_back(a, last.value, later, whole);
        let all = lay_arguments(arena, arguments).1;
        let n = c.last_named_expr().index as int;
        assert(later.named_exprs[n] == c.named_exprs[n]);
        assert(later.named_expr_spans[n] == c.named_expr_spans[n]);
        assert forall|k: int|
            #![trigger all[k]]
            #![trigger arguments[k]]
            0 <= k < arguments.len() implies holds_argument(
            later,
            whole,
            all[k],
            arguments[k],
        ) by {
            if k < arguments.len() - 1 {
                assert(all[k] == named[k]);
                assert(arguments[k] == arguments.drop_last()[k]);
            }
        }
    }
}

} // verus!
