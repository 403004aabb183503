//! A block that has come to its end is never touched again.
use vstd::prelude::*;

use crate::bir::{
    BasicBlock, Code, ExprShape, Place, StatementData, TerminatorExprShape, TerminatorShape,
};
use crate::growth;
use crate::reach;
use crate::recipe;
use crate::recipe::{Draft, LoopContext};
use crate::validated;
use crate::validated::{ExprData, ExprOrigin, Tree};

verus! {

/// Whether the block at whose end `draft` grows has no end yet.
#[verifier::opaque]
pub open spec fn is_open(draft: Draft) -> bool {
    draft.end matches Some(block) ==> reach::terminator(draft.code, block.index as int) is Panic
}

/// Whether `after` is `before` with more code, and the blocks that have an end in `before` are the
/// same.
#[verifier::opaque]
pub open spec fn settles(before: Code, after: Code) -> bool {
    &&& growth::adds_to(before, after)
    &&& forall|i: int| #![trigger after.basic_blocks[i]] #![trigger before.basic_blocks[i]]
        0 <= i < before.basic_blocks.len() ==> {
            &&& before.basic_blocks[i].statements.is_prefix_of(after.basic_blocks[i].statements)
            &&& reach::terminator(before, i) !is Panic ==> after.basic_blocks[i]
                == before.basic_blocks[i]
        }
}

/// Code settles into itself.
pub proof fn lemma_settles_itself(code: Code)
    ensures
        settles(code, code),
{
    reveal(settles);
}

/// What is a terminator of code stays the terminator with its number.
proof fn lemma_same_terminator(before: Code, after: Code, block: int)
    requires
        before.well_formed(),
        growth::adds_to(before, after),
        0 <= block < before.basic_blocks.len(),
        after.basic_blocks[block].terminator == before.basic_blocks[block].terminator,
    ensures
        reach::terminator(after, block) == reach::terminator(before, block),
{
    let k = before.basic_blocks[block].terminator.index as int;
    assert(before.knows_parts_of_block(before.basic_blocks[block]));
    assert(after.terminators.subrange(0, before.terminators.len() as int)[k]
        == after.terminators[k]);
}

/// Code that settles into code that settles.
pub proof fn lemma_settles_further(first: Code, second: Code, third: Code)
    requires
        first.well_formed(),
        settles(first, second),
        settles(second, third),
    ensures
        settles(first, third),
{
    reveal(settles);
    assert forall|i: int|
        #![trigger third.basic_blocks[i]]
        #![trigger first.basic_blocks[i]]
        0 <= i < first.basic_blocks.len() implies {
        &&& first.basic_blocks[i].statements.is_prefix_of(third.basic_blocks[i].statements)
        &&& reach::terminator(first, i) !is Panic ==> third.basic_blocks[i]
            == first.basic_blocks[i]
    } by {
        let middle = second.basic_blocks[i];
        if reach::terminator(first, i) !is Panic {
            lemma_same_terminator(first, second, i);
        }
    }
}

/// What grows from a block without an end leaves those that have one as they are.
pub proof fn lemma_grown_settles(before: Draft, after: Draft, full: Code)
    requires
        growth::sound(before),
        growth::extends(before, after),
        is_open(before),
        after.code.fits(),
        settles(after.code, full),
    ensures
        settles(before.code, full),
        before.code.fits(),
{
    growth::lemma_still_known(before, after);
    assert(settles(before.code, after.code)) by {
        reveal(settles);
        reveal(is_open);
        reveal(growth::extends);
        reveal(growth::sound);
    }
    reveal(growth::sound);
    lemma_settles_further(before.code, after.code, full);
}

/// So does ending the block.
pub proof fn lemma_terminated_settles(
    draft: Draft,
    data: TerminatorShape,
    next: Option<BasicBlock>,
    origin: ExprOrigin,
    full: Code,
)
    requires
        growth::sound(draft),
        is_open(draft),
        settles(draft.terminate(data, next, origin).code, full),
        draft.terminate(data, next, origin).code.fits(),
    ensures
        settles(draft.code, full),
        draft.code.fits(),
{
    let after = draft.terminate(data, next, origin);
    reveal(growth::sound);
    assert(settles(draft.code, after.code)) by {
        reveal(settles);
        reveal(is_open);
    }
    lemma_settles_further(draft.code, after.code, full);
}

/// Blocks other than the one that grows keep their ends.
pub proof fn lemma_untouched(before: Draft, after: Draft, block: int)
    requires
        growth::sound(before),
        growth::extends(before, after),
        after.code.fits(),
        0 <= block < before.code.basic_blocks.len(),
        before.end matches Some(end) ==> end.index != block,
    ensures
        after.code.basic_blocks[block] == before.code.basic_blocks[block],
        reach::terminator(after.code, block) == reach::terminator(before.code, block),
{
    reveal(growth::sound);
    reveal(growth::extends);
    lemma_same_terminator(before.code, after.code, block);
}

/// A new block is empty and has no end, and the block that grows stays open.
pub proof fn lemma_new_block_is_open(draft: Draft, origin: ExprOrigin)
    requires
        growth::sound(draft),
        draft.new_block(origin).0.code.fits(),
    ensures
        ({
            let (after, block) = draft.new_block(origin);
            &&& is_open(draft) ==> is_open(after)
            &&& is_open(after.at(Some(block)))
            &&& after.code.basic_blocks[block.index as int].statements.len() == 0
            &&& draft.end matches Some(end) ==> end.index < block.index
            &&& forall|i: int|
                0 <= i < draft.code.basic_blocks.len() ==> after.code.basic_blocks[i]
                    == draft.code.basic_blocks[i]
        }),
{
    let (after, block) = draft.new_block(origin);
    growth::lemma_new_block(draft, origin);
    reveal(is_open);
    reveal(growth::sound);
    if let Some(end) = draft.end {
        assert(draft.code.knows_parts_of_block(draft.code.basic_blocks[end.index as int]));
    }
}

/// A statement ends nothing.
pub proof fn lemma_statement_is_open(draft: Draft, data: StatementData, origin: ExprOrigin)
    requires
        is_open(draft),
        growth::sound(draft),
    ensures
        is_open(draft.statement(data, origin)),
{
    reveal(is_open);
    reveal(growth::sound);
}

/// An assignment ends nothing.
pub proof fn lemma_assign_is_open(
    draft: Draft,
    target: Place,
    value: ExprShape,
    origin: ExprOrigin,
)
    requires
        is_open(draft),
        growth::sound(draft),
    ensures
        is_open(draft.assign(target, value, origin)),
{
    reveal(is_open);
    reveal(growth::sound);
}

/// A series of cusps ends nothing.
pub proof fn lemma_cusp_each_is_open(draft: Draft, value: Option<Place>, origins: Seq<ExprOrigin>)
    requires
        is_open(draft),
        growth::sound(draft),
        value matches Some(place) ==> draft.code.knows_place(place),
    ensures
        is_open(draft.cusp_each(value, origins)),
    decreases origins.len(),
{
    if origins.len() > 0 {
        lemma_cusp_each_is_open(draft, value, origins.drop_last());
        growth::lemma_cusp_each(draft, value, origins.drop_last());
        lemma_statement_is_open(
            draft.cusp_each(value, origins.drop_last()),
            StatementData::Cusp(value),
            origins.last(),
        );
    }
}

/// A series of cusps and a last one end nothing.
pub proof fn lemma_cusps_are_open(
    draft: Draft,
    value: Option<Place>,
    origins: Seq<ExprOrigin>,
    origin: ExprOrigin,
)
    requires
        is_open(draft),
        growth::sound(draft),
        value matches Some(place) ==> draft.code.knows_place(place),
    ensures
        is_open(draft.cusp_each(value, origins)),
        is_open(draft.cusps(value, origins, origin)),
{
    lemma_cusp_each_is_open(draft, value, origins);
    growth::lemma_cusp_each(draft, value, origins);
    lemma_statement_is_open(
        draft.cusp_each(value, origins),
        StatementData::Cusp(value),
        origin,
    );
}

/// Where a block ends and growth goes on in another that has no end, the other still has none.
pub proof fn lemma_terminated_is_open(
    draft: Draft,
    data: TerminatorShape,
    next: BasicBlock,
    origin: ExprOrigin,
    other: BasicBlock,
)
    requires
        growth::sound(draft),
        is_open(draft.at(Some(other))),
        draft.code.knows_block(other),
        draft.end matches Some(end) ==> end.index != other.index,
    ensures
        is_open(draft.terminate(data, Some(next), origin).at(Some(other))),
        draft.terminate(data, Some(next), origin).code.basic_blocks[other.index as int]
            == draft.code.basic_blocks[other.index as int],
{
    reveal(is_open);
    reveal(growth::sound);
    assert(draft.code.knows_parts_of_block(draft.code.basic_blocks[other.index as int]));
}

/// Where nothing grows, nothing has to be open.
pub proof fn lemma_nowhere_is_open(draft: Draft)
    requires
        draft.end is None,
    ensures
        is_open(draft),
{
    reveal(is_open);
}

/// Growth that only adds to tables other than those of blocks and terminators.
pub proof fn lemma_same_blocks_are_open(before: Draft, after: Draft)
    requires
        is_open(before),
        before.end == after.end,
        before.code.basic_blocks == after.code.basic_blocks,
        before.code.terminators == after.code.terminators,
    ensures
        is_open(after),
{
    reveal(is_open);
}

/// A block that ends, and a new block in which growth goes on after a cusp.
pub proof fn lemma_next_block_is_open(
    draft: Draft,
    data: TerminatorShape,
    target: Place,
    origin: ExprOrigin,
)
    requires
        growth::sound(draft),
        draft.code.knows_place(target),
        ({
            let (between, next) = draft.new_block(origin);
            &&& between.code.knows_parts_of_terminator(data)
            &&& between.terminate(data, Some(next), origin).cusp(
                Some(target),
                origin,
            ).code.fits()
        }),
    ensures
        ({
            let (between, next) = draft.new_block(origin);
            let ended = between.terminate(data, Some(next), origin);
            let after = ended.cusp(Some(target), origin);
            &&& growth::sound(between)
            &&& growth::sound(ended)
            &&& between.code.fits()
            &&& ended.code.fits()
            &&& is_open(draft) ==> is_open(between)
            &&& is_open(ended)
            &&& is_open(after)
            &&& growth::extends(ended, after)
            &&& ended.code.basic_blocks[next.index as int].statements.len() == 0
            &&& ended.code.knows_place(target)
        }),
{
    let (between, next) = draft.new_block(origin);
    growth::lemma_new_block(draft, origin);
    growth::lemma_still_known(draft, between);
    let ended = between.terminate(data, Some(next), origin);
    growth::lemma_extends_itself(draft);
    growth::lemma_terminate(draft, between, data, Some(next), origin);
    growth::lemma_terminate_adds(between, data, Some(next), origin);
    growth::lemma_cusp(ended, Some(target), origin);
    growth::lemma_still_known(ended, ended.cusp(Some(target), origin));
    lemma_new_block_is_open(draft, origin);
    lemma_terminated_is_open(between, data, next, origin, next);
    if between.end is None {
        lemma_nowhere_is_open(ended);
    } else {
        assert(ended.at(Some(next)) == ended);
    }
    lemma_statement_is_open(ended, StatementData::Cusp(Some(target)), origin);
}

/// Brewing for side effects leaves an open block.
pub proof fn lemma_side_effects_are_open(
    tree: Tree,
    loops: Map<validated::Expr, LoopContext>,
    draft: Draft,
    expr: validated::Expr,
)
    requires
        growth::ready(tree, loops, draft),
        is_open(draft),
        tree.valid_expr(expr, loops.dom()),
        recipe::side_effects(tree, loops, draft, expr).code.fits(),
    ensures
        is_open(recipe::side_effects(tree, loops, draft, expr)),
    decreases
            tree.depth(expr),
            if recipe::is_command(tree, expr) {
                0int
            } else {
                3int
            },
            0nat,
{
    recipe::lemma_parts_are_shallower(tree, expr);
    recipe::lemma_parts_are_valid(tree, expr, loops.dom());
    let origin = tree.expr_origin(expr);
    let after = recipe::side_effects(tree, loops, draft, expr);
    match tree.expr(expr) {
        ExprData::Assign(place, value) => {
            let (code, target, origins) = recipe::brewed_place(tree, draft.code, place);
            let d1 = Draft { code, ..draft };
            growth::lemma_brewed_place_grows(tree, loops, draft, place);
            growth::lemma_still_ready(tree, loops, draft, d1);
            lemma_same_blocks_are_open(draft, d1);
            let d2 = recipe::assigned(tree, loops, d1, target, value);
            growth::lemma_assigned_grows(tree, loops, d1, target, value);
            growth::lemma_cusps(d2, None, origins, origin);
            growth::lemma_still_known(d2, after);
            lemma_assigned_is_open(tree, loops, d1, target, value);
            lemma_cusps_are_open(d2, None, origins, origin);
        },
        ExprData::Break { .. } => lemma_nowhere_is_open(after),
        ExprData::Continue(_) => lemma_nowhere_is_open(after),
        ExprData::Return(_) => lemma_nowhere_is_open(after),
        ExprData::Error => lemma_nowhere_is_open(after),
        _ => lemma_to_temporary_is_open(tree, loops, draft, expr),
    }
}

/// Brewing to a temporary leaves an open block.
pub proof fn lemma_to_temporary_is_open(
    tree: Tree,
    loops: Map<validated::Expr, LoopContext>,
    draft: Draft,
    expr: validated::Expr,
)
    requires
        growth::ready(tree, loops, draft),
        is_open(draft),
        tree.valid_expr(expr, loops.dom()),
        recipe::to_temporary(tree, loops, draft, expr).0.code.fits(),
    ensures
        is_open(recipe::to_temporary(tree, loops, draft, expr).0),
    decreases tree.depth(expr), 2int, 0nat,
{
    let origin = tree.expr_origin(expr);
    let (d1, temporary) = draft.new_temporary(origin);
    assert(growth::sound(draft)) by {
        reveal(growth::ready);
    }
    growth::lemma_new_temporary(draft, origin);
    growth::lemma_still_ready(tree, loops, draft, d1);
    lemma_same_blocks_are_open(draft, d1);
    lemma_assigned_is_open(tree, loops, d1, temporary, expr);
}

/// Brewing to temporaries leaves an open block.
pub proof fn lemma_to_temporaries_are_open(
    tree: Tree,
    loops: Map<validated::Expr, LoopContext>,
    draft: Draft,
    exprs: Seq<validated::Expr>,
)
    requires
        growth::ready(tree, loops, draft),
        is_open(draft),
        recipe::all_finite(tree, exprs),
        recipe::all_valid(tree, exprs, loops.dom()),
        recipe::to_temporaries(tree, loops, draft, exprs).0.code.fits(),
    ensures
        is_open(recipe::to_temporaries(tree, loops, draft, exprs).0),
    decreases recipe::depth_of_all(tree, exprs), 4int, exprs.len(),
{
    if exprs.len() > 0 {
        let (d1, _) = recipe::to_temporaries(tree, loops, draft, exprs.drop_last());
        lemma_first_are_valid(tree, loops, exprs);
        growth::lemma_to_temporaries_grow(tree, loops, draft, exprs.drop_last());
        growth::lemma_still_ready(tree, loops, draft, d1);
        let (d2, _) = recipe::to_temporary(tree, loops, d1, exprs.last());
        growth::lemma_to_temporary_grows(tree, loops, d1, exprs.last());
        growth::lemma_still_ready(tree, loops, d1, d2);
        lemma_to_temporaries_are_open(tree, loops, draft, exprs.drop_last());
        lemma_to_temporary_is_open(tree, loops, d1, exprs.last());
    }
}

/// All but the last of a series of expressions that can be brewed, and the last of them.
pub proof fn lemma_first_are_valid(
    tree: Tree,
    loops: Map<validated::Expr, LoopContext>,
    exprs: Seq<validated::Expr>,
)
    requires
        exprs.len() > 0,
        recipe::all_valid(tree, exprs, loops.dom()),
    ensures
        recipe::all_valid(tree, exprs.drop_last(), loops.dom()),
        tree.valid_expr(exprs.last(), loops.dom()),
{
    assert forall|k: int| 0 <= k < exprs.drop_last().len() implies tree.valid_expr(
        #[trigger] exprs.drop_last()[k],
        loops.dom(),
    ) by {
        assert(tree.valid_expr(exprs[k], loops.dom()));
    }
    assert(tree.valid_expr(exprs[exprs.len() - 1], loops.dom()));
}

/// Brewing a series for its side effects leaves an open block.
pub proof fn lemma_all_side_effects_are_open(
    tree: Tree,
    loops: Map<validated::Expr, LoopContext>,
    draft: Draft,
    exprs: Seq<validated::Expr>,
)
    requires
        growth::ready(tree, loops, draft),
        is_open(draft),
        recipe::all_finite(tree, exprs),
        recipe::all_valid(tree, exprs, loops.dom()),
        recipe::all_side_effects(tree, loops, draft, exprs).code.fits(),
    ensures
        is_open(recipe::all_side_effects(tree, loops, draft, exprs)),
    decreases recipe::depth_of_all(tree, exprs), 4int, exprs.len(),
{
    if exprs.len() > 0 {
        let d1 = recipe::all_side_effects(tree, loops, draft, exprs.drop_last());
        lemma_first_are_valid(tree, loops, exprs);
        growth::lemma_all_side_effects_grow(tree, loops, draft, exprs.drop_last());
        growth::lemma_still_ready(tree, loops, draft, d1);
        let d2 = recipe::side_effects(tree, loops, d1, exprs.last());
        growth::lemma_side_effects_grow(tree, loops, d1, exprs.last());
        growth::lemma_still_ready(tree, loops, d1, d2);
        lemma_all_side_effects_are_open(tree, loops, draft, exprs.drop_last());
        lemma_side_effects_are_open(tree, loops, d1, exprs.last());
    }
}

/// Storing a value and then marking the moment leaves an open block.
proof fn lemma_stored_is_open(draft: Draft, target: Place, value: ExprShape, origin: ExprOrigin)
    requires
        growth::sound(draft),
        is_open(draft),
        draft.code.knows_place(target),
        draft.code.knows_parts_of_expr(value),
    ensures
        is_open(draft.assign(target, value, origin).cusp(Some(target), origin)),
{
    lemma_assign_is_open(draft, target, value, origin);
    growth::lemma_assign(draft, target, value, origin);
    lemma_statement_is_open(
        draft.assign(target, value, origin),
        StatementData::Cusp(Some(target)),
        origin,
    );
}

/// Brewing into a place leaves an open block.
pub proof fn lemma_assigned_is_open(
    tree: Tree,
    loops: Map<validated::Expr, LoopContext>,
    draft: Draft,
    target: Place,
    expr: validated::Expr,
)
    requires
        growth::ready(tree, loops, draft),
        is_open(draft),
        draft.code.knows_place(target),
        tree.valid_expr(expr, loops.dom()),
        recipe::assigned(tree, loops, draft, target, expr).code.fits(),
    ensures
        is_open(recipe::assigned(tree, loops, draft, target, expr)),
    decreases tree.depth(expr), 1int, 0nat,
{
    recipe::lemma_parts_are_shallower(tree, expr);
    recipe::lemma_parts_are_valid(tree, expr, loops.dom());
    let origin = tree.expr_origin(expr);
    let after = recipe::assigned(tree, loops, draft, target, expr);
    assert(growth::sound(draft)) by {
        reveal(growth::ready);
    }
    match tree.expr(expr) {
        ExprData::Await(future) => {
            let (d1, place) = recipe::to_temporary(tree, loops, draft, future);
            growth::lemma_to_temporary_grows(tree, loops, draft, future);
            growth::lemma_still_ready(tree, loops, draft, d1);
            let (d2, next) = d1.new_block(origin);
            growth::lemma_new_block(d1, origin);
            growth::lemma_still_known(d1, d2);
            let data = TerminatorShape::Assign(target, TerminatorExprShape::Await(place), next);
            lemma_next_block_is_open(d1, data, target, origin);
        },
        ExprData::If(_, _, _) => lemma_if_is_open(tree, loops, draft, target, expr),
        ExprData::Loop(_) => lemma_loop_is_open(tree, loops, draft, target, expr),
        ExprData::Share(place) => {
            lemma_copied_is_open(tree, loops, draft, target, expr, place);
        },
        ExprData::Lease(place) => {
            lemma_copied_is_open(tree, loops, draft, target, expr, place);
        },
        ExprData::Give(place) => {
            lemma_copied_is_open(tree, loops, draft, target, expr, place);
        },
        ExprData::BooleanLiteral(value) => {
            lemma_stored_is_open(draft, target, ExprShape::BooleanLiteral(value), origin);
        },
        ExprData::IntegerLiteral(value) => {
            lemma_stored_is_open(draft, target, ExprShape::IntegerLiteral(value), origin);
        },
        ExprData::StringLiteral(value) => {
            lemma_stored_is_open(draft, target, ExprShape::StringLiteral(value), origin);
        },
        ExprData::Tuple(exprs) => {
            let (d1, places) = recipe::to_temporaries(tree, loops, draft, exprs@);
            growth::lemma_to_temporaries_grow(tree, loops, draft, exprs@);
            growth::lemma_still_ready(tree, loops, draft, d1);
            let value = if places.len() == 0 {
                ExprShape::Unit
            } else {
                ExprShape::Tuple(places)
            };
            reach::lemma_stored_fits(draft, d1, target, value, origin);
            lemma_to_temporaries_are_open(tree, loops, draft, exprs@);
            lemma_stored_is_open(d1, target, value, origin);
        },
        ExprData::Op(lhs, op, rhs) => {
            let (d1, left) = recipe::to_temporary(tree, loops, draft, lhs);
            growth::lemma_to_temporary_grows(tree, loops, draft, lhs);
            growth::lemma_still_ready(tree, loops, draft, d1);
            let (d2, right) = recipe::to_temporary(tree, loops, d1, rhs);
            growth::lemma_to_temporary_grows(tree, loops, d1, rhs);
            growth::lemma_still_ready(tree, loops, d1, d2);
            growth::lemma_extends_further(draft, d1, d2);
            let value = ExprShape::Op(left, op, right);
            reach::lemma_stored_fits(draft, d2, target, value, origin);
            lemma_to_temporary_is_open(tree, loops, draft, lhs);
            lemma_to_temporary_is_open(tree, loops, d1, rhs);
            lemma_stored_is_open(d2, target, value, origin);
        },
        ExprData::Sequence(exprs) => {
            if exprs@.len() == 0 {
                lemma_stored_is_open(draft, target, ExprShape::Unit, origin);
            } else {
                let d1 = recipe::all_side_effects(tree, loops, draft, exprs@.drop_last());
                lemma_first_are_valid(tree, loops, exprs@);
                growth::lemma_all_side_effects_grow(tree, loops, draft, exprs@.drop_last());
                growth::lemma_still_ready(tree, loops, draft, d1);
                let d2 = recipe::assigned(tree, loops, d1, target, exprs@.last());
                growth::lemma_assigned_grows(tree, loops, d1, target, exprs@.last());
                growth::lemma_still_ready(tree, loops, d1, d2);
                growth::lemma_cusp(d2, Some(target), origin);
                growth::lemma_still_ready(tree, loops, d2, after);
                lemma_all_side_effects_are_open(tree, loops, draft, exprs@.drop_last());
                lemma_assigned_is_open(tree, loops, d1, target, exprs@.last());
                lemma_statement_is_open(d2, StatementData::Cusp(Some(target)), origin);
            }
        },
        ExprData::Assign(_, _) => {
            let d1 = recipe::side_effects(tree, loops, draft, expr);
            growth::lemma_side_effects_grow(tree, loops, draft, expr);
            growth::lemma_still_ready(tree, loops, draft, d1);
            growth::lemma_assign(d1, target, ExprShape::Unit, origin);
            growth::lemma_still_ready(tree, loops, d1, after);
            lemma_side_effects_are_open(tree, loops, draft, expr);
            lemma_assign_is_open(d1, target, ExprShape::Unit, origin);
        },
        ExprData::Call(function, arguments) => {
            let values = tree.argument_exprs(arguments@);
            let (d1, callee) = recipe::to_temporary(tree, loops, draft, function);
            growth::lemma_to_temporary_grows(tree, loops, draft, function);
            growth::lemma_still_ready(tree, loops, draft, d1);
            let (d2, places) = recipe::to_temporaries(tree, loops, d1, values);
            growth::lemma_to_temporaries_grow(tree, loops, d1, values);
            growth::lemma_still_ready(tree, loops, d1, d2);
            let (d3, next) = d2.new_block(origin);
            growth::lemma_new_block(d2, origin);
            growth::lemma_still_known(d2, d3);
            lemma_all_still_known(d2, d3, places);
            let call = TerminatorExprShape::Call {
                function: callee,
                arguments: places,
                labels: recipe::labels(tree, arguments@),
            };
            let data = TerminatorShape::Assign(target, call, next);
            lemma_next_block_is_open(d2, data, target, origin);
        },
        ExprData::Atomic(inner) => {
            let (d1, inside) = draft.new_block(origin);
            growth::lemma_new_block(draft, origin);
            growth::lemma_still_ready(tree, loops, draft, d1);
            let data = TerminatorShape::StartAtomic(inside);
            let d2 = d1.terminate(data, Some(inside), origin);
            growth::lemma_terminate(draft, d1, data, Some(inside), origin);
            growth::lemma_still_ready(tree, loops, draft, d2);
            let d3 = recipe::assigned(tree, loops, d2, target, inner);
            growth::lemma_assigned_grows(tree, loops, d2, target, inner);
            growth::lemma_still_ready(tree, loops, d2, d3);
            let (d4, next) = d3.new_block(origin);
            growth::lemma_new_block(d3, origin);
            growth::lemma_still_known(d3, d4);
            lemma_next_block_is_open(d3, TerminatorShape::EndAtomic(next), target, origin);
        },
        ExprData::Error => lemma_side_effects_are_open(tree, loops, draft, expr),
        ExprData::Return(_) => lemma_side_effects_are_open(tree, loops, draft, expr),
        ExprData::Continue(_) => lemma_side_effects_are_open(tree, loops, draft, expr),
        ExprData::Break { .. } => lemma_side_effects_are_open(tree, loops, draft, expr),
    }
}

/// Known places stay known.
pub proof fn lemma_all_still_known(before: Draft, after: Draft, places: Seq<Place>)
    requires
        growth::extends(before, after),
        before.code.knows_places(places),
    ensures
        after.code.knows_places(places),
{
    growth::lemma_still_known(before, after);
    assert forall|k: int| 0 <= k < places.len() implies after.code.knows_place(
        #[trigger] places[k],
    ) by {
        assert(before.code.knows_place(places[k]));
    }
}

/// Storing what is read from a place leaves an open block.
proof fn lemma_copied_is_open(
    tree: Tree,
    loops: Map<validated::Expr, LoopContext>,
    draft: Draft,
    target: Place,
    expr: validated::Expr,
    place: validated::Place,
)
    requires
        growth::ready(tree, loops, draft),
        is_open(draft),
        draft.code.knows_place(target),
        tree.valid_expr(expr, loops.dom()),
        match tree.expr(expr) {
            ExprData::Share(from) => from == place,
            ExprData::Lease(from) => from == place,
            ExprData::Give(from) => from == place,
            _ => false,
        },
    ensures
        is_open(recipe::assigned(tree, loops, draft, target, expr)),
{
    let origin = tree.expr_origin(expr);
    let (code, source, origins) = recipe::brewed_place(tree, draft.code, place);
    let value = match tree.expr(expr) {
        ExprData::Share(_) => ExprShape::Share(source),
        ExprData::Lease(_) => ExprShape::Lease(source),
        _ => ExprShape::Give(source),
    };
    let d1 = Draft { code, ..draft };
    growth::lemma_brewed_place_grows(tree, loops, draft, place);
    growth::lemma_still_ready(tree, loops, draft, d1);
    lemma_same_blocks_are_open(draft, d1);
    let d2 = d1.assign(target, value, origin);
    growth::lemma_assign(d1, target, value, origin);
    growth::lemma_still_ready(tree, loops, d1, d2);
    lemma_assign_is_open(d1, target, value, origin);
    lemma_cusps_are_open(d2, Some(target), origins, origin);
}

/// The steps in which an `if` is brewed.
pub struct IfPlan {
    /// With the condition in a temporary.
    pub tested: Draft,
    pub test: Place,
    /// With the new blocks.
    pub set_up: Draft,
    pub true_block: BasicBlock,
    pub false_block: BasicBlock,
    pub join: BasicBlock,
    /// With the fork at the end of the block.
    pub split: Draft,
    /// With the cusp in the block where control comes together.
    pub forked: Draft,
    /// With the first branch, at its end, and then with the jump from there.
    pub one: Draft,
    pub one_done: Draft,
    /// With the second branch, at its end, and then with the jump from there.
    pub both: Draft,
    pub both_done: Draft,
}

/// The steps in which `expr`, which is an `if`, is brewed.
pub open spec fn if_plan(
    tree: Tree,
    loops: Map<validated::Expr, LoopContext>,
    draft: Draft,
    target: Place,
    expr: validated::Expr,
) -> IfPlan {
    let origin = tree.expr_origin(expr);
    let condition = tree.expr(expr)->If_0;
    let if_true = tree.expr(expr)->If_1;
    let if_false = tree.expr(expr)->If_2;
    let (tested, test) = recipe::to_temporary(tree, loops, draft, condition);
    let (d1, true_block) = tested.new_block(origin);
    let (d2, false_block) = d1.new_block(origin);
    let (set_up, join) = d2.new_block(origin);
    let split = set_up.terminate(
        TerminatorShape::If(test, true_block, false_block),
        Some(join),
        origin,
    );
    let forked = split.cusp(Some(target), origin);
    let one = recipe::assigned(tree, loops, forked.at(Some(true_block)), target, if_true);
    let one_done = one.goto(join, origin);
    let both = recipe::assigned(tree, loops, one_done.at(Some(false_block)), target, if_false);
    let both_done = both.goto(join, origin);
    IfPlan {
        tested,
        test,
        set_up,
        true_block,
        false_block,
        join,
        split,
        forked,
        one,
        one_done,
        both,
        both_done,
    }
}

/// Brewing an `if` goes by its plan.
#[verifier::rlimit(40)]
pub proof fn lemma_if_plan(
    tree: Tree,
    loops: Map<validated::Expr, LoopContext>,
    draft: Draft,
    target: Place,
    expr: validated::Expr,
)
    requires
        growth::ready(tree, loops, draft),
        draft.code.knows_place(target),
        tree.valid_expr(expr, loops.dom()),
        tree.expr(expr) is If,
        recipe::assigned(tree, loops, draft, target, expr).code.fits(),
    ensures
        ({
            let plan = if_plan(tree, loops, draft, target, expr);
            let after = recipe::assigned(tree, loops, draft, target, expr);
            let first = plan.forked.at(Some(plan.true_block));
            let second = plan.one_done.at(Some(plan.false_block));
            let join = plan.join.index as int;
            &&& after == plan.both_done.at(plan.forked.end)
            &&& growth::grown(draft, plan.tested)
            &&& growth::ready(tree, loops, plan.tested)
            &&& plan.tested.code.fits()
            &&& plan.tested.code.knows_place(plan.test)
            &&& growth::grown(plan.tested, plan.set_up)
            &&& plan.set_up.code.fits()
            &&& is_open(plan.tested) ==> is_open(plan.set_up)
            &&& plan.set_up.end == plan.tested.end
            &&& plan.set_up.end matches Some(end) ==> {
                plan.set_up.code.basic_blocks[end.index as int]
                    == plan.tested.code.basic_blocks[end.index as int]
            }
            &&& growth::sound(plan.split)
            &&& plan.split.code.fits()
            &&& plan.split.end == if plan.tested.end is Some {
                Some(plan.join)
            } else {
                None
            }
            &&& is_open(plan.split)
            &&& plan.split.code.basic_blocks[join].statements.len() == 0
            &&& plan.split.code.knows_place(target)
            &&& growth::grown(plan.split, plan.forked)
            &&& plan.forked.code.fits()
            &&& plan.forked.end == plan.split.end
            &&& is_open(plan.forked)
            &&& growth::ready(tree, loops, first)
            &&& first.code.knows_place(target)
            &&& is_open(first)
            &&& first.code.basic_blocks[plan.true_block.index as int].statements.len() == 0
            &&& growth::grown(first, plan.one)
            &&& plan.one.code.fits()
            &&& growth::sound(plan.one_done)
            &&& plan.one_done.code.fits()
            &&& growth::ready(tree, loops, second)
            &&& second.code.knows_place(target)
            &&& is_open(second)
            &&& second.code.basic_blocks[plan.false_block.index as int].statements.len() == 0
            &&& growth::grown(second, plan.both)
            &&& plan.both.code.fits()
            &&& growth::sound(plan.both_done)
            &&& plan.both_done.code.fits()
            &&& plan.both_done.code.basic_blocks[join] == plan.forked.code.basic_blocks[join]
            &&& is_open(plan.both_done.at(plan.forked.end))
            &&& draft.code.local_variables.len() <= first.code.local_variables.len()
            &&& draft.code.local_variables.len() <= second.code.local_variables.len()
            &&& draft.code.places.is_prefix_of(plan.both_done.code.places)
        }),
{
    recipe::lemma_parts_are_shallower(tree, expr);
    recipe::lemma_parts_are_valid(tree, expr, loops.dom());
    let origin = tree.expr_origin(expr);
    let condition = tree.expr(expr)->If_0;
    let if_true = tree.expr(expr)->If_1;
    let if_false = tree.expr(expr)->If_2;
    let plan = if_plan(tree, loops, draft, target, expr);
    let after = recipe::assigned(tree, loops, draft, target, expr);
    let d0 = plan.tested;
    growth::lemma_to_temporary_grows(tree, loops, draft, condition);
    growth::lemma_still_ready(tree, loops, draft, d0);
    let (d1, true_block) = d0.new_block(origin);
    growth::lemma_new_block(d0, origin);
    growth::lemma_still_ready(tree, loops, d0, d1);
    let (d2, false_block) = d1.new_block(origin);
    growth::lemma_new_block(d1, origin);
    growth::lemma_still_ready(tree, loops, d1, d2);
    growth::lemma_extends_further(d0, d1, d2);
    let (d3, join) = d2.new_block(origin);
    growth::lemma_new_block(d2, origin);
    growth::lemma_still_ready(tree, loops, d2, d3);
    growth::lemma_extends_further(d0, d2, d3);
    let data = TerminatorShape::If(plan.test, true_block, false_block);
    let d4 = d3.terminate(data, Some(join), origin);
    growth::lemma_terminate(d0, d3, data, Some(join), origin);
    growth::lemma_terminate_adds(d3, data, Some(join), origin);
    growth::lemma_still_ready(tree, loops, d0, d4);
    let forked = d4.cusp(Some(target), origin);
    growth::lemma_cusp(d4, Some(target), origin);
    growth::lemma_still_ready(tree, loops, d4, forked);
    growth::lemma_extends_further(d0, d4, forked);
    let first = forked.at(Some(true_block));
    growth::lemma_ready_elsewhere(tree, loops, forked, true_block);
    growth::lemma_branch_grows(
        tree,
        loops,
        d0,
        forked,
        target,
        expr,
        if_true,
        true_block,
        join,
    );
    growth::lemma_assigned_grows(tree, loops, first, target, if_true);
    growth::lemma_terminate_adds(plan.one, TerminatorShape::Goto(join), None, origin);
    growth::lemma_still_ready(tree, loops, first, plan.one);
    growth::lemma_terminate(first, plan.one, TerminatorShape::Goto(join), None, origin);
    let again = plan.one_done.at(forked.end);
    let second = plan.one_done.at(Some(false_block));
    assert(second == again.at(Some(false_block)));
    growth::lemma_branch_grows(
        tree,
        loops,
        d0,
        again,
        target,
        expr,
        if_false,
        false_block,
        join,
    );
    growth::lemma_ready_elsewhere(tree, loops, again, false_block);
    growth::lemma_assigned_grows(tree, loops, second, target, if_false);
    growth::lemma_still_ready(tree, loops, second, plan.both);
    growth::lemma_terminate(second, plan.both, TerminatorShape::Goto(join), None, origin);
    growth::lemma_terminate_adds(plan.both, TerminatorShape::Goto(join), None, origin);
    assert(after == plan.both_done.at(forked.end));
    assert(plan.both_done.code.fits());
    growth::lemma_still_known(first, plan.one_done);
    growth::lemma_still_known(draft, d0);
    growth::lemma_still_known(d0, forked);
    growth::lemma_still_known(first, plan.one);
    growth::lemma_still_known(second, plan.both);

    lemma_new_block_is_open(d0, origin);
    lemma_new_block_is_open(d1, origin);
    lemma_new_block_is_open(d2, origin);
    let t = true_block.index as int;
    let f = false_block.index as int;
    let j = join.index as int;
    assert(is_open(d3.at(Some(true_block))) && is_open(d3.at(Some(false_block)))) by {
        reveal(is_open);
        growth::lemma_extends_further(d1, d2, d3);
        lemma_untouched_new(d1, d3, t, d0);
        lemma_untouched_new(d2, d3, f, d0);
    }
    lemma_terminated_is_open(d3, data, join, origin, true_block);
    lemma_terminated_is_open(d3, data, join, origin, false_block);
    lemma_terminated_is_open(d3, data, join, origin, join);
    if d3.end is None {
        lemma_nowhere_is_open(d4);
    } else {
        assert(d4.at(Some(join)) == d4);
    }
    lemma_statement_is_open(d4, StatementData::Cusp(Some(target)), origin);
    lemma_untouched(d4, forked, t);
    lemma_untouched(d4, forked, f);
    lemma_untouched(first, plan.one_done, f);
    lemma_untouched(first, plan.one_done, j);
    lemma_untouched(second, plan.both_done, j);
    reveal(is_open);
    assert(draft.code.places.is_prefix_of(plan.both_done.code.places)) by {
        reveal(growth::extends);
    }
}

/// Blocks that are there before new blocks come keep their ends.
proof fn lemma_untouched_new(before: Draft, after: Draft, block: int, first: Draft)
    requires
        growth::sound(before),
        growth::extends(before, after),
        after.code.fits(),
        first.end == before.end,
        growth::sound(first),
        first.code.basic_blocks.len() <= block < before.code.basic_blocks.len(),
    ensures
        after.code.basic_blocks[block] == before.code.basic_blocks[block],
        reach::terminator(after.code, block) == reach::terminator(before.code, block),
{
    assert(before.end matches Some(end) ==> end.index != block) by {
        reveal(growth::sound);
    }
    lemma_untouched(before, after, block);
}

/// Brewing an `if` leaves an open block.
proof fn lemma_if_is_open(
    tree: Tree,
    loops: Map<validated::Expr, LoopContext>,
    draft: Draft,
    target: Place,
    expr: validated::Expr,
)
    requires
        growth::ready(tree, loops, draft),
        draft.code.knows_place(target),
        tree.valid_expr(expr, loops.dom()),
        tree.expr(expr) is If,
        recipe::assigned(tree, loops, draft, target, expr).code.fits(),
    ensures
        is_open(recipe::assigned(tree, loops, draft, target, expr)),
{
    lemma_if_plan(tree, loops, draft, target, expr);
}

/// The steps in which a loop is brewed.
pub struct LoopPlan {
    /// With the new blocks.
    pub set_up: Draft,
    pub body_block: BasicBlock,
    pub break_block: BasicBlock,
    /// With the jump into the body.
    pub split: Draft,
    /// With the cusp in the block after the loop.
    pub entered: Draft,
    /// The loops that are open in the body.
    pub inside: Map<validated::Expr, LoopContext>,
    /// With the body, at its end, and then with the jump back from there.
    pub body: Draft,
    pub body_done: Draft,
}

/// The steps in which `expr`, which is a loop, is brewed.
pub open spec fn loop_plan(
    tree: Tree,
    loops: Map<validated::Expr, LoopContext>,
    draft: Draft,
    target: Place,
    expr: validated::Expr,
) -> LoopPlan {
    let origin = tree.expr_origin(expr);
    let (d1, body_block) = draft.new_block(origin);
    let (set_up, break_block) = d1.new_block(origin);
    let split = set_up.terminate(TerminatorShape::Goto(body_block), Some(break_block), origin);
    let entered = split.cusp(Some(target), origin);
    let inside = loops.insert(
        expr,
        LoopContext { continue_block: body_block, break_block, loop_value: target },
    );
    let body = recipe::side_effects(
        tree,
        inside,
        entered.at(Some(body_block)),
        tree.expr(expr)->Loop_0,
    );
    let body_done = body.goto(body_block, origin);
    LoopPlan { set_up, body_block, break_block, split, entered, inside, body, body_done }
}

/// Brewing a loop goes by its plan.
#[verifier::rlimit(40)]
pub proof fn lemma_loop_plan(
    tree: Tree,
    loops: Map<validated::Expr, LoopContext>,
    draft: Draft,
    target: Place,
    expr: validated::Expr,
)
    requires
        growth::ready(tree, loops, draft),
        draft.code.knows_place(target),
        tree.valid_expr(expr, loops.dom()),
        tree.expr(expr) is Loop,
        recipe::assigned(tree, loops, draft, target, expr).code.fits(),
    ensures
        ({
            let plan = loop_plan(tree, loops, draft, target, expr);
            let after = recipe::assigned(tree, loops, draft, target, expr);
            let start = plan.entered.at(Some(plan.body_block));
            let exit = plan.break_block.index as int;
            &&& after == plan.body_done.at(plan.entered.end)
            &&& growth::sound(draft)
            &&& growth::grown(draft, plan.set_up)
            &&& plan.set_up.code.fits()
            &&& is_open(draft) ==> is_open(plan.set_up)
            &&& plan.set_up.end == draft.end
            &&& plan.set_up.end matches Some(end) ==> {
                plan.set_up.code.basic_blocks[end.index as int]
                    == draft.code.basic_blocks[end.index as int]
            }
            &&& growth::sound(plan.split)
            &&& plan.split.code.fits()
            &&& plan.split.end == if draft.end is Some {
                Some(plan.break_block)
            } else {
                None
            }
            &&& is_open(plan.split)
            &&& plan.split.code.basic_blocks[exit].statements.len() == 0
            &&& plan.split.code.knows_place(target)
            &&& growth::grown(plan.split, plan.entered)
            &&& plan.entered.code.fits()
            &&& plan.entered.end == plan.split.end
            &&& is_open(plan.entered)
            &&& growth::ready(tree, plan.inside, start)
            &&& is_open(start)
            &&& start.code.basic_blocks[plan.body_block.index as int].statements.len() == 0
            &&& growth::grown(start, plan.body)
            &&& plan.body.code.fits()
            &&& growth::sound(plan.body_done)
            &&& plan.body_done.code.fits()
            &&& plan.body_done.code.basic_blocks[exit] == plan.entered.code.basic_blocks[exit]
            &&& is_open(plan.body_done.at(plan.entered.end))
            &&& draft.code.local_variables.len() <= start.code.local_variables.len()
            &&& plan.inside.dom() == loops.dom().insert(expr)
        }),
{
    recipe::lemma_parts_are_shallower(tree, expr);
    recipe::lemma_parts_are_valid(tree, expr, loops.dom());
    let origin = tree.expr_origin(expr);
    let plan = loop_plan(tree, loops, draft, target, expr);
    let after = recipe::assigned(tree, loops, draft, target, expr);
    assert(growth::sound(draft)) by {
        reveal(growth::ready);
    }
    let (d1, body_block) = draft.new_block(origin);
    growth::lemma_new_block(draft, origin);
    growth::lemma_still_ready(tree, loops, draft, d1);
    let (d2, break_block) = d1.new_block(origin);
    growth::lemma_new_block(d1, origin);
    growth::lemma_still_ready(tree, loops, d1, d2);
    growth::lemma_extends_further(draft, d1, d2);
    let data = TerminatorShape::Goto(body_block);
    let d3 = d2.terminate(data, Some(break_block), origin);
    growth::lemma_terminate(draft, d2, data, Some(break_block), origin);
    growth::lemma_terminate_adds(d2, data, Some(break_block), origin);
    growth::lemma_still_ready(tree, loops, draft, d3);
    let entered = d3.cusp(Some(target), origin);
    growth::lemma_cusp(d3, Some(target), origin);
    growth::lemma_still_ready(tree, loops, d3, entered);
    growth::lemma_extends_further(draft, d3, entered);
    assert(plan.inside.dom() =~= loops.dom().insert(expr));
    assert(growth::ready(tree, plan.inside, entered)) by {
        reveal(growth::ready);
        assert(entered.code.knows_block(body_block));
        assert(entered.code.knows_block(break_block));
        assert(entered.code.knows_place(target));
    }
    growth::lemma_ready_elsewhere(tree, plan.inside, entered, body_block);
    let start = entered.at(Some(body_block));
    let body = tree.expr(expr)->Loop_0;
    growth::lemma_side_effects_grow(tree, plan.inside, start, body);
    growth::lemma_still_ready(tree, plan.inside, start, plan.body);
    growth::lemma_terminate(start, plan.body, TerminatorShape::Goto(body_block), None, origin);
    growth::lemma_terminate_adds(plan.body, TerminatorShape::Goto(body_block), None, origin);
    growth::lemma_still_known(start, plan.body_done);
    growth::lemma_still_known(draft, entered);
    assert(after == plan.body_done.at(entered.end));
    assert(plan.body_done.code.fits());

    lemma_new_block_is_open(draft, origin);
    lemma_new_block_is_open(d1, origin);
    let b = body_block.index as int;
    let j = break_block.index as int;
    assert(is_open(d2.at(Some(body_block)))) by {
        reveal(is_open);
        lemma_untouched_new(d1, d2, b, draft);
    }
    lemma_terminated_is_open(d2, data, break_block, origin, body_block);
    lemma_terminated_is_open(d2, data, break_block, origin, break_block);
    if d2.end is None {
        lemma_nowhere_is_open(d3);
    } else {
        assert(d3.at(Some(break_block)) == d3);
    }
    lemma_statement_is_open(d3, StatementData::Cusp(Some(target)), origin);
    lemma_untouched(d3, entered, b);
    lemma_untouched(start, plan.body_done, j);
    reveal(is_open);
}

/// Brewing a loop leaves an open block.
proof fn lemma_loop_is_open(
    tree: Tree,
    loops: Map<validated::Expr, LoopContext>,
    draft: Draft,
    target: Place,
    expr: validated::Expr,
)
    requires
        growth::ready(tree, loops, draft),
        draft.code.knows_place(target),
        tree.valid_expr(expr, loops.dom()),
        tree.expr(expr) is Loop,
        recipe::assigned(tree, loops, draft, target, expr).code.fits(),
    ensures
        is_open(recipe::assigned(tree, loops, draft, target, expr)),
{
    lemma_loop_plan(tree, loops, draft, target, expr);
}

} // verus!
