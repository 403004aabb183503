//! Brewing only adds: what has been brewed stays as it is, apart from the block that grows.
use vstd::prelude::*;

use crate::bir::{
    BasicBlock, Code, ExprShape, Place, PlaceData, StatementData, TerminatorExprShape,
    TerminatorShape,
};
use crate::recipe;
use crate::recipe::{Draft, LoopContext};
use crate::validated;
use crate::validated::{ExprData, ExprOrigin, Tree};

verus! {

/// Whether the code so far is well-formed and grows at the end of one of its blocks, if anywhere.
#[verifier::opaque]
pub open spec fn sound(draft: Draft) -> bool {
    &&& draft.code.well_formed()
    &&& draft.end matches Some(block) ==> draft.code.knows_block(block)
}

/// Whether all of the tables of `before` but that of blocks stand unchanged at the start of those
/// of `after`, and there are no fewer blocks.
pub open spec fn adds_to(before: Code, after: Code) -> bool {
    &&& before.local_variables.is_prefix_of(after.local_variables)
    &&& before.local_variable_origins.is_prefix_of(after.local_variable_origins)
    &&& before.places.is_prefix_of(after.places)
    &&& before.place_origins.is_prefix_of(after.place_origins)
    &&& before.exprs.is_prefix_of(after.exprs)
    &&& before.expr_origins.is_prefix_of(after.expr_origins)
    &&& before.statements.is_prefix_of(after.statements)
    &&& before.statement_origins.is_prefix_of(after.statement_origins)
    &&& before.terminators.is_prefix_of(after.terminators)
    &&& before.terminator_origins.is_prefix_of(after.terminator_origins)
    &&& before.basic_block_origins.is_prefix_of(after.basic_block_origins)
    &&& before.basic_blocks.len() <= after.basic_blocks.len()
}

/// Whether the blocks of `before` are the same in `after`, apart from block `end`, whose first
/// statements are the same.
pub open spec fn keeps_blocks(before: Code, after: Code, end: Option<BasicBlock>) -> bool {
    forall|i: int| #![trigger after.basic_blocks[i]] #![trigger before.basic_blocks[i]]
        0 <= i < before.basic_blocks.len() ==> {
            if end is Some && end->0.index == i {
                before.basic_blocks[i].statements.is_prefix_of(after.basic_blocks[i].statements)
            } else {
                after.basic_blocks[i] == before.basic_blocks[i]
            }
        }
}

/// Whether `after` is `before` with more code: only the block at whose end `before` grows is not
/// the same, `after` grows at the end of that block, of a new one, or nowhere, and it grows
/// nowhere if `before` does.
#[verifier::opaque]
pub open spec fn extends(before: Draft, after: Draft) -> bool {
    &&& adds_to(before.code, after.code)
    &&& before.end is None ==> after.end is None
    &&& after.code.fits() ==> {
        &&& keeps_blocks(before.code, after.code, before.end)
        &&& after.end matches Some(block) ==> after.end == before.end || block.index
            >= before.code.basic_blocks.len()
    }
}

/// Nothing added is more code.
pub proof fn lemma_extends_itself(draft: Draft)
    ensures
        extends(draft, draft),
{
    reveal(extends);
}

/// More code, and then more code, is more code.
pub proof fn lemma_extends_further(first: Draft, second: Draft, third: Draft)
    requires
        extends(first, second),
        extends(second, third),
    ensures
        extends(first, third),
{
    reveal(extends);
    if third.code.fits() {
        assert forall|i: int|
            #![trigger third.code.basic_blocks[i]]
            #![trigger first.code.basic_blocks[i]]
            0 <= i < first.code.basic_blocks.len() implies {
            if first.end is Some && first.end->0.index == i {
                first.code.basic_blocks[i].statements.is_prefix_of(
                    third.code.basic_blocks[i].statements,
                )
            } else {
                third.code.basic_blocks[i] == first.code.basic_blocks[i]
            }
        } by {
            assert(second.code.basic_blocks[i] == second.code.basic_blocks[i]);
        }
    }
}

/// Code that grows for a while at the end of another new block is more code.
pub proof fn lemma_extends_after_detour(
    first: Draft,
    second: Draft,
    block: BasicBlock,
    third: Draft,
)
    requires
        extends(first, second),
        sound(second),
        extends(second.at(Some(block)), third),
        sound(third),
        third.code.fits() ==> block.index >= first.code.basic_blocks.len(),
    ensures
        extends(first, third.at(second.end)),
        sound(third.at(second.end)),
{
    reveal(extends);
    reveal(sound);
    if third.code.fits() {
        assert forall|i: int|
            #![trigger third.code.basic_blocks[i]]
            #![trigger first.code.basic_blocks[i]]
            0 <= i < first.code.basic_blocks.len() implies {
            if first.end is Some && first.end->0.index == i {
                first.code.basic_blocks[i].statements.is_prefix_of(
                    third.code.basic_blocks[i].statements,
                )
            } else {
                third.code.basic_blocks[i] == first.code.basic_blocks[i]
            }
        } by {
            assert(second.code.basic_blocks[i] == second.code.basic_blocks[i]);
        }
    }
}

/// What was in the tables still is.
pub proof fn lemma_still_known(before: Draft, after: Draft)
    requires
        extends(before, after),
    ensures
        before.code.places.len() <= after.code.places.len(),
        before.code.local_variables.len() <= after.code.local_variables.len(),
        before.code.basic_blocks.len() <= after.code.basic_blocks.len(),
        after.code.fits() ==> before.code.fits(),
{
    reveal(extends);
}

/// An index below a length still is if the length has been cut to what can be counted.
proof fn lemma_last_is_in_range(len: nat)
    requires
        len > 0,
    ensures
        ((len - 1) as usize) < len,
{
}

/// A new block is more code.
pub proof fn lemma_new_block(draft: Draft, origin: ExprOrigin)
    requires
        sound(draft),
    ensures
        ({
            let (after, block) = draft.new_block(origin);
            &&& sound(after)
            &&& extends(draft, after)
            &&& after.end == draft.end
            &&& after.code.knows_block(block)
            &&& after.code.fits() ==> block.index == draft.code.basic_blocks.len()
            &&& after.code.basic_blocks.len() == draft.code.basic_blocks.len() + 1
        }),
{
    reveal(sound);
    reveal(extends);
    let (after, block) = draft.new_block(origin);
    lemma_last_is_in_range(after.code.basic_blocks.len());
    lemma_last_is_in_range(after.code.terminators.len());
}

/// A new temporary is more code: a variable and a place that were not there before.
pub proof fn lemma_new_temporary(draft: Draft, origin: ExprOrigin)
    requires
        sound(draft),
    ensures
        ({
            let (after, place) = draft.new_temporary(origin);
            &&& sound(after)
            &&& extends(draft, after)
            &&& after.end == draft.end
            &&& after.code.knows_place(place)
            &&& after.code.fits() ==> {
                &&& place.index == draft.code.places.len()
                &&& after.code.places[place.index as int] matches PlaceData::LocalVariable(variable)
                &&& variable.index == draft.code.local_variables.len()
            }
            &&& after.code.basic_blocks == draft.code.basic_blocks
            &&& after.code.terminators == draft.code.terminators
        }),
{
    reveal(sound);
    reveal(extends);
    let (after, place) = draft.new_temporary(origin);
    lemma_last_is_in_range(after.code.places.len());
    lemma_last_is_in_range(after.code.local_variables.len());
}

/// A statement is more code.
pub proof fn lemma_statement(draft: Draft, data: StatementData, origin: ExprOrigin)
    requires
        sound(draft),
        draft.code.knows_parts_of_statement(data),
    ensures
        sound(draft.statement(data, origin)),
        extends(draft, draft.statement(data, origin)),
        draft.statement(data, origin).end == draft.end,
{
    reveal(sound);
    reveal(extends);
    let after = draft.statement(data, origin);
    if let Some(block) = draft.end {
        lemma_last_is_in_range(after.code.statements.len());
        let i = block.index as int;
        let statements = draft.code.basic_blocks[i].statements;
        assert(draft.code.knows_parts_of_block(draft.code.basic_blocks[i]));
        assert(after.code.basic_blocks[i].statements == statements.push(
            draft.code.add_statement(data, origin).last_statement(),
        ));
        assert(after.code.knows_parts_of_block(after.code.basic_blocks[i]));
        assert(statements.is_prefix_of(after.code.basic_blocks[i].statements));
    }
}

/// An assignment is more code.
pub proof fn lemma_assign(draft: Draft, target: Place, value: ExprShape, origin: ExprOrigin)
    requires
        sound(draft),
        draft.code.knows_place(target),
        draft.code.knows_parts_of_expr(value),
    ensures
        sound(draft.assign(target, value, origin)),
        extends(draft, draft.assign(target, value, origin)),
        draft.assign(target, value, origin).end == draft.end,
{
    if draft.end is Some {
        let code = draft.code.add_expr(value, origin);
        let between = Draft { code, ..draft };
        assert(sound(between) && extends(draft, between)) by {
            reveal(sound);
            reveal(extends);
        }
        lemma_last_is_in_range(code.exprs.len());
        lemma_statement(between, StatementData::Assign(target, code.last_expr()), origin);
        lemma_extends_further(draft, between, draft.assign(target, value, origin));
    } else {
        lemma_extends_itself(draft);
    }
}

/// A cusp is more code.
pub proof fn lemma_cusp(draft: Draft, value: Option<Place>, origin: ExprOrigin)
    requires
        sound(draft),
        value matches Some(place) ==> draft.code.knows_place(place),
    ensures
        sound(draft.cusp(value, origin)),
        extends(draft, draft.cusp(value, origin)),
        draft.cusp(value, origin).end == draft.end,
{
    lemma_statement(draft, StatementData::Cusp(value), origin);
}

/// A series of cusps is more code.
pub proof fn lemma_cusp_each(draft: Draft, value: Option<Place>, origins: Seq<ExprOrigin>)
    requires
        sound(draft),
        value matches Some(place) ==> draft.code.knows_place(place),
    ensures
        sound(draft.cusp_each(value, origins)),
        extends(draft, draft.cusp_each(value, origins)),
        draft.cusp_each(value, origins).end == draft.end,
    decreases origins.len(),
{
    if origins.len() == 0 {
        lemma_extends_itself(draft);
    } else {
        let between = draft.cusp_each(value, origins.drop_last());
        lemma_cusp_each(draft, value, origins.drop_last());
        lemma_still_known(draft, between);
        lemma_cusp(between, value, origins.last());
        lemma_extends_further(draft, between, draft.cusp_each(value, origins));
    }
}

/// A series of cusps and a last one are more code.
pub proof fn lemma_cusps(
    draft: Draft,
    value: Option<Place>,
    origins: Seq<ExprOrigin>,
    origin: ExprOrigin,
)
    requires
        sound(draft),
        value matches Some(place) ==> draft.code.knows_place(place),
    ensures
        sound(draft.cusps(value, origins, origin)),
        extends(draft, draft.cusps(value, origins, origin)),
        draft.cusps(value, origins, origin).end == draft.end,
{
    let between = draft.cusp_each(value, origins);
    lemma_cusp_each(draft, value, origins);
    lemma_still_known(draft, between);
    lemma_cusp(between, value, origin);
    lemma_extends_further(draft, between, draft.cusps(value, origins, origin));
}

/// Ending a block of `draft`, which extends `first`, and going on in a block that is new since
/// `first`.
pub proof fn lemma_terminate(
    first: Draft,
    draft: Draft,
    data: TerminatorShape,
    next: Option<BasicBlock>,
    origin: ExprOrigin,
)
    requires
        extends(first, draft),
        sound(draft),
        draft.code.knows_parts_of_terminator(data),
        next matches Some(block) ==> {
            &&& draft.code.knows_block(block)
            &&& draft.code.fits() ==> block.index >= first.code.basic_blocks.len()
        },
    ensures
        sound(draft.terminate(data, next, origin)),
        extends(first, draft.terminate(data, next, origin)),
{
    reveal(sound);
    reveal(extends);
    let after = draft.terminate(data, next, origin);
    if let Some(block) = draft.end {
        lemma_last_is_in_range(after.code.terminators.len());
        let i = block.index as int;
        assert(draft.code.knows_parts_of_block(draft.code.basic_blocks[i]));
        assert(after.code.knows_parts_of_block(after.code.basic_blocks[i]));
        if after.code.fits() {
            assert(draft.code.fits());
            assert forall|k: int|
                #![trigger after.code.basic_blocks[k]]
                #![trigger first.code.basic_blocks[k]]
                0 <= k < first.code.basic_blocks.len() implies {
                if first.end is Some && first.end->0.index == k {
                    first.code.basic_blocks[k].statements.is_prefix_of(
                        after.code.basic_blocks[k].statements,
                    )
                } else {
                    after.code.basic_blocks[k] == first.code.basic_blocks[k]
                }
            } by {
                assert(draft.code.basic_blocks[k] == draft.code.basic_blocks[k]);
            }
        }
    }
}

/// Whether `draft` can be continued with code of `tree`, `loops` being open: the variables of the
/// tree and what the loops refer to are in the tables.
#[verifier::opaque]
pub open spec fn ready(
    tree: Tree,
    loops: Map<validated::Expr, LoopContext>,
    draft: Draft,
) -> bool {
    &&& sound(draft)
    &&& tree.data.tables.local_variables@.len() <= draft.code.local_variables.len()
    &&& forall|expr: validated::Expr| #[trigger]
        loops.contains_key(expr) ==> {
            &&& draft.code.knows_block(loops[expr].continue_block)
            &&& draft.code.knows_block(loops[expr].break_block)
            &&& draft.code.knows_place(loops[expr].loop_value)
        }
}

/// Whether `after` is sound and is `before` with more code.
pub open spec fn grown(before: Draft, after: Draft) -> bool {
    sound(after) && extends(before, after)
}

/// What is ready stays ready.
pub proof fn lemma_still_ready(
    tree: Tree,
    loops: Map<validated::Expr, LoopContext>,
    before: Draft,
    after: Draft,
)
    requires
        ready(tree, loops, before),
        grown(before, after),
    ensures
        ready(tree, loops, after),
        before.code.places.len() <= after.code.places.len(),
        before.code.basic_blocks.len() <= after.code.basic_blocks.len(),
        after.code.fits() ==> before.code.fits(),
{
    reveal(ready);
    lemma_still_known(before, after);
}

/// What is ready is ready at the end of any block.
pub proof fn lemma_ready_elsewhere(
    tree: Tree,
    loops: Map<validated::Expr, LoopContext>,
    draft: Draft,
    block: BasicBlock,
)
    requires
        ready(tree, loops, draft),
        draft.code.knows_block(block),
    ensures
        ready(tree, loops, draft.at(Some(block))),
        sound(draft.at(Some(block))),
        sound(draft),
{
    reveal(ready);
    reveal(sound);
}

/// A brewed place is more code, and no block changes.
pub proof fn lemma_brewed_place_grows(
    tree: Tree,
    loops: Map<validated::Expr, LoopContext>,
    draft: Draft,
    place: validated::Place,
)
    requires
        ready(tree, loops, draft),
        tree.valid_place(place),
    ensures
        ({
            let (code, target, _) = recipe::brewed_place(tree, draft.code, place);
            let after = Draft { code, ..draft };
            &&& grown(draft, after)
            &&& code.knows_place(target)
            &&& code.basic_blocks == draft.code.basic_blocks
            &&& code.terminators == draft.code.terminators
        }),
    decreases tree.place_depth(place),
{
    let (code, target, _) = recipe::brewed_place(tree, draft.code, place);
    let after = Draft { code, ..draft };
    lemma_last_is_in_range(code.places.len());
    if let validated::PlaceData::Dot(owner, field) = tree.place(place) {
        tree.lemma_owner_is_valid(place);
        lemma_brewed_place_grows(tree, loops, draft, owner);
        let (between_code, base, _) = recipe::brewed_place(tree, draft.code, owner);
        let between = Draft { code: between_code, ..draft };
        assert(grown(between, after)) by {
            reveal(sound);
            reveal(extends);
            lemma_owner_comes_first(tree, draft.code, owner);
            assert(code.places =~= between_code.places.push(PlaceData::Dot(base, field)));
        }
        lemma_extends_further(draft, between, after);
    } else {
        assert(grown(draft, after)) by {
            reveal(ready);
            reveal(sound);
            reveal(extends);
        }
    }
}

/// The place that stands for a brewed place is the most recent one.
proof fn lemma_owner_comes_first(tree: Tree, code: Code, place: validated::Place)
    requires
        tree.valid_place(place),
    ensures
        ({
            let (after, target, _) = recipe::brewed_place(tree, code, place);
            target == after.last_place() && after.places.len() > 0
        }),
{
}

/// Brewing for side effects only adds code.
pub proof fn lemma_side_effects_grow(
    tree: Tree,
    loops: Map<validated::Expr, LoopContext>,
    draft: Draft,
    expr: validated::Expr,
)
    requires
        ready(tree, loops, draft),
        tree.valid_expr(expr, loops.dom()),
    ensures
        grown(draft, recipe::side_effects(tree, loops, draft, expr)),
    decreases
            tree.depth(expr),
            if recipe::is_command(tree, expr) {
                0int
            } else {
                3int
            },
            0nat,
{
    recipe::lemma_parts_are_shallower(tree, expr);
    recipe::lemma_parts_are_valid(tree, expr, loops.dom());
    let origin = tree.expr_origin(expr);
    let after = recipe::side_effects(tree, loops, draft, expr);
    reveal(ready);
    match tree.expr(expr) {
        ExprData::Break { from_expr, with_value } => {
            let context = loops[from_expr];
            assert(loops.contains_key(from_expr));
            let d1 = recipe::assigned(tree, loops, draft, context.loop_value, with_value);
            lemma_assigned_grows(tree, loops, draft, context.loop_value, with_value);
            lemma_still_ready(tree, loops, draft, d1);
            let d2 = d1.cusp(Some(context.loop_value), origin);
            lemma_cusp(d1, Some(context.loop_value), origin);
            lemma_extends_further(draft, d1, d2);
            lemma_still_ready(tree, loops, draft, d2);
            lemma_terminate(draft, d2, TerminatorShape::Goto(context.break_block), None, origin);
        },
        ExprData::Continue(from_expr) => {
            assert(loops.contains_key(from_expr));
            let d1 = draft.cusp(None, origin);
            lemma_cusp(draft, None, origin);
            lemma_still_ready(tree, loops, draft, d1);
            let target = loops[from_expr].continue_block;
            lemma_terminate(draft, d1, TerminatorShape::Goto(target), None, origin);
        },
        ExprData::Return(value) => {
            let (d1, place) = recipe::to_temporary(tree, loops, draft, value);
            lemma_to_temporary_grows(tree, loops, draft, value);
            let d2 = d1.cusp(Some(place), origin);
            lemma_cusp(d1, Some(place), origin);
            lemma_still_known(d1, d2);
            lemma_extends_further(draft, d1, d2);
            lemma_terminate(draft, d2, TerminatorShape::Return(place), None, origin);
        },
        ExprData::Error => {
            let d1 = draft.cusp(None, origin);
            lemma_cusp(draft, None, origin);
            lemma_terminate(draft, d1, TerminatorShape::Error, None, origin);
        },
        ExprData::Assign(place, value) => {
            let (code, target, origins) = recipe::brewed_place(tree, draft.code, place);
            let d1 = Draft { code, ..draft };
            lemma_brewed_place_grows(tree, loops, draft, place);
            lemma_still_ready(tree, loops, draft, d1);
            let d2 = recipe::assigned(tree, loops, d1, target, value);
            lemma_assigned_grows(tree, loops, d1, target, value);
            lemma_extends_further(draft, d1, d2);
            lemma_cusps(d2, None, origins, origin);
            lemma_extends_further(draft, d2, after);
        },
        _ => {
            lemma_to_temporary_grows(tree, loops, draft, expr);
        },
    }
}

/// Brewing to a temporary only adds code.
pub proof fn lemma_to_temporary_grows(
    tree: Tree,
    loops: Map<validated::Expr, LoopContext>,
    draft: Draft,
    expr: validated::Expr,
)
    requires
        ready(tree, loops, draft),
        tree.valid_expr(expr, loops.dom()),
    ensures
        ({
            let (after, place) = recipe::to_temporary(tree, loops, draft, expr);
            grown(draft, after) && after.code.knows_place(place)
        }),
    decreases tree.depth(expr), 2int, 0nat,
{
    let origin = tree.expr_origin(expr);
    let (d1, temporary) = draft.new_temporary(origin);
    assert(sound(draft)) by {
        reveal(ready);
    }
    lemma_new_temporary(draft, origin);
    lemma_still_ready(tree, loops, draft, d1);
    let d2 = recipe::assigned(tree, loops, d1, temporary, expr);
    lemma_assigned_grows(tree, loops, d1, temporary, expr);
    lemma_still_ready(tree, loops, d1, d2);
    lemma_extends_further(draft, d1, d2);
}

/// Brewing to temporaries only adds code.
pub proof fn lemma_to_temporaries_grow(
    tree: Tree,
    loops: Map<validated::Expr, LoopContext>,
    draft: Draft,
    exprs: Seq<validated::Expr>,
)
    requires
        ready(tree, loops, draft),
        recipe::all_finite(tree, exprs),
        recipe::all_valid(tree, exprs, loops.dom()),
    ensures
        ({
            let (after, places) = recipe::to_temporaries(tree, loops, draft, exprs);
            &&& grown(draft, after)
            &&& after.code.knows_places(places)
            &&& places.len() == exprs.len()
        }),
    decreases recipe::depth_of_all(tree, exprs), 4int, exprs.len(),
{
    if exprs.len() == 0 {
        lemma_extends_itself(draft);
        reveal(ready);
    } else {
        let (d1, places) = recipe::to_temporaries(tree, loops, draft, exprs.drop_last());
        assert forall|k: int| 0 <= k < exprs.drop_last().len() implies tree.valid_expr(
            #[trigger] exprs.drop_last()[k],
            loops.dom(),
        ) by {
            assert(tree.valid_expr(exprs[k], loops.dom()));
        }
        lemma_to_temporaries_grow(tree, loops, draft, exprs.drop_last());
        lemma_still_ready(tree, loops, draft, d1);
        let (d2, place) = recipe::to_temporary(tree, loops, d1, exprs.last());
        assert(tree.valid_expr(exprs[exprs.len() - 1], loops.dom()));
        lemma_to_temporary_grows(tree, loops, d1, exprs.last());
        lemma_still_ready(tree, loops, d1, d2);
        lemma_extends_further(draft, d1, d2);
        let all = places.push(place);
        assert forall|k: int| 0 <= k < all.len() implies d2.code.knows_place(
            #[trigger] all[k],
        ) by {
            if k < places.len() {
                assert(d1.code.knows_place(places[k]));
            }
        }
    }
}

/// Brewing a series for its side effects only adds code.
pub proof fn lemma_all_side_effects_grow(
    tree: Tree,
    loops: Map<validated::Expr, LoopContext>,
    draft: Draft,
    exprs: Seq<validated::Expr>,
)
    requires
        ready(tree, loops, draft),
        recipe::all_finite(tree, exprs),
        recipe::all_valid(tree, exprs, loops.dom()),
    ensures
        grown(draft, recipe::all_side_effects(tree, loops, draft, exprs)),
    decreases recipe::depth_of_all(tree, exprs), 4int, exprs.len(),
{
    if exprs.len() == 0 {
        lemma_extends_itself(draft);
        reveal(ready);
    } else {
        let d1 = recipe::all_side_effects(tree, loops, draft, exprs.drop_last());
        assert forall|k: int| 0 <= k < exprs.drop_last().len() implies tree.valid_expr(
            #[trigger] exprs.drop_last()[k],
            loops.dom(),
        ) by {
            assert(tree.valid_expr(exprs[k], loops.dom()));
        }
        lemma_all_side_effects_grow(tree, loops, draft, exprs.drop_last());
        lemma_still_ready(tree, loops, draft, d1);
        assert(tree.valid_expr(exprs[exprs.len() - 1], loops.dom()));
        lemma_side_effects_grow(tree, loops, d1, exprs.last());
        lemma_extends_further(
            draft,
            d1,
            recipe::all_side_effects(tree, loops, draft, exprs),
        );
    }
}

/// Brewing into a place only adds code.
pub proof fn lemma_assigned_grows(
    tree: Tree,
    loops: Map<validated::Expr, LoopContext>,
    draft: Draft,
    target: Place,
    expr: validated::Expr,
)
    requires
        ready(tree, loops, draft),
        draft.code.knows_place(target),
        tree.valid_expr(expr, loops.dom()),
    ensures
        grown(draft, recipe::assigned(tree, loops, draft, target, expr)),
    decreases tree.depth(expr), 1int, 0nat,
{
    recipe::lemma_parts_are_shallower(tree, expr);
    recipe::lemma_parts_are_valid(tree, expr, loops.dom());
    let origin = tree.expr_origin(expr);
    let after = recipe::assigned(tree, loops, draft, target, expr);
    assert(sound(draft)) by {
        reveal(ready);
    }
    match tree.expr(expr) {
        ExprData::Await(future) => {
            let (d1, place) = recipe::to_temporary(tree, loops, draft, future);
            lemma_to_temporary_grows(tree, loops, draft, future);
            lemma_still_ready(tree, loops, draft, d1);
            let value = TerminatorExprShape::Await(place);
            lemma_computed_grows(draft, d1, target, value, origin);
        },
        ExprData::If(_, _, _) => lemma_if_grows(tree, loops, draft, target, expr),
        ExprData::Loop(_) => lemma_loop_grows(tree, loops, draft, target, expr),
        ExprData::Share(place) => {
            lemma_copied_grows(tree, loops, draft, target, expr, place);
        },
        ExprData::Lease(place) => {
            lemma_copied_grows(tree, loops, draft, target, expr, place);
        },
        ExprData::Give(place) => {
            lemma_copied_grows(tree, loops, draft, target, expr, place);
        },
        ExprData::BooleanLiteral(value) => {
            lemma_stored_grows(draft, draft, target, ExprShape::BooleanLiteral(value), origin);
        },
        ExprData::IntegerLiteral(value) => {
            lemma_stored_grows(draft, draft, target, ExprShape::IntegerLiteral(value), origin);
        },
        ExprData::StringLiteral(value) => {
            lemma_stored_grows(draft, draft, target, ExprShape::StringLiteral(value), origin);
        },
        ExprData::Tuple(exprs) => {
            let (d1, places) = recipe::to_temporaries(tree, loops, draft, exprs@);
            lemma_to_temporaries_grow(tree, loops, draft, exprs@);
            let value = if places.len() == 0 {
                ExprShape::Unit
            } else {
                ExprShape::Tuple(places)
            };
            lemma_stored_grows(draft, d1, target, value, origin);
        },
        ExprData::Op(lhs, op, rhs) => {
            let (d1, left) = recipe::to_temporary(tree, loops, draft, lhs);
            lemma_to_temporary_grows(tree, loops, draft, lhs);
            lemma_still_ready(tree, loops, draft, d1);
            let (d2, right) = recipe::to_temporary(tree, loops, d1, rhs);
            lemma_to_temporary_grows(tree, loops, d1, rhs);
            lemma_still_ready(tree, loops, d1, d2);
            lemma_extends_further(draft, d1, d2);
            lemma_stored_grows(draft, d2, target, ExprShape::Op(left, op, right), origin);
        },
        ExprData::Sequence(exprs) => {
            if exprs@.len() == 0 {
                lemma_stored_grows(draft, draft, target, ExprShape::Unit, origin);
            } else {
                let d1 = recipe::all_side_effects(tree, loops, draft, exprs@.drop_last());
                assert forall|k: int| 0 <= k < exprs@.drop_last().len() implies tree.valid_expr(
                    #[trigger] exprs@.drop_last()[k],
                    loops.dom(),
                ) by {
                    assert(tree.valid_expr(exprs@[k], loops.dom()));
                }
                lemma_all_side_effects_grow(tree, loops, draft, exprs@.drop_last());
                lemma_still_ready(tree, loops, draft, d1);
                let d2 = recipe::assigned(tree, loops, d1, target, exprs@.last());
                assert(tree.valid_expr(exprs@[exprs@.len() - 1], loops.dom()));
                lemma_assigned_grows(tree, loops, d1, target, exprs@.last());
                lemma_still_ready(tree, loops, d1, d2);
                lemma_extends_further(draft, d1, d2);
                lemma_cusp(d2, Some(target), origin);
                lemma_extends_further(draft, d2, after);
            }
        },
        ExprData::Assign(_, _) => {
            let d1 = recipe::side_effects(tree, loops, draft, expr);
            lemma_side_effects_grow(tree, loops, draft, expr);
            lemma_still_ready(tree, loops, draft, d1);
            lemma_assign(d1, target, ExprShape::Unit, origin);
            lemma_extends_further(draft, d1, after);
        },
        ExprData::Call(function, arguments) => {
            let values = tree.argument_exprs(arguments@);
            let (d1, callee) = recipe::to_temporary(tree, loops, draft, function);
            lemma_to_temporary_grows(tree, loops, draft, function);
            lemma_still_ready(tree, loops, draft, d1);
            let (d2, places) = recipe::to_temporaries(tree, loops, d1, values);
            lemma_to_temporaries_grow(tree, loops, d1, values);
            lemma_still_ready(tree, loops, d1, d2);
            lemma_extends_further(draft, d1, d2);
            let call = TerminatorExprShape::Call {
                function: callee,
                arguments: places,
                labels: recipe::labels(tree, arguments@),
            };
            lemma_computed_grows(draft, d2, target, call, origin);
        },
        ExprData::Atomic(_) => lemma_atomic_grows(tree, loops, draft, target, expr),
        ExprData::Error => lemma_side_effects_grow(tree, loops, draft, expr),
        ExprData::Return(_) => lemma_side_effects_grow(tree, loops, draft, expr),
        ExprData::Continue(_) => lemma_side_effects_grow(tree, loops, draft, expr),
        ExprData::Break { .. } => lemma_side_effects_grow(tree, loops, draft, expr),
    }
}

/// Storing a value and then marking the moment only adds code.
pub proof fn lemma_stored_grows(
    first: Draft,
    draft: Draft,
    target: Place,
    value: ExprShape,
    origin: ExprOrigin,
)
    requires
        sound(first),
        draft == first || grown(first, draft),
        first.code.knows_place(target),
        draft.code.knows_parts_of_expr(value),
    ensures
        grown(first, draft.assign(target, value, origin).cusp(Some(target), origin)),
{
    if draft == first {
        lemma_extends_itself(first);
    }
    let d1 = draft.assign(target, value, origin);
    let d2 = d1.cusp(Some(target), origin);
    lemma_still_known(first, draft);
    lemma_assign(draft, target, value, origin);
    lemma_still_known(draft, d1);
    lemma_cusp(d1, Some(target), origin);
    lemma_extends_further(first, draft, d1);
    lemma_extends_further(first, d1, d2);
}

/// A computation after which control continues in a new block only adds code.
pub proof fn lemma_computed_grows(
    first: Draft,
    draft: Draft,
    target: Place,
    value: TerminatorExprShape,
    origin: ExprOrigin,
)
    requires
        grown(first, draft),
        first.code.knows_place(target),
        match value {
            TerminatorExprShape::Await(place) => draft.code.knows_place(place),
            TerminatorExprShape::Call { function, arguments, labels } => {
                &&& draft.code.knows_place(function)
                &&& draft.code.knows_places(arguments)
                &&& arguments.len() == labels.len()
            },
        },
    ensures
        ({
            let (between, next) = draft.new_block(origin);
            grown(
                first,
                between.terminate(
                    TerminatorShape::Assign(target, value, next),
                    Some(next),
                    origin,
                ).cusp(Some(target), origin),
            )
        }),
{
    let (d1, next) = draft.new_block(origin);
    lemma_new_block(draft, origin);
    lemma_still_known(first, draft);
    lemma_still_known(draft, d1);
    lemma_extends_further(first, draft, d1);
    if let TerminatorExprShape::Call { arguments, .. } = value {
        assert forall|k: int| 0 <= k < arguments.len() implies d1.code.knows_place(
            #[trigger] arguments[k],
        ) by {
            assert(draft.code.knows_place(arguments[k]));
        }
    }
    let data = TerminatorShape::Assign(target, value, next);
    let d2 = d1.terminate(data, Some(next), origin);
    lemma_terminate(first, d1, data, Some(next), origin);
    lemma_still_known(first, d2);
    lemma_cusp(d2, Some(target), origin);
    lemma_extends_further(first, d2, d2.cusp(Some(target), origin));
}

/// Storing what is read from a place only adds code.
pub proof fn lemma_copied_grows(
    tree: Tree,
    loops: Map<validated::Expr, LoopContext>,
    draft: Draft,
    target: Place,
    expr: validated::Expr,
    place: validated::Place,
)
    requires
        ready(tree, loops, draft),
        draft.code.knows_place(target),
        tree.valid_expr(expr, loops.dom()),
        match tree.expr(expr) {
            ExprData::Share(from) => from == place,
            ExprData::Lease(from) => from == place,
            ExprData::Give(from) => from == place,
            _ => false,
        },
    ensures
        grown(draft, recipe::assigned(tree, loops, draft, target, expr)),
{
    let origin = tree.expr_origin(expr);
    let after = recipe::assigned(tree, loops, draft, target, expr);
    let (code, source, origins) = recipe::brewed_place(tree, draft.code, place);
    let value = match tree.expr(expr) {
        ExprData::Share(_) => ExprShape::Share(source),
        ExprData::Lease(_) => ExprShape::Lease(source),
        _ => ExprShape::Give(source),
    };
    let d1 = Draft { code, ..draft };
    lemma_brewed_place_grows(tree, loops, draft, place);
    lemma_still_ready(tree, loops, draft, d1);
    let d2 = d1.assign(target, value, origin);
    lemma_assign(d1, target, value, origin);
    lemma_still_ready(tree, loops, d1, d2);
    lemma_extends_further(draft, d1, d2);
    lemma_cusps(d2, Some(target), origins, origin);
    lemma_extends_further(draft, d2, after);
}

/// Brewing an `if` into a place only adds code.
proof fn lemma_if_grows(
    tree: Tree,
    loops: Map<validated::Expr, LoopContext>,
    draft: Draft,
    target: Place,
    expr: validated::Expr,
)
    requires
        ready(tree, loops, draft),
        draft.code.knows_place(target),
        tree.valid_expr(expr, loops.dom()),
        tree.expr(expr) is If,
    ensures
        grown(draft, recipe::assigned(tree, loops, draft, target, expr)),
    decreases tree.depth(expr), 0int, 1nat,
{
    recipe::lemma_parts_are_shallower(tree, expr);
    recipe::lemma_parts_are_valid(tree, expr, loops.dom());
    let origin = tree.expr_origin(expr);
    if let ExprData::If(condition, if_true, if_false) = tree.expr(expr) {
        let (d0, test) = recipe::to_temporary(tree, loops, draft, condition);
        lemma_to_temporary_grows(tree, loops, draft, condition);
        lemma_still_ready(tree, loops, draft, d0);
        let (d1, true_block) = d0.new_block(origin);
        lemma_new_block(d0, origin);
        lemma_still_ready(tree, loops, d0, d1);
        lemma_extends_further(draft, d0, d1);
        let (d2, false_block) = d1.new_block(origin);
        lemma_new_block(d1, origin);
        lemma_still_ready(tree, loops, d1, d2);
        lemma_extends_further(draft, d1, d2);
        let (d3, join) = d2.new_block(origin);
        lemma_new_block(d2, origin);
        lemma_still_ready(tree, loops, d2, d3);
        lemma_extends_further(draft, d2, d3);
        let data = TerminatorShape::If(test, true_block, false_block);
        let d4 = d3.terminate(data, Some(join), origin);
        lemma_terminate(draft, d3, data, Some(join), origin);
        lemma_terminate_adds(d3, data, Some(join), origin);
        lemma_still_ready(tree, loops, draft, d4);
        let forked = d4.cusp(Some(target), origin);
        lemma_cusp(d4, Some(target), origin);
        lemma_still_ready(tree, loops, d4, forked);
        lemma_extends_further(draft, d4, forked);

        let one = recipe::assigned(tree, loops, forked.at(Some(true_block)), target, if_true).goto(
            join,
            origin,
        );
        lemma_branch_grows(tree, loops, draft, forked, target, expr, if_true, true_block, join);
        let forked_again = one.at(forked.end);
        assert(one.at(Some(false_block)) == forked_again.at(Some(false_block)));
        lemma_branch_grows(
            tree,
            loops,
            draft,
            forked_again,
            target,
            expr,
            if_false,
            false_block,
            join,
        );
    }
}

/// Ending a block adds no block.
pub proof fn lemma_terminate_adds(
    draft: Draft,
    data: TerminatorShape,
    next: Option<BasicBlock>,
    origin: ExprOrigin,
)
    requires
        sound(draft),
    ensures
        draft.terminate(data, next, origin).code.basic_blocks.len()
            == draft.code.basic_blocks.len(),
        draft.terminate(data, next, origin).code.places == draft.code.places,
        draft.terminate(data, next, origin).code.fits() ==> draft.code.fits(),
{
    reveal(sound);
}

/// Brewing `part` in the new block `block`, and going on in `join` after it, only adds code.
pub proof fn lemma_branch_grows(
    tree: Tree,
    loops: Map<validated::Expr, LoopContext>,
    first: Draft,
    draft: Draft,
    target: Place,
    expr: validated::Expr,
    part: validated::Expr,
    block: BasicBlock,
    join: BasicBlock,
)
    requires
        ready(tree, loops, draft),
        extends(first, draft),
        draft.code.knows_place(target),
        draft.code.knows_block(block),
        draft.code.knows_block(join),
        draft.code.fits() ==> block.index >= first.code.basic_blocks.len(),
        tree.valid_expr(part, loops.dom()),
        recipe::shallower(tree, part, expr),
    ensures
        ({
            let done = recipe::assigned(tree, loops, draft.at(Some(block)), target, part).goto(
                join,
                tree.expr_origin(expr),
            );
            &&& grown(first, done.at(draft.end))
            &&& grown(draft.at(Some(block)), done)
            &&& ready(tree, loops, done.at(draft.end))
            &&& draft.code.places.len() <= done.code.places.len()
            &&& draft.code.basic_blocks.len() <= done.code.basic_blocks.len()
            &&& done.code.fits() ==> draft.code.fits()
        }),
    decreases tree.depth(expr), 0int, 0nat,
{
    let origin = tree.expr_origin(expr);
    let start = draft.at(Some(block));
    lemma_ready_elsewhere(tree, loops, draft, block);
    let d1 = recipe::assigned(tree, loops, start, target, part);
    lemma_assigned_grows(tree, loops, start, target, part);
    lemma_still_ready(tree, loops, start, d1);
    let done = d1.goto(join, origin);
    lemma_terminate(start, d1, TerminatorShape::Goto(join), None, origin);
    lemma_still_ready(tree, loops, start, done);
    lemma_extends_after_detour(first, draft, block, done);
    reveal(ready);
}

/// Brewing a loop into a place only adds code.
proof fn lemma_loop_grows(
    tree: Tree,
    loops: Map<validated::Expr, LoopContext>,
    draft: Draft,
    target: Place,
    expr: validated::Expr,
)
    requires
        ready(tree, loops, draft),
        draft.code.knows_place(target),
        tree.valid_expr(expr, loops.dom()),
        tree.expr(expr) is Loop,
    ensures
        grown(draft, recipe::assigned(tree, loops, draft, target, expr)),
    decreases tree.depth(expr), 0int, 0nat,
{
    recipe::lemma_parts_are_shallower(tree, expr);
    recipe::lemma_parts_are_valid(tree, expr, loops.dom());
    let origin = tree.expr_origin(expr);
    assert(sound(draft)) by {
        reveal(ready);
    }
    if let ExprData::Loop(body) = tree.expr(expr) {
        let (d1, body_block) = draft.new_block(origin);
        lemma_new_block(draft, origin);
        lemma_still_ready(tree, loops, draft, d1);
        let (d2, break_block) = d1.new_block(origin);
        lemma_new_block(d1, origin);
        lemma_still_ready(tree, loops, d1, d2);
        lemma_extends_further(draft, d1, d2);
        let data = TerminatorShape::Goto(body_block);
        let d3 = d2.terminate(data, Some(break_block), origin);
        lemma_terminate(draft, d2, data, Some(break_block), origin);
        lemma_terminate_adds(d2, data, Some(break_block), origin);
        lemma_still_ready(tree, loops, draft, d3);
        let entered = d3.cusp(Some(target), origin);
        lemma_cusp(d3, Some(target), origin);
        lemma_still_ready(tree, loops, d3, entered);
        lemma_extends_further(draft, d3, entered);
        let context = LoopContext { continue_block: body_block, break_block, loop_value: target };
        let inside = loops.insert(expr, context);
        assert(inside.dom() =~= loops.dom().insert(expr));
        assert(ready(tree, inside, entered)) by {
            reveal(ready);
            assert(entered.code.knows_block(body_block));
            assert(entered.code.knows_block(break_block));
            assert(entered.code.knows_place(target));
        }
        lemma_ready_elsewhere(tree, inside, entered, body_block);
        let start = entered.at(Some(body_block));
        let d4 = recipe::side_effects(tree, inside, start, body);
        lemma_side_effects_grow(tree, inside, start, body);
        lemma_still_ready(tree, inside, start, d4);
        let done = d4.goto(body_block, origin);
        lemma_terminate(start, d4, TerminatorShape::Goto(body_block), None, origin);
        lemma_still_ready(tree, inside, start, done);
        lemma_extends_after_detour(draft, entered, body_block, done);
    }
}

/// Brewing an atomic section into a place only adds code.
proof fn lemma_atomic_grows(
    tree: Tree,
    loops: Map<validated::Expr, LoopContext>,
    draft: Draft,
    target: Place,
    expr: validated::Expr,
)
    requires
        ready(tree, loops, draft),
        draft.code.knows_place(target),
        tree.valid_expr(expr, loops.dom()),
        tree.expr(expr) is Atomic,
    ensures
        grown(draft, recipe::assigned(tree, loops, draft, target, expr)),
    decreases tree.depth(expr), 0int, 0nat,
{
    recipe::lemma_parts_are_shallower(tree, expr);
    recipe::lemma_parts_are_valid(tree, expr, loops.dom());
    let origin = tree.expr_origin(expr);
    assert(sound(draft)) by {
        reveal(ready);
    }
    if let ExprData::Atomic(inner) = tree.expr(expr) {
        let (d1, inside) = draft.new_block(origin);
        lemma_new_block(draft, origin);
        lemma_still_ready(tree, loops, draft, d1);
        let data = TerminatorShape::StartAtomic(inside);
        let d2 = d1.terminate(data, Some(inside), origin);
        lemma_terminate(draft, d1, data, Some(inside), origin);
        lemma_still_ready(tree, loops, draft, d2);
        let d3 = recipe::assigned(tree, loops, d2, target, inner);
        lemma_assigned_grows(tree, loops, d2, target, inner);
        lemma_still_ready(tree, loops, d2, d3);
        lemma_extends_further(draft, d2, d3);
        let (d4, next) = d3.new_block(origin);
        lemma_new_block(d3, origin);
        lemma_still_ready(tree, loops, d3, d4);
        lemma_extends_further(draft, d3, d4);
        let data = TerminatorShape::EndAtomic(next);
        let d5 = d4.terminate(data, Some(next), origin);
        lemma_terminate(draft, d4, data, Some(next), origin);
        lemma_still_ready(tree, loops, draft, d5);
        let d6 = d5.cusp(Some(target), origin);
        lemma_cusp(d5, Some(target), origin);
        lemma_extends_further(draft, d5, d6);
    }
}

/// Every brewed function is well-formed: each entry of its tables has an origin and refers only to
/// what is in the tables, and its first local variables are those of the validated function.
pub proof fn lemma_brewed_is_well_formed(tree: Tree)
    requires
        tree.valid(),
    ensures
        ({
            let (code, start) = recipe::brewed(tree);
            let declared = recipe::declared_variables(tree);
            &&& code.well_formed()
            &&& code.knows_block(start)
            &&& declared.local_variables.is_prefix_of(code.local_variables)
            &&& declared.local_variable_origins.is_prefix_of(code.local_variable_origins)
        }),
{
    let root = tree.data.root_expr;
    let origin = tree.expr_origin(root);
    let loops = Map::<validated::Expr, LoopContext>::empty();
    let d0 = Draft { code: recipe::declared_variables(tree), end: None };
    assert(sound(d0)) by {
        reveal(sound);
    }
    let (d1, start) = d0.new_block(origin);
    lemma_new_block(d0, origin);
    let d2 = d1.at(Some(start));
    assert(ready(tree, loops, d2)) by {
        reveal(ready);
        reveal(sound);
        lemma_still_known(d0, d1);
    }
    assert(loops.dom() =~= Set::empty());
    let (d3, place) = recipe::to_temporary(tree, loops, d2, root);
    lemma_to_temporary_grows(tree, loops, d2, root);
    lemma_terminate(d2, d3, TerminatorShape::Return(place), None, origin);
    reveal(extends);
    reveal(sound);
}

/// Control flow that diverges leaves nowhere to grow: nothing that follows `break`, `continue`,
/// `return` or an error is added to its block.
pub proof fn lemma_jump_diverges(
    tree: Tree,
    loops: Map<validated::Expr, LoopContext>,
    draft: Draft,
    target: Place,
    expr: validated::Expr,
)
    requires
        tree.is_finite(expr),
        match tree.expr(expr) {
            ExprData::Break { .. } => true,
            ExprData::Continue(_) => true,
            ExprData::Return(_) => true,
            ExprData::Error => true,
            _ => false,
        },
    ensures
        recipe::side_effects(tree, loops, draft, expr).end is None,
        recipe::assigned(tree, loops, draft, target, expr).end is None,
{
}

} // verus!
