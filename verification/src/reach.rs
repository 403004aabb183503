//! Control only gets to blocks whose end has been brewed.
use vstd::prelude::*;

use crate::bir::{
    BasicBlock, Code, ExprShape, Place, TerminatorExprShape, TerminatorShape,
};
use crate::growth;
use crate::recipe;
use crate::recipe::{Draft, LoopContext};
use crate::validated;
use crate::validated::{ExprData, ExprOrigin, Tree};

verus! {

/// The blocks in which control can continue after a terminator.
pub open spec fn successors(shape: TerminatorShape) -> Seq<BasicBlock> {
    match shape {
        TerminatorShape::Goto(target) => seq![target],
        TerminatorShape::If(_, if_true, if_false) => seq![if_true, if_false],
        TerminatorShape::StartAtomic(next) => seq![next],
        TerminatorShape::EndAtomic(next) => seq![next],
        TerminatorShape::Return(_) => seq![],
        TerminatorShape::Assign(_, _, next) => seq![next],
        TerminatorShape::Error => seq![],
        TerminatorShape::Panic => seq![],
    }
}

/// What happens at the end of block `block`.
pub open spec fn terminator(code: Code, block: int) -> TerminatorShape {
    code.terminators[code.basic_blocks[block].terminator.index as int]
}

/// Whether control can get from each block of `path` to the next.
pub open spec fn is_path(code: Code, path: Seq<BasicBlock>) -> bool {
    &&& path.len() > 0
    &&& forall|k: int|
        0 <= k < path.len() - 1 ==> successors(
            terminator(code, (#[trigger] path[k]).index as int),
        ).contains(path[k + 1])
}

/// Whether the blocks of `inner` have been brewed to their end, and control that leaves them gets
/// to `exits`.
#[verifier::opaque]
pub open spec fn enclosed(code: Code, inner: Set<int>, exits: Set<int>) -> bool {
    forall|b: int| #[trigger]
        inner.contains(b) ==> {
            &&& 0 <= b < code.basic_blocks.len()
            &&& terminator(code, b) !is Panic
            &&& forall|k: int|
                0 <= k < successors(terminator(code, b)).len() ==> {
                    let next = (#[trigger] successors(terminator(code, b))[k]).index as int;
                    inner.contains(next) || exits.contains(next)
                }
        }
}

/// `exits` and the block at whose end code grows, if there is one.
pub open spec fn open_ends(exits: Set<int>, end: Option<BasicBlock>) -> Set<int> {
    match end {
        Some(block) => exits.insert(block.index as int),
        None => exits,
    }
}

/// Whether the blocks of `inner` have been brewed to their end, and control that leaves them gets
/// to `exits` or to the block at whose end `draft` grows, which is none of them.
pub open spec fn region(draft: Draft, inner: Set<int>, exits: Set<int>) -> bool {
    &&& enclosed(draft.code, inner, open_ends(exits, draft.end))
    &&& draft.end matches Some(block) ==> !inner.contains(block.index as int)
}

/// Whether `outer` is `inner` and some blocks that were brewed to their end between `before` and
/// `after`, among them the block at whose end `before` grew, unless `after` grows there too.
pub open spec fn closes(before: Draft, inner: Set<int>, after: Draft, outer: Set<int>) -> bool {
    &&& forall|b: int| #[trigger] inner.contains(b) ==> outer.contains(b)
    &&& forall|b: int| #[trigger]
        outer.contains(b) ==> {
            ||| inner.contains(b)
            ||| b >= before.code.basic_blocks.len()
            ||| before.end is Some && before.end->0.index == b
        }
    &&& before.end matches Some(block) ==> {
        outer.contains(block.index as int) || after.end == before.end
    }
}

/// One run of brewing after another.
proof fn lemma_closes_further(
    first: Draft,
    inner: Set<int>,
    second: Draft,
    middle: Set<int>,
    third: Draft,
    outer: Set<int>,
)
    requires
        growth::extends(first, second),
        second.code.fits(),
        closes(first, inner, second, middle),
        closes(second, middle, third, outer),
    ensures
        closes(first, inner, third, outer),
{
    reveal(growth::extends);
    assert forall|b: int| #[trigger] outer.contains(b) implies {
        ||| inner.contains(b)
        ||| b >= first.code.basic_blocks.len()
        ||| first.end is Some && first.end->0.index == b
    } by {
        if middle.contains(b) {
        }
    }
    assert forall|b: int| #[trigger] inner.contains(b) implies outer.contains(b) by {
        assert(middle.contains(b));
    }
}

/// Code that is added without ending a block keeps every region.
proof fn lemma_region_kept(before: Draft, after: Draft, inner: Set<int>, exits: Set<int>)
    requires
        growth::sound(before),
        growth::extends(before, after),
        after.code.fits(),
        after.end == before.end,
        region(before, inner, exits),
    ensures
        region(after, inner, exits),
        closes(before, inner, after, inner),
{
    reveal(growth::sound);
    reveal(growth::extends);
    reveal(enclosed);
    assert forall|b: int| #[trigger] inner.contains(b) implies {
        &&& 0 <= b < after.code.basic_blocks.len()
        &&& terminator(after.code, b) == terminator(before.code, b)
    } by {
        assert(before.code.knows_parts_of_block(before.code.basic_blocks[b]));
        assert(after.code.basic_blocks[b] == before.code.basic_blocks[b]);
        let i = before.code.basic_blocks[b].terminator.index as int;
        assert(after.code.terminators[i] == before.code.terminators[i]);
    }
}

/// Ending the block at whose end code grows puts it inside the region.
proof fn lemma_region_terminated(
    draft: Draft,
    data: TerminatorShape,
    next: Option<BasicBlock>,
    origin: ExprOrigin,
    inner: Set<int>,
    exits: Set<int>,
) -> (outer: Set<int>)
    requires
        growth::sound(draft),
        draft.terminate(data, next, origin).code.fits(),
        region(draft, inner, exits),
        data !is Panic,
        forall|k: int|
            0 <= k < successors(data).len() ==> open_ends(exits, next).contains(
                (#[trigger] successors(data)[k]).index as int,
            ),
        next matches Some(block) ==> {
            !inner.contains(block.index as int) && next != draft.end
        },
    ensures
        region(draft.terminate(data, next, origin), outer, exits),
        closes(draft, inner, draft.terminate(data, next, origin), outer),
        outer == open_ends(inner, draft.end),
{
    let after = draft.terminate(data, next, origin);
    let outer = open_ends(inner, draft.end);
    reveal(growth::sound);
    reveal(enclosed);
    if let Some(block) = draft.end {
        let e = block.index as int;
        assert(terminator(after.code, e) == data);
        assert forall|b: int| #[trigger] inner.contains(b) implies terminator(after.code, b)
            == terminator(draft.code, b) by {
            assert(draft.code.knows_parts_of_block(draft.code.basic_blocks[b]));
        }
        let reached = open_ends(exits, next);
        assert forall|b: int| #[trigger] outer.contains(b) implies {
            &&& 0 <= b < after.code.basic_blocks.len()
            &&& terminator(after.code, b) !is Panic
            &&& forall|k: int|
                0 <= k < successors(terminator(after.code, b)).len() ==> {
                    let next = (#[trigger] successors(terminator(after.code, b))[k]).index as int;
                    outer.contains(next) || reached.contains(next)
                }
        } by {
            if b != e {
                assert(inner.contains(b));
            }
        }
    }
    outer
}

/// Growing at the end of another block that can be left to.
proof fn lemma_region_elsewhere(
    draft: Draft,
    block: BasicBlock,
    inner: Set<int>,
    exits: Set<int>,
)
    requires
        region(draft, inner, exits),
        draft.end matches Some(end) ==> exits.contains(end.index as int),
        !inner.contains(block.index as int),
    ensures
        region(draft.at(Some(block)), inner, exits),
{
    reveal(enclosed);
}

/// More exits.
proof fn lemma_region_with_exits(
    draft: Draft,
    inner: Set<int>,
    exits: Set<int>,
    more: Set<int>,
)
    requires
        region(draft, inner, exits),
        forall|b: int| #[trigger] exits.contains(b) ==> more.contains(b),
    ensures
        region(draft, inner, more),
{
    reveal(enclosed);
}

/// Fewer exits, where the others have been brewed to their end, or code grows there.
proof fn lemma_region_without_exits(
    draft: Draft,
    inner: Set<int>,
    exits: Set<int>,
    fewer: Set<int>,
)
    requires
        region(draft, inner, exits),
        forall|b: int| #[trigger]
            exits.contains(b) ==> {
                ||| fewer.contains(b)
                ||| inner.contains(b)
                ||| draft.end is Some && draft.end->0.index == b
            },
    ensures
        region(draft, inner, fewer),
{
    reveal(enclosed);
    assert forall|b: int| open_ends(exits, draft.end).contains(b) implies inner.contains(b)
        || #[trigger] open_ends(fewer, draft.end).contains(b) by {}
}

/// The blocks of a region are in the tables.
proof fn lemma_region_is_known(draft: Draft, inner: Set<int>, exits: Set<int>)
    requires
        region(draft, inner, exits),
    ensures
        forall|b: int| #[trigger]
            inner.contains(b) ==> 0 <= b < draft.code.basic_blocks.len(),
{
    reveal(enclosed);
}

/// Where control stays in a region whose blocks have been brewed to their end, every path ends in
/// such a block.
proof fn lemma_path_stays_inside(code: Code, inner: Set<int>, path: Seq<BasicBlock>)
    requires
        enclosed(code, inner, Set::empty()),
        is_path(code, path),
        inner.contains(path[0].index as int),
    ensures
        inner.contains(path.last().index as int),
    decreases path.len(),
{
    if path.len() > 1 {
        let shorter = path.drop_last();
        assert forall|k: int| 0 <= k < shorter.len() - 1 implies successors(
            terminator(code, (#[trigger] shorter[k]).index as int),
        ).contains(shorter[k + 1]) by {
            assert(path[k] == shorter[k]);
        }
        lemma_path_stays_inside(code, inner, shorter);
        reveal(enclosed);
        let last = path.len() - 2;
        assert(path[last] == shorter.last());
        let nexts = successors(terminator(code, path[last].index as int));
        assert(nexts.contains(path[last + 1]));
        let k = choose|k: int| 0 <= k < nexts.len() && nexts[k] == path[last + 1];
        assert(nexts[k] == path.last());
    }
}

/// Whether the blocks to which `break` and `continue` go are among `exits`.
pub open spec fn loops_exit_to(loops: Map<validated::Expr, LoopContext>, exits: Set<int>) -> bool {
    forall|expr: validated::Expr| #[trigger]
        loops.contains_key(expr) ==> {
            &&& exits.contains(loops[expr].continue_block.index as int)
            &&& exits.contains(loops[expr].break_block.index as int)
        }
}

/// More code without ending a block, after `draft`.
proof fn lemma_then_kept(
    first: Draft,
    inner: Set<int>,
    draft: Draft,
    middle: Set<int>,
    after: Draft,
    exits: Set<int>,
)
    requires
        growth::sound(draft),
        growth::extends(first, draft),
        closes(first, inner, draft, middle),
        region(draft, middle, exits),
        growth::extends(draft, after),
        after.code.fits(),
        after.end == draft.end,
    ensures
        region(after, middle, exits),
        closes(first, inner, after, middle),
{
    growth::lemma_still_known(draft, after);
    lemma_region_kept(draft, after, middle, exits);
    lemma_closes_further(first, inner, draft, middle, after, middle);
}

/// Ending a block, after `draft`, and going on in `next`.
proof fn lemma_then_terminated(
    first: Draft,
    inner: Set<int>,
    draft: Draft,
    middle: Set<int>,
    data: TerminatorShape,
    next: Option<BasicBlock>,
    origin: ExprOrigin,
    exits: Set<int>,
) -> (outer: Set<int>)
    requires
        growth::sound(draft),
        growth::extends(first, draft),
        closes(first, inner, draft, middle),
        region(draft, middle, exits),
        draft.terminate(data, next, origin).code.fits(),
        data !is Panic,
        forall|k: int|
            0 <= k < successors(data).len() ==> open_ends(exits, next).contains(
                (#[trigger] successors(data)[k]).index as int,
            ),
        next matches Some(block) ==> {
            !middle.contains(block.index as int) && next != draft.end
        },
    ensures
        region(draft.terminate(data, next, origin), outer, exits),
        closes(first, inner, draft.terminate(data, next, origin), outer),
        outer == open_ends(middle, draft.end),
{
    growth::lemma_terminate_adds(draft, data, next, origin);
    let outer = lemma_region_terminated(draft, data, next, origin, middle, exits);
    lemma_closes_further(
        first,
        inner,
        draft,
        middle,
        draft.terminate(data, next, origin),
        outer,
    );
    outer
}

/// A new block, after `draft`, is not in the region, and code does not grow there yet.
proof fn lemma_then_new_block(
    first: Draft,
    inner: Set<int>,
    draft: Draft,
    middle: Set<int>,
    origin: ExprOrigin,
    exits: Set<int>,
)
    requires
        growth::sound(draft),
        growth::extends(first, draft),
        closes(first, inner, draft, middle),
        region(draft, middle, exits),
        draft.new_block(origin).0.code.fits(),
    ensures
        ({
            let (after, block) = draft.new_block(origin);
            &&& growth::grown(draft, after)
            &&& growth::extends(first, after)
            &&& region(after, middle, exits)
            &&& closes(first, inner, after, middle)
            &&& !middle.contains(block.index as int)
            &&& after.end == draft.end
            &&& after.end != Some(block)
            &&& block.index == draft.code.basic_blocks.len()
            &&& after.code.basic_blocks.len() == draft.code.basic_blocks.len() + 1
        }),
{
    let (after, block) = draft.new_block(origin);
    growth::lemma_new_block(draft, origin);
    growth::lemma_extends_further(first, draft, after);
    lemma_then_kept(first, inner, draft, middle, after, exits);
    lemma_region_is_known(draft, middle, exits);
    reveal(growth::sound);
}

/// A computation after which control continues in a new block.
proof fn lemma_computed_closes(
    first: Draft,
    inner: Set<int>,
    draft: Draft,
    middle: Set<int>,
    target: Place,
    value: TerminatorExprShape,
    origin: ExprOrigin,
    exits: Set<int>,
) -> (outer: Set<int>)
    requires
        growth::grown(first, draft),
        closes(first, inner, draft, middle),
        region(draft, middle, exits),
        first.code.knows_place(target),
        match value {
            TerminatorExprShape::Await(place) => draft.code.knows_place(place),
            TerminatorExprShape::Call { function, arguments, labels } => {
                &&& draft.code.knows_place(function)
                &&& draft.code.knows_places(arguments)
                &&& arguments.len() == labels.len()
            },
        },
        ({
            let (between, next) = draft.new_block(origin);
            between.terminate(
                TerminatorShape::Assign(target, value, next),
                Some(next),
                origin,
            ).cusp(Some(target), origin).code.fits()
        }),
    ensures
        ({
            let (between, next) = draft.new_block(origin);
            let after = between.terminate(
                TerminatorShape::Assign(target, value, next),
                Some(next),
                origin,
            ).cusp(Some(target), origin);
            region(after, outer, exits) && closes(first, inner, after, outer)
        }),
{
    let (d1, next) = draft.new_block(origin);
    let data = TerminatorShape::Assign(target, value, next);
    let d2 = d1.terminate(data, Some(next), origin);
    let d3 = d2.cusp(Some(target), origin);
    growth::lemma_new_block(draft, origin);
    growth::lemma_computed_grows(first, draft, target, value, origin);
    growth::lemma_still_known(first, draft);
    growth::lemma_still_known(draft, d1);
    if let TerminatorExprShape::Call { arguments, .. } = value {
        assert forall|k: int| 0 <= k < arguments.len() implies d1.code.knows_place(
            #[trigger] arguments[k],
        ) by {
            assert(draft.code.knows_place(arguments[k]));
        }
    }
    growth::lemma_extends_further(first, draft, d1);
    growth::lemma_terminate(first, d1, data, Some(next), origin);
    growth::lemma_terminate_adds(d1, data, Some(next), origin);
    growth::lemma_cusp(d2, Some(target), origin);
    growth::lemma_still_known(d2, d3);
    lemma_then_new_block(first, inner, draft, middle, origin, exits);
    let outer = lemma_then_terminated(
        first,
        inner,
        d1,
        middle,
        data,
        Some(next),
        origin,
        exits,
    );
    lemma_then_kept(first, inner, d2, outer, d3, exits);
    outer
}

/// Storing a value and then marking the moment.
proof fn lemma_stored_closes(
    first: Draft,
    inner: Set<int>,
    draft: Draft,
    middle: Set<int>,
    target: Place,
    value: ExprShape,
    origin: ExprOrigin,
    exits: Set<int>,
)
    requires
        growth::grown(first, draft),
        closes(first, inner, draft, middle),
        region(draft, middle, exits),
        first.code.knows_place(target),
        draft.code.knows_parts_of_expr(value),
        draft.assign(target, value, origin).cusp(Some(target), origin).code.fits(),
    ensures
        ({
            let after = draft.assign(target, value, origin).cusp(Some(target), origin);
            region(after, middle, exits) && closes(first, inner, after, middle)
        }),
{
    let d1 = draft.assign(target, value, origin);
    let d2 = d1.cusp(Some(target), origin);
    growth::lemma_still_known(first, draft);
    growth::lemma_assign(draft, target, value, origin);
    growth::lemma_still_known(draft, d1);
    growth::lemma_cusp(d1, Some(target), origin);
    growth::lemma_extends_further(draft, d1, d2);
    lemma_then_kept(first, inner, draft, middle, d2, exits);
}

/// The start of a proof about more code: nothing has been added yet.
proof fn lemma_closes_nothing(draft: Draft, inner: Set<int>)
    ensures
        closes(draft, inner, draft, inner),
        growth::extends(draft, draft),
{
    growth::lemma_extends_itself(draft);
}

/// Whether `draft` can be continued with code of `tree` inside a region, `loops` being open.
pub open spec fn brewable(
    tree: Tree,
    loops: Map<validated::Expr, LoopContext>,
    draft: Draft,
    inner: Set<int>,
    exits: Set<int>,
) -> bool {
    &&& growth::ready(tree, loops, draft)
    &&& region(draft, inner, exits)
    &&& loops_exit_to(loops, exits)
}

/// Brewing for side effects keeps control in a region.
proof fn lemma_side_effects_close(
    tree: Tree,
    loops: Map<validated::Expr, LoopContext>,
    draft: Draft,
    expr: validated::Expr,
    inner: Set<int>,
    exits: Set<int>,
) -> (outer: Set<int>)
    requires
        brewable(tree, loops, draft, inner, exits),
        tree.valid_expr(expr, loops.dom()),
        recipe::side_effects(tree, loops, draft, expr).code.fits(),
    ensures
        ({
            let after = recipe::side_effects(tree, loops, draft, expr);
            region(after, outer, exits) && closes(draft, inner, after, outer)
        }),
    decreases
            tree.depth(expr),
            if recipe::is_command(tree, expr) {
                0int
            } else {
                3int
            },
            0nat,
{
    recipe::lemma_parts_are_shallower(tree, expr);
    recipe::lemma_parts_are_valid(tree, expr, loops.dom());
    let origin = tree.expr_origin(expr);
    let after = recipe::side_effects(tree, loops, draft, expr);
    reveal(growth::ready);
    lemma_closes_nothing(draft, inner);
    match tree.expr(expr) {
        ExprData::Break { from_expr, with_value } => {
            let context = loops[from_expr];
            assert(loops.contains_key(from_expr));
            let data = TerminatorShape::Goto(context.break_block);
            let d1 = recipe::assigned(tree, loops, draft, context.loop_value, with_value);
            growth::lemma_assigned_grows(tree, loops, draft, context.loop_value, with_value);
            growth::lemma_still_ready(tree, loops, draft, d1);
            let d2 = d1.cusp(Some(context.loop_value), origin);
            growth::lemma_cusp(d1, Some(context.loop_value), origin);
            growth::lemma_extends_further(draft, d1, d2);
            growth::lemma_still_known(d1, d2);
            growth::lemma_terminate_adds(d2, data, None, origin);
            let m = lemma_assigned_closes(
                tree,
                loops,
                draft,
                context.loop_value,
                with_value,
                inner,
                exits,
            );
            lemma_then_kept(draft, inner, d1, m, d2, exits);
            lemma_then_terminated(draft, inner, d2, m, data, None, origin, exits)
        },
        ExprData::Continue(from_expr) => {
            assert(loops.contains_key(from_expr));
            let data = TerminatorShape::Goto(loops[from_expr].continue_block);
            let d1 = draft.cusp(None, origin);
            growth::lemma_cusp(draft, None, origin);
            growth::lemma_terminate_adds(d1, data, None, origin);
            lemma_then_kept(draft, inner, draft, inner, d1, exits);
            lemma_then_terminated(draft, inner, d1, inner, data, None, origin, exits)
        },
        ExprData::Return(value) => {
            let (d1, place) = recipe::to_temporary(tree, loops, draft, value);
            let data = TerminatorShape::Return(place);
            growth::lemma_to_temporary_grows(tree, loops, draft, value);
            let d2 = d1.cusp(Some(place), origin);
            growth::lemma_cusp(d1, Some(place), origin);
            growth::lemma_still_known(d1, d2);
            growth::lemma_extends_further(draft, d1, d2);
            growth::lemma_terminate_adds(d2, data, None, origin);
            let m = lemma_to_temporary_closes(tree, loops, draft, value, inner, exits);
            lemma_then_kept(draft, inner, d1, m, d2, exits);
            lemma_then_terminated(draft, inner, d2, m, data, None, origin, exits)
        },
        ExprData::Error => {
            let data = TerminatorShape::Error;
            let d1 = draft.cusp(None, origin);
            growth::lemma_cusp(draft, None, origin);
            growth::lemma_terminate_adds(d1, data, None, origin);
            lemma_then_kept(draft, inner, draft, inner, d1, exits);
            lemma_then_terminated(draft, inner, d1, inner, data, None, origin, exits)
        },
        ExprData::Assign(place, value) => {
            let (code, target, origins) = recipe::brewed_place(tree, draft.code, place);
            let d1 = Draft { code, ..draft };
            growth::lemma_brewed_place_grows(tree, loops, draft, place);
            growth::lemma_still_ready(tree, loops, draft, d1);
            let d2 = recipe::assigned(tree, loops, d1, target, value);
            growth::lemma_assigned_grows(tree, loops, d1, target, value);
            growth::lemma_extends_further(draft, d1, d2);
            growth::lemma_still_known(d1, d2);
            growth::lemma_cusps(d2, None, origins, origin);
            growth::lemma_still_known(d2, after);
            lemma_then_kept(draft, inner, draft, inner, d1, exits);
            let m = lemma_assigned_closes(tree, loops, d1, target, value, inner, exits);
            lemma_closes_further(draft, inner, d1, inner, d2, m);
            lemma_then_kept(draft, inner, d2, m, after, exits);
            m
        },
        _ => lemma_to_temporary_closes(tree, loops, draft, expr, inner, exits),
    }
}

/// Brewing to a temporary keeps control in a region.
proof fn lemma_to_temporary_closes(
    tree: Tree,
    loops: Map<validated::Expr, LoopContext>,
    draft: Draft,
    expr: validated::Expr,
    inner: Set<int>,
    exits: Set<int>,
) -> (outer: Set<int>)
    requires
        brewable(tree, loops, draft, inner, exits),
        tree.valid_expr(expr, loops.dom()),
        recipe::to_temporary(tree, loops, draft, expr).0.code.fits(),
    ensures
        ({
            let after = recipe::to_temporary(tree, loops, draft, expr).0;
            region(after, outer, exits) && closes(draft, inner, after, outer)
        }),
    decreases tree.depth(expr), 2int, 0nat,
{
    let origin = tree.expr_origin(expr);
    let (d1, temporary) = draft.new_temporary(origin);
    assert(growth::sound(draft)) by {
        reveal(growth::ready);
    }
    growth::lemma_new_temporary(draft, origin);
    growth::lemma_still_ready(tree, loops, draft, d1);
    let d2 = recipe::assigned(tree, loops, d1, temporary, expr);
    growth::lemma_assigned_grows(tree, loops, d1, temporary, expr);
    growth::lemma_still_known(d1, d2);
    lemma_region_kept(draft, d1, inner, exits);
    let outer = lemma_assigned_closes(tree, loops, d1, temporary, expr, inner, exits);
    lemma_closes_further(draft, inner, d1, inner, d2, outer);
    outer
}

/// Brewing to temporaries keeps control in a region.
proof fn lemma_to_temporaries_close(
    tree: Tree,
    loops: Map<validated::Expr, LoopContext>,
    draft: Draft,
    exprs: Seq<validated::Expr>,
    inner: Set<int>,
    exits: Set<int>,
) -> (outer: Set<int>)
    requires
        brewable(tree, loops, draft, inner, exits),
        recipe::all_finite(tree, exprs),
        recipe::all_valid(tree, exprs, loops.dom()),
        recipe::to_temporaries(tree, loops, draft, exprs).0.code.fits(),
    ensures
        ({
            let after = recipe::to_temporaries(tree, loops, draft, exprs).0;
            region(after, outer, exits) && closes(draft, inner, after, outer)
        }),
    decreases recipe::depth_of_all(tree, exprs), 4int, exprs.len(),
{
    if exprs.len() == 0 {
        inner
    } else {
        let d1 = recipe::to_temporaries(tree, loops, draft, exprs.drop_last()).0;
        lemma_prefix_is_valid(tree, exprs, loops.dom());
        growth::lemma_to_temporaries_grow(tree, loops, draft, exprs.drop_last());
        growth::lemma_still_ready(tree, loops, draft, d1);
        let d2 = recipe::to_temporary(tree, loops, d1, exprs.last()).0;
        growth::lemma_to_temporary_grows(tree, loops, d1, exprs.last());
        growth::lemma_still_known(d1, d2);
        let middle = lemma_to_temporaries_close(
            tree,
            loops,
            draft,
            exprs.drop_last(),
            inner,
            exits,
        );
        let outer = lemma_to_temporary_closes(tree, loops, d1, exprs.last(), middle, exits);
        lemma_closes_further(draft, inner, d1, middle, d2, outer);
        outer
    }
}

/// All but the last of a series that can be brewed can be brewed, and the last one too.
proof fn lemma_prefix_is_valid(
    tree: Tree,
    exprs: Seq<validated::Expr>,
    loops: Set<validated::Expr>,
)
    requires
        exprs.len() > 0,
        recipe::all_valid(tree, exprs, loops),
    ensures
        recipe::all_finite(tree, exprs.drop_last()),
        recipe::all_valid(tree, exprs.drop_last(), loops),
        tree.valid_expr(exprs.last(), loops),
{
    assert forall|k: int| 0 <= k < exprs.drop_last().len() implies tree.valid_expr(
        #[trigger] exprs.drop_last()[k],
        loops,
    ) by {
        assert(tree.valid_expr(exprs[k], loops));
    }
    assert(tree.valid_expr(exprs[exprs.len() - 1], loops));
}

/// Brewing a series for its side effects keeps control in a region.
proof fn lemma_all_side_effects_close(
    tree: Tree,
    loops: Map<validated::Expr, LoopContext>,
    draft: Draft,
    exprs: Seq<validated::Expr>,
    inner: Set<int>,
    exits: Set<int>,
) -> (outer: Set<int>)
    requires
        brewable(tree, loops, draft, inner, exits),
        recipe::all_finite(tree, exprs),
        recipe::all_valid(tree, exprs, loops.dom()),
        recipe::all_side_effects(tree, loops, draft, exprs).code.fits(),
    ensures
        ({
            let after = recipe::all_side_effects(tree, loops, draft, exprs);
            region(after, outer, exits) && closes(draft, inner, after, outer)
        }),
    decreases recipe::depth_of_all(tree, exprs), 4int, exprs.len(),
{
    if exprs.len() == 0 {
        inner
    } else {
        let d1 = recipe::all_side_effects(tree, loops, draft, exprs.drop_last());
        lemma_prefix_is_valid(tree, exprs, loops.dom());
        growth::lemma_all_side_effects_grow(tree, loops, draft, exprs.drop_last());
        growth::lemma_still_ready(tree, loops, draft, d1);
        let d2 = recipe::side_effects(tree, loops, d1, exprs.last());
        growth::lemma_side_effects_grow(tree, loops, d1, exprs.last());
        growth::lemma_still_known(d1, d2);
        let middle = lemma_all_side_effects_close(
            tree,
            loops,
            draft,
            exprs.drop_last(),
            inner,
            exits,
        );
        let outer = lemma_side_effects_close(tree, loops, d1, exprs.last(), middle, exits);
        lemma_closes_further(draft, inner, d1, middle, d2, outer);
        outer
    }
}

/// Brewing into a place keeps control in a region.
proof fn lemma_assigned_closes(
    tree: Tree,
    loops: Map<validated::Expr, LoopContext>,
    draft: Draft,
    target: Place,
    expr: validated::Expr,
    inner: Set<int>,
    exits: Set<int>,
) -> (outer: Set<int>)
    requires
        brewable(tree, loops, draft, inner, exits),
        draft.code.knows_place(target),
        tree.valid_expr(expr, loops.dom()),
        recipe::assigned(tree, loops, draft, target, expr).code.fits(),
    ensures
        ({
            let after = recipe::assigned(tree, loops, draft, target, expr);
            region(after, outer, exits) && closes(draft, inner, after, outer)
        }),
    decreases tree.depth(expr), 1int, 0nat,
{
    recipe::lemma_parts_are_shallower(tree, expr);
    recipe::lemma_parts_are_valid(tree, expr, loops.dom());
    let origin = tree.expr_origin(expr);
    let after = recipe::assigned(tree, loops, draft, target, expr);
    growth::lemma_assigned_grows(tree, loops, draft, target, expr);
    growth::lemma_still_known(draft, after);
    assert(growth::sound(draft)) by {
        reveal(growth::ready);
    }
    lemma_closes_nothing(draft, inner);
    if draft.end is None {
        assert(after.end is None) by {
            reveal(growth::extends);
        }
        lemma_region_kept(draft, after, inner, exits);
        inner
    } else {
        match tree.expr(expr) {
            ExprData::Await(future) => {
                let (d1, place) = recipe::to_temporary(tree, loops, draft, future);
                let value = TerminatorExprShape::Await(place);
                growth::lemma_to_temporary_grows(tree, loops, draft, future);
                lemma_computed_fits(draft, d1, target, value, origin);
                let m = lemma_to_temporary_closes(tree, loops, draft, future, inner, exits);
                lemma_computed_closes(draft, inner, d1, m, target, value, origin, exits)
            },
            ExprData::If(_, _, _) => {
                lemma_if_closes(tree, loops, draft, target, expr, inner, exits)
            },
            ExprData::Loop(_) => {
                lemma_loop_closes(tree, loops, draft, target, expr, inner, exits)
            },
            ExprData::Tuple(exprs) => {
                let (d1, places) = recipe::to_temporaries(tree, loops, draft, exprs@);
                growth::lemma_to_temporaries_grow(tree, loops, draft, exprs@);
                let value = if places.len() == 0 {
                    ExprShape::Unit
                } else {
                    ExprShape::Tuple(places)
                };
                lemma_stored_fits(draft, d1, target, value, origin);
                let m = lemma_to_temporaries_close(tree, loops, draft, exprs@, inner, exits);
                lemma_stored_closes(draft, inner, d1, m, target, value, origin, exits);
                m
            },
            ExprData::Op(lhs, op, rhs) => {
                let (d1, left) = recipe::to_temporary(tree, loops, draft, lhs);
                growth::lemma_to_temporary_grows(tree, loops, draft, lhs);
                growth::lemma_still_ready(tree, loops, draft, d1);
                let (d2, right) = recipe::to_temporary(tree, loops, d1, rhs);
                growth::lemma_to_temporary_grows(tree, loops, d1, rhs);
                growth::lemma_still_known(d1, d2);
                growth::lemma_extends_further(draft, d1, d2);
                let value = ExprShape::Op(left, op, right);
                lemma_stored_fits(draft, d2, target, value, origin);
                let m1 = lemma_to_temporary_closes(tree, loops, draft, lhs, inner, exits);
                let m2 = lemma_to_temporary_closes(tree, loops, d1, rhs, m1, exits);
                lemma_closes_further(draft, inner, d1, m1, d2, m2);
                lemma_stored_closes(draft, inner, d2, m2, target, value, origin, exits);
                m2
            },
            ExprData::Sequence(exprs) => {
                if exprs@.len() == 0 {
                    lemma_stored_closes(
                        draft,
                        inner,
                        draft,
                        inner,
                        target,
                        ExprShape::Unit,
                        origin,
                        exits,
                    );
                    inner
                } else {
                    let d1 = recipe::all_side_effects(tree, loops, draft, exprs@.drop_last());
                    lemma_prefix_is_valid(tree, exprs@, loops.dom());
                    growth::lemma_all_side_effects_grow(tree, loops, draft, exprs@.drop_last());
                    growth::lemma_still_ready(tree, loops, draft, d1);
                    let d2 = recipe::assigned(tree, loops, d1, target, exprs@.last());
                    growth::lemma_assigned_grows(tree, loops, d1, target, exprs@.last());
                    growth::lemma_still_known(d1, d2);
                    growth::lemma_extends_further(draft, d1, d2);
                    growth::lemma_cusp(d2, Some(target), origin);
                    growth::lemma_still_known(d2, after);
                    let m1 = lemma_all_side_effects_close(
                        tree,
                        loops,
                        draft,
                        exprs@.drop_last(),
                        inner,
                        exits,
                    );
                    let m2 = lemma_assigned_closes(
                        tree,
                        loops,
                        d1,
                        target,
                        exprs@.last(),
                        m1,
                        exits,
                    );
                    lemma_closes_further(draft, inner, d1, m1, d2, m2);
                    lemma_then_kept(draft, inner, d2, m2, after, exits);
                    m2
                }
            },
            ExprData::Assign(_, _) => {
                let d1 = recipe::side_effects(tree, loops, draft, expr);
                growth::lemma_side_effects_grow(tree, loops, draft, expr);
                growth::lemma_still_ready(tree, loops, draft, d1);
                growth::lemma_assign(d1, target, ExprShape::Unit, origin);
                growth::lemma_still_known(d1, after);
                let m = lemma_side_effects_close(tree, loops, draft, expr, inner, exits);
                lemma_then_kept(draft, inner, d1, m, after, exits);
                m
            },
            ExprData::Call(function, arguments) => {
                let values = tree.argument_exprs(arguments@);
                let (d1, callee) = recipe::to_temporary(tree, loops, draft, function);
                growth::lemma_to_temporary_grows(tree, loops, draft, function);
                growth::lemma_still_ready(tree, loops, draft, d1);
                let (d2, places) = recipe::to_temporaries(tree, loops, d1, values);
                growth::lemma_to_temporaries_grow(tree, loops, d1, values);
                growth::lemma_still_known(d1, d2);
                growth::lemma_extends_further(draft, d1, d2);
                let call = TerminatorExprShape::Call {
                    function: callee,
                    arguments: places,
                    labels: recipe::labels(tree, arguments@),
                };
                lemma_computed_fits(draft, d2, target, call, origin);
                let m1 = lemma_to_temporary_closes(tree, loops, draft, function, inner, exits);
                let m2 = lemma_to_temporaries_close(tree, loops, d1, values, m1, exits);
                lemma_closes_further(draft, inner, d1, m1, d2, m2);
                lemma_computed_closes(draft, inner, d2, m2, target, call, origin, exits)
            },
            ExprData::Atomic(_) => {
                lemma_atomic_closes(tree, loops, draft, target, expr, inner, exits)
            },
            ExprData::Error => lemma_side_effects_close(tree, loops, draft, expr, inner, exits),
            ExprData::Return(_) => {
                lemma_side_effects_close(tree, loops, draft, expr, inner, exits)
            },
            ExprData::Continue(_) => {
                lemma_side_effects_close(tree, loops, draft, expr, inner, exits)
            },
            ExprData::Break { .. } => {
                lemma_side_effects_close(tree, loops, draft, expr, inner, exits)
            },
            _ => {
                lemma_simple_stays(tree, loops, draft, target, expr);
                lemma_region_kept(draft, after, inner, exits);
                inner
            },
        }
    }
}

/// A literal, and what is read from a place, end no block.
proof fn lemma_simple_stays(
    tree: Tree,
    loops: Map<validated::Expr, LoopContext>,
    draft: Draft,
    target: Place,
    expr: validated::Expr,
)
    requires
        growth::ready(tree, loops, draft),
        draft.code.knows_place(target),
        tree.valid_expr(expr, loops.dom()),
        match tree.expr(expr) {
            ExprData::BooleanLiteral(_) => true,
            ExprData::IntegerLiteral(_) => true,
            ExprData::StringLiteral(_) => true,
            ExprData::Share(_) => true,
            ExprData::Lease(_) => true,
            ExprData::Give(_) => true,
            _ => false,
        },
    ensures
        recipe::assigned(tree, loops, draft, target, expr).end == draft.end,
{
    match tree.expr(expr) {
        ExprData::Share(place) => lemma_copied_stays(tree, loops, draft, target, expr, place),
        ExprData::Lease(place) => lemma_copied_stays(tree, loops, draft, target, expr, place),
        ExprData::Give(place) => lemma_copied_stays(tree, loops, draft, target, expr, place),
        _ => {},
    }
}

/// What is read from a place ends no block.
proof fn lemma_copied_stays(
    tree: Tree,
    loops: Map<validated::Expr, LoopContext>,
    draft: Draft,
    target: Place,
    expr: validated::Expr,
    place: validated::Place,
)
    requires
        growth::ready(tree, loops, draft),
        draft.code.knows_place(target),
        tree.valid_expr(expr, loops.dom()),
        match tree.expr(expr) {
            ExprData::Share(from) => from == place,
            ExprData::Lease(from) => from == place,
            ExprData::Give(from) => from == place,
            _ => false,
        },
    ensures
        recipe::assigned(tree, loops, draft, target, expr).end == draft.end,
{
    let origin = tree.expr_origin(expr);
    let (code, source, origins) = recipe::brewed_place(tree, draft.code, place);
    let value = match tree.expr(expr) {
        ExprData::Share(_) => ExprShape::Share(source),
        ExprData::Lease(_) => ExprShape::Lease(source),
        _ => ExprShape::Give(source),
    };
    let d1 = Draft { code, ..draft };
    growth::lemma_brewed_place_grows(tree, loops, draft, place);
    growth::lemma_still_ready(tree, loops, draft, d1);
    let d2 = d1.assign(target, value, origin);
    growth::lemma_assign(d1, target, value, origin);
    growth::lemma_still_known(d1, d2);
    growth::lemma_cusps(d2, Some(target), origins, origin);
}

/// Where the code after storing a value can be counted, the code before it can.
pub proof fn lemma_stored_fits(
    first: Draft,
    draft: Draft,
    target: Place,
    value: ExprShape,
    origin: ExprOrigin,
)
    requires
        growth::grown(first, draft),
        first.code.knows_place(target),
        draft.code.knows_parts_of_expr(value),
        draft.assign(target, value, origin).cusp(Some(target), origin).code.fits(),
    ensures
        draft.code.fits(),
{
    let d1 = draft.assign(target, value, origin);
    let d2 = d1.cusp(Some(target), origin);
    growth::lemma_still_known(first, draft);
    growth::lemma_assign(draft, target, value, origin);
    growth::lemma_still_known(draft, d1);
    growth::lemma_cusp(d1, Some(target), origin);
    growth::lemma_still_known(d1, d2);
}

/// Where the code after a computation can be counted, the code before it can.
pub proof fn lemma_computed_fits(
    first: Draft,
    draft: Draft,
    target: Place,
    value: TerminatorExprShape,
    origin: ExprOrigin,
)
    requires
        growth::grown(first, draft),
        first.code.knows_place(target),
        match value {
            TerminatorExprShape::Await(place) => draft.code.knows_place(place),
            TerminatorExprShape::Call { function, arguments, labels } => {
                &&& draft.code.knows_place(function)
                &&& draft.code.knows_places(arguments)
                &&& arguments.len() == labels.len()
            },
        },
        ({
            let (between, next) = draft.new_block(origin);
            between.terminate(
                TerminatorShape::Assign(target, value, next),
                Some(next),
                origin,
            ).cusp(Some(target), origin).code.fits()
        }),
    ensures
        draft.code.fits(),
{
    let (between, next) = draft.new_block(origin);
    growth::lemma_extends_itself(draft);
    growth::lemma_still_known(first, draft);
    growth::lemma_computed_grows(draft, draft, target, value, origin);
    growth::lemma_still_known(
        draft,
        between.terminate(
            TerminatorShape::Assign(target, value, next),
            Some(next),
            origin,
        ).cusp(Some(target), origin),
    );
}

/// Brewing `part` in the new block `block`, and going on in `join` after it.
proof fn lemma_branch_closes(
    tree: Tree,
    loops: Map<validated::Expr, LoopContext>,
    draft: Draft,
    target: Place,
    expr: validated::Expr,
    part: validated::Expr,
    block: BasicBlock,
    join: BasicBlock,
    inner: Set<int>,
    exits: Set<int>,
) -> (outer: Set<int>)
    requires
        brewable(tree, loops, draft.at(Some(block)), inner, exits),
        draft.code.knows_place(target),
        draft.code.knows_block(join),
        exits.contains(join.index as int),
        tree.valid_expr(part, loops.dom()),
        recipe::shallower(tree, part, expr),
        recipe::assigned(tree, loops, draft.at(Some(block)), target, part).goto(
            join,
            tree.expr_origin(expr),
        ).code.fits(),
    ensures
        ({
            let start = draft.at(Some(block));
            let done = recipe::assigned(tree, loops, start, target, part).goto(
                join,
                tree.expr_origin(expr),
            );
            &&& region(done, outer, exits)
            &&& closes(start, inner, done, outer)
            &&& done.end is None
            &&& outer.contains(block.index as int)
        }),
    decreases tree.depth(expr), 0int, 0nat,
{
    let origin = tree.expr_origin(expr);
    let start = draft.at(Some(block));
    let d1 = recipe::assigned(tree, loops, start, target, part);
    let data = TerminatorShape::Goto(join);
    growth::lemma_assigned_grows(tree, loops, start, target, part);
    growth::lemma_terminate_adds(d1, data, None, origin);
    let m = lemma_assigned_closes(tree, loops, start, target, part, inner, exits);
    lemma_then_terminated(start, inner, d1, m, data, None, origin, exits)
}

/// Brewing an `if` into a place keeps control in a region.
#[verifier::rlimit(40)]
proof fn lemma_if_closes(
    tree: Tree,
    loops: Map<validated::Expr, LoopContext>,
    draft: Draft,
    target: Place,
    expr: validated::Expr,
    inner: Set<int>,
    exits: Set<int>,
) -> (outer: Set<int>)
    requires
        brewable(tree, loops, draft, inner, exits),
        draft.code.knows_place(target),
        tree.valid_expr(expr, loops.dom()),
        tree.expr(expr) is If,
        recipe::assigned(tree, loops, draft, target, expr).code.fits(),
    ensures
        ({
            let after = recipe::assigned(tree, loops, draft, target, expr);
            region(after, outer, exits) && closes(draft, inner, after, outer)
        }),
    decreases tree.depth(expr), 0int, 1nat,
{
    recipe::lemma_parts_are_shallower(tree, expr);
    recipe::lemma_parts_are_valid(tree, expr, loops.dom());
    let origin = tree.expr_origin(expr);
    let after = recipe::assigned(tree, loops, draft, target, expr);
    growth::lemma_assigned_grows(tree, loops, draft, target, expr);
    if let ExprData::If(condition, if_true, if_false) = tree.expr(expr) {
        let (d0, test) = recipe::to_temporary(tree, loops, draft, condition);
        growth::lemma_to_temporary_grows(tree, loops, draft, condition);
        growth::lemma_still_ready(tree, loops, draft, d0);
        let (d1, true_block) = d0.new_block(origin);
        growth::lemma_new_block(d0, origin);
        growth::lemma_still_ready(tree, loops, d0, d1);
        
        let (d2, false_block) = d1.new_block(origin);
        growth::lemma_new_block(d1, origin);
        growth::lemma_still_ready(tree, loops, d1, d2);
        growth::lemma_extends_further(d0, d1, d2);
        let (d3, join) = d2.new_block(origin);
        growth::lemma_new_block(d2, origin);
        growth::lemma_still_ready(tree, loops, d2, d3);
        growth::lemma_extends_further(d0, d2, d3);
        let data = TerminatorShape::If(test, true_block, false_block);
        let d4 = d3.terminate(data, Some(join), origin);
        growth::lemma_terminate(d0, d3, data, Some(join), origin);
        growth::lemma_terminate_adds(d3, data, Some(join), origin);
        growth::lemma_still_ready(tree, loops, d0, d4);
        let forked = d4.cusp(Some(target), origin);
        growth::lemma_cusp(d4, Some(target), origin);
        growth::lemma_still_ready(tree, loops, d4, forked);
        growth::lemma_extends_further(d0, d4, forked);
        let start = forked.at(Some(true_block));
        let one = recipe::assigned(tree, loops, start, target, if_true).goto(join, origin);
        growth::lemma_branch_grows(
            tree,
            loops,
            d0,
            forked,
            target,
            expr,
            if_true,
            true_block,
            join,
        );
        let again = one.at(forked.end);
        let second = again.at(Some(false_block));
        assert(second == one.at(Some(false_block)));
        let both = recipe::assigned(tree, loops, second, target, if_false).goto(join, origin);
        growth::lemma_branch_grows(
            tree,
            loops,
            d0,
            again,
            target,
            expr,
            if_false,
            false_block,
            join,
        );
        assert(after == both.at(forked.end));

        let m0 = lemma_to_temporary_closes(tree, loops, draft, condition, inner, exits);
        let outer = if d0.end is None {
            assert(forked.end is None) by {
                reveal(growth::extends);
            }
            lemma_region_kept(d0, after, m0, exits);
            m0
        } else {
            let t = true_block.index as int;
            let f = false_block.index as int;
            let j = join.index as int;
            let more = exits.insert(t).insert(f).insert(j);
            lemma_closes_nothing(d0, m0);
            lemma_then_new_block(d0, m0, d0, m0, origin, exits);
            lemma_then_new_block(d0, m0, d1, m0, origin, exits);
            lemma_then_new_block(d0, m0, d2, m0, origin, exits);
            lemma_region_is_known(d0, m0, exits);
            lemma_region_with_exits(d3, m0, exits, more);
            let m1 = lemma_then_terminated(d0, m0, d3, m0, data, Some(join), origin, more);
            lemma_then_kept(d0, m0, d4, m1, forked, more);
            assert(d0.end->0.index < d0.code.basic_blocks.len()) by {
                reveal(growth::sound);
            }
            lemma_region_elsewhere(forked, true_block, m1, more);
            growth::lemma_ready_elsewhere(tree, loops, forked, true_block);
            let m2 = lemma_branch_closes(
                tree,
                loops,
                forked,
                target,
                expr,
                if_true,
                true_block,
                join,
                m1,
                more,
            );
            lemma_region_elsewhere(one, false_block, m2, more);
            growth::lemma_ready_elsewhere(tree, loops, again, false_block);
            let m3 = lemma_branch_closes(
                tree,
                loops,
                again,
                target,
                expr,
                if_false,
                false_block,
                join,
                m2,
                more,
            );
            assert(m3.contains(t) && m3.contains(f) && !m3.contains(j));
            lemma_region_elsewhere(both, join, m3, more);
            lemma_region_without_exits(after, m3, more, exits);
            m3
        };
        lemma_closes_further(draft, inner, d0, m0, after, outer);
        outer
    } else {
        inner
    }
}

/// Brewing a loop into a place keeps control in a region.
#[verifier::rlimit(40)]
proof fn lemma_loop_closes(
    tree: Tree,
    loops: Map<validated::Expr, LoopContext>,
    draft: Draft,
    target: Place,
    expr: validated::Expr,
    inner: Set<int>,
    exits: Set<int>,
) -> (outer: Set<int>)
    requires
        brewable(tree, loops, draft, inner, exits),
        draft.end is Some,
        draft.code.knows_place(target),
        tree.valid_expr(expr, loops.dom()),
        tree.expr(expr) is Loop,
        recipe::assigned(tree, loops, draft, target, expr).code.fits(),
    ensures
        ({
            let after = recipe::assigned(tree, loops, draft, target, expr);
            region(after, outer, exits) && closes(draft, inner, after, outer)
        }),
    decreases tree.depth(expr), 0int, 0nat,
{
    recipe::lemma_parts_are_shallower(tree, expr);
    recipe::lemma_parts_are_valid(tree, expr, loops.dom());
    let origin = tree.expr_origin(expr);
    let after = recipe::assigned(tree, loops, draft, target, expr);
    assert(growth::sound(draft)) by {
        reveal(growth::ready);
    }
    lemma_closes_nothing(draft, inner);
    if let ExprData::Loop(body) = tree.expr(expr) {
        let (d1, body_block) = draft.new_block(origin);
        growth::lemma_new_block(draft, origin);
        growth::lemma_still_ready(tree, loops, draft, d1);
        let (d2, break_block) = d1.new_block(origin);
        growth::lemma_new_block(d1, origin);
        growth::lemma_still_ready(tree, loops, d1, d2);
        growth::lemma_extends_further(draft, d1, d2);
        let data = TerminatorShape::Goto(body_block);
        let d3 = d2.terminate(data, Some(break_block), origin);
        growth::lemma_terminate(draft, d2, data, Some(break_block), origin);
        growth::lemma_terminate_adds(d2, data, Some(break_block), origin);
        growth::lemma_still_ready(tree, loops, draft, d3);
        let entered = d3.cusp(Some(target), origin);
        growth::lemma_cusp(d3, Some(target), origin);
        growth::lemma_still_ready(tree, loops, d3, entered);
        growth::lemma_extends_further(draft, d3, entered);
        let context = LoopContext { continue_block: body_block, break_block, loop_value: target };
        let inside = loops.insert(expr, context);
        assert(inside.dom() =~= loops.dom().insert(expr));
        assert(growth::ready(tree, inside, entered)) by {
            reveal(growth::ready);
            assert(entered.code.knows_block(body_block));
            assert(entered.code.knows_block(break_block));
            assert(entered.code.knows_place(target));
        }
        growth::lemma_ready_elsewhere(tree, inside, entered, body_block);
        let start = entered.at(Some(body_block));
        let d4 = recipe::side_effects(tree, inside, start, body);
        growth::lemma_side_effects_grow(tree, inside, start, body);
        growth::lemma_still_ready(tree, inside, start, d4);
        let back = TerminatorShape::Goto(body_block);
        let done = d4.goto(body_block, origin);
        growth::lemma_terminate_adds(d4, back, None, origin);
        assert(after == done.at(entered.end));

        let b = body_block.index as int;
        let k = break_block.index as int;
        let more = exits.insert(b).insert(k);
        lemma_then_new_block(draft, inner, draft, inner, origin, exits);
        lemma_then_new_block(draft, inner, d1, inner, origin, exits);
        lemma_region_is_known(draft, inner, exits);
        lemma_region_with_exits(d2, inner, exits, more);
        let m1 = lemma_then_terminated(
            draft,
            inner,
            d2,
            inner,
            data,
            Some(break_block),
            origin,
            more,
        );
        lemma_then_kept(draft, inner, d3, m1, entered, more);
        assert(draft.end->0.index < draft.code.basic_blocks.len()) by {
            reveal(growth::sound);
        }
        lemma_region_elsewhere(entered, body_block, m1, more);
        let m2 = lemma_side_effects_close(tree, inside, start, body, m1, more);
        growth::lemma_extends_itself(start);
        let m3 = lemma_then_terminated(start, m1, d4, m2, back, None, origin, more);
        assert(m3.contains(b));
        assert(!m3.contains(k));
        lemma_region_elsewhere(done, break_block, m3, more);
        lemma_region_without_exits(after, m3, more, exits);
        m3
    } else {
        inner
    }
}

/// Brewing an atomic section into a place keeps control in a region.
proof fn lemma_atomic_closes(
    tree: Tree,
    loops: Map<validated::Expr, LoopContext>,
    draft: Draft,
    target: Place,
    expr: validated::Expr,
    inner: Set<int>,
    exits: Set<int>,
) -> (outer: Set<int>)
    requires
        brewable(tree, loops, draft, inner, exits),
        draft.code.knows_place(target),
        tree.valid_expr(expr, loops.dom()),
        tree.expr(expr) is Atomic,
        recipe::assigned(tree, loops, draft, target, expr).code.fits(),
    ensures
        ({
            let after = recipe::assigned(tree, loops, draft, target, expr);
            region(after, outer, exits) && closes(draft, inner, after, outer)
        }),
    decreases tree.depth(expr), 0int, 0nat,
{
    recipe::lemma_parts_are_shallower(tree, expr);
    recipe::lemma_parts_are_valid(tree, expr, loops.dom());
    let origin = tree.expr_origin(expr);
    assert(growth::sound(draft)) by {
        reveal(growth::ready);
    }
    lemma_closes_nothing(draft, inner);
    if let ExprData::Atomic(inside) = tree.expr(expr) {
        let (d1, first) = draft.new_block(origin);
        growth::lemma_new_block(draft, origin);
        growth::lemma_still_ready(tree, loops, draft, d1);
        let start = TerminatorShape::StartAtomic(first);
        let d2 = d1.terminate(start, Some(first), origin);
        growth::lemma_terminate(draft, d1, start, Some(first), origin);
        growth::lemma_terminate_adds(d1, start, Some(first), origin);
        growth::lemma_still_ready(tree, loops, draft, d2);
        let d3 = recipe::assigned(tree, loops, d2, target, inside);
        growth::lemma_assigned_grows(tree, loops, d2, target, inside);
        growth::lemma_still_ready(tree, loops, d2, d3);
        growth::lemma_extends_further(draft, d2, d3);
        let (d4, next) = d3.new_block(origin);
        growth::lemma_new_block(d3, origin);
        growth::lemma_still_ready(tree, loops, d3, d4);
        growth::lemma_extends_further(draft, d3, d4);
        let finish = TerminatorShape::EndAtomic(next);
        let d5 = d4.terminate(finish, Some(next), origin);
        growth::lemma_terminate(draft, d4, finish, Some(next), origin);
        growth::lemma_terminate_adds(d4, finish, Some(next), origin);
        growth::lemma_still_ready(tree, loops, draft, d5);
        let d6 = d5.cusp(Some(target), origin);
        growth::lemma_cusp(d5, Some(target), origin);
        growth::lemma_still_known(d5, d6);

        lemma_then_new_block(draft, inner, draft, inner, origin, exits);
        let m1 = lemma_then_terminated(
            draft,
            inner,
            d1,
            inner,
            start,
            Some(first),
            origin,
            exits,
        );
        let m2 = lemma_assigned_closes(tree, loops, d2, target, inside, m1, exits);
        lemma_closes_further(draft, inner, d2, m1, d3, m2);
        lemma_then_new_block(draft, inner, d3, m2, origin, exits);
        let m3 = lemma_then_terminated(
            draft,
            inner,
            d4,
            m2,
            finish,
            Some(next),
            origin,
            exits,
        );
        lemma_then_kept(draft, inner, d5, m3, d6, exits);
        m3
    } else {
        inner
    }
}

/// However control moves through a brewed function, it only gets to blocks whose end has been
/// brewed.
pub proof fn lemma_control_stays_in_brewed_blocks(tree: Tree, path: Seq<BasicBlock>)
    requires
        tree.valid(),
        recipe::brewed(tree).0.fits(),
        is_path(recipe::brewed(tree).0, path),
        path[0] == recipe::brewed(tree).1,
    ensures
        recipe::brewed(tree).0.knows_block(path.last()),
        terminator(recipe::brewed(tree).0, path.last().index as int) !is Panic,
{
    let root = tree.data.root_expr;
    let origin = tree.expr_origin(root);
    let loops = Map::<validated::Expr, LoopContext>::empty();
    let d0 = Draft { code: recipe::declared_variables(tree), end: None };
    assert(growth::sound(d0)) by {
        reveal(growth::sound);
    }
    let (d1, start) = d0.new_block(origin);
    growth::lemma_new_block(d0, origin);
    let d2 = d1.at(Some(start));
    assert(growth::ready(tree, loops, d2)) by {
        reveal(growth::ready);
        reveal(growth::sound);
        growth::lemma_still_known(d0, d1);
    }
    assert(loops.dom() =~= Set::empty());
    let nowhere = Set::<int>::empty();
    assert(region(d2, nowhere, nowhere)) by {
        reveal(enclosed);
    }
    let (d3, place) = recipe::to_temporary(tree, loops, d2, root);
    growth::lemma_to_temporary_grows(tree, loops, d2, root);
    let data = TerminatorShape::Return(place);
    growth::lemma_terminate_adds(d3, data, None, origin);
    let inner = lemma_to_temporary_closes(tree, loops, d2, root, nowhere, nowhere);
    let outer = lemma_then_terminated(
        d2,
        nowhere,
        d3,
        inner,
        data,
        None,
        origin,
        nowhere,
    );
    let code = recipe::brewed(tree).0;
    lemma_path_stays_inside(code, outer, path);
    reveal(enclosed);
}

} // verus!
