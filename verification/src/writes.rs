//! On the way through brewed code, a value is stored before it is used, and stored once.
use vstd::prelude::*;

use crate::base::StorageMode;
use crate::bir::{
    BasicBlock, Code, ExprShape, LocalVariable, LocalVariableData, Place, PlaceData, Statement,
    StatementData, Terminator, TerminatorExprShape, TerminatorShape,
};
use crate::growth;
use crate::reach;
use crate::recipe;
use crate::recipe::{Draft, LoopContext};
use crate::validated;
use crate::validated::{ExprData, ExprOrigin, LocalVariableOrigin, Tree};

verus! {

/// Whether `place` is the local variable `variable`.
pub open spec fn is_variable(code: Code, place: Place, variable: LocalVariable) -> bool {
    &&& code.knows_place(place)
    &&& code.places[place.index as int] == PlaceData::LocalVariable(variable)
}

/// How often something that stores a value in `place` stores one in `variable`: once or never.
pub open spec fn hits(code: Code, place: Place, variable: LocalVariable) -> nat {
    if is_variable(code, place, variable) {
        1
    } else {
        0
    }
}

/// How often a statement that does `data` stores a value in `variable`.
pub open spec fn data_writes(code: Code, data: StatementData, variable: LocalVariable) -> nat {
    match data {
        StatementData::Assign(target, _) => hits(code, target, variable),
        StatementData::Cusp(_) => 0,
    }
}

/// How often a terminator that does `shape` stores a value in `variable`.
pub open spec fn shape_writes(code: Code, shape: TerminatorShape, variable: LocalVariable) -> nat {
    match shape {
        TerminatorShape::Assign(target, _, _) => hits(code, target, variable),
        _ => 0,
    }
}

/// How often those of `statements` that are not yet in `since` store a value in `variable`.
pub open spec fn statements_write(
    since: Code,
    code: Code,
    statements: Seq<Statement>,
    variable: LocalVariable,
) -> nat
    decreases statements.len(),
{
    if statements.len() == 0 {
        0
    } else {
        let last = statements.last().index as int;
        statements_write(since, code, statements.drop_last(), variable) + if last
            >= since.statements.len() {
            data_writes(code, code.statements[last], variable)
        } else {
            0
        }
    }
}

/// How often `terminator`, if it is not yet in `since`, stores a value in `variable`.
pub open spec fn terminator_writes(
    since: Code,
    code: Code,
    terminator: Terminator,
    variable: LocalVariable,
) -> nat {
    if terminator.index >= since.terminators.len() {
        shape_writes(code, code.terminators[terminator.index as int], variable)
    } else {
        0
    }
}

/// How often what has been added to block `block` since `since` stores a value in `variable`.
pub open spec fn block_writes(
    since: Code,
    code: Code,
    block: int,
    variable: LocalVariable,
) -> nat {
    let data = code.basic_blocks[block];
    statements_write(since, code, data.statements, variable) + terminator_writes(
        since,
        code,
        data.terminator,
        variable,
    )
}

/// How often what has been added since `since` stores a value in `variable` while control goes
/// along `path`.
pub open spec fn path_writes(
    since: Code,
    code: Code,
    path: Seq<BasicBlock>,
    variable: LocalVariable,
) -> nat
    decreases path.len(),
{
    if path.len() == 0 {
        0
    } else {
        path_writes(since, code, path.drop_last(), variable) + block_writes(
            since,
            code,
            path.last().index as int,
            variable,
        )
    }
}

/// Whether `expr` assigns nothing to the local variable `variable`.
pub open spec fn spares(tree: Tree, expr: validated::Expr, variable: LocalVariable) -> bool
    decreases tree.depth(expr),
    when tree.is_finite(expr)
    via spares_decreases
{
    &&& match tree.expr(expr) {
        ExprData::Assign(place, _) => tree.place(place) != validated::PlaceData::LocalVariable(
            validated::LocalVariable { index: variable.index },
        ),
        _ => true,
    }
    &&& forall|k: int|
        0 <= k < tree.parts(expr).len() ==> spares(tree, #[trigger] tree.parts(expr)[k], variable)
}

#[via_fn]
proof fn spares_decreases(tree: Tree, expr: validated::Expr, variable: LocalVariable) {
    assert forall|k: int| 0 <= k < tree.parts(expr).len() implies tree.depth(
        #[trigger] tree.parts(expr)[k],
    ) < tree.depth(expr) by {
        tree.lemma_part_is_shallower(expr, k);
    }
}

/// Valid code assigns nothing to a local variable that the function does not declare.
pub proof fn lemma_new_variable_is_spared(
    tree: Tree,
    expr: validated::Expr,
    loops: Set<validated::Expr>,
    variable: LocalVariable,
)
    requires
        tree.valid_expr(expr, loops),
        tree.data.tables.local_variables@.len() <= variable.index,
    ensures
        spares(tree, expr, variable),
    decreases tree.depth(expr),
{
    assert forall|k: int| 0 <= k < tree.parts(expr).len() implies tree.is_finite(
        #[trigger] tree.parts(expr)[k],
    ) && spares(tree, tree.parts(expr)[k], variable) by {
        tree.lemma_part_is_valid(expr, loops, k);
        lemma_new_variable_is_spared(
            tree,
            tree.parts(expr)[k],
            tree.loops_inside(expr, loops),
            variable,
        );
    }
}

/// Whether all of `exprs` assign nothing to `variable`.
spec fn all_spare(tree: Tree, exprs: Seq<validated::Expr>, variable: LocalVariable) -> bool {
    forall|k: int| 0 <= k < exprs.len() ==> spares(tree, #[trigger] exprs[k], variable)
}

/// The expressions inside one that spares a variable spare it.
proof fn lemma_parts_spare(tree: Tree, expr: validated::Expr, variable: LocalVariable)
    requires
        tree.is_finite(expr),
        spares(tree, expr, variable),
    ensures
        match tree.expr(expr) {
            ExprData::Await(future) => spares(tree, future, variable),
            ExprData::If(condition, if_true, if_false) => {
                &&& spares(tree, condition, variable)
                &&& spares(tree, if_true, variable)
                &&& spares(tree, if_false, variable)
            },
            ExprData::Loop(body) => spares(tree, body, variable),
            ExprData::Break { from_expr: _, with_value } => spares(tree, with_value, variable),
            ExprData::Return(value) => spares(tree, value, variable),
            ExprData::Assign(_, value) => spares(tree, value, variable),
            ExprData::Sequence(exprs) => all_spare(tree, exprs@, variable),
            ExprData::Op(lhs, _, rhs) => spares(tree, lhs, variable) && spares(
                tree,
                rhs,
                variable,
            ),
            ExprData::Call(function, arguments) => {
                &&& spares(tree, function, variable)
                &&& all_spare(tree, tree.argument_exprs(arguments@), variable)
            },
            ExprData::Tuple(exprs) => all_spare(tree, exprs@, variable),
            ExprData::Atomic(inner) => spares(tree, inner, variable),
            _ => true,
        },
{
    let parts = tree.parts(expr);
    assert forall|k: int| 0 <= k < parts.len() implies spares(
        tree,
        #[trigger] parts[k],
        variable,
    ) by {
        tree.lemma_part_is_shallower(expr, k);
    }
    match tree.expr(expr) {
        ExprData::If(condition, if_true, if_false) => {
            assert(parts[0] == condition && parts[1] == if_true && parts[2] == if_false);
        },
        ExprData::Op(lhs, _, rhs) => {
            assert(parts[0] == lhs && parts[1] == rhs);
        },
        ExprData::Call(function, arguments) => {
            let values = tree.argument_exprs(arguments@);
            assert(parts[0] == function);
            assert forall|k: int| 0 <= k < values.len() implies spares(
                tree,
                #[trigger] values[k],
                variable,
            ) by {
                assert(values[k] == parts[k + 1]);
            }
        },
        _ => {
            if parts.len() > 0 {
                assert(spares(tree, parts[0], variable));
            }
        },
    }
}

/// What is counted: stores in `variable` by what is not yet in `since`, either exactly or from
/// below.
struct Watch {
    since: Code,
    variable: LocalVariable,
    exact: bool,
}

/// Whether `label` says of `reached` stores how many there are, or a number that is no more.
spec fn agrees(watch: Watch, label: int, reached: int) -> bool {
    if watch.exact {
        label == reached
    } else {
        label <= reached
    }
}

/// The number of stores at the end of `block`, `counts` being the numbers at the start of blocks.
spec fn at_end(watch: Watch, code: Code, counts: Map<int, int>, block: int) -> int {
    counts[block] + block_writes(watch.since, code, block, watch.variable)
}

/// Whether control that leaves `block` finds the number of stores that `counts` gives for where it
/// gets to. Counting from below, what is returned is a variable, and there is a store if it is the
/// one that is watched.
spec fn leads_on(watch: Watch, code: Code, counts: Map<int, int>, block: int) -> bool {
    let shape = reach::terminator(code, block);
    &&& 0 <= block < code.basic_blocks.len()
    &&& 0 <= counts[block]
    &&& forall|k: int|
        0 <= k < reach::successors(shape).len() ==> {
            let next = (#[trigger] reach::successors(shape)[k]).index as int;
            counts.contains_key(next) && agrees(
                watch,
                counts[next],
                at_end(watch, code, counts, block),
            )
        }
    &&& !watch.exact ==> (shape matches TerminatorShape::Return(place) ==> {
        &&& code.knows_place(place)
        &&& code.places[place.index as int] is LocalVariable
        &&& is_variable(code, place, watch.variable) ==> 1 <= at_end(watch, code, counts, block)
    })
}

/// Whether the numbers of stores in `counts` fit together.
#[verifier::opaque]
spec fn consistent(watch: Watch, code: Code, counts: Map<int, int>) -> bool {
    forall|b: int| #[trigger] counts.contains_key(b) ==> leads_on(watch, code, counts, b)
}

/// Whether the end of `block` has not been brewed, and there are `n` stores there.
spec fn is_open(watch: Watch, code: Code, counts: Map<int, int>, block: int, n: int) -> bool {
    &&& counts.contains_key(block)
    &&& reach::terminator(code, block) is Panic
    &&& agrees(watch, n, at_end(watch, code, counts, block))
}

/// Whether the numbers in `counts` fit together, and there are `n` stores where `draft` grows.
spec fn flows(watch: Watch, draft: Draft, counts: Map<int, int>, n: int) -> bool {
    &&& consistent(watch, draft.code, counts)
    &&& 0 <= n
    &&& watch.since.statements.len() <= draft.code.statements.len()
    &&& watch.since.terminators.len() <= draft.code.terminators.len()
    &&& draft.end matches Some(block) ==> is_open(
        watch,
        draft.code,
        counts,
        block.index as int,
        n,
    )
}

/// Whether all of `counts` is in `more`.
spec fn included(counts: Map<int, int>, more: Map<int, int>) -> bool {
    forall|b: int| #[trigger]
        counts.contains_key(b) ==> more.contains_key(b) && more[b] == counts[b]
}

/// How often storing in the known place `place` stores in a variable does not change.
proof fn lemma_hits_kept(before: Code, after: Code, place: Place, variable: LocalVariable)
    requires
        growth::adds_to(before, after),
        before.knows_place(place),
    ensures
        hits(after, place, variable) == hits(before, place, variable),
        after.places[place.index as int] == before.places[place.index as int],
{
    let i = place.index as int;
    assert(after.places.subrange(0, before.places.len() as int)[i] == after.places[i]);
}

/// How often known statements store in a variable does not change.
proof fn lemma_statements_write_kept(
    since: Code,
    before: Code,
    after: Code,
    statements: Seq<Statement>,
    variable: LocalVariable,
)
    requires
        before.well_formed(),
        growth::adds_to(before, after),
        forall|k: int|
            0 <= k < statements.len() ==> (#[trigger] statements[k]).index
                < before.statements.len(),
    ensures
        statements_write(since, after, statements, variable) == statements_write(
            since,
            before,
            statements,
            variable,
        ),
    decreases statements.len(),
{
    if statements.len() > 0 {
        let rest = statements.drop_last();
        assert forall|k: int| 0 <= k < rest.len() implies (#[trigger] rest[k]).index
            < before.statements.len() by {
            assert(rest[k] == statements[k]);
        }
        lemma_statements_write_kept(since, before, after, rest, variable);
        assert(statements[statements.len() - 1] == statements.last());
        let last = statements.last().index as int;
        assert(before.knows_parts_of_statement(before.statements[last]));
        assert(after.statements.subrange(0, before.statements.len() as int)[last]
            == after.statements[last]);
        if let StatementData::Assign(target, _) = before.statements[last] {
            lemma_hits_kept(before, after, target, variable);
        }
    }
}

/// A block that is the same leads on as before.
proof fn lemma_block_kept(
    watch: Watch,
    before: Code,
    after: Code,
    block: int,
    counts: Map<int, int>,
    more: Map<int, int>,
)
    requires
        before.well_formed(),
        growth::adds_to(before, after),
        0 <= block < before.basic_blocks.len(),
        after.basic_blocks[block] == before.basic_blocks[block],
        included(counts, more),
    ensures
        reach::terminator(after, block) == reach::terminator(before, block),
        block_writes(watch.since, after, block, watch.variable) == block_writes(
            watch.since,
            before,
            block,
            watch.variable,
        ),
        counts.contains_key(block) && leads_on(watch, before, counts, block) ==> leads_on(
            watch,
            after,
            more,
            block,
        ),
{
    let data = before.basic_blocks[block];
    assert(before.knows_parts_of_block(data));
    let t = data.terminator.index as int;
    assert(after.terminators.subrange(0, before.terminators.len() as int)[t]
        == after.terminators[t]);
    assert(before.knows_parts_of_terminator(before.terminators[t]));
    lemma_statements_write_kept(
        watch.since,
        before,
        after,
        data.statements,
        watch.variable,
    );
    match before.terminators[t] {
        TerminatorShape::Assign(target, _, _) => {
            lemma_hits_kept(before, after, target, watch.variable);
        },
        TerminatorShape::Return(place) => {
            lemma_hits_kept(before, after, place, watch.variable);
        },
        _ => {},
    }
}

/// A block whose end has not been brewed, and at whose end `before` does not grow, stays so.
proof fn lemma_stays_open(
    watch: Watch,
    before: Draft,
    after: Draft,
    block: BasicBlock,
    counts: Map<int, int>,
    more: Map<int, int>,
    n: int,
)
    requires
        growth::sound(before),
        growth::extends(before, after),
        after.code.fits(),
        before.code.knows_block(block),
        before.end != Some(block),
        is_open(watch, before.code, counts, block.index as int, n),
        included(counts, more),
    ensures
        is_open(watch, after.code, more, block.index as int, n),
{
    reveal(growth::sound);
    reveal(growth::extends);
    let b = block.index as int;
    assert(after.code.basic_blocks[b] == before.code.basic_blocks[b]) by {
        if let Some(end) = before.end {
            assert(end.index != block.index);
        }
    }
    lemma_block_kept(watch, before.code, after.code, b, counts, more);
}

/// Code that leaves the block in which it grows as it is.
proof fn lemma_flows_kept(
    watch: Watch,
    before: Draft,
    after: Draft,
    counts: Map<int, int>,
    n: int,
)
    requires
        growth::sound(before),
        growth::extends(before, after),
        after.code.fits(),
        after.end == before.end,
        before.end matches Some(block) ==> after.code.basic_blocks[block.index as int]
            == before.code.basic_blocks[block.index as int],
        flows(watch, before, counts, n),
    ensures
        flows(watch, after, counts, n),
{
    reveal(growth::sound);
    reveal(growth::extends);
    reveal(consistent);
    assert forall|b: int| #[trigger] counts.contains_key(b) implies leads_on(
        watch,
        after.code,
        counts,
        b,
    ) by {
        assert(leads_on(watch, before.code, counts, b));
        assert(after.code.basic_blocks[b] == before.code.basic_blocks[b]);
        lemma_block_kept(watch, before.code, after.code, b, counts, counts);
    }
    if let Some(block) = before.end {
        let b = block.index as int;
        lemma_block_kept(watch, before.code, after.code, b, counts, counts);
    }
}

/// Code that grows nowhere.
proof fn lemma_flows_nowhere(
    watch: Watch,
    before: Draft,
    after: Draft,
    counts: Map<int, int>,
    n: int,
    m: int,
)
    requires
        growth::sound(before),
        growth::extends(before, after),
        after.code.fits(),
        before.end is None,
        flows(watch, before, counts, n),
        0 <= m,
    ensures
        flows(watch, after, counts, m),
{
    assert(after.end is None) by {
        reveal(growth::extends);
    }
    lemma_flows_kept(watch, before, after, counts, n);
}

/// One more statement.
proof fn lemma_flows_statement(
    watch: Watch,
    draft: Draft,
    data: StatementData,
    origin: ExprOrigin,
    counts: Map<int, int>,
    n: int,
)
    requires
        growth::sound(draft),
        draft.code.knows_parts_of_statement(data),
        draft.statement(data, origin).code.fits(),
        flows(watch, draft, counts, n),
    ensures
        flows(
            watch,
            draft.statement(data, origin),
            counts,
            n + data_writes(draft.code, data, watch.variable),
        ),
{
    let after = draft.statement(data, origin);
    growth::lemma_statement(draft, data, origin);
    if let Some(block) = draft.end {
        reveal(growth::sound);
        reveal(growth::extends);
        reveal(consistent);
        let e = block.index as int;
        let before = draft.code.basic_blocks[e];
        assert(draft.code.knows_parts_of_block(before));
        lemma_statements_write_kept(
            watch.since,
            draft.code,
            after.code,
            before.statements,
            watch.variable,
        );
        let now = after.code.basic_blocks[e];
        assert(now.statements.drop_last() =~= before.statements);
        assert(now.statements.last().index == draft.code.statements.len());
        let t = before.terminator.index as int;
        assert(after.code.terminators == draft.code.terminators);
        assert(reach::terminator(after.code, e) is Panic);
        assert forall|b: int| #[trigger] counts.contains_key(b) implies leads_on(
            watch,
            after.code,
            counts,
            b,
        ) by {
            assert(leads_on(watch, draft.code, counts, b));
            if b != e {
                lemma_block_kept(watch, draft.code, after.code, b, counts, counts);
            }
        }
    }
}

/// One more cusp.
proof fn lemma_flows_cusp(
    watch: Watch,
    draft: Draft,
    value: Option<Place>,
    origin: ExprOrigin,
    counts: Map<int, int>,
    n: int,
)
    requires
        growth::sound(draft),
        value matches Some(place) ==> draft.code.knows_place(place),
        draft.cusp(value, origin).code.fits(),
        flows(watch, draft, counts, n),
    ensures
        flows(watch, draft.cusp(value, origin), counts, n),
{
    lemma_flows_statement(watch, draft, StatementData::Cusp(value), origin, counts, n);
}

/// A series of cusps.
proof fn lemma_flows_cusp_each(
    watch: Watch,
    draft: Draft,
    value: Option<Place>,
    origins: Seq<ExprOrigin>,
    counts: Map<int, int>,
    n: int,
)
    requires
        growth::sound(draft),
        value matches Some(place) ==> draft.code.knows_place(place),
        draft.cusp_each(value, origins).code.fits(),
        flows(watch, draft, counts, n),
    ensures
        flows(watch, draft.cusp_each(value, origins), counts, n),
    decreases origins.len(),
{
    if origins.len() > 0 {
        let between = draft.cusp_each(value, origins.drop_last());
        growth::lemma_cusp_each(draft, value, origins.drop_last());
        growth::lemma_still_known(draft, between);
        growth::lemma_cusp(between, value, origins.last());
        growth::lemma_still_known(between, draft.cusp_each(value, origins));
        lemma_flows_cusp_each(watch, draft, value, origins.drop_last(), counts, n);
        lemma_flows_cusp(watch, between, value, origins.last(), counts, n);
    }
}

/// A series of cusps and a last one.
proof fn lemma_flows_cusps(
    watch: Watch,
    draft: Draft,
    value: Option<Place>,
    origins: Seq<ExprOrigin>,
    origin: ExprOrigin,
    counts: Map<int, int>,
    n: int,
)
    requires
        growth::sound(draft),
        value matches Some(place) ==> draft.code.knows_place(place),
        draft.cusps(value, origins, origin).code.fits(),
        flows(watch, draft, counts, n),
    ensures
        flows(watch, draft.cusps(value, origins, origin), counts, n),
{
    let between = draft.cusp_each(value, origins);
    growth::lemma_cusp_each(draft, value, origins);
    growth::lemma_still_known(draft, between);
    growth::lemma_cusp(between, value, origin);
    growth::lemma_still_known(between, draft.cusps(value, origins, origin));
    lemma_flows_cusp_each(watch, draft, value, origins, counts, n);
    lemma_flows_cusp(watch, between, value, origin, counts, n);
}

/// One more assignment.
proof fn lemma_flows_assign(
    watch: Watch,
    draft: Draft,
    target: Place,
    value: ExprShape,
    origin: ExprOrigin,
    counts: Map<int, int>,
    n: int,
)
    requires
        growth::sound(draft),
        draft.code.knows_place(target),
        draft.code.knows_parts_of_expr(value),
        draft.assign(target, value, origin).code.fits(),
        flows(watch, draft, counts, n),
    ensures
        flows(
            watch,
            draft.assign(target, value, origin),
            counts,
            n + hits(draft.code, target, watch.variable),
        ),
{
    if draft.end is Some {
        let code = draft.code.add_expr(value, origin);
        let between = Draft { code, ..draft };
        assert(growth::sound(between) && growth::extends(draft, between)) by {
            reveal(growth::sound);
            reveal(growth::extends);
        }
        let data = StatementData::Assign(target, code.last_expr());
        growth::lemma_statement(between, data, origin);
        growth::lemma_still_known(between, draft.assign(target, value, origin));
        lemma_flows_kept(watch, draft, between, counts, n);
        lemma_flows_statement(watch, between, data, origin, counts, n);
    }
}

/// A new block, at whose start there are `label` stores.
proof fn lemma_flows_new_block(
    watch: Watch,
    draft: Draft,
    origin: ExprOrigin,
    counts: Map<int, int>,
    n: int,
    label: int,
) -> (more: Map<int, int>)
    requires
        growth::sound(draft),
        draft.new_block(origin).0.code.fits(),
        flows(watch, draft, counts, n),
        0 <= label,
    ensures
        ({
            let (after, block) = draft.new_block(origin);
            &&& growth::grown(draft, after)
            &&& flows(watch, after, more, n)
            &&& included(counts, more)
            &&& after.end == draft.end
            &&& after.end != Some(block)
            &&& after.code.knows_block(block)
            &&& block.index == draft.code.basic_blocks.len()
            &&& is_open(watch, after.code, more, block.index as int, label)
            &&& more.contains_key(block.index as int)
            &&& more[block.index as int] == label
        }),
{
    let (after, block) = draft.new_block(origin);
    growth::lemma_new_block(draft, origin);
    let b = block.index as int;
    let more = counts.insert(b, label);
    reveal(growth::sound);
    reveal(growth::extends);
    reveal(consistent);
    assert forall|i: int| #[trigger] counts.contains_key(i) implies 0 <= i < b by {
        assert(leads_on(watch, draft.code, counts, i));
    }
    assert(included(counts, more));
    assert(block_writes(watch.since, after.code, b, watch.variable) == 0);
    assert(reach::terminator(after.code, b) is Panic);
    assert forall|i: int| #[trigger] more.contains_key(i) implies leads_on(
        watch,
        after.code,
        more,
        i,
    ) by {
        if i != b {
            assert(counts.contains_key(i));
            assert(leads_on(watch, draft.code, counts, i));
            lemma_block_kept(watch, draft.code, after.code, i, counts, more);
        }
    }
    if let Some(end) = draft.end {
        let e = end.index as int;
        lemma_block_kept(watch, draft.code, after.code, e, counts, more);
    }
    more
}

/// The end of the block in which code grows. Then there are `m` stores where the code goes on.
proof fn lemma_flows_terminated(
    watch: Watch,
    draft: Draft,
    data: TerminatorShape,
    next: Option<BasicBlock>,
    origin: ExprOrigin,
    counts: Map<int, int>,
    n: int,
    m: int,
)
    requires
        growth::sound(draft),
        draft.terminate(data, next, origin).code.fits(),
        flows(watch, draft, counts, n),
        draft.code.knows_parts_of_terminator(data),
        forall|k: int|
            0 <= k < reach::successors(data).len() ==> {
                let target = (#[trigger] reach::successors(data)[k]).index as int;
                counts.contains_key(target) && agrees(
                    watch,
                    counts[target],
                    n + shape_writes(draft.code, data, watch.variable),
                )
            },
        !watch.exact ==> (data matches TerminatorShape::Return(place) ==> {
            &&& draft.code.places[place.index as int] is LocalVariable
            &&& is_variable(draft.code, place, watch.variable) ==> 1 <= n
        }),
        0 <= m,
        next matches Some(block) ==> {
            &&& next != draft.end
            &&& draft.code.knows_block(block)
            &&& is_open(watch, draft.code, counts, block.index as int, m)
        },
    ensures
        flows(watch, draft.terminate(data, next, origin), counts, m),
{
    let after = draft.terminate(data, next, origin);
    if let Some(block) = draft.end {
        reveal(growth::sound);
        reveal(consistent);
        let e = block.index as int;
        let before = draft.code.basic_blocks[e];
        assert(draft.code.knows_parts_of_block(before));
        assert(growth::adds_to(draft.code, after.code));
        assert(reach::terminator(after.code, e) == data);
        lemma_statements_write_kept(
            watch.since,
            draft.code,
            after.code,
            before.statements,
            watch.variable,
        );
        assert(block_writes(watch.since, after.code, e, watch.variable) == block_writes(
            watch.since,
            draft.code,
            e,
            watch.variable,
        ) + shape_writes(draft.code, data, watch.variable));
        assert forall|b: int| #[trigger] counts.contains_key(b) implies leads_on(
            watch,
            after.code,
            counts,
            b,
        ) by {
            assert(leads_on(watch, draft.code, counts, b));
            if b != e {
                assert(after.code.basic_blocks[b] == draft.code.basic_blocks[b]);
                lemma_block_kept(watch, draft.code, after.code, b, counts, counts);
            }
        }
        if let Some(open) = next {
            let b = open.index as int;
            assert(b != e);
            assert(after.code.basic_blocks[b] == draft.code.basic_blocks[b]);
            lemma_block_kept(watch, draft.code, after.code, b, counts, counts);
        }
    }
}

/// Fewer stores are claimed, unless they are counted exactly.
proof fn lemma_flows_claims_less(
    watch: Watch,
    draft: Draft,
    counts: Map<int, int>,
    n: int,
    more: nat,
)
    requires
        flows(watch, draft, counts, n + more),
        0 <= n,
        watch.exact ==> more == 0,
    ensures
        flows(watch, draft, counts, n),
{
}

/// Whether the blocks to which `break` and `continue` go expect the numbers of stores that they
/// find if there are `n` where they stand.
spec fn loops_agree(
    watch: Watch,
    code: Code,
    loops: Map<validated::Expr, LoopContext>,
    counts: Map<int, int>,
    n: int,
) -> bool {
    forall|expr: validated::Expr| #[trigger]
        loops.contains_key(expr) ==> {
            let context = loops[expr];
            &&& counts.contains_key(context.continue_block.index as int)
            &&& counts.contains_key(context.break_block.index as int)
            &&& agrees(watch, counts[context.continue_block.index as int], n)
            &&& agrees(
                watch,
                counts[context.break_block.index as int],
                n + hits(code, context.loop_value, watch.variable),
            )
        }
}

/// Whether `draft` can be continued with code of `tree`, there being `n` stores where it grows and
/// `loops` being open. What is counted exactly is a variable that there is already.
spec fn brewable(
    watch: Watch,
    tree: Tree,
    loops: Map<validated::Expr, LoopContext>,
    draft: Draft,
    counts: Map<int, int>,
    n: int,
) -> bool {
    &&& growth::ready(tree, loops, draft)
    &&& flows(watch, draft, counts, n)
    &&& loops_agree(watch, draft.code, loops, counts, n)
    &&& watch.exact ==> watch.variable.index < draft.code.local_variables.len()
}

/// What can be continued still can after more code.
proof fn lemma_still_brewable(
    watch: Watch,
    tree: Tree,
    loops: Map<validated::Expr, LoopContext>,
    before: Draft,
    after: Draft,
    counts: Map<int, int>,
    more: Map<int, int>,
    n: int,
)
    requires
        brewable(watch, tree, loops, before, counts, n),
        growth::grown(before, after),
        included(counts, more),
        flows(watch, after, more, n),
    ensures
        brewable(watch, tree, loops, after, more, n),
{
    growth::lemma_still_ready(tree, loops, before, after);
    growth::lemma_still_known(before, after);
    reveal(growth::ready);
    reveal(growth::extends);
    assert forall|expr: validated::Expr| #[trigger] loops.contains_key(expr) implies hits(
        after.code,
        loops[expr].loop_value,
        watch.variable,
    ) == hits(before.code, loops[expr].loop_value, watch.variable) by {
        lemma_hits_kept(before.code, after.code, loops[expr].loop_value, watch.variable);
    }
}

/// How often storing in a known place stores in a variable does not change as code is added.
proof fn lemma_hits_same(before: Draft, after: Draft, place: Place, variable: LocalVariable)
    requires
        growth::extends(before, after),
        before.code.knows_place(place),
    ensures
        hits(after.code, place, variable) == hits(before.code, place, variable),
        after.code.knows_place(place),
        after.code.places[place.index as int] == before.code.places[place.index as int],
{
    reveal(growth::extends);
    lemma_hits_kept(before.code, after.code, place, variable);
}

/// A brewed place is a variable only if it was brewed from that variable.
proof fn lemma_brewed_place_hits(
    tree: Tree,
    code: Code,
    place: validated::Place,
    variable: LocalVariable,
)
    requires
        tree.valid_place(place),
        recipe::brewed_place(tree, code, place).0.places.len() <= usize::MAX,
        tree.place(place) != validated::PlaceData::LocalVariable(
            validated::LocalVariable { index: variable.index },
        ),
    ensures
        ({
            let (after, target, _) = recipe::brewed_place(tree, code, place);
            hits(after, target, variable) == 0
        }),
{
    let (after, target, _) = recipe::brewed_place(tree, code, place);
    if let validated::PlaceData::LocalVariable(own) = tree.place(place) {
        assert(own.index != variable.index) by {
            if own.index == variable.index {
                assert(own == validated::LocalVariable { index: variable.index });
            }
        }
    }
}

/// Brewing for side effects stores nothing that is counted exactly.
proof fn lemma_side_effects_flow(
    watch: Watch,
    tree: Tree,
    loops: Map<validated::Expr, LoopContext>,
    draft: Draft,
    expr: validated::Expr,
    counts: Map<int, int>,
    n: int,
) -> (more: Map<int, int>)
    requires
        brewable(watch, tree, loops, draft, counts, n),
        tree.valid_expr(expr, loops.dom()),
        watch.exact ==> spares(tree, expr, watch.variable),
        recipe::side_effects(tree, loops, draft, expr).code.fits(),
    ensures
        flows(watch, recipe::side_effects(tree, loops, draft, expr), more, n),
        included(counts, more),
    decreases
            tree.depth(expr),
            if recipe::is_command(tree, expr) {
                0int
            } else {
                3int
            },
            0nat,
{
    recipe::lemma_parts_are_shallower(tree, expr);
    recipe::lemma_parts_are_valid(tree, expr, loops.dom());
    if watch.exact {
        lemma_parts_spare(tree, expr, watch.variable);
    }
    let origin = tree.expr_origin(expr);
    let after = recipe::side_effects(tree, loops, draft, expr);
    reveal(growth::ready);
    match tree.expr(expr) {
        ExprData::Break { from_expr, with_value } => {
            let context = loops[from_expr];
            assert(loops.contains_key(from_expr));
            let data = TerminatorShape::Goto(context.break_block);
            let m = n + hits(draft.code, context.loop_value, watch.variable);
            let d1 = recipe::assigned(tree, loops, draft, context.loop_value, with_value);
            growth::lemma_assigned_grows(tree, loops, draft, context.loop_value, with_value);
            growth::lemma_still_ready(tree, loops, draft, d1);
            let d2 = d1.cusp(Some(context.loop_value), origin);
            growth::lemma_cusp(d1, Some(context.loop_value), origin);
            growth::lemma_still_ready(tree, loops, d1, d2);
            growth::lemma_terminate_adds(d2, data, None, origin);
            let more = lemma_assigned_flows(
                watch,
                tree,
                loops,
                draft,
                context.loop_value,
                with_value,
                counts,
                n,
            );
            lemma_flows_cusp(watch, d1, Some(context.loop_value), origin, more, m);
            lemma_flows_terminated(watch, d2, data, None, origin, more, m, n);
            more
        },
        ExprData::Continue(from_expr) => {
            assert(loops.contains_key(from_expr));
            let data = TerminatorShape::Goto(loops[from_expr].continue_block);
            let d1 = draft.cusp(None, origin);
            growth::lemma_cusp(draft, None, origin);
            growth::lemma_still_ready(tree, loops, draft, d1);
            growth::lemma_terminate_adds(d1, data, None, origin);
            lemma_flows_cusp(watch, draft, None, origin, counts, n);
            lemma_flows_terminated(watch, d1, data, None, origin, counts, n, n);
            counts
        },
        ExprData::Return(value) => {
            let (d1, place) = recipe::to_temporary(tree, loops, draft, value);
            let data = TerminatorShape::Return(place);
            growth::lemma_to_temporary_grows(tree, loops, draft, value);
            let d2 = d1.cusp(Some(place), origin);
            growth::lemma_cusp(d1, Some(place), origin);
            growth::lemma_still_known(d1, d2);
            growth::lemma_terminate_adds(d2, data, None, origin);
            let more = lemma_to_temporary_flows(watch, tree, loops, draft, value, counts, n);
            let m = n + hits(d1.code, place, watch.variable);
            lemma_flows_cusp(watch, d1, Some(place), origin, more, m);
            lemma_hits_same(d1, d2, place, watch.variable);
            lemma_flows_terminated(watch, d2, data, None, origin, more, m, n);
            more
        },
        ExprData::Error => {
            let data = TerminatorShape::Error;
            let d1 = draft.cusp(None, origin);
            growth::lemma_cusp(draft, None, origin);
            growth::lemma_terminate_adds(d1, data, None, origin);
            lemma_flows_cusp(watch, draft, None, origin, counts, n);
            lemma_flows_terminated(watch, d1, data, None, origin, counts, n, n);
            counts
        },
        ExprData::Assign(place, value) => {
            let (code, target, origins) = recipe::brewed_place(tree, draft.code, place);
            let d1 = Draft { code, ..draft };
            growth::lemma_brewed_place_grows(tree, loops, draft, place);
            growth::lemma_still_ready(tree, loops, draft, d1);
            let d2 = recipe::assigned(tree, loops, d1, target, value);
            growth::lemma_assigned_grows(tree, loops, d1, target, value);
            growth::lemma_still_known(d1, d2);
            growth::lemma_cusps(d2, None, origins, origin);
            growth::lemma_still_known(d2, after);
            if watch.exact {
                lemma_brewed_place_hits(tree, draft.code, place, watch.variable);
            }
            lemma_flows_kept(watch, draft, d1, counts, n);
            lemma_still_brewable(watch, tree, loops, draft, d1, counts, counts, n);
            let more = lemma_assigned_flows(watch, tree, loops, d1, target, value, counts, n);
            lemma_flows_claims_less(watch, d2, more, n, hits(d1.code, target, watch.variable));
            lemma_flows_cusps(watch, d2, None, origins, origin, more, n);
            more
        },
        _ => lemma_to_temporary_flows(watch, tree, loops, draft, expr, counts, n),
    }
}

/// Brewing to a temporary stores in that temporary.
proof fn lemma_to_temporary_flows(
    watch: Watch,
    tree: Tree,
    loops: Map<validated::Expr, LoopContext>,
    draft: Draft,
    expr: validated::Expr,
    counts: Map<int, int>,
    n: int,
) -> (more: Map<int, int>)
    requires
        brewable(watch, tree, loops, draft, counts, n),
        tree.valid_expr(expr, loops.dom()),
        watch.exact ==> spares(tree, expr, watch.variable),
        recipe::to_temporary(tree, loops, draft, expr).0.code.fits(),
    ensures
        ({
            let (after, place) = recipe::to_temporary(tree, loops, draft, expr);
            &&& flows(watch, after, more, n + hits(after.code, place, watch.variable))
            &&& flows(watch, after, more, n)
            &&& after.code.knows_place(place)
            &&& after.code.places[place.index as int] is LocalVariable
        }),
        included(counts, more),
    decreases tree.depth(expr), 2int, 0nat,
{
    let origin = tree.expr_origin(expr);
    let (d1, temporary) = draft.new_temporary(origin);
    assert(growth::sound(draft)) by {
        reveal(growth::ready);
    }
    growth::lemma_new_temporary(draft, origin);
    growth::lemma_still_ready(tree, loops, draft, d1);
    let d2 = recipe::assigned(tree, loops, d1, temporary, expr);
    growth::lemma_assigned_grows(tree, loops, d1, temporary, expr);
    growth::lemma_still_known(d1, d2);
    lemma_flows_kept(watch, draft, d1, counts, n);
    lemma_still_brewable(watch, tree, loops, draft, d1, counts, counts, n);
    let more = lemma_assigned_flows(watch, tree, loops, d1, temporary, expr, counts, n);
    lemma_hits_same(d1, d2, temporary, watch.variable);
    lemma_flows_claims_less(watch, d2, more, n, hits(d1.code, temporary, watch.variable));
    more
}

/// Brewing to temporaries stores nothing that is counted exactly.
proof fn lemma_to_temporaries_flow(
    watch: Watch,
    tree: Tree,
    loops: Map<validated::Expr, LoopContext>,
    draft: Draft,
    exprs: Seq<validated::Expr>,
    counts: Map<int, int>,
    n: int,
) -> (more: Map<int, int>)
    requires
        brewable(watch, tree, loops, draft, counts, n),
        recipe::all_finite(tree, exprs),
        recipe::all_valid(tree, exprs, loops.dom()),
        watch.exact ==> all_spare(tree, exprs, watch.variable),
        recipe::to_temporaries(tree, loops, draft, exprs).0.code.fits(),
    ensures
        flows(watch, recipe::to_temporaries(tree, loops, draft, exprs).0, more, n),
        included(counts, more),
    decreases recipe::depth_of_all(tree, exprs), 4int, exprs.len(),
{
    if exprs.len() == 0 {
        counts
    } else {
        let d1 = recipe::to_temporaries(tree, loops, draft, exprs.drop_last()).0;
        lemma_prefix(watch, tree, exprs, loops.dom());
        growth::lemma_to_temporaries_grow(tree, loops, draft, exprs.drop_last());
        growth::lemma_still_ready(tree, loops, draft, d1);
        let d2 = recipe::to_temporary(tree, loops, d1, exprs.last()).0;
        growth::lemma_to_temporary_grows(tree, loops, d1, exprs.last());
        growth::lemma_still_known(d1, d2);
        let middle = lemma_to_temporaries_flow(
            watch,
            tree,
            loops,
            draft,
            exprs.drop_last(),
            counts,
            n,
        );
        lemma_still_brewable(watch, tree, loops, draft, d1, counts, middle, n);
        lemma_to_temporary_flows(watch, tree, loops, d1, exprs.last(), middle, n)
    }
}

/// What holds of a series holds of all but the last, and of the last.
proof fn lemma_prefix(
    watch: Watch,
    tree: Tree,
    exprs: Seq<validated::Expr>,
    loops: Set<validated::Expr>,
)
    requires
        exprs.len() > 0,
        recipe::all_valid(tree, exprs, loops),
        watch.exact ==> all_spare(tree, exprs, watch.variable),
    ensures
        recipe::all_finite(tree, exprs.drop_last()),
        recipe::all_valid(tree, exprs.drop_last(), loops),
        tree.valid_expr(exprs.last(), loops),
        watch.exact ==> all_spare(tree, exprs.drop_last(), watch.variable) && spares(
            tree,
            exprs.last(),
            watch.variable,
        ),
{
    assert forall|k: int| 0 <= k < exprs.drop_last().len() implies tree.valid_expr(
        #[trigger] exprs.drop_last()[k],
        loops,
    ) && (watch.exact ==> spares(tree, exprs.drop_last()[k], watch.variable)) by {
        assert(tree.valid_expr(exprs[k], loops));
    }
    assert(tree.valid_expr(exprs[exprs.len() - 1], loops));
}

/// Brewing a series for its side effects stores nothing that is counted exactly.
proof fn lemma_all_side_effects_flow(
    watch: Watch,
    tree: Tree,
    loops: Map<validated::Expr, LoopContext>,
    draft: Draft,
    exprs: Seq<validated::Expr>,
    counts: Map<int, int>,
    n: int,
) -> (more: Map<int, int>)
    requires
        brewable(watch, tree, loops, draft, counts, n),
        recipe::all_finite(tree, exprs),
        recipe::all_valid(tree, exprs, loops.dom()),
        watch.exact ==> all_spare(tree, exprs, watch.variable),
        recipe::all_side_effects(tree, loops, draft, exprs).code.fits(),
    ensures
        flows(watch, recipe::all_side_effects(tree, loops, draft, exprs), more, n),
        included(counts, more),
    decreases recipe::depth_of_all(tree, exprs), 4int, exprs.len(),
{
    if exprs.len() == 0 {
        counts
    } else {
        let d1 = recipe::all_side_effects(tree, loops, draft, exprs.drop_last());
        lemma_prefix(watch, tree, exprs, loops.dom());
        growth::lemma_all_side_effects_grow(tree, loops, draft, exprs.drop_last());
        growth::lemma_still_ready(tree, loops, draft, d1);
        let d2 = recipe::side_effects(tree, loops, d1, exprs.last());
        growth::lemma_side_effects_grow(tree, loops, d1, exprs.last());
        growth::lemma_still_known(d1, d2);
        let middle = lemma_all_side_effects_flow(
            watch,
            tree,
            loops,
            draft,
            exprs.drop_last(),
            counts,
            n,
        );
        lemma_still_brewable(watch, tree, loops, draft, d1, counts, middle, n);
        lemma_side_effects_flow(watch, tree, loops, d1, exprs.last(), middle, n)
    }
}

/// Storing a value and then marking the moment.
proof fn lemma_stored_flows(
    watch: Watch,
    first: Draft,
    draft: Draft,
    target: Place,
    value: ExprShape,
    origin: ExprOrigin,
    counts: Map<int, int>,
    n: int,
)
    requires
        growth::grown(first, draft),
        first.code.knows_place(target),
        draft.code.knows_parts_of_expr(value),
        draft.assign(target, value, origin).cusp(Some(target), origin).code.fits(),
        flows(watch, draft, counts, n),
    ensures
        flows(
            watch,
            draft.assign(target, value, origin).cusp(Some(target), origin),
            counts,
            n + hits(first.code, target, watch.variable),
        ),
{
    let d1 = draft.assign(target, value, origin);
    let d2 = d1.cusp(Some(target), origin);
    lemma_hits_same(first, draft, target, watch.variable);
    growth::lemma_assign(draft, target, value, origin);
    growth::lemma_still_known(draft, d1);
    growth::lemma_cusp(d1, Some(target), origin);
    growth::lemma_still_known(d1, d2);
    lemma_flows_assign(watch, draft, target, value, origin, counts, n);
    let m = n + hits(first.code, target, watch.variable);
    lemma_flows_cusp(watch, d1, Some(target), origin, counts, m);
}

/// A computation after which control continues in a new block.
proof fn lemma_computed_flows(
    watch: Watch,
    first: Draft,
    draft: Draft,
    target: Place,
    value: TerminatorExprShape,
    origin: ExprOrigin,
    counts: Map<int, int>,
    n: int,
) -> (more: Map<int, int>)
    requires
        growth::grown(first, draft),
        first.code.knows_place(target),
        match value {
            TerminatorExprShape::Await(place) => draft.code.knows_place(place),
            TerminatorExprShape::Call { function, arguments, labels } => {
                &&& draft.code.knows_place(function)
                &&& draft.code.knows_places(arguments)
                &&& arguments.len() == labels.len()
            },
        },
        ({
            let (between, next) = draft.new_block(origin);
            between.terminate(
                TerminatorShape::Assign(target, value, next),
                Some(next),
                origin,
            ).cusp(Some(target), origin).code.fits()
        }),
        flows(watch, draft, counts, n),
    ensures
        ({
            let (between, next) = draft.new_block(origin);
            flows(
                watch,
                between.terminate(
                    TerminatorShape::Assign(target, value, next),
                    Some(next),
                    origin,
                ).cusp(Some(target), origin),
                more,
                n + hits(first.code, target, watch.variable),
            )
        }),
        included(counts, more),
{
    let (d1, next) = draft.new_block(origin);
    let data = TerminatorShape::Assign(target, value, next);
    let d2 = d1.terminate(data, Some(next), origin);
    let d3 = d2.cusp(Some(target), origin);
    let m = n + hits(first.code, target, watch.variable);
    growth::lemma_new_block(draft, origin);
    growth::lemma_still_known(first, draft);
    growth::lemma_still_known(draft, d1);
    growth::lemma_extends_further(first, draft, d1);
    if let TerminatorExprShape::Call { arguments, .. } = value {
        assert forall|k: int| 0 <= k < arguments.len() implies d1.code.knows_place(
            #[trigger] arguments[k],
        ) by {
            assert(draft.code.knows_place(arguments[k]));
        }
    }
    growth::lemma_terminate(first, d1, data, Some(next), origin);
    growth::lemma_terminate_adds(d1, data, Some(next), origin);
    growth::lemma_still_known(first, d2);
    growth::lemma_cusp(d2, Some(target), origin);
    growth::lemma_still_known(d2, d3);
    lemma_hits_same(first, d1, target, watch.variable);
    let more = lemma_flows_new_block(watch, draft, origin, counts, n, m);
    lemma_flows_terminated(watch, d1, data, Some(next), origin, more, n, m);
    lemma_flows_cusp(watch, d2, Some(target), origin, more, m);
    more
}

/// Storing what is read from a place.
proof fn lemma_copied_flows(
    watch: Watch,
    tree: Tree,
    loops: Map<validated::Expr, LoopContext>,
    draft: Draft,
    target: Place,
    expr: validated::Expr,
    place: validated::Place,
    counts: Map<int, int>,
    n: int,
)
    requires
        brewable(watch, tree, loops, draft, counts, n),
        draft.code.knows_place(target),
        tree.valid_expr(expr, loops.dom()),
        match tree.expr(expr) {
            ExprData::Share(from) => from == place,
            ExprData::Lease(from) => from == place,
            ExprData::Give(from) => from == place,
            _ => false,
        },
        recipe::assigned(tree, loops, draft, target, expr).code.fits(),
    ensures
        flows(
            watch,
            recipe::assigned(tree, loops, draft, target, expr),
            counts,
            n + hits(draft.code, target, watch.variable),
        ),
{
    let origin = tree.expr_origin(expr);
    let after = recipe::assigned(tree, loops, draft, target, expr);
    let (code, source, origins) = recipe::brewed_place(tree, draft.code, place);
    let value = match tree.expr(expr) {
        ExprData::Share(_) => ExprShape::Share(source),
        ExprData::Lease(_) => ExprShape::Lease(source),
        _ => ExprShape::Give(source),
    };
    assert(growth::sound(draft)) by {
        reveal(growth::ready);
    }
    let d1 = Draft { code, ..draft };
    growth::lemma_brewed_place_grows(tree, loops, draft, place);
    growth::lemma_still_ready(tree, loops, draft, d1);
    let d2 = d1.assign(target, value, origin);
    growth::lemma_assign(d1, target, value, origin);
    growth::lemma_still_ready(tree, loops, d1, d2);
    growth::lemma_cusps(d2, Some(target), origins, origin);
    growth::lemma_still_known(d2, after);
    lemma_hits_same(draft, d1, target, watch.variable);
    lemma_flows_kept(watch, draft, d1, counts, n);
    lemma_flows_assign(watch, d1, target, value, origin, counts, n);
    let m = n + hits(draft.code, target, watch.variable);
    lemma_flows_cusps(watch, d2, Some(target), origins, origin, counts, m);
}

/// Brewing into a place stores in that place once.
proof fn lemma_assigned_flows(
    watch: Watch,
    tree: Tree,
    loops: Map<validated::Expr, LoopContext>,
    draft: Draft,
    target: Place,
    expr: validated::Expr,
    counts: Map<int, int>,
    n: int,
) -> (more: Map<int, int>)
    requires
        brewable(watch, tree, loops, draft, counts, n),
        draft.code.knows_place(target),
        tree.valid_expr(expr, loops.dom()),
        watch.exact ==> spares(tree, expr, watch.variable),
        recipe::assigned(tree, loops, draft, target, expr).code.fits(),
    ensures
        flows(
            watch,
            recipe::assigned(tree, loops, draft, target, expr),
            more,
            n + hits(draft.code, target, watch.variable),
        ),
        included(counts, more),
    decreases tree.depth(expr), 1int, 0nat,
{
    recipe::lemma_parts_are_shallower(tree, expr);
    recipe::lemma_parts_are_valid(tree, expr, loops.dom());
    if watch.exact {
        lemma_parts_spare(tree, expr, watch.variable);
    }
    let origin = tree.expr_origin(expr);
    let after = recipe::assigned(tree, loops, draft, target, expr);
    let m = n + hits(draft.code, target, watch.variable);
    growth::lemma_assigned_grows(tree, loops, draft, target, expr);
    growth::lemma_still_known(draft, after);
    assert(growth::sound(draft)) by {
        reveal(growth::ready);
    }
    growth::lemma_extends_itself(draft);
    if draft.end is None {
        lemma_flows_nowhere(watch, draft, after, counts, n, m);
        counts
    } else {
        match tree.expr(expr) {
            ExprData::Await(future) => {
                let (d1, place) = recipe::to_temporary(tree, loops, draft, future);
                let value = TerminatorExprShape::Await(place);
                growth::lemma_to_temporary_grows(tree, loops, draft, future);
                reach::lemma_computed_fits(draft, d1, target, value, origin);
                let c1 = lemma_to_temporary_flows(watch, tree, loops, draft, future, counts, n);
                lemma_computed_flows(watch, draft, d1, target, value, origin, c1, n)
            },
            ExprData::If(_, _, _) => {
                lemma_if_flows(watch, tree, loops, draft, target, expr, counts, n)
            },
            ExprData::Loop(_) => {
                lemma_loop_flows(watch, tree, loops, draft, target, expr, counts, n)
            },
            ExprData::Share(place) => {
                lemma_copied_flows(watch, tree, loops, draft, target, expr, place, counts, n);
                counts
            },
            ExprData::Lease(place) => {
                lemma_copied_flows(watch, tree, loops, draft, target, expr, place, counts, n);
                counts
            },
            ExprData::Give(place) => {
                lemma_copied_flows(watch, tree, loops, draft, target, expr, place, counts, n);
                counts
            },
            ExprData::BooleanLiteral(value) => {
                let value = ExprShape::BooleanLiteral(value);
                lemma_stored_flows(watch, draft, draft, target, value, origin, counts, n);
                counts
            },
            ExprData::IntegerLiteral(value) => {
                let value = ExprShape::IntegerLiteral(value);
                lemma_stored_flows(watch, draft, draft, target, value, origin, counts, n);
                counts
            },
            ExprData::StringLiteral(value) => {
                let value = ExprShape::StringLiteral(value);
                lemma_stored_flows(watch, draft, draft, target, value, origin, counts, n);
                counts
            },
            ExprData::Tuple(exprs) => {
                let (d1, places) = recipe::to_temporaries(tree, loops, draft, exprs@);
                growth::lemma_to_temporaries_grow(tree, loops, draft, exprs@);
                let value = if places.len() == 0 {
                    ExprShape::Unit
                } else {
                    ExprShape::Tuple(places)
                };
                reach::lemma_stored_fits(draft, d1, target, value, origin);
                let c1 = lemma_to_temporaries_flow(watch, tree, loops, draft, exprs@, counts, n);
                lemma_stored_flows(watch, draft, d1, target, value, origin, c1, n);
                c1
            },
            ExprData::Op(lhs, op, rhs) => {
                let (d1, left) = recipe::to_temporary(tree, loops, draft, lhs);
                growth::lemma_to_temporary_grows(tree, loops, draft, lhs);
                growth::lemma_still_ready(tree, loops, draft, d1);
                let (d2, right) = recipe::to_temporary(tree, loops, d1, rhs);
                growth::lemma_to_temporary_grows(tree, loops, d1, rhs);
                growth::lemma_still_known(d1, d2);
                growth::lemma_extends_further(draft, d1, d2);
                let value = ExprShape::Op(left, op, right);
                reach::lemma_stored_fits(draft, d2, target, value, origin);
                let c1 = lemma_to_temporary_flows(watch, tree, loops, draft, lhs, counts, n);
                lemma_still_brewable(watch, tree, loops, draft, d1, counts, c1, n);
                let c2 = lemma_to_temporary_flows(watch, tree, loops, d1, rhs, c1, n);
                lemma_stored_flows(watch, draft, d2, target, value, origin, c2, n);
                c2
            },
            ExprData::Sequence(exprs) => {
                if exprs@.len() == 0 {
                    let value = ExprShape::Unit;
                    lemma_stored_flows(watch, draft, draft, target, value, origin, counts, n);
                    counts
                } else {
                    let d1 = recipe::all_side_effects(tree, loops, draft, exprs@.drop_last());
                    lemma_prefix(watch, tree, exprs@, loops.dom());
                    growth::lemma_all_side_effects_grow(tree, loops, draft, exprs@.drop_last());
                    growth::lemma_still_ready(tree, loops, draft, d1);
                    let d2 = recipe::assigned(tree, loops, d1, target, exprs@.last());
                    growth::lemma_assigned_grows(tree, loops, d1, target, exprs@.last());
                    growth::lemma_still_known(d1, d2);
                    growth::lemma_cusp(d2, Some(target), origin);
                    growth::lemma_still_known(d2, after);
                    lemma_hits_same(draft, d1, target, watch.variable);
                    let c1 = lemma_all_side_effects_flow(
                        watch,
                        tree,
                        loops,
                        draft,
                        exprs@.drop_last(),
                        counts,
                        n,
                    );
                    lemma_still_brewable(watch, tree, loops, draft, d1, counts, c1, n);
                    let c2 = lemma_assigned_flows(
                        watch,
                        tree,
                        loops,
                        d1,
                        target,
                        exprs@.last(),
                        c1,
                        n,
                    );
                    lemma_flows_cusp(watch, d2, Some(target), origin, c2, m);
                    c2
                }
            },
            ExprData::Assign(_, _) => {
                let d1 = recipe::side_effects(tree, loops, draft, expr);
                growth::lemma_side_effects_grow(tree, loops, draft, expr);
                growth::lemma_still_ready(tree, loops, draft, d1);
                growth::lemma_assign(d1, target, ExprShape::Unit, origin);
                growth::lemma_still_known(d1, after);
                lemma_hits_same(draft, d1, target, watch.variable);
                let c1 = lemma_side_effects_flow(watch, tree, loops, draft, expr, counts, n);
                lemma_flows_assign(watch, d1, target, ExprShape::Unit, origin, c1, n);
                c1
            },
            ExprData::Call(function, arguments) => {
                let values = tree.argument_exprs(arguments@);
                let (d1, callee) = recipe::to_temporary(tree, loops, draft, function);
                growth::lemma_to_temporary_grows(tree, loops, draft, function);
                growth::lemma_still_ready(tree, loops, draft, d1);
                let (d2, places) = recipe::to_temporaries(tree, loops, d1, values);
                growth::lemma_to_temporaries_grow(tree, loops, d1, values);
                growth::lemma_still_known(d1, d2);
                growth::lemma_extends_further(draft, d1, d2);
                let call = TerminatorExprShape::Call {
                    function: callee,
                    arguments: places,
                    labels: recipe::labels(tree, arguments@),
                };
                reach::lemma_computed_fits(draft, d2, target, call, origin);
                let c1 = lemma_to_temporary_flows(watch, tree, loops, draft, function, counts, n);
                lemma_still_brewable(watch, tree, loops, draft, d1, counts, c1, n);
                let c2 = lemma_to_temporaries_flow(watch, tree, loops, d1, values, c1, n);
                lemma_computed_flows(watch, draft, d2, target, call, origin, c2, n)
            },
            ExprData::Atomic(_) => {
                lemma_atomic_flows(watch, tree, loops, draft, target, expr, counts, n)
            },
            _ => {
                growth::lemma_jump_diverges(tree, loops, draft, target, expr);
                lemma_side_effects_flow(watch, tree, loops, draft, expr, counts, n)
            },
        }
    }
}

/// Brewing `part` in the open block `block`, where there are `n` stores, and going on in `join`
/// after it.
proof fn lemma_branch_flows(
    watch: Watch,
    tree: Tree,
    loops: Map<validated::Expr, LoopContext>,
    draft: Draft,
    target: Place,
    expr: validated::Expr,
    part: validated::Expr,
    block: BasicBlock,
    join: BasicBlock,
    counts: Map<int, int>,
    n: int,
) -> (more: Map<int, int>)
    requires
        brewable(watch, tree, loops, draft.at(Some(block)), counts, n),
        draft.code.knows_place(target),
        draft.code.knows_block(join),
        counts.contains_key(join.index as int),
        agrees(
            watch,
            counts[join.index as int],
            n + hits(draft.code, target, watch.variable),
        ),
        tree.valid_expr(part, loops.dom()),
        watch.exact ==> spares(tree, part, watch.variable),
        recipe::shallower(tree, part, expr),
        recipe::assigned(tree, loops, draft.at(Some(block)), target, part).goto(
            join,
            tree.expr_origin(expr),
        ).code.fits(),
    ensures
        ({
            let done = recipe::assigned(tree, loops, draft.at(Some(block)), target, part).goto(
                join,
                tree.expr_origin(expr),
            );
            flows(watch, done, more, n) && done.end is None
        }),
        included(counts, more),
    decreases tree.depth(expr), 0int, 0nat,
{
    let origin = tree.expr_origin(expr);
    let start = draft.at(Some(block));
    let d1 = recipe::assigned(tree, loops, start, target, part);
    let data = TerminatorShape::Goto(join);
    growth::lemma_assigned_grows(tree, loops, start, target, part);
    growth::lemma_still_known(start, d1);
    growth::lemma_terminate_adds(d1, data, None, origin);
    let more = lemma_assigned_flows(watch, tree, loops, start, target, part, counts, n);
    let m = n + hits(draft.code, target, watch.variable);
    lemma_flows_terminated(watch, d1, data, None, origin, more, m, n);
    more
}

/// Brewing an `if` into a place stores in that place once.
#[verifier::rlimit(40)]
proof fn lemma_if_flows(
    watch: Watch,
    tree: Tree,
    loops: Map<validated::Expr, LoopContext>,
    draft: Draft,
    target: Place,
    expr: validated::Expr,
    counts: Map<int, int>,
    n: int,
) -> (more: Map<int, int>)
    requires
        brewable(watch, tree, loops, draft, counts, n),
        draft.code.knows_place(target),
        tree.valid_expr(expr, loops.dom()),
        watch.exact ==> spares(tree, expr, watch.variable),
        tree.expr(expr) is If,
        recipe::assigned(tree, loops, draft, target, expr).code.fits(),
    ensures
        flows(
            watch,
            recipe::assigned(tree, loops, draft, target, expr),
            more,
            n + hits(draft.code, target, watch.variable),
        ),
        included(counts, more),
    decreases tree.depth(expr), 0int, 1nat,
{
    recipe::lemma_parts_are_shallower(tree, expr);
    recipe::lemma_parts_are_valid(tree, expr, loops.dom());
    if watch.exact {
        lemma_parts_spare(tree, expr, watch.variable);
    }
    let origin = tree.expr_origin(expr);
    let after = recipe::assigned(tree, loops, draft, target, expr);
    let m = n + hits(draft.code, target, watch.variable);
    if let ExprData::If(condition, if_true, if_false) = tree.expr(expr) {
        let (d0, test) = recipe::to_temporary(tree, loops, draft, condition);
        growth::lemma_to_temporary_grows(tree, loops, draft, condition);
        growth::lemma_still_ready(tree, loops, draft, d0);
        let (d1, true_block) = d0.new_block(origin);
        growth::lemma_new_block(d0, origin);
        growth::lemma_still_ready(tree, loops, d0, d1);
        let (d2, false_block) = d1.new_block(origin);
        growth::lemma_new_block(d1, origin);
        growth::lemma_still_ready(tree, loops, d1, d2);
        growth::lemma_extends_further(d0, d1, d2);
        let (d3, join) = d2.new_block(origin);
        growth::lemma_new_block(d2, origin);
        growth::lemma_still_ready(tree, loops, d2, d3);
        growth::lemma_extends_further(d0, d2, d3);
        let data = TerminatorShape::If(test, true_block, false_block);
        let d4 = d3.terminate(data, Some(join), origin);
        growth::lemma_terminate(d0, d3, data, Some(join), origin);
        growth::lemma_terminate_adds(d3, data, Some(join), origin);
        growth::lemma_still_ready(tree, loops, d0, d4);
        let forked = d4.cusp(Some(target), origin);
        growth::lemma_cusp(d4, Some(target), origin);
        growth::lemma_still_ready(tree, loops, d4, forked);
        growth::lemma_extends_further(d0, d4, forked);
        let start = forked.at(Some(true_block));
        let one = recipe::assigned(tree, loops, start, target, if_true).goto(join, origin);
        growth::lemma_branch_grows(
            tree,
            loops,
            d0,
            forked,
            target,
            expr,
            if_true,
            true_block,
            join,
        );
        let again = one.at(forked.end);
        let second = again.at(Some(false_block));
        assert(second == one.at(Some(false_block)));
        let both = recipe::assigned(tree, loops, second, target, if_false).goto(join, origin);
        growth::lemma_branch_grows(
            tree,
            loops,
            d0,
            again,
            target,
            expr,
            if_false,
            false_block,
            join,
        );
        assert(after == both.at(forked.end));
        let c0 = lemma_to_temporary_flows(watch, tree, loops, draft, condition, counts, n);
        lemma_still_brewable(watch, tree, loops, draft, d0, counts, c0, n);
        lemma_hits_same(draft, d0, target, watch.variable);
        lemma_hits_same(d0, forked, target, watch.variable);
        if d0.end is None {
            lemma_flows_nowhere(watch, d0, after, c0, n, m);
            c0
        } else {
            let c1 = lemma_flows_new_block(watch, d0, origin, c0, n, n);
            let c2 = lemma_flows_new_block(watch, d1, origin, c1, n, n);
            let c3 = lemma_flows_new_block(watch, d2, origin, c2, n, m);
            assert(d3.end == d0.end && d0.end->0.index < d0.code.basic_blocks.len()) by {
                reveal(growth::sound);
            }
            lemma_stays_open(watch, d1, d2, true_block, c1, c2, n);
            lemma_stays_open(watch, d2, d3, true_block, c2, c3, n);
            lemma_stays_open(watch, d2, d3, false_block, c2, c3, n);
            lemma_flows_terminated(watch, d3, data, Some(join), origin, c3, n, m);
            lemma_opens_kept(watch, d3, data, Some(join), origin, true_block, c3, n);
            lemma_opens_kept(watch, d3, data, Some(join), origin, false_block, c3, n);
            lemma_flows_cusp(watch, d4, Some(target), origin, c3, m);
            lemma_stays_open(watch, d4, forked, true_block, c3, c3, n);
            lemma_stays_open(watch, d4, forked, false_block, c3, c3, n);
            assert(forked.end == Some(join));
            growth::lemma_ready_elsewhere(tree, loops, forked, true_block);
            lemma_still_agree(watch, tree, loops, d0, forked, c0, c3, n);
            let c4 = lemma_branch_flows(
                watch,
                tree,
                loops,
                forked,
                target,
                expr,
                if_true,
                true_block,
                join,
                c3,
                n,
            );
            lemma_stays_open(watch, start, one, false_block, c3, c4, n);
            lemma_stays_open(watch, start, one, join, c3, c4, m);
            lemma_hits_same(start, one, target, watch.variable);
            growth::lemma_ready_elsewhere(tree, loops, again, false_block);
            lemma_still_agree(watch, tree, loops, d0, again, c0, c4, n);
            let c5 = lemma_branch_flows(
                watch,
                tree,
                loops,
                again,
                target,
                expr,
                if_false,
                false_block,
                join,
                c4,
                n,
            );
            lemma_stays_open(watch, second, both, join, c4, c5, m);
            c5
        }
    } else {
        counts
    }
}

/// An open block that is not the one that ends stays open.
proof fn lemma_opens_kept(
    watch: Watch,
    draft: Draft,
    data: TerminatorShape,
    next: Option<BasicBlock>,
    origin: ExprOrigin,
    block: BasicBlock,
    counts: Map<int, int>,
    n: int,
)
    requires
        growth::sound(draft),
        draft.end is Some,
        draft.end != Some(block),
        draft.code.knows_block(block),
        is_open(watch, draft.code, counts, block.index as int, n),
    ensures
        is_open(
            watch,
            draft.terminate(data, next, origin).code,
            counts,
            block.index as int,
            n,
        ),
{
    let after = draft.terminate(data, next, origin);
    reveal(growth::sound);
    let b = block.index as int;
    assert(growth::adds_to(draft.code, after.code));
    assert(draft.end->0.index != block.index);
    lemma_block_kept(watch, draft.code, after.code, b, counts, counts);
}

/// The blocks to which `break` and `continue` go still expect what they find.
proof fn lemma_still_agree(
    watch: Watch,
    tree: Tree,
    loops: Map<validated::Expr, LoopContext>,
    before: Draft,
    after: Draft,
    counts: Map<int, int>,
    more: Map<int, int>,
    n: int,
)
    requires
        brewable(watch, tree, loops, before, counts, n),
        growth::extends(before, after),
        included(counts, more),
    ensures
        loops_agree(watch, after.code, loops, more, n),
        watch.exact ==> watch.variable.index < after.code.local_variables.len(),
{
    growth::lemma_still_known(before, after);
    reveal(growth::ready);
    reveal(growth::extends);
    assert forall|expr: validated::Expr| #[trigger] loops.contains_key(expr) implies hits(
        after.code,
        loops[expr].loop_value,
        watch.variable,
    ) == hits(before.code, loops[expr].loop_value, watch.variable) by {
        lemma_hits_kept(before.code, after.code, loops[expr].loop_value, watch.variable);
    }
}

/// Brewing a loop into a place stores in that place once.
#[verifier::rlimit(40)]
proof fn lemma_loop_flows(
    watch: Watch,
    tree: Tree,
    loops: Map<validated::Expr, LoopContext>,
    draft: Draft,
    target: Place,
    expr: validated::Expr,
    counts: Map<int, int>,
    n: int,
) -> (more: Map<int, int>)
    requires
        brewable(watch, tree, loops, draft, counts, n),
        draft.end is Some,
        draft.code.knows_place(target),
        tree.valid_expr(expr, loops.dom()),
        watch.exact ==> spares(tree, expr, watch.variable),
        tree.expr(expr) is Loop,
        recipe::assigned(tree, loops, draft, target, expr).code.fits(),
    ensures
        flows(
            watch,
            recipe::assigned(tree, loops, draft, target, expr),
            more,
            n + hits(draft.code, target, watch.variable),
        ),
        included(counts, more),
    decreases tree.depth(expr), 0int, 0nat,
{
    recipe::lemma_parts_are_shallower(tree, expr);
    recipe::lemma_parts_are_valid(tree, expr, loops.dom());
    if watch.exact {
        lemma_parts_spare(tree, expr, watch.variable);
    }
    let origin = tree.expr_origin(expr);
    let after = recipe::assigned(tree, loops, draft, target, expr);
    let m = n + hits(draft.code, target, watch.variable);
    assert(growth::sound(draft)) by {
        reveal(growth::ready);
    }
    if let ExprData::Loop(body) = tree.expr(expr) {
        let (d1, body_block) = draft.new_block(origin);
        growth::lemma_new_block(draft, origin);
        growth::lemma_still_ready(tree, loops, draft, d1);
        let (d2, break_block) = d1.new_block(origin);
        growth::lemma_new_block(d1, origin);
        growth::lemma_still_ready(tree, loops, d1, d2);
        growth::lemma_extends_further(draft, d1, d2);
        let data = TerminatorShape::Goto(body_block);
        let d3 = d2.terminate(data, Some(break_block), origin);
        growth::lemma_terminate(draft, d2, data, Some(break_block), origin);
        growth::lemma_terminate_adds(d2, data, Some(break_block), origin);
        growth::lemma_still_ready(tree, loops, draft, d3);
        let entered = d3.cusp(Some(target), origin);
        growth::lemma_cusp(d3, Some(target), origin);
        growth::lemma_still_ready(tree, loops, d3, entered);
        growth::lemma_extends_further(draft, d3, entered);
        let context = LoopContext { continue_block: body_block, break_block, loop_value: target };
        let inside = loops.insert(expr, context);
        assert(inside.dom() =~= loops.dom().insert(expr));
        assert(growth::ready(tree, inside, entered)) by {
            reveal(growth::ready);
            assert(entered.code.knows_block(body_block));
            assert(entered.code.knows_block(break_block));
            assert(entered.code.knows_place(target));
        }
        growth::lemma_ready_elsewhere(tree, inside, entered, body_block);
        let start = entered.at(Some(body_block));
        let d4 = recipe::side_effects(tree, inside, start, body);
        growth::lemma_side_effects_grow(tree, inside, start, body);
        growth::lemma_still_ready(tree, inside, start, d4);
        let back = TerminatorShape::Goto(body_block);
        let done = d4.goto(body_block, origin);
        growth::lemma_terminate(start, d4, back, None, origin);
        growth::lemma_terminate_adds(d4, back, None, origin);
        assert(after == done.at(entered.end));
        let c1 = lemma_flows_new_block(watch, draft, origin, counts, n, n);
        let c2 = lemma_flows_new_block(watch, d1, origin, c1, n, m);
        lemma_stays_open(watch, d1, d2, body_block, c1, c2, n);
        assert(draft.end->0.index < draft.code.basic_blocks.len()) by {
            reveal(growth::sound);
        }
        lemma_flows_terminated(watch, d2, data, Some(break_block), origin, c2, n, m);
        lemma_opens_kept(watch, d2, data, Some(break_block), origin, body_block, c2, n);
        lemma_flows_cusp(watch, d3, Some(target), origin, c2, m);
        lemma_stays_open(watch, d3, entered, body_block, c2, c2, n);
        assert(entered.end == Some(break_block));
        lemma_hits_same(draft, entered, target, watch.variable);
        lemma_still_agree(watch, tree, loops, draft, entered, counts, c2, n);
        assert(loops_agree(watch, start.code, inside, c2, n));
        let c3 = lemma_side_effects_flow(watch, tree, inside, start, body, c2, n);
        lemma_flows_terminated(watch, d4, back, None, origin, c3, n, n);
        lemma_stays_open(watch, start, done, break_block, c2, c3, m);
        c3
    } else {
        counts
    }
}

/// Brewing an atomic section into a place stores in that place once.
proof fn lemma_atomic_flows(
    watch: Watch,
    tree: Tree,
    loops: Map<validated::Expr, LoopContext>,
    draft: Draft,
    target: Place,
    expr: validated::Expr,
    counts: Map<int, int>,
    n: int,
) -> (more: Map<int, int>)
    requires
        brewable(watch, tree, loops, draft, counts, n),
        draft.end is Some,
        draft.code.knows_place(target),
        tree.valid_expr(expr, loops.dom()),
        watch.exact ==> spares(tree, expr, watch.variable),
        tree.expr(expr) is Atomic,
        recipe::assigned(tree, loops, draft, target, expr).code.fits(),
    ensures
        flows(
            watch,
            recipe::assigned(tree, loops, draft, target, expr),
            more,
            n + hits(draft.code, target, watch.variable),
        ),
        included(counts, more),
    decreases tree.depth(expr), 0int, 0nat,
{
    recipe::lemma_parts_are_shallower(tree, expr);
    recipe::lemma_parts_are_valid(tree, expr, loops.dom());
    if watch.exact {
        lemma_parts_spare(tree, expr, watch.variable);
    }
    let origin = tree.expr_origin(expr);
    let m = n + hits(draft.code, target, watch.variable);
    assert(growth::sound(draft)) by {
        reveal(growth::ready);
    }
    if let ExprData::Atomic(inside) = tree.expr(expr) {
        let (d1, first) = draft.new_block(origin);
        growth::lemma_new_block(draft, origin);
        growth::lemma_still_ready(tree, loops, draft, d1);
        let start = TerminatorShape::StartAtomic(first);
        let d2 = d1.terminate(start, Some(first), origin);
        growth::lemma_terminate(draft, d1, start, Some(first), origin);
        growth::lemma_terminate_adds(d1, start, Some(first), origin);
        growth::lemma_still_ready(tree, loops, draft, d2);
        let d3 = recipe::assigned(tree, loops, d2, target, inside);
        growth::lemma_assigned_grows(tree, loops, d2, target, inside);
        growth::lemma_still_ready(tree, loops, d2, d3);
        growth::lemma_extends_further(draft, d2, d3);
        let (d4, next) = d3.new_block(origin);
        growth::lemma_new_block(d3, origin);
        growth::lemma_still_ready(tree, loops, d3, d4);
        growth::lemma_extends_further(draft, d3, d4);
        let finish = TerminatorShape::EndAtomic(next);
        let d5 = d4.terminate(finish, Some(next), origin);
        growth::lemma_terminate(draft, d4, finish, Some(next), origin);
        growth::lemma_terminate_adds(d4, finish, Some(next), origin);
        growth::lemma_still_ready(tree, loops, draft, d5);
        let d6 = d5.cusp(Some(target), origin);
        growth::lemma_cusp(d5, Some(target), origin);
        growth::lemma_still_known(d5, d6);
        let c1 = lemma_flows_new_block(watch, draft, origin, counts, n, n);
        lemma_flows_terminated(watch, d1, start, Some(first), origin, c1, n, n);
        lemma_still_brewable(watch, tree, loops, draft, d2, counts, c1, n);
        lemma_hits_same(draft, d2, target, watch.variable);
        let c2 = lemma_assigned_flows(watch, tree, loops, d2, target, inside, c1, n);
        let c3 = lemma_flows_new_block(watch, d3, origin, c2, m, m);
        lemma_flows_terminated(watch, d4, finish, Some(next), origin, c3, m, m);
        lemma_flows_cusp(watch, d5, Some(target), origin, c3, m);
        c3
    } else {
        counts
    }
}

/// Along a path, the stores add up to the numbers in `counts`.
proof fn lemma_path_adds_up(
    watch: Watch,
    code: Code,
    counts: Map<int, int>,
    path: Seq<BasicBlock>,
)
    requires
        consistent(watch, code, counts),
        reach::is_path(code, path),
        counts.contains_key(path[0].index as int),
    ensures
        counts.contains_key(path.last().index as int),
        agrees(
            watch,
            at_end(watch, code, counts, path.last().index as int),
            counts[path[0].index as int] + path_writes(watch.since, code, path, watch.variable),
        ),
        agrees(
            watch,
            counts[path.last().index as int],
            counts[path[0].index as int] + path_writes(
                watch.since,
                code,
                path.drop_last(),
                watch.variable,
            ),
        ),
    decreases path.len(),
{
    let shorter = path.drop_last();
    if path.len() > 1 {
        assert forall|k: int| 0 <= k < shorter.len() - 1 implies reach::successors(
            reach::terminator(code, (#[trigger] shorter[k]).index as int),
        ).contains(shorter[k + 1]) by {
            assert(path[k] == shorter[k]);
        }
        lemma_path_adds_up(watch, code, counts, shorter);
        let last = path.len() - 2;
        assert(path[last] == shorter.last());
        let b = path[last].index as int;
        let nexts = reach::successors(reach::terminator(code, b));
        assert(nexts.contains(path[last + 1]));
        let k = choose|k: int| 0 <= k < nexts.len() && nexts[k] == path[last + 1];
        assert(nexts[k] == path.last());
        assert(leads_on(watch, code, counts, b)) by {
            reveal(consistent);
        }
    } else {
        assert(path_writes(watch.since, code, shorter, watch.variable) == 0);
        assert(path.last() == path[0]);
    }
}

/// Nothing has been stored by code that was there before.
proof fn lemma_nothing_is_new(code: Code, statements: Seq<Statement>, variable: LocalVariable)
    requires
        forall|k: int|
            0 <= k < statements.len() ==> (#[trigger] statements[k]).index
                < code.statements.len(),
    ensures
        statements_write(code, code, statements, variable) == 0,
    decreases statements.len(),
{
    if statements.len() > 0 {
        let rest = statements.drop_last();
        assert forall|k: int| 0 <= k < rest.len() implies (#[trigger] rest[k]).index
            < code.statements.len() by {
            assert(rest[k] == statements[k]);
        }
        lemma_nothing_is_new(code, rest, variable);
        assert(statements[statements.len() - 1] == statements.last());
    }
}

/// Where counting starts, there are no stores anywhere.
proof fn lemma_count_starts(
    tree: Tree,
    loops: Map<validated::Expr, LoopContext>,
    since: Code,
    draft: Draft,
    variable: LocalVariable,
) -> (counts: Map<int, int>)
    requires
        growth::ready(tree, loops, draft),
        since.statements == draft.code.statements,
        since.terminators == draft.code.terminators,
        draft.end matches Some(block) ==> reach::terminator(
            draft.code,
            block.index as int,
        ) is Panic,
        variable.index < draft.code.local_variables.len(),
        forall|expr: validated::Expr| #[trigger]
            loops.contains_key(expr) ==> !is_variable(
                draft.code,
                loops[expr].loop_value,
                variable,
            ),
    ensures
        brewable(Watch { since, variable, exact: true }, tree, loops, draft, counts, 0),
        forall|b: int|
            0 <= b < draft.code.basic_blocks.len() ==> #[trigger] counts.contains_key(b)
                && counts[b] == 0,
{
    let watch = Watch { since, variable, exact: true };
    let code = draft.code;
    let counts = Map::new(|b: int| 0 <= b < code.basic_blocks.len(), |b: int| 0int);
    reveal(growth::ready);
    reveal(growth::sound);
    reveal(consistent);
    assert forall|b: int| 0 <= b < code.basic_blocks.len() implies #[trigger] block_writes(
        since,
        code,
        b,
        variable,
    ) == 0 by {
        let data = code.basic_blocks[b];
        assert(code.knows_parts_of_block(data));
        lemma_nothing_is_new(code, data.statements, variable);
        lemma_since_counts_entries(since, code, code, data.statements, variable);
    }
    assert forall|b: int| #[trigger] counts.contains_key(b) implies leads_on(
        watch,
        code,
        counts,
        b,
    ) by {
        let data = code.basic_blocks[b];
        assert(code.knows_parts_of_block(data));
        let shape = code.terminators[data.terminator.index as int];
        assert(code.knows_parts_of_terminator(shape));
        assert(block_writes(since, code, b, variable) == 0);
        let nexts = reach::successors(shape);
        assert forall|k: int| 0 <= k < nexts.len() implies code.knows_block(
            #[trigger] nexts[k],
        ) by {}
    }
    if let Some(block) = draft.end {
        assert(block_writes(since, code, block.index as int, variable) == 0);
    }
    counts
}

/// What counts depends on how many statements there were, and on nothing else.
proof fn lemma_since_counts_entries(
    since: Code,
    other: Code,
    code: Code,
    statements: Seq<Statement>,
    variable: LocalVariable,
)
    requires
        since.statements.len() == other.statements.len(),
    ensures
        statements_write(since, code, statements, variable) == statements_write(
            other,
            code,
            statements,
            variable,
        ),
    decreases statements.len(),
{
    if statements.len() > 0 {
        lemma_since_counts_entries(since, other, code, statements.drop_last(), variable);
    }
}

/// Brewing an expression into a variable that it does not itself assign to, and in which no open
/// loop keeps its value, stores a value there exactly once on every path from where the
/// expression starts to where the code goes on after it.
pub proof fn lemma_value_is_stored_once(
    tree: Tree,
    loops: Map<validated::Expr, LoopContext>,
    draft: Draft,
    target: Place,
    expr: validated::Expr,
    variable: LocalVariable,
    path: Seq<BasicBlock>,
)
    requires
        growth::ready(tree, loops, draft),
        tree.valid_expr(expr, loops.dom()),
        draft.end matches Some(block) && reach::terminator(
            draft.code,
            block.index as int,
        ) is Panic,
        is_variable(draft.code, target, variable),
        spares(tree, expr, variable),
        forall|open: validated::Expr| #[trigger]
            loops.contains_key(open) ==> !is_variable(
                draft.code,
                loops[open].loop_value,
                variable,
            ),
        recipe::assigned(tree, loops, draft, target, expr).code.fits(),
        recipe::assigned(tree, loops, draft, target, expr).end is Some,
        reach::is_path(recipe::assigned(tree, loops, draft, target, expr).code, path),
        path[0] == draft.end->0,
        path.last() == recipe::assigned(tree, loops, draft, target, expr).end->0,
    ensures
        path_writes(
            draft.code,
            recipe::assigned(tree, loops, draft, target, expr).code,
            path,
            variable,
        ) == 1,
{
    let watch = Watch { since: draft.code, variable, exact: true };
    let after = recipe::assigned(tree, loops, draft, target, expr);
    assert(variable.index < draft.code.local_variables.len() && draft.code.knows_block(
        draft.end->0,
    )) by {
        reveal(growth::ready);
        reveal(growth::sound);
        let data = draft.code.places[target.index as int];
        assert(draft.code.knows_parts_of_place(data));
    }
    let counts = lemma_count_starts(tree, loops, draft.code, draft, variable);
    let more = lemma_assigned_flows(watch, tree, loops, draft, target, expr, counts, 0);
    assert(counts.contains_key(path[0].index as int));
    lemma_path_adds_up(watch, after.code, more, path);
}

/// Control that leaves an expression for a block that was there before the expression, as it does
/// at a `break` or `continue` of an outer loop, has not stored the value of the expression.
pub proof fn lemma_nothing_is_stored_on_the_way_out(
    tree: Tree,
    loops: Map<validated::Expr, LoopContext>,
    draft: Draft,
    target: Place,
    expr: validated::Expr,
    variable: LocalVariable,
    path: Seq<BasicBlock>,
)
    requires
        growth::ready(tree, loops, draft),
        tree.valid_expr(expr, loops.dom()),
        draft.end matches Some(block) && reach::terminator(
            draft.code,
            block.index as int,
        ) is Panic,
        is_variable(draft.code, target, variable),
        spares(tree, expr, variable),
        forall|open: validated::Expr| #[trigger]
            loops.contains_key(open) ==> !is_variable(
                draft.code,
                loops[open].loop_value,
                variable,
            ),
        recipe::assigned(tree, loops, draft, target, expr).code.fits(),
        reach::is_path(recipe::assigned(tree, loops, draft, target, expr).code, path),
        path[0] == draft.end->0,
        draft.code.knows_block(path.last()),
    ensures
        path_writes(
            draft.code,
            recipe::assigned(tree, loops, draft, target, expr).code,
            path.drop_last(),
            variable,
        ) == 0,
{
    let watch = Watch { since: draft.code, variable, exact: true };
    let after = recipe::assigned(tree, loops, draft, target, expr);
    assert(variable.index < draft.code.local_variables.len() && draft.code.knows_block(
        draft.end->0,
    )) by {
        reveal(growth::ready);
        reveal(growth::sound);
        let data = draft.code.places[target.index as int];
        assert(draft.code.knows_parts_of_place(data));
    }
    let counts = lemma_count_starts(tree, loops, draft.code, draft, variable);
    let more = lemma_assigned_flows(watch, tree, loops, draft, target, expr, counts, 0);
    assert(counts.contains_key(path[0].index as int));
    assert(counts.contains_key(path.last().index as int));
    lemma_path_adds_up(watch, after.code, more, path);
}

/// Control that has left an expression for a block that was there before stays in such blocks, and
/// so does not get to where the code goes on after the expression, unless it comes back to where
/// the expression starts.
pub proof fn lemma_way_out_does_not_lead_on(
    tree: Tree,
    loops: Map<validated::Expr, LoopContext>,
    draft: Draft,
    target: Place,
    expr: validated::Expr,
    path: Seq<BasicBlock>,
)
    requires
        growth::ready(tree, loops, draft),
        draft.code.knows_place(target),
        tree.valid_expr(expr, loops.dom()),
        recipe::assigned(tree, loops, draft, target, expr).code.fits(),
        reach::is_path(recipe::assigned(tree, loops, draft, target, expr).code, path),
        draft.code.knows_block(path[0]),
        forall|k: int| 0 <= k < path.len() ==> Some(#[trigger] path[k]) != draft.end,
    ensures
        draft.code.knows_block(path.last()),
        recipe::assigned(tree, loops, draft, target, expr).end != Some(path.last()),
    decreases path.len(),
{
    let after = recipe::assigned(tree, loops, draft, target, expr);
    growth::lemma_assigned_grows(tree, loops, draft, target, expr);
    reveal(growth::ready);
    reveal(growth::sound);
    reveal(growth::extends);
    if path.len() > 1 {
        let shorter = path.drop_last();
        assert forall|k: int| 0 <= k < shorter.len() - 1 implies reach::successors(
            reach::terminator(after.code, (#[trigger] shorter[k]).index as int),
        ).contains(shorter[k + 1]) by {
            assert(path[k] == shorter[k]);
        }
        assert forall|k: int| 0 <= k < shorter.len() implies Some(#[trigger] shorter[k])
            != draft.end by {
            assert(path[k] == shorter[k]);
        }
        lemma_way_out_does_not_lead_on(tree, loops, draft, target, expr, shorter);
        let last = path.len() - 2;
        assert(path[last] == shorter.last());
        let b = path[last].index as int;
        assert(after.code.basic_blocks[b] == draft.code.basic_blocks[b]) by {
            if let Some(end) = draft.end {
                assert(end != path[last]);
                assert(end.index != path[last].index);
            }
        }
        let data = draft.code.basic_blocks[b];
        assert(draft.code.knows_parts_of_block(data));
        let t = data.terminator.index as int;
        assert(after.code.terminators.subrange(0, draft.code.terminators.len() as int)[t]
            == after.code.terminators[t]);
        assert(draft.code.knows_parts_of_terminator(draft.code.terminators[t]));
        let nexts = reach::successors(draft.code.terminators[t]);
        assert(nexts.contains(path[last + 1]));
        let k = choose|k: int| 0 <= k < nexts.len() && nexts[k] == path[last + 1];
        assert(nexts[k] == path.last());
    } else {
        assert(path.last() == path[0]);
    }
    assert(Some(path[path.len() - 1]) != draft.end);
}

/// The temporary for the value of an expression is a local variable without a name, and a place,
/// that were not there before.
pub proof fn lemma_temporary_is_fresh(
    tree: Tree,
    loops: Map<validated::Expr, LoopContext>,
    draft: Draft,
    expr: validated::Expr,
)
    requires
        growth::ready(tree, loops, draft),
        tree.valid_expr(expr, loops.dom()),
        recipe::to_temporary(tree, loops, draft, expr).0.code.fits(),
    ensures
        ({
            let (after, place) = recipe::to_temporary(tree, loops, draft, expr);
            let v = draft.code.local_variables.len() as int;
            &&& place.index == draft.code.places.len()
            &&& is_variable(after.code, place, LocalVariable { index: v as usize })
            &&& v < after.code.local_variables.len() <= usize::MAX
            &&& after.code.local_variables[v] == LocalVariableData {
                name: None,
                storage_mode: StorageMode::Var,
            }
            &&& after.code.local_variable_origins[v] == LocalVariableOrigin::Temporary(
                tree.expr_origin(expr).source(),
            )
        }),
{
    let origin = tree.expr_origin(expr);
    let (d1, temporary) = draft.new_temporary(origin);
    assert(growth::sound(draft)) by {
        reveal(growth::ready);
    }
    growth::lemma_new_temporary(draft, origin);
    growth::lemma_still_ready(tree, loops, draft, d1);
    let d2 = recipe::assigned(tree, loops, d1, temporary, expr);
    growth::lemma_assigned_grows(tree, loops, d1, temporary, expr);
    growth::lemma_still_known(d1, d2);
    let v = draft.code.local_variables.len() as int;
    lemma_hits_same(d1, d2, temporary, LocalVariable { index: v as usize });
    reveal(growth::sound);
    reveal(growth::extends);
    let (before, after) = (d1.code, d2.code);
    assert(after.local_variables.subrange(0, before.local_variables.len() as int)[v]
        == after.local_variables[v]);
    let origins = after.local_variable_origins;
    assert(origins.subrange(0, before.local_variable_origins.len() as int)[v] == origins[v]);
}

/// Two expressions that are brewed one after the other never get the same temporary.
pub proof fn lemma_temporaries_differ(
    tree: Tree,
    loops: Map<validated::Expr, LoopContext>,
    first: Draft,
    one: validated::Expr,
    second: Draft,
    two: validated::Expr,
    variable: LocalVariable,
)
    requires
        growth::ready(tree, loops, first),
        tree.valid_expr(one, loops.dom()),
        growth::extends(recipe::to_temporary(tree, loops, first, one).0, second),
        growth::ready(tree, loops, second),
        tree.valid_expr(two, loops.dom()),
        recipe::to_temporary(tree, loops, second, two).0.code.fits(),
        is_variable(
            recipe::to_temporary(tree, loops, second, two).0.code,
            recipe::to_temporary(tree, loops, first, one).1,
            variable,
        ),
    ensures
        !is_variable(
            recipe::to_temporary(tree, loops, second, two).0.code,
            recipe::to_temporary(tree, loops, second, two).1,
            variable,
        ),
        recipe::to_temporary(tree, loops, first, one).1 != recipe::to_temporary(
            tree,
            loops,
            second,
            two,
        ).1,
{
    let (after_one, place_one) = recipe::to_temporary(tree, loops, first, one);
    let (after_two, place_two) = recipe::to_temporary(tree, loops, second, two);
    growth::lemma_to_temporary_grows(tree, loops, first, one);
    growth::lemma_to_temporary_grows(tree, loops, second, two);
    growth::lemma_still_known(second, after_two);
    growth::lemma_still_known(after_one, second);
    lemma_temporary_is_fresh(tree, loops, first, one);
    lemma_temporary_is_fresh(tree, loops, second, two);
    lemma_hits_same(after_one, second, place_one, variable);
    lemma_hits_same(second, after_two, place_one, variable);
}

/// The temporary for the value of an expression holds it wherever the code goes on: on every path
/// from where the expression starts to where the code goes on after it, a value is stored in the
/// temporary exactly once.
pub proof fn lemma_temporary_is_stored_once(
    tree: Tree,
    loops: Map<validated::Expr, LoopContext>,
    draft: Draft,
    expr: validated::Expr,
    path: Seq<BasicBlock>,
)
    requires
        growth::ready(tree, loops, draft),
        tree.valid_expr(expr, loops.dom()),
        draft.end matches Some(block) && reach::terminator(
            draft.code,
            block.index as int,
        ) is Panic,
        recipe::to_temporary(tree, loops, draft, expr).0.code.fits(),
        recipe::to_temporary(tree, loops, draft, expr).0.end is Some,
        reach::is_path(recipe::to_temporary(tree, loops, draft, expr).0.code, path),
        path[0] == draft.end->0,
        path.last() == recipe::to_temporary(tree, loops, draft, expr).0.end->0,
    ensures
        ({
            let (after, place) = recipe::to_temporary(tree, loops, draft, expr);
            let variable = LocalVariable { index: draft.code.local_variables.len() as usize };
            &&& is_variable(after.code, place, variable)
            &&& path_writes(draft.code, after.code, path, variable) == 1
        }),
{
    let origin = tree.expr_origin(expr);
    let variable = LocalVariable { index: draft.code.local_variables.len() as usize };
    let watch = Watch { since: draft.code, variable, exact: true };
    let (d1, temporary) = draft.new_temporary(origin);
    assert(growth::sound(draft)) by {
        reveal(growth::ready);
    }
    growth::lemma_new_temporary(draft, origin);
    growth::lemma_still_ready(tree, loops, draft, d1);
    let after = recipe::assigned(tree, loops, d1, temporary, expr);
    growth::lemma_assigned_grows(tree, loops, d1, temporary, expr);
    growth::lemma_still_known(d1, after);
    lemma_temporary_is_fresh(tree, loops, draft, expr);
    lemma_hits_same(d1, after, temporary, variable);
    assert(tree.data.tables.local_variables@.len() <= variable.index) by {
        reveal(growth::ready);
    }
    lemma_new_variable_is_spared(tree, expr, loops.dom(), variable);
    assert forall|open: validated::Expr| #[trigger]
        loops.contains_key(open) implies !is_variable(
        d1.code,
        loops[open].loop_value,
        variable,
    ) by {
        reveal(growth::ready);
        reveal(growth::sound);
        let place = loops[open].loop_value;
        lemma_hits_same(draft, d1, place, variable);
        let data = draft.code.places[place.index as int];
        assert(draft.code.knows_parts_of_place(data));
    }
    assert(d1.code.knows_block(d1.end->0)) by {
        reveal(growth::sound);
    }
    let counts = lemma_count_starts(tree, loops, draft.code, d1, variable);
    let more = lemma_assigned_flows(watch, tree, loops, d1, temporary, expr, counts, 0);
    assert(counts.contains_key(path[0].index as int));
    lemma_path_adds_up(watch, after.code, more, path);
}

/// What a brewed function returns has been stored: on every path from the start to a block that
/// ends by returning a place, that place is a local variable and a value is stored in it.
pub proof fn lemma_returned_value_is_stored(tree: Tree, path: Seq<BasicBlock>, place: Place)
    requires
        tree.valid(),
        recipe::brewed(tree).0.fits(),
        reach::is_path(recipe::brewed(tree).0, path),
        path[0] == recipe::brewed(tree).1,
        reach::terminator(recipe::brewed(tree).0, path.last().index as int)
            == TerminatorShape::Return(place),
    ensures
        recipe::brewed(tree).0.knows_place(place),
        recipe::brewed(tree).0.places[place.index as int] matches PlaceData::LocalVariable(variable)
            && 1 <= path_writes(Code::empty(), recipe::brewed(tree).0, path, variable),
{
    let code = recipe::brewed(tree).0;
    let variable = match code.places[place.index as int] {
        PlaceData::LocalVariable(variable) => variable,
        _ => LocalVariable { index: 0 },
    };
    let watch = Watch { since: Code::empty(), variable, exact: false };
    let root = tree.data.root_expr;
    let origin = tree.expr_origin(root);
    let loops = Map::<validated::Expr, LoopContext>::empty();
    let d0 = Draft { code: recipe::declared_variables(tree), end: None };
    assert(growth::sound(d0)) by {
        reveal(growth::sound);
    }
    let (d1, start) = d0.new_block(origin);
    growth::lemma_new_block(d0, origin);
    let d2 = d1.at(Some(start));
    assert(growth::ready(tree, loops, d2)) by {
        reveal(growth::ready);
        reveal(growth::sound);
        growth::lemma_still_known(d0, d1);
    }
    assert(loops.dom() =~= Set::empty());
    let (d3, returned) = recipe::to_temporary(tree, loops, d2, root);
    growth::lemma_to_temporary_grows(tree, loops, d2, root);
    growth::lemma_still_known(d2, d3);
    let data = TerminatorShape::Return(returned);
    growth::lemma_terminate_adds(d3, data, None, origin);
    let nothing = Map::<int, int>::empty();
    assert(flows(watch, d0, nothing, 0)) by {
        reveal(consistent);
    }
    let counts = lemma_flows_new_block(watch, d0, origin, nothing, 0, 0);
    assert(flows(watch, d2, counts, 0));
    let more = lemma_to_temporary_flows(watch, tree, loops, d2, root, counts, 0);
    let n = 0 + hits(d3.code, returned, variable);
    lemma_flows_terminated(watch, d3, data, None, origin, more, n as int, 0);
    assert(more.contains_key(start.index as int) && more[start.index as int] == 0);
    lemma_path_adds_up(watch, code, more, path);
    assert(leads_on(watch, code, more, path.last().index as int)) by {
        reveal(consistent);
    }
}

} // verus!
