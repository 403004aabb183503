//! Brewed code does what the validated code does.
use vstd::prelude::*;

use crate::bir::{
    BasicBlock, Code, ExprShape, Place, PlaceData, StatementData, TerminatorExprShape,
    TerminatorShape,
};
use crate::growth;
use crate::meaning;
use crate::meaning::{Access, Dest, Outcome, Pure, Run, Semantics, Several, Store};
use crate::recipe;
use crate::recipe::{Draft, LoopContext};
use crate::settled;
use crate::validated;
use crate::validated::{ExprData, ExprOrigin, Tree};

verus! {

/// What is run: the whole of the brewed code of `tree`.
pub struct Stage {
    pub sem: Semantics,
    pub tree: Tree,
    pub code: Code,
}

impl Stage {
    /// The number of variables that have been declared; the others are temporaries.
    pub open spec fn declared(self) -> nat {
        self.tree.data.tables.local_variables@.len()
    }

    /// `count` steps.
    pub open spec fn steps(self, run: Run, count: nat) -> Run {
        meaning::steps(self.sem, self.declared(), self.code, run, count)
    }

    /// One step.
    pub open spec fn step(self, run: Run) -> Run {
        meaning::step(self.sem, self.declared(), self.code, run)
    }

    /// The temporary that `place` is, if it is one.
    pub open spec fn slot(self, place: Place) -> Option<int> {
        meaning::temporary(self.code.places, self.declared(), place)
    }

    /// The world once control has come to `block`.
    pub open spec fn entering(self, block: BasicBlock, world: int) -> int {
        (self.sem.enter)(world, self.code.basic_block_origins[block.index as int])
    }

    /// What is in `place`.
    pub open spec fn fetched(self, store: Store, place: Place) -> int {
        meaning::fetched(self.sem, self.declared(), self.code, store, place)
    }

    /// The store once `value` is in `place`.
    pub open spec fn put(
        self,
        store: Store,
        origin: ExprOrigin,
        place: Place,
        value: int,
    ) -> Store {
        meaning::put(self.sem, self.declared(), self.code, store, origin, place, value)
    }

    /// Whether a value that belongs at `dest` can be found in `place`, which is one of the first
    /// `count` variables if it is a temporary.
    pub open spec fn denotes(self, count: nat, place: Place, dest: Dest) -> bool {
        match dest {
            Dest::Remembered => match self.slot(place) {
                Some(index) => index < count,
                None => false,
            },
            Dest::Stored(source) => {
                &&& self.slot(place) is None
                &&& meaning::path(self.code.places, place) == meaning::source_path(
                    self.tree,
                    source,
                )
            },
        }
    }

    /// Whether the values of the open loops can be found where they belong.
    pub open spec fn agrees(
        self,
        count: nat,
        loops: Map<validated::Expr, LoopContext>,
        dests: Map<validated::Expr, Dest>,
    ) -> bool {
        forall|expr: validated::Expr| #[trigger]
            loops.contains_key(expr) ==> self.denotes(count, loops[expr].loop_value, dests[expr])
    }

    /// Whether the temporary `index` holds the value of no open loop.
    pub open spec fn is_spared(
        self,
        loops: Map<validated::Expr, LoopContext>,
        index: int,
    ) -> bool {
        forall|expr: validated::Expr| #[trigger]
            loops.contains_key(expr) ==> self.slot(loops[expr].loop_value) != Some(index)
    }

    /// Whether the first `count` variables hold what they held, apart from `slot` and those that
    /// hold the value of an open loop.
    pub open spec fn kept(
        self,
        loops: Map<validated::Expr, LoopContext>,
        count: nat,
        slot: Option<int>,
        before: Map<int, int>,
        after: Map<int, int>,
    ) -> bool {
        forall|index: int|
            0 <= index < count && slot != Some(index) && self.is_spared(loops, index)
                ==> #[trigger] after[index] == before[index]
    }

    /// Whether the value that `outcome` has, if it has one, is where it belongs after `count`
    /// steps from `start`, control being where it goes from there; `after` is the code up to the
    /// point where control goes on with a value, which is in `slot` if there is one.
    pub open spec fn lands(
        self,
        loops: Map<validated::Expr, LoopContext>,
        after: Draft,
        variables: nat,
        slot: Option<int>,
        temporaries: Map<int, int>,
        outcome: Option<(int, Outcome)>,
        fuel: nat,
        start: Run,
        count: nat,
    ) -> bool {
        let run = self.steps(start, count);
        match outcome {
            None => count >= fuel && run is At,
            Some((world, Outcome::Value(value))) => {
                &&& after.end is Some
                &&& run is At
                &&& run == here(after, run->store)
                &&& run->store.world == world
                &&& slot matches Some(index) ==> run->store.temporaries[index] == value
                &&& self.kept(loops, variables, slot, temporaries, run->store.temporaries)
            },
            Some((world, Outcome::Break(from, value))) => {
                &&& loops.contains_key(from)
                &&& run is At
                &&& run == meaning::start_of(loops[from].break_block, run->store)
                &&& run->store.world == self.entering(loops[from].break_block, world)
                &&& self.slot(loops[from].loop_value) matches Some(index)
                    ==> run->store.temporaries[index] == value
                &&& self.kept(loops, variables, slot, temporaries, run->store.temporaries)
            },
            Some((world, Outcome::Continue(from))) => {
                &&& loops.contains_key(from)
                &&& count > 0
                &&& run is At
                &&& run == meaning::start_of(loops[from].continue_block, run->store)
                &&& run->store.world == self.entering(loops[from].continue_block, world)
                &&& self.kept(loops, variables, slot, temporaries, run->store.temporaries)
            },
            Some((world, Outcome::Return(value, origin))) => run == (Run::Returned {
                world,
                value,
                origin,
            }),
            Some((world, Outcome::Error(origin))) => run == (Run::Failed { world, origin }),
        }
    }

    /// The evaluation of `expr`.
    pub open spec fn evaluated(
        self,
        dests: Map<validated::Expr, Dest>,
        world: int,
        dest: Dest,
        expr: validated::Expr,
        fuel: nat,
    ) -> Option<(int, Outcome)> {
        meaning::evaluated(self.sem, self.tree, dests, world, dest, expr, fuel)
    }

    /// The evaluation of `exprs`, one after the other.
    pub open spec fn all_evaluated(
        self,
        dests: Map<validated::Expr, Dest>,
        world: int,
        exprs: Seq<validated::Expr>,
        fuel: nat,
    ) -> Option<(int, Several)> {
        meaning::all_evaluated(self.sem, self.tree, dests, world, exprs, fuel)
    }

    /// Whether `draft` is a beginning of the code at whose end control can be, `loops` being open.
    pub open spec fn continues(
        self,
        loops: Map<validated::Expr, LoopContext>,
        dests: Map<validated::Expr, Dest>,
        draft: Draft,
    ) -> bool {
        &&& growth::ready(self.tree, loops, draft)
        &&& settled::is_open(draft)
        &&& draft.end is Some
        &&& self.agrees(draft.code.local_variables.len(), loops, dests)
    }
}

/// Control at the end of the block that grows.
pub open spec fn here(draft: Draft, store: Store) -> Run {
    let block = draft.end->0.index as int;
    Run::At { block, statement: draft.code.basic_blocks[block].statements.len() as int, store }
}

/// Steps, and then more steps.
proof fn lemma_steps(stage: Stage, run: Run, first: nat, second: nat)
    ensures
        stage.steps(run, first + second) == stage.steps(stage.steps(run, first), second),
{
    meaning::lemma_steps_add_up(stage.sem, stage.declared(), stage.code, run, first, second);
}

/// One step is one step.
proof fn lemma_one_step(stage: Stage, run: Run)
    ensures
        stage.steps(run, 0) == run,
        stage.steps(run, 1) == stage.step(run),
{
    reveal_with_fuel(meaning::steps, 2);
}

/// Control does a statement that has been added.
proof fn lemma_statement_runs(
    stage: Stage,
    draft: Draft,
    data: StatementData,
    origin: ExprOrigin,
    store: Store,
)
    requires
        growth::sound(draft),
        draft.end is Some,
        draft.statement(data, origin).code.fits(),
        settled::settles(draft.statement(data, origin).code, stage.code),
    ensures
        stage.step(here(draft, store)) == here(
            draft.statement(data, origin),
            meaning::performed(stage.sem, stage.declared(), stage.code, store, data, origin),
        ),
{
    reveal(growth::sound);
    reveal(settled::settles);
    let after = draft.statement(data, origin);
    let block = draft.end->0.index as int;
    let n = draft.code.basic_blocks[block].statements.len() as int;
    let id = draft.code.statements.len() as int;
    let old_block = draft.code.basic_blocks[block];
    let new_block = after.code.basic_blocks[block];
    let full_block = stage.code.basic_blocks[block];
    assert(new_block.statements[n].index == id);
    assert(full_block.statements.subrange(0, n + 1)[n] == full_block.statements[n]);
    assert(stage.code.statements.subrange(0, id + 1)[id] == stage.code.statements[id]);
    assert(stage.code.statement_origins.subrange(0, id + 1)[id]
        == stage.code.statement_origins[id]);
}

/// Control does an assignment that has been added.
proof fn lemma_assign_runs(
    stage: Stage,
    draft: Draft,
    target: Place,
    value: ExprShape,
    origin: ExprOrigin,
    store: Store,
)
    requires
        growth::sound(draft),
        draft.end is Some,
        draft.code.knows_parts_of_expr(value),
        draft.assign(target, value, origin).code.fits(),
        settled::settles(draft.assign(target, value, origin).code, stage.code),
    ensures
        ({
            let (world, result) = meaning::computed(
                stage.sem,
                stage.declared(),
                stage.code,
                store,
                origin,
                value,
            );
            stage.step(here(draft, store)) == here(
                draft.assign(target, value, origin),
                stage.put(Store { world, ..store }, origin, target, result),
            )
        }),
{
    let code = draft.code.add_expr(value, origin);
    let between = Draft { code, ..draft };
    assert(growth::sound(between)) by {
        reveal(growth::sound);
    }
    let data = StatementData::Assign(target, code.last_expr());
    lemma_statement_runs(stage, between, data, origin, store);
    assert(here(between, store) == here(draft, store));
    reveal(growth::sound);
    reveal(settled::settles);
    let id = draft.code.exprs.len() as int;
    let after = draft.assign(target, value, origin);
    assert(after.code.exprs == code.exprs);
    assert(stage.code.exprs.subrange(0, id + 1)[id] == stage.code.exprs[id]);
    assert(stage.code.expr_origins.subrange(0, id + 1)[id] == stage.code.expr_origins[id]);
}

/// Control comes to an end that has been added.
proof fn lemma_terminator_runs(
    stage: Stage,
    draft: Draft,
    data: TerminatorShape,
    next: Option<BasicBlock>,
    origin: ExprOrigin,
    store: Store,
)
    requires
        growth::sound(draft),
        draft.end is Some,
        data !is Panic,
        draft.terminate(data, next, origin).code.fits(),
        settled::settles(draft.terminate(data, next, origin).code, stage.code),
    ensures
        stage.step(here(draft, store)) == meaning::ended(
            stage.sem,
            stage.declared(),
            stage.code,
            store,
            data,
            origin,
        ),
{
    reveal(growth::sound);
    reveal(settled::settles);
    let after = draft.terminate(data, next, origin);
    let block = draft.end->0.index as int;
    let id = draft.code.terminators.len() as int;
    assert(after.code.basic_blocks[block].terminator.index == id);
    assert(stage.code.basic_blocks[block] == after.code.basic_blocks[block]);
    assert(stage.code.terminators.subrange(0, id + 1)[id] == stage.code.terminators[id]);
    assert(stage.code.terminator_origins.subrange(0, id + 1)[id]
        == stage.code.terminator_origins[id]);
}

/// A place of a beginning of the code leads the same way in the whole code.
proof fn lemma_path_is_kept(before: Seq<PlaceData>, after: Seq<PlaceData>, place: Place)
    requires
        before.is_prefix_of(after),
        place.index < before.len(),
    ensures
        meaning::path(after, place) == meaning::path(before, place),
        after[place.index as int] == before[place.index as int],
    decreases place.index,
{
    let k = place.index as int;
    assert(after.subrange(0, before.len() as int)[k] == after[k]);
    if let PlaceData::Dot(owner, _) = before[k] {
        if owner.index < place.index {
            lemma_path_is_kept(before, after, owner);
        }
    }
}

/// A place leads the same way after brewing.
proof fn lemma_brewed_path(tree: Tree, code: Code, place: validated::Place)
    requires
        tree.valid_place(place),
        recipe::brewed_place(tree, code, place).0.places.len() <= usize::MAX,
    ensures
        ({
            let (after, target, origins) = recipe::brewed_place(tree, code, place);
            &&& target.index == after.places.len() - 1
            &&& meaning::path(after.places, target) == meaning::source_path(tree, place)
            &&& origins == meaning::source_origins(tree, place)
            &&& meaning::temporary(
                after.places,
                tree.data.tables.local_variables@.len(),
                target,
            ) is None
        }),
    decreases tree.place_depth(place),
{
    let (after, target, origins) = recipe::brewed_place(tree, code, place);
    if let validated::PlaceData::Dot(owner, field) = tree.place(place) {
        tree.lemma_owner_is_valid(place);
        let (between, base, _) = recipe::brewed_place(tree, code, owner);
        lemma_brewed_path(tree, code, owner);
        assert(between.places.is_prefix_of(after.places));
        lemma_path_is_kept(between.places, after.places, base);
    }
}

/// A place that has been added stands for the place that it was made for.
proof fn lemma_brewed_place_denotes(stage: Stage, code: Code, place: validated::Place)
    requires
        stage.tree.valid_place(place),
        recipe::brewed_place(stage.tree, code, place).0.fits(),
        settled::settles(recipe::brewed_place(stage.tree, code, place).0, stage.code),
    ensures
        ({
            let (after, target, origins) = recipe::brewed_place(stage.tree, code, place);
            &&& forall|count: nat| stage.denotes(count, target, Dest::Stored(place))
            &&& origins == meaning::source_origins(stage.tree, place)
        }),
{
    let (after, target, origins) = recipe::brewed_place(stage.tree, code, place);
    lemma_brewed_path(stage.tree, code, place);
    reveal(settled::settles);
    lemma_path_is_kept(after.places, stage.code.places, target);
}

/// A place that is a variable in a beginning of the code is that variable in the whole code.
proof fn lemma_slot_is_kept(stage: Stage, code: Code, place: Place)
    requires
        settled::settles(code, stage.code),
        code.knows_place(place),
    ensures
        stage.code.places[place.index as int] == code.places[place.index as int],
{
    reveal(settled::settles);
    lemma_path_is_kept(code.places, stage.code.places, place);
}

/// What is denoted among some variables is denoted among more.
proof fn lemma_agrees_among_more(
    stage: Stage,
    loops: Map<validated::Expr, LoopContext>,
    dests: Map<validated::Expr, Dest>,
    count: nat,
    more: nat,
)
    requires
        stage.agrees(count, loops, dests),
        count <= more,
    ensures
        stage.agrees(more, loops, dests),
{
    assert forall|expr: validated::Expr| #[trigger]
        loops.contains_key(expr) implies stage.denotes(
        more,
        loops[expr].loop_value,
        dests[expr],
    ) by {
        assert(stage.denotes(count, loops[expr].loop_value, dests[expr]));
    }
}

/// A temporary that came after the open loops holds the value of none of them.
proof fn lemma_new_is_spared(
    stage: Stage,
    loops: Map<validated::Expr, LoopContext>,
    dests: Map<validated::Expr, Dest>,
    count: nat,
    index: int,
)
    requires
        stage.agrees(count, loops, dests),
        count <= index,
    ensures
        stage.is_spared(loops, index),
{
    assert forall|expr: validated::Expr| #[trigger]
        loops.contains_key(expr) implies stage.slot(loops[expr].loop_value) != Some(index) by {
        assert(stage.denotes(count, loops[expr].loop_value, dests[expr]));
    }
}

/// The store once a value is in a place.
proof fn lemma_put(
    stage: Stage,
    count: nat,
    store: Store,
    origin: ExprOrigin,
    target: Place,
    dest: Dest,
    value: int,
)
    requires
        stage.denotes(count, target, dest),
    ensures
        ({
            let after = stage.put(store, origin, target, value);
            &&& after.world == meaning::delivered(
                stage.sem,
                stage.tree,
                store.world,
                origin,
                dest,
                value,
            )
            &&& stage.slot(target) matches Some(index) ==> after.temporaries[index] == value
            &&& forall|index: int|
                stage.slot(target) != Some(index) ==> #[trigger] after.temporaries[index]
                    == store.temporaries[index]
        }),
{
}

/// What can be seen in a place is what has been left there.
proof fn lemma_seen(
    stage: Stage,
    count: nat,
    store: Store,
    target: Place,
    dest: Dest,
    value: int,
)
    requires
        stage.denotes(count, target, dest),
        stage.slot(target) matches Some(index) ==> store.temporaries[index] == value,
    ensures
        stage.fetched(store, target) == meaning::seen(
            stage.sem,
            stage.tree,
            store.world,
            dest,
            value,
        ),
{
}

/// Control marks that a value has been left.
proof fn lemma_cusp_runs(
    stage: Stage,
    count: nat,
    draft: Draft,
    target: Place,
    dest: Dest,
    value: int,
    origin: ExprOrigin,
    store: Store,
)
    requires
        growth::sound(draft),
        draft.end is Some,
        draft.cusp(Some(target), origin).code.fits(),
        settled::settles(draft.cusp(Some(target), origin).code, stage.code),
        stage.denotes(count, target, dest),
        stage.slot(target) matches Some(index) ==> store.temporaries[index] == value,
    ensures
        ({
            let world = meaning::marked(stage.sem, stage.tree, store.world, origin, dest, value);
            stage.step(here(draft, store)) == here(
                draft.cusp(Some(target), origin),
                Store { world, ..store },
            )
        }),
{
    lemma_statement_runs(stage, draft, StatementData::Cusp(Some(target)), origin, store);
    lemma_seen(stage, count, store, target, dest, value);
}

/// Control marks several moments at which a value has been left.
proof fn lemma_cusp_each_runs(
    stage: Stage,
    count: nat,
    draft: Draft,
    target: Place,
    dest: Dest,
    value: int,
    origins: Seq<ExprOrigin>,
    store: Store,
)
    requires
        growth::sound(draft),
        settled::is_open(draft),
        draft.end is Some,
        draft.code.knows_place(target),
        draft.cusp_each(Some(target), origins).code.fits(),
        settled::settles(draft.cusp_each(Some(target), origins).code, stage.code),
        stage.denotes(count, target, dest),
        stage.slot(target) matches Some(index) ==> store.temporaries[index] == value,
    ensures
        ({
            let world = meaning::marked_each(
                stage.sem,
                stage.tree,
                store.world,
                origins,
                dest,
                value,
            );
            stage.steps(here(draft, store), origins.len()) == here(
                draft.cusp_each(Some(target), origins),
                Store { world, ..store },
            )
        }),
    decreases origins.len(),
{
    let first = origins.drop_last();
    lemma_one_step(stage, here(draft, store));
    if origins.len() > 0 {
        let after = draft.cusp_each(Some(target), origins);
        let between = draft.cusp_each(Some(target), first);
        growth::lemma_cusp_each(draft, Some(target), first);
        growth::lemma_still_known(draft, between);
        growth::lemma_cusp(between, Some(target), origins.last());
        settled::lemma_cusp_each_is_open(draft, Some(target), first);
        settled::lemma_grown_settles(between, after, stage.code);
        lemma_cusp_each_runs(stage, count, draft, target, dest, value, first, store);
        let world = meaning::marked_each(
            stage.sem,
            stage.tree,
            store.world,
            first,
            dest,
            value,
        );
        let middle = Store { world, ..store };
        lemma_cusp_runs(
            stage,
            count,
            between,
            target,
            dest,
            value,
            origins.last(),
            middle,
        );
        lemma_steps(stage, here(draft, store), first.len(), 1);
        lemma_one_step(stage, here(between, middle));
    }
}

/// Control marks several moments at which nothing has been left.
proof fn lemma_blind_each_runs(
    stage: Stage,
    draft: Draft,
    origins: Seq<ExprOrigin>,
    store: Store,
)
    requires
        growth::sound(draft),
        settled::is_open(draft),
        draft.end is Some,
        draft.cusp_each(None, origins).code.fits(),
        settled::settles(draft.cusp_each(None, origins).code, stage.code),
    ensures
        ({
            let world = meaning::marked_blind(stage.sem, store.world, origins);
            stage.steps(here(draft, store), origins.len()) == here(
                draft.cusp_each(None, origins),
                Store { world, ..store },
            )
        }),
    decreases origins.len(),
{
    let first = origins.drop_last();
    lemma_one_step(stage, here(draft, store));
    if origins.len() > 0 {
        let after = draft.cusp_each(None, origins);
        let between = draft.cusp_each(None, first);
        growth::lemma_cusp_each(draft, None, first);
        growth::lemma_cusp(between, None, origins.last());
        settled::lemma_cusp_each_is_open(draft, None, first);
        settled::lemma_grown_settles(between, after, stage.code);
        lemma_blind_each_runs(stage, draft, first, store);
        let world = meaning::marked_blind(stage.sem, store.world, first);
        let middle = Store { world, ..store };
        lemma_statement_runs(stage, between, StatementData::Cusp(None), origins.last(), middle);
        lemma_steps(stage, here(draft, store), first.len(), 1);
        lemma_one_step(stage, here(between, middle));
    }
}

/// Control stores a value and marks the moment.
proof fn lemma_stored_runs(
    stage: Stage,
    loops: Map<validated::Expr, LoopContext>,
    count: nat,
    draft: Draft,
    target: Place,
    dest: Dest,
    shape: ExprShape,
    origin: ExprOrigin,
    store: Store,
    fuel: nat,
)
    requires
        growth::sound(draft),
        settled::is_open(draft),
        draft.end is Some,
        draft.code.knows_place(target),
        draft.code.knows_parts_of_expr(shape),
        stage.denotes(count, target, dest),
        ({
            let after = draft.assign(target, shape, origin).cusp(Some(target), origin);
            after.code.fits() && settled::settles(after.code, stage.code)
        }),
    ensures
        ({
            let after = draft.assign(target, shape, origin).cusp(Some(target), origin);
            let (world, value) = meaning::computed(
                stage.sem,
                stage.declared(),
                stage.code,
                store,
                origin,
                shape,
            );
            stage.lands(
                loops,
                after,
                count,
                stage.slot(target),
                store.temporaries,
                Some(meaning::finished(stage.sem, stage.tree, world, origin, dest, value)),
                fuel,
                here(draft, store),
                2,
            )
        }),
{
    let d1 = draft.assign(target, shape, origin);
    let after = d1.cusp(Some(target), origin);
    growth::lemma_assign(draft, target, shape, origin);
    growth::lemma_still_known(draft, d1);
    growth::lemma_cusp(d1, Some(target), origin);
    settled::lemma_assign_is_open(draft, target, shape, origin);
    settled::lemma_grown_settles(d1, after, stage.code);
    let (world, value) = meaning::computed(
        stage.sem,
        stage.declared(),
        stage.code,
        store,
        origin,
        shape,
    );
    lemma_assign_runs(stage, draft, target, shape, origin, store);
    let taken = Store { world, ..store };
    let middle = stage.put(taken, origin, target, value);
    lemma_put(stage, count, taken, origin, target, dest, value);
    lemma_cusp_runs(stage, count, d1, target, dest, value, origin, middle);
    lemma_one_step(stage, here(draft, store));
    lemma_one_step(stage, here(d1, middle));
    lemma_steps(stage, here(draft, store), 1, 1);
}

/// Where control lands after some steps and then some, if it lands there after those.
proof fn lemma_lands_later(
    stage: Stage,
    loops: Map<validated::Expr, LoopContext>,
    after: Draft,
    variables: nat,
    slot: Option<int>,
    temporaries: Map<int, int>,
    start: Run,
    first: nat,
    more: nat,
    inner: Option<int>,
    middle: Map<int, int>,
    outcome: Option<(int, Outcome)>,
    fuel: nat,
    left: nat,
    reached: Draft,
    second: nat,
)
    requires
        stage.lands(
            loops,
            reached,
            more,
            inner,
            middle,
            outcome,
            left,
            stage.steps(start, first),
            second,
        ),
        variables <= more,
        fuel <= first + left,
        stage.kept(loops, variables, slot, temporaries, middle),
        inner matches Some(index) ==> slot == Some(index) || index >= variables
            || !stage.is_spared(loops, index),
        outcome matches Some((_, Outcome::Value(_))) ==> {
            let end = reached.end->0.index as int;
            &&& reached.end == after.end
            &&& reached.code.basic_blocks[end].statements.len()
                == after.code.basic_blocks[end].statements.len()
            &&& slot is Some ==> slot == inner
        },
    ensures
        stage.lands(
            loops,
            after,
            variables,
            slot,
            temporaries,
            outcome,
            fuel,
            start,
            first + second,
        ),
{
    lemma_steps(stage, start, first, second);
}

/// Whether the temporaries `places`, which come after the first `low` and before the first `high`
/// variables, hold `values`.
pub open spec fn all_hold(
    stage: Stage,
    low: nat,
    high: nat,
    places: Seq<Place>,
    temporaries: Map<int, int>,
    values: Seq<int>,
) -> bool {
    &&& places.len() == values.len()
    &&& forall|k: int|
        0 <= k < places.len() ==> match #[trigger] stage.slot(places[k]) {
            Some(index) => low <= index < high && temporaries[index] == values[k],
            None => false,
        }
}

/// Where control lands after a series of expressions has been evaluated to `places`.
pub open spec fn all_land(
    stage: Stage,
    loops: Map<validated::Expr, LoopContext>,
    after: Draft,
    variables: nat,
    places: Seq<Place>,
    temporaries: Map<int, int>,
    outcome: Option<(int, Several)>,
    fuel: nat,
    start: Run,
    count: nat,
) -> bool {
    let run = stage.steps(start, count);
    match outcome {
        None => stage.lands(
            loops,
            after,
            variables,
            None,
            temporaries,
            None,
            fuel,
            start,
            count,
        ),
        Some((world, Several::Left(left))) => {
            &&& left !is Value
            &&& stage.lands(
                loops,
                after,
                variables,
                None,
                temporaries,
                Some((world, left)),
                fuel,
                start,
                count,
            )
        },
        Some((world, Several::Values(values))) => {
            &&& after.end is Some
            &&& run is At
            &&& run == here(after, run->store)
            &&& run->store.world == world
            &&& stage.kept(loops, variables, None, temporaries, run->store.temporaries)
            &&& all_hold(
                stage,
                variables,
                after.code.local_variables.len(),
                places,
                run->store.temporaries,
                values,
            )
        },
    }
}

/// Whether `expr` is brewed into `target` at the end of `draft` as part of the whole code, and its
/// value belongs at `dest`.
pub open spec fn takes_part(
    stage: Stage,
    loops: Map<validated::Expr, LoopContext>,
    dests: Map<validated::Expr, Dest>,
    draft: Draft,
    target: Place,
    dest: Dest,
    expr: validated::Expr,
) -> bool {
    let after = recipe::assigned(stage.tree, loops, draft, target, expr);
    &&& stage.continues(loops, dests, draft)
    &&& draft.code.knows_place(target)
    &&& stage.tree.valid_expr(expr, loops.dom())
    &&& stage.denotes(draft.code.local_variables.len(), target, dest)
    &&& after.code.fits()
    &&& settled::settles(after.code, stage.code)
}

/// Whether control gets from the end of `draft` to where the evaluation of `expr` says.
pub open spec fn arrives(
    stage: Stage,
    loops: Map<validated::Expr, LoopContext>,
    dests: Map<validated::Expr, Dest>,
    draft: Draft,
    target: Place,
    dest: Dest,
    expr: validated::Expr,
    fuel: nat,
    store: Store,
    count: nat,
) -> bool {
    stage.lands(
        loops,
        recipe::assigned(stage.tree, loops, draft, target, expr),
        draft.code.local_variables.len(),
        stage.slot(target),
        store.temporaries,
        stage.evaluated(dests, store.world, dest, expr, fuel),
        fuel,
        here(draft, store),
        count,
    )
}

/// What a new temporary is, and where the code is once a value is in it.
proof fn lemma_temporary_slot(
    stage: Stage,
    loops: Map<validated::Expr, LoopContext>,
    draft: Draft,
    expr: validated::Expr,
)
    requires
        growth::ready(stage.tree, loops, draft),
        settled::is_open(draft),
        stage.tree.valid_expr(expr, loops.dom()),
        recipe::to_temporary(stage.tree, loops, draft, expr).0.code.fits(),
        settled::settles(
            recipe::to_temporary(stage.tree, loops, draft, expr).0.code,
            stage.code,
        ),
    ensures
        ({
            let (after, place) = recipe::to_temporary(stage.tree, loops, draft, expr);
            &&& stage.slot(place) == Some(draft.code.local_variables.len() as int)
            &&& draft.code.local_variables.len() < after.code.local_variables.len()
            &&& settled::settles(draft.code, stage.code)
            &&& draft.code.fits()
        }),
{
    let origin = stage.tree.expr_origin(expr);
    let (d1, temporary) = draft.new_temporary(origin);
    let (after, _) = recipe::to_temporary(stage.tree, loops, draft, expr);
    assert(growth::sound(draft)) by {
        reveal(growth::ready);
    }
    growth::lemma_new_temporary(draft, origin);
    growth::lemma_still_ready(stage.tree, loops, draft, d1);
    growth::lemma_assigned_grows(stage.tree, loops, d1, temporary, expr);
    growth::lemma_still_known(d1, after);
    settled::lemma_same_blocks_are_open(draft, d1);
    settled::lemma_grown_settles(d1, after, stage.code);
    settled::lemma_grown_settles(draft, d1, stage.code);
    lemma_slot_is_kept(stage, d1.code, temporary);
    reveal(growth::ready);
    assert(d1.code.local_variables.len() == draft.code.local_variables.len() + 1);
}

/// What the evaluation of several expressions comes to if their values do not matter.
pub open spec fn summed(outcome: Option<(int, Several)>) -> Option<(int, Outcome)> {
    match outcome {
        None => None,
        Some((world, Several::Values(_))) => Some((world, Outcome::Value(0))),
        Some((world, Several::Left(left))) => Some((world, left)),
    }
}

/// Whether only an expression without a value ends a series early.
pub open spec fn leaves(outcome: Option<(int, Several)>) -> bool {
    outcome matches Some((_, Several::Left(left))) ==> left !is Value
}

/// Control stores the value of an expression in a new temporary.
proof fn lemma_to_temporary_runs(
    stage: Stage,
    loops: Map<validated::Expr, LoopContext>,
    dests: Map<validated::Expr, Dest>,
    draft: Draft,
    expr: validated::Expr,
    fuel: nat,
    store: Store,
) -> (count: nat)
    requires
        stage.continues(loops, dests, draft),
        stage.tree.valid_expr(expr, loops.dom()),
        recipe::to_temporary(stage.tree, loops, draft, expr).0.code.fits(),
        settled::settles(
            recipe::to_temporary(stage.tree, loops, draft, expr).0.code,
            stage.code,
        ),
    ensures
        stage.lands(
            loops,
            recipe::to_temporary(stage.tree, loops, draft, expr).0,
            draft.code.local_variables.len(),
            Some(draft.code.local_variables.len() as int),
            store.temporaries,
            stage.evaluated(dests, store.world, Dest::Remembered, expr, fuel),
            fuel,
            here(draft, store),
            count,
        ),
    decreases fuel, stage.tree.depth(expr), 2int, 0nat,
{
    let origin = stage.tree.expr_origin(expr);
    let n = draft.code.local_variables.len();
    let (d1, temporary) = draft.new_temporary(origin);
    let (after, _) = recipe::to_temporary(stage.tree, loops, draft, expr);
    assert(growth::sound(draft)) by {
        reveal(growth::ready);
    }
    growth::lemma_new_temporary(draft, origin);
    growth::lemma_still_ready(stage.tree, loops, draft, d1);
    settled::lemma_same_blocks_are_open(draft, d1);
    lemma_temporary_slot(stage, loops, draft, expr);
    lemma_agrees_among_more(stage, loops, dests, n, d1.code.local_variables.len());
    let count = lemma_assigned_runs(
        stage,
        loops,
        dests,
        d1,
        temporary,
        Dest::Remembered,
        expr,
        fuel,
        store,
    );
    lemma_one_step(stage, here(draft, store));
    lemma_lands_later(
        stage,
        loops,
        after,
        n,
        Some(n as int),
        store.temporaries,
        here(draft, store),
        0,
        d1.code.local_variables.len(),
        Some(n as int),
        store.temporaries,
        stage.evaluated(dests, store.world, Dest::Remembered, expr, fuel),
        fuel,
        fuel,
        after,
        count,
    );
    count
}

/// Control stores the values of a series of expressions in new temporaries.
proof fn lemma_to_temporaries_run(
    stage: Stage,
    loops: Map<validated::Expr, LoopContext>,
    dests: Map<validated::Expr, Dest>,
    draft: Draft,
    exprs: Seq<validated::Expr>,
    fuel: nat,
    store: Store,
) -> (count: nat)
    requires
        stage.continues(loops, dests, draft),
        recipe::all_finite(stage.tree, exprs),
        recipe::all_valid(stage.tree, exprs, loops.dom()),
        recipe::to_temporaries(stage.tree, loops, draft, exprs).0.code.fits(),
        settled::settles(
            recipe::to_temporaries(stage.tree, loops, draft, exprs).0.code,
            stage.code,
        ),
    ensures
        ({
            let (after, places) = recipe::to_temporaries(stage.tree, loops, draft, exprs);
            all_land(
                stage,
                loops,
                after,
                draft.code.local_variables.len(),
                places,
                store.temporaries,
                stage.all_evaluated(dests, store.world, exprs, fuel),
                fuel,
                here(draft, store),
                count,
            )
        }),
    decreases fuel, recipe::depth_of_all(stage.tree, exprs), 4int, exprs.len(),
{
    let start = here(draft, store);
    let n = draft.code.local_variables.len();
    lemma_one_step(stage, start);
    if exprs.len() == 0 {
        0
    } else {
        let first = exprs.drop_last();
        let last = exprs.last();
        let (after, all) = recipe::to_temporaries(stage.tree, loops, draft, exprs);
        let (d1, places) = recipe::to_temporaries(stage.tree, loops, draft, first);
        settled::lemma_first_are_valid(stage.tree, loops, exprs);
        growth::lemma_to_temporaries_grow(stage.tree, loops, draft, first);
        growth::lemma_still_ready(stage.tree, loops, draft, d1);
        growth::lemma_to_temporary_grows(stage.tree, loops, d1, last);
        growth::lemma_still_ready(stage.tree, loops, d1, after);
        settled::lemma_to_temporaries_are_open(stage.tree, loops, draft, first);
        settled::lemma_grown_settles(d1, after, stage.code);
        let n1 = d1.code.local_variables.len();
        growth::lemma_still_known(draft, d1);
        lemma_temporary_slot(stage, loops, d1, last);
        let k1 = lemma_to_temporaries_run(stage, loops, dests, draft, first, fuel, store);
        let e1 = stage.all_evaluated(dests, store.world, first, fuel);
        let e = stage.all_evaluated(dests, store.world, exprs, fuel);
        match e1 {
            Some((w1, Several::Values(values))) => {
                let s1 = stage.steps(start, k1)->store;
                lemma_agrees_among_more(stage, loops, dests, n, n1);
                let k2 = lemma_to_temporary_runs(stage, loops, dests, d1, last, fuel, s1);
                let e2 = stage.evaluated(dests, w1, Dest::Remembered, last, fuel);
                match e2 {
                    Some((w2, Outcome::Value(value))) => {
                        lemma_steps(stage, start, k1, k2);
                        let s2 = stage.steps(start, k1 + k2)->store;
                        let results = values.push(value);
                        assert forall|k: int| 0 <= k < all.len() implies match
                            #[trigger] stage.slot(all[k]) {
                            Some(index) => n <= index < after.code.local_variables.len()
                                && s2.temporaries[index] == results[k],
                            None => false,
                        } by {
                            if k < places.len() {
                                assert(all[k] == places[k]);
                                let index = stage.slot(places[k])->0;
                                lemma_new_is_spared(stage, loops, dests, n, index);
                                assert(s2.temporaries[index] == s1.temporaries[index]);
                            }
                        }
                        assert(all_hold(
                            stage,
                            n,
                            after.code.local_variables.len(),
                            all,
                            s2.temporaries,
                            results,
                        ));
                        assert(e == Some((w2, Several::Values(results))));
                        k1 + k2
                    },
                    _ => {
                        lemma_lands_later(
                            stage,
                            loops,
                            after,
                            n,
                            None,
                            store.temporaries,
                            start,
                            k1,
                            n1,
                            Some(n1 as int),
                            s1.temporaries,
                            e2,
                            fuel,
                            fuel,
                            after,
                            k2,
                        );
                        k1 + k2
                    },
                }
            },
            _ => {
                lemma_lands_later(
                    stage,
                    loops,
                    after,
                    n,
                    None,
                    store.temporaries,
                    start,
                    0,
                    n,
                    None,
                    store.temporaries,
                    summed(e1),
                    fuel,
                    fuel,
                    d1,
                    k1,
                );
                k1
            },
        }
    }
}

/// Control does a series of expressions for what they do.
proof fn lemma_all_side_effects_run(
    stage: Stage,
    loops: Map<validated::Expr, LoopContext>,
    dests: Map<validated::Expr, Dest>,
    draft: Draft,
    exprs: Seq<validated::Expr>,
    fuel: nat,
    store: Store,
) -> (count: nat)
    requires
        stage.continues(loops, dests, draft),
        recipe::all_finite(stage.tree, exprs),
        recipe::all_valid(stage.tree, exprs, loops.dom()),
        recipe::all_side_effects(stage.tree, loops, draft, exprs).code.fits(),
        settled::settles(
            recipe::all_side_effects(stage.tree, loops, draft, exprs).code,
            stage.code,
        ),
    ensures
        leaves(stage.all_evaluated(dests, store.world, exprs, fuel)),
        stage.lands(
            loops,
            recipe::all_side_effects(stage.tree, loops, draft, exprs),
            draft.code.local_variables.len(),
            None,
            store.temporaries,
            summed(stage.all_evaluated(dests, store.world, exprs, fuel)),
            fuel,
            here(draft, store),
            count,
        ),
    decreases fuel, recipe::depth_of_all(stage.tree, exprs), 4int, exprs.len(),
{
    let start = here(draft, store);
    let n = draft.code.local_variables.len();
    lemma_one_step(stage, start);
    if exprs.len() == 0 {
        0
    } else {
        let first = exprs.drop_last();
        let last = exprs.last();
        let after = recipe::all_side_effects(stage.tree, loops, draft, exprs);
        let d1 = recipe::all_side_effects(stage.tree, loops, draft, first);
        settled::lemma_first_are_valid(stage.tree, loops, exprs);
        growth::lemma_all_side_effects_grow(stage.tree, loops, draft, first);
        growth::lemma_still_ready(stage.tree, loops, draft, d1);
        growth::lemma_side_effects_grow(stage.tree, loops, d1, last);
        growth::lemma_still_ready(stage.tree, loops, d1, after);
        settled::lemma_all_side_effects_are_open(stage.tree, loops, draft, first);
        settled::lemma_grown_settles(d1, after, stage.code);
        let n1 = d1.code.local_variables.len();
        growth::lemma_still_known(draft, d1);
        let k1 = lemma_all_side_effects_run(stage, loops, dests, draft, first, fuel, store);
        let e1 = stage.all_evaluated(dests, store.world, first, fuel);
        let e = stage.all_evaluated(dests, store.world, exprs, fuel);
        match e1 {
            Some((w1, Several::Values(values))) => {
                let s1 = stage.steps(start, k1)->store;
                lemma_agrees_among_more(stage, loops, dests, n, n1);
                let k2 = lemma_side_effects_run(stage, loops, dests, d1, last, fuel, s1);
                let e2 = stage.evaluated(dests, w1, Dest::Remembered, last, fuel);
                lemma_lands_later(
                    stage,
                    loops,
                    after,
                    n,
                    None,
                    store.temporaries,
                    start,
                    k1,
                    n1,
                    None,
                    s1.temporaries,
                    e2,
                    fuel,
                    fuel,
                    after,
                    k2,
                );
                k1 + k2
            },
            _ => {
                lemma_lands_later(
                    stage,
                    loops,
                    after,
                    n,
                    None,
                    store.temporaries,
                    start,
                    0,
                    n,
                    None,
                    store.temporaries,
                    summed(e1),
                    fuel,
                    fuel,
                    d1,
                    k1,
                );
                k1
            },
        }
    }
}

/// A new block comes from the syntax for which it was made.
proof fn lemma_new_block_origin(stage: Stage, draft: Draft, origin: ExprOrigin)
    requires
        growth::sound(draft),
        draft.new_block(origin).0.code.fits(),
        settled::settles(draft.new_block(origin).0.code, stage.code),
    ensures
        forall|world: int|
            #[trigger] stage.entering(draft.new_block(origin).1, world) == (stage.sem.enter)(
                world,
                origin,
            ),
{
    reveal(growth::sound);
    reveal(settled::settles);
    let (after, block) = draft.new_block(origin);
    let k = draft.code.basic_blocks.len() as int;
    assert(block.index == k);
    assert(stage.code.basic_block_origins.subrange(0, k + 1)[k]
        == stage.code.basic_block_origins[k]);
}

/// A block that ends, and a new block in which growth goes on after a cusp, settle.
proof fn lemma_next_block_settles(
    draft: Draft,
    data: TerminatorShape,
    target: Place,
    origin: ExprOrigin,
    full: Code,
)
    requires
        growth::sound(draft),
        settled::is_open(draft),
        draft.code.knows_place(target),
        ({
            let (between, next) = draft.new_block(origin);
            let after = between.terminate(data, Some(next), origin).cusp(Some(target), origin);
            &&& between.code.knows_parts_of_terminator(data)
            &&& after.code.fits()
            &&& settled::settles(after.code, full)
        }),
    ensures
        ({
            let (between, next) = draft.new_block(origin);
            let ended = between.terminate(data, Some(next), origin);
            &&& settled::settles(ended.code, full)
            &&& settled::settles(between.code, full)
            &&& settled::settles(draft.code, full)
            &&& draft.code.fits()
        }),
{
    let (between, next) = draft.new_block(origin);
    let ended = between.terminate(data, Some(next), origin);
    settled::lemma_next_block_is_open(draft, data, target, origin);
    settled::lemma_grown_settles(ended, ended.cusp(Some(target), origin), full);
    settled::lemma_terminated_settles(between, data, Some(next), origin, full);
    growth::lemma_new_block(draft, origin);
    settled::lemma_grown_settles(draft, between, full);
}

/// Control comes to the end of a block and goes on after a cusp in a new one.
proof fn lemma_next_block_runs(
    stage: Stage,
    count: nat,
    draft: Draft,
    data: TerminatorShape,
    target: Place,
    dest: Dest,
    value: int,
    origin: ExprOrigin,
    store: Store,
    later: Store,
)
    requires
        growth::sound(draft),
        settled::is_open(draft),
        draft.end is Some,
        data !is Panic,
        draft.code.knows_place(target),
        stage.denotes(count, target, dest),
        stage.slot(target) matches Some(index) ==> later.temporaries[index] == value,
        ({
            let (between, next) = draft.new_block(origin);
            let after = between.terminate(data, Some(next), origin).cusp(Some(target), origin);
            &&& between.code.knows_parts_of_terminator(data)
            &&& after.code.fits()
            &&& settled::settles(after.code, stage.code)
            &&& meaning::ended(stage.sem, stage.declared(), stage.code, store, data, origin)
                == meaning::entered(stage.sem, stage.code, next, later)
        }),
    ensures
        ({
            let (between, next) = draft.new_block(origin);
            let after = between.terminate(data, Some(next), origin).cusp(Some(target), origin);
            let world = (stage.sem.enter)(later.world, origin);
            let world = meaning::marked(stage.sem, stage.tree, world, origin, dest, value);
            &&& after.end is Some
            &&& stage.steps(here(draft, store), 2) == here(after, Store { world, ..later })
        }),
{
    let (between, next) = draft.new_block(origin);
    let ended = between.terminate(data, Some(next), origin);
    settled::lemma_next_block_is_open(draft, data, target, origin);
    lemma_next_block_settles(draft, data, target, origin, stage.code);
    settled::lemma_new_block_is_open(draft, origin);
    assert(draft.code.knows_block(draft.end->0)) by {
        reveal(growth::sound);
    }
    assert(here(between, store) == here(draft, store));
    lemma_terminator_runs(stage, between, data, Some(next), origin, store);
    lemma_new_block_origin(stage, draft, origin);
    let world = stage.entering(next, later.world);
    let inside = Store { world, ..later };
    assert(meaning::entered(stage.sem, stage.code, next, later) == here(ended, inside));
    lemma_cusp_runs(stage, count, ended, target, dest, value, origin, inside);
    lemma_one_step(stage, here(draft, store));
    lemma_one_step(stage, here(ended, inside));
    lemma_steps(stage, here(draft, store), 1, 1);
}

/// The code that is brewed for what `expr` does, as part of the whole code, does it: control gets
/// from the start of that code to where the evaluation of `expr` says.
pub proof fn lemma_side_effects_run(
    stage: Stage,
    loops: Map<validated::Expr, LoopContext>,
    dests: Map<validated::Expr, Dest>,
    draft: Draft,
    expr: validated::Expr,
    fuel: nat,
    store: Store,
) -> (count: nat)
    requires
        stage.continues(loops, dests, draft),
        stage.tree.valid_expr(expr, loops.dom()),
        recipe::side_effects(stage.tree, loops, draft, expr).code.fits(),
        settled::settles(recipe::side_effects(stage.tree, loops, draft, expr).code, stage.code),
    ensures
        stage.lands(
            loops,
            recipe::side_effects(stage.tree, loops, draft, expr),
            draft.code.local_variables.len(),
            None,
            store.temporaries,
            stage.evaluated(dests, store.world, Dest::Remembered, expr, fuel),
            fuel,
            here(draft, store),
            count,
        ),
    decreases
            fuel,
            stage.tree.depth(expr),
            if recipe::is_command(stage.tree, expr) {
                0int
            } else {
                3int
            },
            1nat,
{
    let tree = stage.tree;
    recipe::lemma_parts_are_shallower(tree, expr);
    recipe::lemma_parts_are_valid(tree, expr, loops.dom());
    let origin = tree.expr_origin(expr);
    let after = recipe::side_effects(tree, loops, draft, expr);
    let start = here(draft, store);
    let n = draft.code.local_variables.len();
    assert(growth::sound(draft)) by {
        reveal(growth::ready);
    }
    lemma_one_step(stage, start);
    match tree.expr(expr) {
        ExprData::Break { .. } => lemma_break_runs(stage, loops, dests, draft, expr, fuel, store),
        ExprData::Continue(from) => {
            let target = loops[from].continue_block;
            assert(loops.contains_key(from));
            let d1 = draft.cusp(None, origin);
            growth::lemma_cusp(draft, None, origin);
            settled::lemma_statement_is_open(draft, StatementData::Cusp(None), origin);
            let data = TerminatorShape::Goto(target);
            settled::lemma_terminated_settles(d1, data, None, origin, stage.code);
            lemma_statement_runs(stage, draft, StatementData::Cusp(None), origin, store);
            let world = (stage.sem.mark)(store.world, origin, None);
            let s1 = Store { world, ..store };
            lemma_terminator_runs(stage, d1, data, None, origin, s1);
            lemma_one_step(stage, here(d1, s1));
            lemma_steps(stage, start, 1, 1);
            2
        },
        ExprData::Return(_) => lemma_return_runs(stage, loops, dests, draft, expr, fuel, store),
        ExprData::Error => {
            let d1 = draft.cusp(None, origin);
            growth::lemma_cusp(draft, None, origin);
            settled::lemma_statement_is_open(draft, StatementData::Cusp(None), origin);
            let data = TerminatorShape::Error;
            settled::lemma_terminated_settles(d1, data, None, origin, stage.code);
            lemma_statement_runs(stage, draft, StatementData::Cusp(None), origin, store);
            let world = (stage.sem.mark)(store.world, origin, None);
            let s1 = Store { world, ..store };
            lemma_terminator_runs(stage, d1, data, None, origin, s1);
            lemma_one_step(stage, here(d1, s1));
            lemma_steps(stage, start, 1, 1);
            2
        },
        ExprData::Assign(_, _) => {
            lemma_assignment_runs(stage, loops, dests, draft, expr, fuel, store)
        },
        _ => {
            let count = lemma_to_temporary_runs(stage, loops, dests, draft, expr, fuel, store);
            let e = stage.evaluated(dests, store.world, Dest::Remembered, expr, fuel);
            lemma_lands_later(
                stage,
                loops,
                after,
                n,
                None,
                store.temporaries,
                start,
                0,
                n,
                Some(n as int),
                store.temporaries,
                e,
                fuel,
                fuel,
                after,
                count,
            );
            count
        },
    }
}

/// Control leaves a loop.
proof fn lemma_break_runs(
    stage: Stage,
    loops: Map<validated::Expr, LoopContext>,
    dests: Map<validated::Expr, Dest>,
    draft: Draft,
    expr: validated::Expr,
    fuel: nat,
    store: Store,
) -> (count: nat)
    requires
        stage.continues(loops, dests, draft),
        stage.tree.valid_expr(expr, loops.dom()),
        recipe::side_effects(stage.tree, loops, draft, expr).code.fits(),
        settled::settles(recipe::side_effects(stage.tree, loops, draft, expr).code, stage.code),
        stage.tree.expr(expr) is Break,
    ensures
        stage.lands(
            loops,
            recipe::side_effects(stage.tree, loops, draft, expr),
            draft.code.local_variables.len(),
            None,
            store.temporaries,
            stage.evaluated(dests, store.world, Dest::Remembered, expr, fuel),
            fuel,
            here(draft, store),
            count,
        ),
    decreases fuel, stage.tree.depth(expr), 0int, 0nat,
{
    let tree = stage.tree;
    recipe::lemma_parts_are_shallower(tree, expr);
    recipe::lemma_parts_are_valid(tree, expr, loops.dom());
    let origin = tree.expr_origin(expr);
    let after = recipe::side_effects(tree, loops, draft, expr);
    let start = here(draft, store);
    let n = draft.code.local_variables.len();
    assert(growth::sound(draft)) by {
        reveal(growth::ready);
    }
    lemma_one_step(stage, start);
    let from = tree.expr(expr)->from_expr;
    let with_value = tree.expr(expr)->with_value;
    let context = loops[from];
    let target = context.loop_value;
    assert(loops.contains_key(from));
    let dest = dests[from];
    assert(stage.denotes(n, target, dest));
    assert(draft.code.knows_place(target)) by {
        reveal(growth::ready);
    }
    let d1 = recipe::assigned(tree, loops, draft, target, with_value);
    growth::lemma_assigned_grows(tree, loops, draft, target, with_value);
    growth::lemma_still_ready(tree, loops, draft, d1);
    let d2 = d1.cusp(Some(target), origin);
    growth::lemma_cusp(d1, Some(target), origin);
    let data = TerminatorShape::Goto(context.break_block);
    growth::lemma_terminate_adds(d2, data, None, origin);
    growth::lemma_still_known(d1, d2);
    settled::lemma_assigned_is_open(tree, loops, draft, target, with_value);
    settled::lemma_statement_is_open(d1, StatementData::Cusp(Some(target)), origin);
    settled::lemma_terminated_settles(d2, data, None, origin, stage.code);
    settled::lemma_grown_settles(d1, d2, stage.code);
    let k1 = lemma_assigned_runs(
        stage,
        loops,
        dests,
        draft,
        target,
        dest,
        with_value,
        fuel,
        store,
    );
    let e1 = stage.evaluated(dests, store.world, dest, with_value, fuel);
    match e1 {
        Some((w1, Outcome::Value(value))) => {
            let s1 = stage.steps(start, k1)->store;
            lemma_cusp_runs(stage, n, d1, target, dest, value, origin, s1);
            let world = meaning::marked(stage.sem, tree, w1, origin, dest, value);
            let s2 = Store { world, ..s1 };
            lemma_terminator_runs(stage, d2, data, None, origin, s2);
            lemma_one_step(stage, here(d1, s1));
            lemma_one_step(stage, here(d2, s2));
            lemma_steps(stage, start, k1, 1);
            lemma_steps(stage, start, k1 + 1, 1);
            k1 + 2
        },
        _ => {
            lemma_lands_later(
                stage,
                loops,
                after,
                n,
                None,
                store.temporaries,
                start,
                0,
                n,
                stage.slot(target),
                store.temporaries,
                e1,
                fuel,
                fuel,
                d1,
                k1,
            );
            k1
        },
    }
}

/// Control leaves the function.
proof fn lemma_return_runs(
    stage: Stage,
    loops: Map<validated::Expr, LoopContext>,
    dests: Map<validated::Expr, Dest>,
    draft: Draft,
    expr: validated::Expr,
    fuel: nat,
    store: Store,
) -> (count: nat)
    requires
        stage.continues(loops, dests, draft),
        stage.tree.valid_expr(expr, loops.dom()),
        recipe::side_effects(stage.tree, loops, draft, expr).code.fits(),
        settled::settles(recipe::side_effects(stage.tree, loops, draft, expr).code, stage.code),
        stage.tree.expr(expr) is Return,
    ensures
        stage.lands(
            loops,
            recipe::side_effects(stage.tree, loops, draft, expr),
            draft.code.local_variables.len(),
            None,
            store.temporaries,
            stage.evaluated(dests, store.world, Dest::Remembered, expr, fuel),
            fuel,
            here(draft, store),
            count,
        ),
    decreases fuel, stage.tree.depth(expr), 0int, 0nat,
{
    let tree = stage.tree;
    recipe::lemma_parts_are_shallower(tree, expr);
    recipe::lemma_parts_are_valid(tree, expr, loops.dom());
    let origin = tree.expr_origin(expr);
    let after = recipe::side_effects(tree, loops, draft, expr);
    let start = here(draft, store);
    let n = draft.code.local_variables.len();
    assert(growth::sound(draft)) by {
        reveal(growth::ready);
    }
    lemma_one_step(stage, start);
    let value = tree.expr(expr)->Return_0;
    let (d1, place) = recipe::to_temporary(tree, loops, draft, value);
    growth::lemma_to_temporary_grows(tree, loops, draft, value);
    growth::lemma_still_ready(tree, loops, draft, d1);
    let d2 = d1.cusp(Some(place), origin);
    growth::lemma_cusp(d1, Some(place), origin);
    let data = TerminatorShape::Return(place);
    growth::lemma_terminate_adds(d2, data, None, origin);
    growth::lemma_still_known(d1, d2);
    settled::lemma_to_temporary_is_open(tree, loops, draft, value);
    settled::lemma_statement_is_open(d1, StatementData::Cusp(Some(place)), origin);
    settled::lemma_terminated_settles(d2, data, None, origin, stage.code);
    settled::lemma_grown_settles(d1, d2, stage.code);
    lemma_temporary_slot(stage, loops, draft, value);
    let k1 = lemma_to_temporary_runs(stage, loops, dests, draft, value, fuel, store);
    let e1 = stage.evaluated(dests, store.world, Dest::Remembered, value, fuel);
    match e1 {
        Some((w1, Outcome::Value(result))) => {
            let s1 = stage.steps(start, k1)->store;
            let n1 = d1.code.local_variables.len();
            lemma_cusp_runs(stage, n1, d1, place, Dest::Remembered, result, origin, s1);
            let world = (stage.sem.mark)(w1, origin, Some(result));
            let s2 = Store { world, ..s1 };
            lemma_terminator_runs(stage, d2, data, None, origin, s2);
            lemma_one_step(stage, here(d1, s1));
            lemma_one_step(stage, here(d2, s2));
            lemma_steps(stage, start, k1, 1);
            lemma_steps(stage, start, k1 + 1, 1);
            k1 + 2
        },
        _ => {
            lemma_lands_later(
                stage,
                loops,
                after,
                n,
                None,
                store.temporaries,
                start,
                0,
                n,
                Some(n as int),
                store.temporaries,
                e1,
                fuel,
                fuel,
                d1,
                k1,
            );
            k1
        },
    }
}

/// Control assigns to a place.
proof fn lemma_assignment_runs(
    stage: Stage,
    loops: Map<validated::Expr, LoopContext>,
    dests: Map<validated::Expr, Dest>,
    draft: Draft,
    expr: validated::Expr,
    fuel: nat,
    store: Store,
) -> (count: nat)
    requires
        stage.continues(loops, dests, draft),
        stage.tree.valid_expr(expr, loops.dom()),
        recipe::side_effects(stage.tree, loops, draft, expr).code.fits(),
        settled::settles(recipe::side_effects(stage.tree, loops, draft, expr).code, stage.code),
        stage.tree.expr(expr) is Assign,
    ensures
        stage.lands(
            loops,
            recipe::side_effects(stage.tree, loops, draft, expr),
            draft.code.local_variables.len(),
            None,
            store.temporaries,
            stage.evaluated(dests, store.world, Dest::Remembered, expr, fuel),
            fuel,
            here(draft, store),
            count,
        ),
    decreases fuel, stage.tree.depth(expr), 0int, 0nat,
{
    let tree = stage.tree;
    recipe::lemma_parts_are_shallower(tree, expr);
    recipe::lemma_parts_are_valid(tree, expr, loops.dom());
    let origin = tree.expr_origin(expr);
    let after = recipe::side_effects(tree, loops, draft, expr);
    let start = here(draft, store);
    let n = draft.code.local_variables.len();
    assert(growth::sound(draft)) by {
        reveal(growth::ready);
    }
    lemma_one_step(stage, start);
    let place = tree.expr(expr)->Assign_0;
    let value = tree.expr(expr)->Assign_1;
    let (code, target, origins) = recipe::brewed_place(tree, draft.code, place);
    let d1 = Draft { code, ..draft };
    growth::lemma_brewed_place_grows(tree, loops, draft, place);
    growth::lemma_still_ready(tree, loops, draft, d1);
    growth::lemma_still_known(draft, d1);
    settled::lemma_same_blocks_are_open(draft, d1);
    let d2 = recipe::assigned(tree, loops, d1, target, value);
    growth::lemma_assigned_grows(tree, loops, d1, target, value);
    let d3 = d2.cusp_each(None, origins);
    growth::lemma_cusp_each(d2, None, origins);
    growth::lemma_cusp(d3, None, origin);
    growth::lemma_still_known(d3, after);
    growth::lemma_still_known(d2, d3);
    settled::lemma_assigned_is_open(tree, loops, d1, target, value);
    settled::lemma_cusps_are_open(d2, None, origins, origin);
    settled::lemma_grown_settles(d3, after, stage.code);
    settled::lemma_grown_settles(d2, d3, stage.code);
    settled::lemma_grown_settles(d1, d2, stage.code);
    lemma_brewed_place_denotes(stage, draft.code, place);
    let n1 = d1.code.local_variables.len();
    let dest = Dest::Stored(place);
    assert(stage.denotes(n1, target, dest));
    lemma_agrees_among_more(stage, loops, dests, n, n1);
    let k1 = lemma_assigned_runs(stage, loops, dests, d1, target, dest, value, fuel, store);
    let e1 = stage.evaluated(dests, store.world, dest, value, fuel);
    match e1 {
        Some((w1, Outcome::Value(_))) => {
            let s1 = stage.steps(start, k1)->store;
            lemma_blind_each_runs(stage, d2, origins, s1);
            let w2 = meaning::marked_blind(stage.sem, w1, origins);
            let s2 = Store { world: w2, ..s1 };
            lemma_statement_runs(stage, d3, StatementData::Cusp(None), origin, s2);
            lemma_one_step(stage, here(d3, s2));
            lemma_steps(stage, start, k1, origins.len());
            lemma_steps(stage, start, k1 + origins.len(), 1);
            k1 + origins.len() + 1
        },
        _ => {
            lemma_lands_later(
                stage,
                loops,
                after,
                n,
                None,
                store.temporaries,
                start,
                0,
                n1,
                None,
                store.temporaries,
                e1,
                fuel,
                fuel,
                d2,
                k1,
            );
            k1
        },
    }
}

/// The code that is brewed to store `expr` in `target`, as part of the whole code, stores the value
/// of `expr` there. Control gets from the start of that code to where the evaluation of `expr`
/// says: with a value, to the end of that code, and the value is in `target`; out of a loop, or
/// back to its start; out of the function; or to an error. Variables and temporaries that were
/// there before, and are meant for nothing of this, hold what they held.
pub proof fn lemma_assigned_runs(
    stage: Stage,
    loops: Map<validated::Expr, LoopContext>,
    dests: Map<validated::Expr, Dest>,
    draft: Draft,
    target: Place,
    dest: Dest,
    expr: validated::Expr,
    fuel: nat,
    store: Store,
) -> (count: nat)
    requires
        takes_part(stage, loops, dests, draft, target, dest, expr),
    ensures
        arrives(stage, loops, dests, draft, target, dest, expr, fuel, store, count),
    decreases fuel, stage.tree.depth(expr), 1int, 0nat,
{
    let tree = stage.tree;
    recipe::lemma_parts_are_shallower(tree, expr);
    let origin = tree.expr_origin(expr);
    let n = draft.code.local_variables.len();
    assert(growth::sound(draft)) by {
        reveal(growth::ready);
    }
    match tree.expr(expr) {
        ExprData::Await(_) => {
            lemma_await_runs(stage, loops, dests, draft, target, dest, expr, fuel, store)
        },
        ExprData::If(_, _, _) => {
            lemma_if_runs(stage, loops, dests, draft, target, dest, expr, fuel, store)
        },
        ExprData::Loop(_) => {
            lemma_loop_runs(stage, loops, dests, draft, target, dest, expr, fuel, store)
        },
        ExprData::Share(_) => {
            lemma_copied_runs(stage, loops, dests, draft, target, dest, expr, fuel, store)
        },
        ExprData::Lease(_) => {
            lemma_copied_runs(stage, loops, dests, draft, target, dest, expr, fuel, store)
        },
        ExprData::Give(_) => {
            lemma_copied_runs(stage, loops, dests, draft, target, dest, expr, fuel, store)
        },
        ExprData::Tuple(_) => {
            lemma_tuple_runs(stage, loops, dests, draft, target, dest, expr, fuel, store)
        },
        ExprData::Op(_, _, _) => {
            lemma_op_runs(stage, loops, dests, draft, target, dest, expr, fuel, store)
        },
        ExprData::Sequence(_) => {
            lemma_sequence_runs(stage, loops, dests, draft, target, dest, expr, fuel, store)
        },
        ExprData::Call(_, _) => {
            lemma_call_runs(stage, loops, dests, draft, target, dest, expr, fuel, store)
        },
        ExprData::Atomic(_) => {
            lemma_atomic_runs(stage, loops, dests, draft, target, dest, expr, fuel, store)
        },
        ExprData::BooleanLiteral(value) => {
            let shape = ExprShape::BooleanLiteral(value);
            lemma_stored_runs(stage, loops, n, draft, target, dest, shape, origin, store, fuel);
            2
        },
        ExprData::IntegerLiteral(value) => {
            let shape = ExprShape::IntegerLiteral(value);
            lemma_stored_runs(stage, loops, n, draft, target, dest, shape, origin, store, fuel);
            2
        },
        ExprData::StringLiteral(value) => {
            let shape = ExprShape::StringLiteral(value);
            lemma_stored_runs(stage, loops, n, draft, target, dest, shape, origin, store, fuel);
            2
        },
        ExprData::Assign(_, _) => {
            lemma_assignment_has_value(
                stage,
                loops,
                dests,
                draft,
                target,
                dest,
                expr,
                fuel,
                store,
            )
        },
        _ => {
            let after = recipe::assigned(tree, loops, draft, target, expr);
            let start = here(draft, store);
            let count = lemma_side_effects_run(stage, loops, dests, draft, expr, fuel, store);
            let e = stage.evaluated(dests, store.world, Dest::Remembered, expr, fuel);
            assert(e == stage.evaluated(dests, store.world, dest, expr, fuel));
            lemma_one_step(stage, start);
            lemma_lands_later(
                stage,
                loops,
                after,
                n,
                stage.slot(target),
                store.temporaries,
                start,
                0,
                n,
                None,
                store.temporaries,
                e,
                fuel,
                fuel,
                after,
                count,
            );
            count
        },
    }
}

/// Control assigns to a place, and stores that this has no value.
proof fn lemma_assignment_has_value(
    stage: Stage,
    loops: Map<validated::Expr, LoopContext>,
    dests: Map<validated::Expr, Dest>,
    draft: Draft,
    target: Place,
    dest: Dest,
    expr: validated::Expr,
    fuel: nat,
    store: Store,
) -> (count: nat)
    requires
        takes_part(stage, loops, dests, draft, target, dest, expr),
        stage.tree.expr(expr) is Assign,
    ensures
        arrives(stage, loops, dests, draft, target, dest, expr, fuel, store, count),
    decreases fuel, stage.tree.depth(expr), 0int, 2nat,
{
    let tree = stage.tree;
    recipe::lemma_parts_are_shallower(tree, expr);
    recipe::lemma_parts_are_valid(tree, expr, loops.dom());
    let origin = tree.expr_origin(expr);
    let after = recipe::assigned(tree, loops, draft, target, expr);
    let start = here(draft, store);
    let n = draft.code.local_variables.len();
    let slot = stage.slot(target);
    assert(growth::sound(draft)) by {
        reveal(growth::ready);
    }
    lemma_one_step(stage, start);
    let d1 = recipe::side_effects(tree, loops, draft, expr);
    growth::lemma_side_effects_grow(tree, loops, draft, expr);
    growth::lemma_still_ready(tree, loops, draft, d1);
    growth::lemma_assign(d1, target, ExprShape::Unit, origin);
    growth::lemma_still_ready(tree, loops, d1, after);
    settled::lemma_side_effects_are_open(tree, loops, draft, expr);
    settled::lemma_grown_settles(d1, after, stage.code);
    let k1 = lemma_side_effects_run(stage, loops, dests, draft, expr, fuel, store);
    let e1 = stage.evaluated(dests, store.world, Dest::Remembered, expr, fuel);
    let e = stage.evaluated(dests, store.world, dest, expr, fuel);
    match e1 {
        Some((w1, Outcome::Value(_))) => {
            let s1 = stage.steps(start, k1)->store;
            lemma_assign_runs(stage, d1, target, ExprShape::Unit, origin, s1);
            let unit = (stage.sem.make)(origin, Pure::Unit);
            lemma_put(stage, n, s1, origin, target, dest, unit);
            lemma_one_step(stage, here(d1, s1));
            lemma_steps(stage, start, k1, 1);
            k1 + 1
        },
        _ => {
            assert(e == e1);
            lemma_lands_later(
                stage,
                loops,
                after,
                n,
                slot,
                store.temporaries,
                start,
                0,
                n,
                None,
                store.temporaries,
                e1,
                fuel,
                fuel,
                d1,
                k1,
            );
            k1
        },
    }
}

/// Control applies an operator.
proof fn lemma_op_runs(
    stage: Stage,
    loops: Map<validated::Expr, LoopContext>,
    dests: Map<validated::Expr, Dest>,
    draft: Draft,
    target: Place,
    dest: Dest,
    expr: validated::Expr,
    fuel: nat,
    store: Store,
) -> (count: nat)
    requires
        takes_part(stage, loops, dests, draft, target, dest, expr),
        stage.tree.expr(expr) is Op,
    ensures
        arrives(stage, loops, dests, draft, target, dest, expr, fuel, store, count),
    decreases fuel, stage.tree.depth(expr), 0int, 1nat,
{
    let tree = stage.tree;
    recipe::lemma_parts_are_shallower(tree, expr);
    recipe::lemma_parts_are_valid(tree, expr, loops.dom());
    let origin = tree.expr_origin(expr);
    let after = recipe::assigned(tree, loops, draft, target, expr);
    let start = here(draft, store);
    let n = draft.code.local_variables.len();
    let slot = stage.slot(target);
    assert(growth::sound(draft)) by {
        reveal(growth::ready);
    }
    lemma_one_step(stage, start);
    let lhs = tree.expr(expr)->Op_0;
    let op = tree.expr(expr)->Op_1;
    let rhs = tree.expr(expr)->Op_2;
    let (d1, left) = recipe::to_temporary(tree, loops, draft, lhs);
    growth::lemma_to_temporary_grows(tree, loops, draft, lhs);
    growth::lemma_still_ready(tree, loops, draft, d1);
    let (d2, right) = recipe::to_temporary(tree, loops, d1, rhs);
    growth::lemma_to_temporary_grows(tree, loops, d1, rhs);
    growth::lemma_still_ready(tree, loops, d1, d2);
    let shape = ExprShape::Op(left, op, right);
    growth::lemma_extends_itself(d2);
    growth::lemma_stored_grows(d2, d2, target, shape, origin);
    growth::lemma_still_known(d2, after);
    settled::lemma_to_temporary_is_open(tree, loops, draft, lhs);
    settled::lemma_to_temporary_is_open(tree, loops, d1, rhs);
    settled::lemma_grown_settles(d2, after, stage.code);
    settled::lemma_grown_settles(d1, d2, stage.code);
    lemma_temporary_slot(stage, loops, draft, lhs);
    lemma_temporary_slot(stage, loops, d1, rhs);
    let n1 = d1.code.local_variables.len();
    let n2 = d2.code.local_variables.len();
    let k1 = lemma_to_temporary_runs(stage, loops, dests, draft, lhs, fuel, store);
    let e1 = stage.evaluated(dests, store.world, Dest::Remembered, lhs, fuel);
    match e1 {
        Some((w1, Outcome::Value(a))) => {
            let s1 = stage.steps(start, k1)->store;
            lemma_agrees_among_more(stage, loops, dests, n, n1);
            let k2 = lemma_to_temporary_runs(stage, loops, dests, d1, rhs, fuel, s1);
            let e2 = stage.evaluated(dests, w1, Dest::Remembered, rhs, fuel);
            lemma_steps(stage, start, k1, k2);
            match e2 {
                Some((w2, Outcome::Value(b))) => {
                    let s2 = stage.steps(start, k1 + k2)->store;
                    lemma_new_is_spared(stage, loops, dests, n, n as int);
                    assert(s2.temporaries[n as int] == a);
                    lemma_stored_runs(
                        stage,
                        loops,
                        n2,
                        d2,
                        target,
                        dest,
                        shape,
                        origin,
                        s2,
                        fuel,
                    );
                    let e = stage.evaluated(dests, store.world, dest, expr, fuel);
                    lemma_lands_later(
                        stage,
                        loops,
                        after,
                        n,
                        slot,
                        store.temporaries,
                        start,
                        k1 + k2,
                        n2,
                        slot,
                        s2.temporaries,
                        e,
                        fuel,
                        fuel,
                        after,
                        2,
                    );
                    k1 + k2 + 2
                },
                _ => {
                    lemma_lands_later(
                        stage,
                        loops,
                        after,
                        n,
                        slot,
                        store.temporaries,
                        start,
                        k1,
                        n1,
                        Some(n1 as int),
                        s1.temporaries,
                        e2,
                        fuel,
                        fuel,
                        d2,
                        k2,
                    );
                    k1 + k2
                },
            }
        },
        _ => {
            lemma_lands_later(
                stage,
                loops,
                after,
                n,
                slot,
                store.temporaries,
                start,
                0,
                n,
                Some(n as int),
                store.temporaries,
                e1,
                fuel,
                fuel,
                d1,
                k1,
            );
            k1
        },
    }
}

/// What is in temporaries that hold values.
proof fn lemma_all_fetched(
    stage: Stage,
    low: nat,
    high: nat,
    places: Seq<Place>,
    store: Store,
    values: Seq<int>,
)
    requires
        all_hold(stage, low, high, places, store.temporaries, values),
    ensures
        meaning::all_fetched(stage.sem, stage.declared(), stage.code, store, places) == values,
{
    let found = meaning::all_fetched(stage.sem, stage.declared(), stage.code, store, places);
    assert forall|k: int| 0 <= k < places.len() implies found[k] == values[k] by {
        assert(stage.slot(places[k]) is Some);
    }
    assert(found =~= values);
}

/// Control makes a tuple.
proof fn lemma_tuple_runs(
    stage: Stage,
    loops: Map<validated::Expr, LoopContext>,
    dests: Map<validated::Expr, Dest>,
    draft: Draft,
    target: Place,
    dest: Dest,
    expr: validated::Expr,
    fuel: nat,
    store: Store,
) -> (count: nat)
    requires
        takes_part(stage, loops, dests, draft, target, dest, expr),
        stage.tree.expr(expr) is Tuple,
    ensures
        arrives(stage, loops, dests, draft, target, dest, expr, fuel, store, count),
    decreases fuel, stage.tree.depth(expr), 0int, 1nat,
{
    let tree = stage.tree;
    recipe::lemma_parts_are_shallower(tree, expr);
    recipe::lemma_parts_are_valid(tree, expr, loops.dom());
    let origin = tree.expr_origin(expr);
    let after = recipe::assigned(tree, loops, draft, target, expr);
    let start = here(draft, store);
    let n = draft.code.local_variables.len();
    let slot = stage.slot(target);
    assert(growth::sound(draft)) by {
        reveal(growth::ready);
    }
    lemma_one_step(stage, start);
    let exprs = tree.expr(expr)->Tuple_0;
    let (d1, places) = recipe::to_temporaries(tree, loops, draft, exprs@);
    growth::lemma_to_temporaries_grow(tree, loops, draft, exprs@);
    growth::lemma_still_ready(tree, loops, draft, d1);
    let shape = if places.len() == 0 {
        ExprShape::Unit
    } else {
        ExprShape::Tuple(places)
    };
    growth::lemma_extends_itself(d1);
    growth::lemma_stored_grows(d1, d1, target, shape, origin);
    growth::lemma_still_known(d1, after);
    growth::lemma_still_known(draft, d1);
    settled::lemma_to_temporaries_are_open(tree, loops, draft, exprs@);
    settled::lemma_grown_settles(d1, after, stage.code);
    let n1 = d1.code.local_variables.len();
    let k1 = lemma_to_temporaries_run(stage, loops, dests, draft, exprs@, fuel, store);
    let e1 = stage.all_evaluated(dests, store.world, exprs@, fuel);
    match e1 {
        Some((w1, Several::Values(values))) => {
            let s1 = stage.steps(start, k1)->store;
            lemma_all_fetched(stage, n, n1, places, s1, values);
            lemma_stored_runs(stage, loops, n1, d1, target, dest, shape, origin, s1, fuel);
            let e = stage.evaluated(dests, store.world, dest, expr, fuel);
            lemma_lands_later(
                stage,
                loops,
                after,
                n,
                slot,
                store.temporaries,
                start,
                k1,
                n1,
                slot,
                s1.temporaries,
                e,
                fuel,
                fuel,
                after,
                2,
            );
            k1 + 2
        },
        _ => {
            lemma_lands_later(
                stage,
                loops,
                after,
                n,
                slot,
                store.temporaries,
                start,
                0,
                n,
                None,
                store.temporaries,
                summed(e1),
                fuel,
                fuel,
                d1,
                k1,
            );
            k1
        },
    }
}

/// Control does a sequence.
proof fn lemma_sequence_runs(
    stage: Stage,
    loops: Map<validated::Expr, LoopContext>,
    dests: Map<validated::Expr, Dest>,
    draft: Draft,
    target: Place,
    dest: Dest,
    expr: validated::Expr,
    fuel: nat,
    store: Store,
) -> (count: nat)
    requires
        takes_part(stage, loops, dests, draft, target, dest, expr),
        stage.tree.expr(expr) is Sequence,
    ensures
        arrives(stage, loops, dests, draft, target, dest, expr, fuel, store, count),
    decreases fuel, stage.tree.depth(expr), 0int, 1nat,
{
    let tree = stage.tree;
    recipe::lemma_parts_are_shallower(tree, expr);
    recipe::lemma_parts_are_valid(tree, expr, loops.dom());
    let origin = tree.expr_origin(expr);
    let after = recipe::assigned(tree, loops, draft, target, expr);
    let start = here(draft, store);
    let n = draft.code.local_variables.len();
    let slot = stage.slot(target);
    assert(growth::sound(draft)) by {
        reveal(growth::ready);
    }
    lemma_one_step(stage, start);
    let exprs = tree.expr(expr)->Sequence_0;
    if exprs@.len() == 0 {
        let shape = ExprShape::Unit;
        lemma_stored_runs(stage, loops, n, draft, target, dest, shape, origin, store, fuel);
        2
    } else {
        let first = exprs@.drop_last();
        let last = exprs@.last();
        let d1 = recipe::all_side_effects(tree, loops, draft, first);
        settled::lemma_first_are_valid(tree, loops, exprs@);
        growth::lemma_all_side_effects_grow(tree, loops, draft, first);
        growth::lemma_still_ready(tree, loops, draft, d1);
        let d2 = recipe::assigned(tree, loops, d1, target, last);
        growth::lemma_assigned_grows(tree, loops, d1, target, last);
        growth::lemma_still_ready(tree, loops, d1, d2);
        growth::lemma_cusp(d2, Some(target), origin);
        growth::lemma_still_ready(tree, loops, d2, after);
        growth::lemma_still_known(draft, d1);
        settled::lemma_all_side_effects_are_open(tree, loops, draft, first);
        settled::lemma_assigned_is_open(tree, loops, d1, target, last);
        settled::lemma_grown_settles(d2, after, stage.code);
        settled::lemma_grown_settles(d1, d2, stage.code);
        let n1 = d1.code.local_variables.len();
        let k1 = lemma_all_side_effects_run(stage, loops, dests, draft, first, fuel, store);
        let e1 = stage.all_evaluated(dests, store.world, first, fuel);
        match e1 {
            Some((w1, Several::Values(values))) => {
                let s1 = stage.steps(start, k1)->store;
                lemma_agrees_among_more(stage, loops, dests, n, n1);
                let k2 = lemma_assigned_runs(
                    stage,
                    loops,
                    dests,
                    d1,
                    target,
                    dest,
                    last,
                    fuel,
                    s1,
                );
                let e2 = stage.evaluated(dests, w1, dest, last, fuel);
                lemma_lands_later(
                    stage,
                    loops,
                    d2,
                    n,
                    slot,
                    store.temporaries,
                    start,
                    k1,
                    n1,
                    slot,
                    s1.temporaries,
                    e2,
                    fuel,
                    fuel,
                    d2,
                    k2,
                );
                lemma_marked_runs(
                    stage,
                    loops,
                    n,
                    d2,
                    after,
                    target,
                    dest,
                    origin,
                    store,
                    fuel,
                    start,
                    k1 + k2,
                    e2,
                )
            },
            _ => {
                lemma_lands_later(
                    stage,
                    loops,
                    after,
                    n,
                    slot,
                    store.temporaries,
                    start,
                    0,
                    n,
                    None,
                    store.temporaries,
                    summed(e1),
                    fuel,
                    fuel,
                    d1,
                    k1,
                );
                k1
            },
        }
    }
}

/// What an evaluation comes to once a last moment has been marked.
pub open spec fn then_marked(
    stage: Stage,
    origin: ExprOrigin,
    dest: Dest,
    outcome: Option<(int, Outcome)>,
) -> Option<(int, Outcome)> {
    match outcome {
        Some((world, Outcome::Value(value))) => Some(
            (
                meaning::marked(stage.sem, stage.tree, world, origin, dest, value),
                Outcome::Value(value),
            ),
        ),
        other => other,
    }
}

/// What an evaluation comes to once control has come to a last stretch of code and a last moment
/// has been marked.
pub open spec fn then_joined(
    stage: Stage,
    origin: ExprOrigin,
    dest: Dest,
    outcome: Option<(int, Outcome)>,
) -> Option<(int, Outcome)> {
    match outcome {
        Some((world, Outcome::Value(value))) => {
            let world = (stage.sem.enter)(world, origin);
            Some(
                (
                    meaning::marked(stage.sem, stage.tree, world, origin, dest, value),
                    Outcome::Value(value),
                ),
            )
        },
        other => other,
    }
}

/// Control marks a last moment, if it gets there.
proof fn lemma_marked_runs(
    stage: Stage,
    loops: Map<validated::Expr, LoopContext>,
    n: nat,
    draft: Draft,
    after: Draft,
    target: Place,
    dest: Dest,
    origin: ExprOrigin,
    store: Store,
    fuel: nat,
    start: Run,
    first: nat,
    outcome: Option<(int, Outcome)>,
) -> (count: nat)
    requires
        growth::sound(draft),
        after == draft.cusp(Some(target), origin),
        after.code.fits(),
        settled::settles(after.code, stage.code),
        stage.denotes(n, target, dest),
        stage.lands(
            loops,
            draft,
            n,
            stage.slot(target),
            store.temporaries,
            outcome,
            fuel,
            start,
            first,
        ),
    ensures
        stage.lands(
            loops,
            after,
            n,
            stage.slot(target),
            store.temporaries,
            then_marked(stage, origin, dest, outcome),
            fuel,
            start,
            count,
        ),
{
    match outcome {
        Some((world, Outcome::Value(value))) => {
            let s1 = stage.steps(start, first)->store;
            lemma_cusp_runs(stage, n, draft, target, dest, value, origin, s1);
            lemma_one_step(stage, here(draft, s1));
            lemma_steps(stage, start, first, 1);
            first + 1
        },
        _ => first,
    }
}

/// Control awaits a future.
proof fn lemma_await_runs(
    stage: Stage,
    loops: Map<validated::Expr, LoopContext>,
    dests: Map<validated::Expr, Dest>,
    draft: Draft,
    target: Place,
    dest: Dest,
    expr: validated::Expr,
    fuel: nat,
    store: Store,
) -> (count: nat)
    requires
        takes_part(stage, loops, dests, draft, target, dest, expr),
        stage.tree.expr(expr) is Await,
    ensures
        arrives(stage, loops, dests, draft, target, dest, expr, fuel, store, count),
    decreases fuel, stage.tree.depth(expr), 0int, 1nat,
{
    let tree = stage.tree;
    recipe::lemma_parts_are_shallower(tree, expr);
    recipe::lemma_parts_are_valid(tree, expr, loops.dom());
    let origin = tree.expr_origin(expr);
    let after = recipe::assigned(tree, loops, draft, target, expr);
    let start = here(draft, store);
    let n = draft.code.local_variables.len();
    let slot = stage.slot(target);
    assert(growth::sound(draft)) by {
        reveal(growth::ready);
    }
    lemma_one_step(stage, start);
    let future = tree.expr(expr)->Await_0;
    let (d1, place) = recipe::to_temporary(tree, loops, draft, future);
    growth::lemma_to_temporary_grows(tree, loops, draft, future);
    growth::lemma_still_ready(tree, loops, draft, d1);
    let value = TerminatorExprShape::Await(place);
    let (d2, next) = d1.new_block(origin);
    growth::lemma_new_block(d1, origin);
    growth::lemma_still_known(d1, d2);
    let data = TerminatorShape::Assign(target, value, next);
    growth::lemma_extends_itself(d1);
    growth::lemma_computed_grows(d1, d1, target, value, origin);
    growth::lemma_still_known(d1, after);
    settled::lemma_to_temporary_is_open(tree, loops, draft, future);
    lemma_next_block_settles(d1, data, target, origin, stage.code);
    lemma_temporary_slot(stage, loops, draft, future);
    let n1 = d1.code.local_variables.len();
    let k1 = lemma_to_temporary_runs(stage, loops, dests, draft, future, fuel, store);
    let e1 = stage.evaluated(dests, store.world, Dest::Remembered, future, fuel);
    match e1 {
        Some((w1, Outcome::Value(a))) => {
            let s1 = stage.steps(start, k1)->store;
            let (world, result) = (stage.sem.wait)(w1, origin, a);
            let s3 = Store { world, ..s1 };
            let s4 = stage.put(s3, origin, target, result);
            lemma_put(stage, n1, s3, origin, target, dest, result);
            lemma_next_block_runs(stage, n1, d1, data, target, dest, result, origin, s1, s4);
            lemma_steps(stage, start, k1, 2);
            k1 + 2
        },
        _ => {
            lemma_lands_later(
                stage,
                loops,
                after,
                n,
                slot,
                store.temporaries,
                start,
                0,
                n,
                Some(n as int),
                store.temporaries,
                e1,
                fuel,
                fuel,
                d1,
                k1,
            );
            k1
        },
    }
}

/// Control calls a function.
proof fn lemma_call_runs(
    stage: Stage,
    loops: Map<validated::Expr, LoopContext>,
    dests: Map<validated::Expr, Dest>,
    draft: Draft,
    target: Place,
    dest: Dest,
    expr: validated::Expr,
    fuel: nat,
    store: Store,
) -> (count: nat)
    requires
        takes_part(stage, loops, dests, draft, target, dest, expr),
        stage.tree.expr(expr) is Call,
    ensures
        arrives(stage, loops, dests, draft, target, dest, expr, fuel, store, count),
    decreases fuel, stage.tree.depth(expr), 0int, 1nat,
{
    let tree = stage.tree;
    recipe::lemma_parts_are_shallower(tree, expr);
    recipe::lemma_parts_are_valid(tree, expr, loops.dom());
    let origin = tree.expr_origin(expr);
    let after = recipe::assigned(tree, loops, draft, target, expr);
    let start = here(draft, store);
    let n = draft.code.local_variables.len();
    let slot = stage.slot(target);
    assert(growth::sound(draft)) by {
        reveal(growth::ready);
    }
    lemma_one_step(stage, start);
    let function = tree.expr(expr)->Call_0;
    let arguments = tree.expr(expr)->Call_1;
    let values = tree.argument_exprs(arguments@);
    let (d1, callee) = recipe::to_temporary(tree, loops, draft, function);
    growth::lemma_to_temporary_grows(tree, loops, draft, function);
    growth::lemma_still_ready(tree, loops, draft, d1);
    let (d2, places) = recipe::to_temporaries(tree, loops, d1, values);
    growth::lemma_to_temporaries_grow(tree, loops, d1, values);
    growth::lemma_still_ready(tree, loops, d1, d2);
    let (d3, next) = d2.new_block(origin);
    growth::lemma_new_block(d2, origin);
    growth::lemma_still_known(d2, d3);
    settled::lemma_all_still_known(d2, d3, places);
    let labels = recipe::labels(tree, arguments@);
    let value = TerminatorExprShape::Call { function: callee, arguments: places, labels };
    let data = TerminatorShape::Assign(target, value, next);
    growth::lemma_extends_itself(d2);
    growth::lemma_computed_grows(d2, d2, target, value, origin);
    growth::lemma_still_known(d2, after);
    growth::lemma_still_known(d1, d2);
    settled::lemma_to_temporary_is_open(tree, loops, draft, function);
    settled::lemma_to_temporaries_are_open(tree, loops, d1, values);
    lemma_next_block_settles(d2, data, target, origin, stage.code);
    settled::lemma_grown_settles(d1, d2, stage.code);
    lemma_temporary_slot(stage, loops, draft, function);
    let n1 = d1.code.local_variables.len();
    let n2 = d2.code.local_variables.len();
    let k1 = lemma_to_temporary_runs(stage, loops, dests, draft, function, fuel, store);
    let e1 = stage.evaluated(dests, store.world, Dest::Remembered, function, fuel);
    match e1 {
        Some((w1, Outcome::Value(a))) => {
            let s1 = stage.steps(start, k1)->store;
            lemma_agrees_among_more(stage, loops, dests, n, n1);
            let k2 = lemma_to_temporaries_run(stage, loops, dests, d1, values, fuel, s1);
            let e2 = stage.all_evaluated(dests, w1, values, fuel);
            lemma_steps(stage, start, k1, k2);
            match e2 {
                Some((w2, Several::Values(results))) => {
                    let s2 = stage.steps(start, k1 + k2)->store;
                    lemma_new_is_spared(stage, loops, dests, n, n as int);
                    assert(s2.temporaries[n as int] == a);
                    lemma_all_fetched(stage, n1, n2, places, s2, results);
                    let (world, result) = (stage.sem.call)(w2, origin, a, results, labels);
                    let s3 = Store { world, ..s2 };
                    let s4 = stage.put(s3, origin, target, result);
                    lemma_put(stage, n2, s3, origin, target, dest, result);
                    lemma_next_block_runs(
                        stage,
                        n2,
                        d2,
                        data,
                        target,
                        dest,
                        result,
                        origin,
                        s2,
                        s4,
                    );
                    lemma_steps(stage, start, k1 + k2, 2);
                    assert(labels == arguments@.map_values(
                        |argument: validated::NamedExpr| tree.named_expr(argument).name,
                    ));
                    k1 + k2 + 2
                },
                _ => {
                    lemma_lands_later(
                        stage,
                        loops,
                        after,
                        n,
                        slot,
                        store.temporaries,
                        start,
                        k1,
                        n1,
                        None,
                        s1.temporaries,
                        summed(e2),
                        fuel,
                        fuel,
                        d2,
                        k2,
                    );
                    k1 + k2
                },
            }
        },
        _ => {
            lemma_lands_later(
                stage,
                loops,
                after,
                n,
                slot,
                store.temporaries,
                start,
                0,
                n,
                Some(n as int),
                store.temporaries,
                e1,
                fuel,
                fuel,
                d1,
                k1,
            );
            k1
        },
    }
}

/// Control takes a value from a place.
proof fn lemma_copied_runs(
    stage: Stage,
    loops: Map<validated::Expr, LoopContext>,
    dests: Map<validated::Expr, Dest>,
    draft: Draft,
    target: Place,
    dest: Dest,
    expr: validated::Expr,
    fuel: nat,
    store: Store,
) -> (count: nat)
    requires
        takes_part(stage, loops, dests, draft, target, dest, expr),
        stage.tree.expr(expr) is Share || stage.tree.expr(expr) is Lease || stage.tree.expr(
            expr,
        ) is Give,
    ensures
        arrives(stage, loops, dests, draft, target, dest, expr, fuel, store, count),
    decreases fuel, stage.tree.depth(expr), 0int, 1nat,
{
    let tree = stage.tree;
    recipe::lemma_parts_are_shallower(tree, expr);
    recipe::lemma_parts_are_valid(tree, expr, loops.dom());
    let origin = tree.expr_origin(expr);
    let after = recipe::assigned(tree, loops, draft, target, expr);
    let start = here(draft, store);
    let n = draft.code.local_variables.len();
    let slot = stage.slot(target);
    assert(growth::sound(draft)) by {
        reveal(growth::ready);
    }
    lemma_one_step(stage, start);
    let (place, access) = match tree.expr(expr) {
        ExprData::Share(place) => (place, Access::Share),
        ExprData::Lease(place) => (place, Access::Lease),
        ExprData::Give(place) => (place, Access::Give),
        _ => arbitrary(),
    };
    let (code, source, origins) = recipe::brewed_place(tree, draft.code, place);
    let shape = match access {
        Access::Share => ExprShape::Share(source),
        Access::Lease => ExprShape::Lease(source),
        Access::Give => ExprShape::Give(source),
    };
    let d1 = Draft { code, ..draft };
    growth::lemma_brewed_place_grows(tree, loops, draft, place);
    growth::lemma_still_ready(tree, loops, draft, d1);
    settled::lemma_same_blocks_are_open(draft, d1);
    let d2 = d1.assign(target, shape, origin);
    growth::lemma_assign(d1, target, shape, origin);
    growth::lemma_still_ready(tree, loops, d1, d2);
    settled::lemma_assign_is_open(d1, target, shape, origin);
    let d3 = d2.cusp_each(Some(target), origins);
    growth::lemma_cusp_each(d2, Some(target), origins);
    growth::lemma_still_ready(tree, loops, d2, d3);
    growth::lemma_cusp(d3, Some(target), origin);
    settled::lemma_cusps_are_open(d2, Some(target), origins, origin);
    settled::lemma_grown_settles(d3, after, stage.code);
    settled::lemma_grown_settles(d2, d3, stage.code);
    settled::lemma_grown_settles(d1, d2, stage.code);
    lemma_brewed_place_denotes(stage, draft.code, place);
    assert(stage.denotes(n, source, Dest::Stored(place)));
    lemma_assign_runs(stage, d1, target, shape, origin, store);
    let (root, fields) = meaning::source_path(tree, place);
    let (world, value) = (stage.sem.take)(store.world, origin, access, root, fields);
    let s1 = Store { world, ..store };
    let s2 = stage.put(s1, origin, target, value);
    lemma_put(stage, n, s1, origin, target, dest, value);
    lemma_cusp_each_runs(stage, n, d2, target, dest, value, origins, s2);
    let w3 = meaning::marked_each(stage.sem, tree, s2.world, origins, dest, value);
    let s3 = Store { world: w3, ..s2 };
    lemma_cusp_runs(stage, n, d3, target, dest, value, origin, s3);
    lemma_one_step(stage, here(d3, s3));
    lemma_steps(stage, start, 1, origins.len());
    lemma_steps(stage, start, 1 + origins.len(), 1);
    1 + origins.len() + 1
}

/// Control does an atomic section.
proof fn lemma_atomic_runs(
    stage: Stage,
    loops: Map<validated::Expr, LoopContext>,
    dests: Map<validated::Expr, Dest>,
    draft: Draft,
    target: Place,
    dest: Dest,
    expr: validated::Expr,
    fuel: nat,
    store: Store,
) -> (count: nat)
    requires
        takes_part(stage, loops, dests, draft, target, dest, expr),
        stage.tree.expr(expr) is Atomic,
    ensures
        arrives(stage, loops, dests, draft, target, dest, expr, fuel, store, count),
    decreases fuel, stage.tree.depth(expr), 0int, 1nat,
{
    let tree = stage.tree;
    recipe::lemma_parts_are_shallower(tree, expr);
    recipe::lemma_parts_are_valid(tree, expr, loops.dom());
    let origin = tree.expr_origin(expr);
    let after = recipe::assigned(tree, loops, draft, target, expr);
    let start = here(draft, store);
    let n = draft.code.local_variables.len();
    let slot = stage.slot(target);
    assert(growth::sound(draft)) by {
        reveal(growth::ready);
    }
    lemma_one_step(stage, start);
    let inner = tree.expr(expr)->Atomic_0;
    let (d1, inside) = draft.new_block(origin);
    growth::lemma_new_block(draft, origin);
    growth::lemma_still_ready(tree, loops, draft, d1);
    let data = TerminatorShape::StartAtomic(inside);
    let d2 = d1.terminate(data, Some(inside), origin);
    growth::lemma_terminate(draft, d1, data, Some(inside), origin);
    growth::lemma_still_ready(tree, loops, draft, d2);
    growth::lemma_still_known(draft, d2);
    let d3 = recipe::assigned(tree, loops, d2, target, inner);
    growth::lemma_assigned_grows(tree, loops, d2, target, inner);
    growth::lemma_still_ready(tree, loops, d2, d3);
    let (d4, next) = d3.new_block(origin);
    growth::lemma_new_block(d3, origin);
    growth::lemma_still_known(d3, d4);
    let ending = TerminatorShape::EndAtomic(next);
    settled::lemma_next_block_is_open(d3, ending, target, origin);
    growth::lemma_terminate_adds(d1, data, Some(inside), origin);
    settled::lemma_new_block_is_open(draft, origin);
    settled::lemma_terminated_is_open(d1, data, inside, origin, inside);
    assert(d2.at(Some(inside)) == d2);
    settled::lemma_assigned_is_open(tree, loops, d2, target, inner);
    lemma_next_block_settles(d3, ending, target, origin, stage.code);
    settled::lemma_grown_settles(d2, d3, stage.code);
    assert(draft.code.knows_block(draft.end->0)) by {
        reveal(growth::sound);
    }
    assert(here(d1, store) == start);
    lemma_terminator_runs(stage, d1, data, Some(inside), origin, store);
    settled::lemma_terminated_settles(d1, data, Some(inside), origin, stage.code);
    lemma_new_block_origin(stage, draft, origin);
    let begun = (stage.sem.begin)(store.world, origin);
    let s1 = Store { world: stage.entering(inside, begun), ..store };
    assert(meaning::start_of(inside, s1) == here(d2, s1));
    let n2 = d2.code.local_variables.len();
    lemma_agrees_among_more(stage, loops, dests, n, n2);
    let k1 = lemma_assigned_runs(stage, loops, dests, d2, target, dest, inner, fuel, s1);
    let e1 = stage.evaluated(dests, s1.world, dest, inner, fuel);
    lemma_steps(stage, start, 1, k1);
    match e1 {
        Some((w1, Outcome::Value(value))) => {
            let s2 = stage.steps(start, 1 + k1)->store;
            let s3 = Store { world: (stage.sem.end)(w1, origin), ..s2 };
            lemma_next_block_runs(stage, n2, d3, ending, target, dest, value, origin, s2, s3);
            lemma_steps(stage, start, 1 + k1, 2);
            1 + k1 + 2
        },
        _ => {
            lemma_lands_later(
                stage,
                loops,
                after,
                n,
                slot,
                store.temporaries,
                start,
                1,
                n2,
                slot,
                s1.temporaries,
                e1,
                fuel,
                fuel,
                d3,
                k1,
            );
            1 + k1
        },
    }
}

/// The beginnings of the code of an `if` settle.
proof fn lemma_if_settles(
    stage: Stage,
    loops: Map<validated::Expr, LoopContext>,
    dests: Map<validated::Expr, Dest>,
    draft: Draft,
    target: Place,
    dest: Dest,
    expr: validated::Expr,
)
    requires
        takes_part(stage, loops, dests, draft, target, dest, expr),
        stage.tree.expr(expr) is If,
    ensures
        ({
            let plan = settled::if_plan(stage.tree, loops, draft, target, expr);
            &&& settled::is_open(plan.tested)
            &&& settled::settles(plan.tested.code, stage.code)
            &&& settled::settles(plan.set_up.code, stage.code)
            &&& settled::settles(plan.split.code, stage.code)
            &&& settled::settles(plan.forked.code, stage.code)
            &&& settled::settles(plan.one.code, stage.code)
            &&& settled::settles(plan.one_done.code, stage.code)
            &&& settled::settles(plan.both.code, stage.code)
            &&& settled::settles(plan.both_done.code, stage.code)
            &&& stage.code.basic_block_origins[plan.true_block.index as int]
                == stage.tree.expr_origin(expr)
            &&& stage.code.basic_block_origins[plan.false_block.index as int]
                == stage.tree.expr_origin(expr)
            &&& stage.code.basic_block_origins[plan.join.index as int]
                == stage.tree.expr_origin(expr)
        }),
{
    let tree = stage.tree;
    recipe::lemma_parts_are_shallower(tree, expr);
    recipe::lemma_parts_are_valid(tree, expr, loops.dom());
    let origin = tree.expr_origin(expr);
    let condition = tree.expr(expr)->If_0;
    let if_true = tree.expr(expr)->If_1;
    let if_false = tree.expr(expr)->If_2;
    let plan = settled::if_plan(tree, loops, draft, target, expr);
    settled::lemma_if_plan(tree, loops, draft, target, expr);
    let first = plan.forked.at(Some(plan.true_block));
    let second = plan.one_done.at(Some(plan.false_block));
    let back = TerminatorShape::Goto(plan.join);
    let fork = TerminatorShape::If(plan.test, plan.true_block, plan.false_block);
    settled::lemma_to_temporary_is_open(tree, loops, draft, condition);
    settled::lemma_assigned_is_open(tree, loops, second, target, if_false);
    settled::lemma_terminated_settles(plan.both, back, None, origin, stage.code);
    assert(growth::sound(first) && growth::sound(second)) by {
        reveal(growth::ready);
    }
    settled::lemma_grown_settles(second, plan.both, stage.code);
    settled::lemma_assigned_is_open(tree, loops, first, target, if_true);
    settled::lemma_terminated_settles(plan.one, back, None, origin, stage.code);
    settled::lemma_grown_settles(first, plan.one, stage.code);
    settled::lemma_grown_settles(plan.split, plan.forked, stage.code);
    settled::lemma_terminated_settles(plan.set_up, fork, Some(plan.join), origin, stage.code);
    settled::lemma_grown_settles(plan.tested, plan.set_up, stage.code);
    lemma_three_blocks(stage, plan.tested, origin);
}

/// New blocks come from the syntax for which they were made.
proof fn lemma_three_blocks(stage: Stage, draft: Draft, origin: ExprOrigin)
    requires
        growth::sound(draft),
        ({
            let after = draft.new_block(origin).0.new_block(origin).0.new_block(origin).0;
            after.code.fits() && settled::settles(after.code, stage.code)
        }),
    ensures
        ({
            let (d1, first) = draft.new_block(origin);
            let (d2, second) = d1.new_block(origin);
            let (d3, third) = d2.new_block(origin);
            &&& stage.code.basic_block_origins[first.index as int] == origin
            &&& stage.code.basic_block_origins[second.index as int] == origin
            &&& stage.code.basic_block_origins[third.index as int] == origin
        }),
{
    reveal(growth::sound);
    reveal(settled::settles);
    let k = draft.code.basic_blocks.len() as int;
    let origins = stage.code.basic_block_origins;
    assert(origins.subrange(0, k + 3)[k] == origins[k]);
    assert(origins.subrange(0, k + 3)[k + 1] == origins[k + 1]);
    assert(origins.subrange(0, k + 3)[k + 2] == origins[k + 2]);
}

/// Control does a branch and comes to where the branches come together.
proof fn lemma_branch_runs(
    stage: Stage,
    loops: Map<validated::Expr, LoopContext>,
    dests: Map<validated::Expr, Dest>,
    draft: Draft,
    target: Place,
    dest: Dest,
    expr: validated::Expr,
    part: validated::Expr,
    split: Draft,
    join: BasicBlock,
    fuel: nat,
    store: Store,
) -> (count: nat)
    requires
        stage.continues(loops, dests, draft),
        draft.code.knows_place(target),
        stage.tree.valid_expr(part, loops.dom()),
        recipe::shallower(stage.tree, part, expr),
        stage.denotes(draft.code.local_variables.len(), target, dest),
        ({
            let origin = stage.tree.expr_origin(expr);
            let after = recipe::assigned(stage.tree, loops, draft, target, part);
            let done = after.goto(join, origin);
            let forked = split.cusp(Some(target), origin);
            &&& growth::sound(after)
            &&& after.code.fits()
            &&& settled::settles(after.code, stage.code)
            &&& done.code.fits()
            &&& settled::settles(done.code, stage.code)
            &&& growth::sound(split)
            &&& split.end == Some(join)
            &&& split.code.basic_blocks[join.index as int].statements.len() == 0
            &&& forked.code.fits()
            &&& settled::settles(forked.code, stage.code)
            &&& stage.code.basic_block_origins[join.index as int] == origin
        }),
    ensures
        stage.lands(
            loops,
            split.cusp(Some(target), stage.tree.expr_origin(expr)),
            draft.code.local_variables.len(),
            stage.slot(target),
            store.temporaries,
            then_joined(
                stage,
                stage.tree.expr_origin(expr),
                dest,
                stage.evaluated(dests, store.world, dest, part, fuel),
            ),
            fuel,
            here(draft, store),
            count,
        ),
    decreases fuel, stage.tree.depth(expr), 0int, 0nat,
{
    let origin = stage.tree.expr_origin(expr);
    let n = draft.code.local_variables.len();
    let start = here(draft, store);
    let after = recipe::assigned(stage.tree, loops, draft, target, part);
    let k1 = lemma_assigned_runs(stage, loops, dests, draft, target, dest, part, fuel, store);
    let e1 = stage.evaluated(dests, store.world, dest, part, fuel);
    match e1 {
        Some((w1, Outcome::Value(value))) => {
            let s1 = stage.steps(start, k1)->store;
            let back = TerminatorShape::Goto(join);
            lemma_terminator_runs(stage, after, back, None, origin, s1);
            let s2 = Store { world: stage.entering(join, w1), ..s1 };
            assert(meaning::start_of(join, s2) == here(split, s2));
            lemma_cusp_runs(stage, n, split, target, dest, value, origin, s2);
            lemma_one_step(stage, here(after, s1));
            lemma_one_step(stage, here(split, s2));
            lemma_steps(stage, start, k1, 1);
            lemma_steps(stage, start, k1 + 1, 1);
            k1 + 2
        },
        _ => k1,
    }
}

/// Control takes one of two branches.
proof fn lemma_if_runs(
    stage: Stage,
    loops: Map<validated::Expr, LoopContext>,
    dests: Map<validated::Expr, Dest>,
    draft: Draft,
    target: Place,
    dest: Dest,
    expr: validated::Expr,
    fuel: nat,
    store: Store,
) -> (count: nat)
    requires
        takes_part(stage, loops, dests, draft, target, dest, expr),
        stage.tree.expr(expr) is If,
    ensures
        arrives(stage, loops, dests, draft, target, dest, expr, fuel, store, count),
    decreases fuel, stage.tree.depth(expr), 0int, 1nat,
{
    let tree = stage.tree;
    recipe::lemma_parts_are_shallower(tree, expr);
    recipe::lemma_parts_are_valid(tree, expr, loops.dom());
    let origin = tree.expr_origin(expr);
    let after = recipe::assigned(tree, loops, draft, target, expr);
    let start = here(draft, store);
    let n = draft.code.local_variables.len();
    let slot = stage.slot(target);
    assert(growth::sound(draft)) by {
        reveal(growth::ready);
    }
    lemma_one_step(stage, start);
    let condition = tree.expr(expr)->If_0;
    let if_true = tree.expr(expr)->If_1;
    let if_false = tree.expr(expr)->If_2;
    let plan = settled::if_plan(tree, loops, draft, target, expr);
    settled::lemma_if_plan(tree, loops, draft, target, expr);
    lemma_if_settles(stage, loops, dests, draft, target, dest, expr);
    let tested = plan.tested;
    let first = plan.forked.at(Some(plan.true_block));
    let second = plan.one_done.at(Some(plan.false_block));
    lemma_temporary_slot(stage, loops, draft, condition);
    let k1 = lemma_to_temporary_runs(stage, loops, dests, draft, condition, fuel, store);
    let e1 = stage.evaluated(dests, store.world, Dest::Remembered, condition, fuel);
    match e1 {
        Some((w1, Outcome::Value(a))) => {
            let s1 = stage.steps(start, k1)->store;
            let fork = TerminatorShape::If(plan.test, plan.true_block, plan.false_block);
            assert(here(plan.set_up, s1) == here(tested, s1));
            lemma_terminator_runs(stage, plan.set_up, fork, Some(plan.join), origin, s1);
            lemma_one_step(stage, here(tested, s1));
            lemma_steps(stage, start, k1, 1);
            let (begin, part) = if (stage.sem.holds)(a) {
                (first, if_true)
            } else {
                (second, if_false)
            };
            let s2 = Store { world: (stage.sem.enter)(w1, origin), ..s1 };
            assert(stage.steps(start, k1 + 1) == here(begin, s2));
            let m = begin.code.local_variables.len();
            lemma_agrees_among_more(stage, loops, dests, n, m);
            let k2 = lemma_branch_runs(
                stage,
                loops,
                dests,
                begin,
                target,
                dest,
                expr,
                part,
                plan.split,
                plan.join,
                fuel,
                s2,
            );
            let e2 = stage.evaluated(dests, s2.world, dest, part, fuel);
            let e = then_joined(stage, origin, dest, e2);
            lemma_lands_later(
                stage,
                loops,
                after,
                n,
                slot,
                store.temporaries,
                start,
                k1 + 1,
                m,
                slot,
                s1.temporaries,
                e,
                fuel,
                fuel,
                plan.forked,
                k2,
            );
            k1 + 1 + k2
        },
        _ => {
            lemma_lands_later(
                stage,
                loops,
                after,
                n,
                slot,
                store.temporaries,
                start,
                0,
                n,
                Some(n as int),
                store.temporaries,
                e1,
                fuel,
                fuel,
                tested,
                k1,
            );
            k1
        },
    }
}

/// The beginnings of the code of a loop settle.
proof fn lemma_loop_settles(
    stage: Stage,
    loops: Map<validated::Expr, LoopContext>,
    dests: Map<validated::Expr, Dest>,
    draft: Draft,
    target: Place,
    dest: Dest,
    expr: validated::Expr,
)
    requires
        takes_part(stage, loops, dests, draft, target, dest, expr),
        stage.tree.expr(expr) is Loop,
    ensures
        ({
            let plan = settled::loop_plan(stage.tree, loops, draft, target, expr);
            let start = plan.entered.at(Some(plan.body_block));
            let inside = dests.insert(expr, dest);
            &&& settled::settles(plan.split.code, stage.code)
            &&& settled::settles(plan.entered.code, stage.code)
            &&& settled::settles(plan.body.code, stage.code)
            &&& settled::settles(plan.body_done.code, stage.code)
            &&& stage.continues(plan.inside, inside, start)
            &&& stage.code.basic_block_origins[plan.body_block.index as int]
                == stage.tree.expr_origin(expr)
            &&& stage.code.basic_block_origins[plan.break_block.index as int]
                == stage.tree.expr_origin(expr)
        }),
{
    let tree = stage.tree;
    recipe::lemma_parts_are_shallower(tree, expr);
    recipe::lemma_parts_are_valid(tree, expr, loops.dom());
    let origin = tree.expr_origin(expr);
    let plan = settled::loop_plan(tree, loops, draft, target, expr);
    settled::lemma_loop_plan(tree, loops, draft, target, expr);
    let start = plan.entered.at(Some(plan.body_block));
    let back = TerminatorShape::Goto(plan.body_block);
    let body = tree.expr(expr)->Loop_0;
    settled::lemma_side_effects_are_open(tree, plan.inside, start, body);
    settled::lemma_terminated_settles(plan.body, back, None, origin, stage.code);
    assert(growth::sound(start)) by {
        reveal(growth::ready);
    }
    settled::lemma_grown_settles(start, plan.body, stage.code);
    settled::lemma_grown_settles(plan.split, plan.entered, stage.code);
    let data = TerminatorShape::Goto(plan.body_block);
    let exit = Some(plan.break_block);
    settled::lemma_terminated_settles(plan.set_up, data, exit, origin, stage.code);
    lemma_two_blocks(stage, draft, origin);
    let n = draft.code.local_variables.len();
    let m = start.code.local_variables.len();
    let inside = dests.insert(expr, dest);
    assert forall|other: validated::Expr| #[trigger]
        plan.inside.contains_key(other) implies stage.denotes(
        m,
        plan.inside[other].loop_value,
        inside[other],
    ) by {
        if other != expr {
            assert(loops.contains_key(other));
            assert(stage.denotes(n, loops[other].loop_value, dests[other]));
        }
    }
}

/// New blocks come from the syntax for which they were made.
proof fn lemma_two_blocks(stage: Stage, draft: Draft, origin: ExprOrigin)
    requires
        growth::sound(draft),
        ({
            let after = draft.new_block(origin).0.new_block(origin).0;
            after.code.fits() && settled::settles(after.code, stage.code)
        }),
    ensures
        ({
            let (d1, first) = draft.new_block(origin);
            let (d2, second) = d1.new_block(origin);
            &&& stage.code.basic_block_origins[first.index as int] == origin
            &&& stage.code.basic_block_origins[second.index as int] == origin
        }),
{
    reveal(growth::sound);
    reveal(settled::settles);
    let k = draft.code.basic_blocks.len() as int;
    let origins = stage.code.basic_block_origins;
    assert(origins.subrange(0, k + 2)[k] == origins[k]);
    assert(origins.subrange(0, k + 2)[k + 1] == origins[k + 1]);
}

/// What is kept inside a loop is kept around it, apart from where its value goes.
proof fn lemma_kept_around(
    stage: Stage,
    loops: Map<validated::Expr, LoopContext>,
    inside: Map<validated::Expr, LoopContext>,
    expr: validated::Expr,
    context: LoopContext,
    n: nat,
    m: nat,
    before: Map<int, int>,
    after: Map<int, int>,
)
    requires
        inside == loops.insert(expr, context),
        n <= m,
        stage.kept(inside, m, None, before, after),
    ensures
        stage.kept(loops, n, stage.slot(context.loop_value), before, after),
{
    let slot = stage.slot(context.loop_value);
    assert forall|index: int|
        0 <= index < n && slot != Some(index) && stage.is_spared(
            loops,
            index,
        ) implies #[trigger] after[index] == before[index] by {
        assert forall|other: validated::Expr| #[trigger]
            inside.contains_key(other) implies stage.slot(inside[other].loop_value) != Some(
            index,
        ) by {
            if other != expr {
                assert(loops.contains_key(other));
            }
        }
        assert(stage.is_spared(inside, index));
    }
}

/// Control does the body of a loop again and again.
proof fn lemma_loop_repeats(
    stage: Stage,
    loops: Map<validated::Expr, LoopContext>,
    dests: Map<validated::Expr, Dest>,
    draft: Draft,
    target: Place,
    dest: Dest,
    expr: validated::Expr,
    fuel: nat,
    store: Store,
) -> (count: nat)
    requires
        takes_part(stage, loops, dests, draft, target, dest, expr),
        stage.tree.expr(expr) is Loop,
    ensures
        ({
            let plan = settled::loop_plan(stage.tree, loops, draft, target, expr);
            stage.lands(
                loops,
                recipe::assigned(stage.tree, loops, draft, target, expr),
                draft.code.local_variables.len(),
                stage.slot(target),
                store.temporaries,
                meaning::looped(
                    stage.sem,
                    stage.tree,
                    dests,
                    store.world,
                    dest,
                    expr,
                    fuel,
                ),
                fuel,
                meaning::entered(stage.sem, stage.code, plan.body_block, store),
                count,
            )
        }),
    decreases fuel, stage.tree.depth(expr), 0int, 0nat,
{
    let tree = stage.tree;
    recipe::lemma_parts_are_shallower(tree, expr);
    recipe::lemma_parts_are_valid(tree, expr, loops.dom());
    let origin = tree.expr_origin(expr);
    let after = recipe::assigned(tree, loops, draft, target, expr);
    let body = tree.expr(expr)->Loop_0;
    let n = draft.code.local_variables.len();
    let slot = stage.slot(target);
    let plan = settled::loop_plan(tree, loops, draft, target, expr);
    settled::lemma_loop_plan(tree, loops, draft, target, expr);
    lemma_loop_settles(stage, loops, dests, draft, target, dest, expr);
    let begin = plan.entered.at(Some(plan.body_block));
    let inner = Store { world: (stage.sem.enter)(store.world, origin), ..store };
    let start = here(begin, inner);
    assert(start == meaning::entered(stage.sem, stage.code, plan.body_block, store));
    let m = begin.code.local_variables.len();
    let context = plan.inside[expr];
    lemma_one_step(stage, start);
    if fuel == 0 {
        0
    } else {
        let inside = dests.insert(expr, dest);
        let k1 = lemma_side_effects_run(stage, plan.inside, inside, begin, body, fuel, inner);
        let e1 = stage.evaluated(inside, inner.world, Dest::Remembered, body, fuel);
        let run = stage.steps(start, k1);
        if let Run::At { store: s1, .. } = run {
            if e1 matches Some((_, left)) && (left is Value || left is Break || left is Continue) {
                lemma_kept_around(
                    stage,
                    loops,
                    plan.inside,
                    expr,
                    context,
                    n,
                    m,
                    store.temporaries,
                    s1.temporaries,
                );
            }
        }
        match e1 {
            Some((w1, Outcome::Value(_))) => {
                let s1 = run->store;
                let back = TerminatorShape::Goto(plan.body_block);
                lemma_terminator_runs(stage, plan.body, back, None, origin, s1);
                lemma_one_step(stage, here(plan.body, s1));
                lemma_steps(stage, start, k1, 1);
                assert(stage.steps(start, k1 + 1) == meaning::entered(
                    stage.sem,
                    stage.code,
                    plan.body_block,
                    s1,
                ));
                let left = (fuel - 1) as nat;
                let k2 = lemma_loop_repeats(
                    stage,
                    loops,
                    dests,
                    draft,
                    target,
                    dest,
                    expr,
                    left,
                    s1,
                );
                let e2 = meaning::looped(stage.sem, tree, dests, w1, dest, expr, left);
                lemma_lands_later(
                    stage,
                    loops,
                    after,
                    n,
                    slot,
                    store.temporaries,
                    start,
                    k1 + 1,
                    n,
                    slot,
                    s1.temporaries,
                    e2,
                    fuel,
                    left,
                    after,
                    k2,
                );
                k1 + 1 + k2
            },
            Some((w1, Outcome::Continue(from))) if from == expr => {
                let s1 = Store { world: w1, ..run->store };
                assert(run == meaning::entered(stage.sem, stage.code, plan.body_block, s1));
                let left = (fuel - 1) as nat;
                let k2 = lemma_loop_repeats(
                    stage,
                    loops,
                    dests,
                    draft,
                    target,
                    dest,
                    expr,
                    left,
                    s1,
                );
                let e2 = meaning::looped(stage.sem, tree, dests, w1, dest, expr, left);
                lemma_lands_later(
                    stage,
                    loops,
                    after,
                    n,
                    slot,
                    store.temporaries,
                    start,
                    k1,
                    n,
                    slot,
                    s1.temporaries,
                    e2,
                    fuel,
                    left,
                    after,
                    k2,
                );
                k1 + k2
            },
            Some((w1, Outcome::Break(from, value))) if from == expr => {
                let s1 = run->store;
                assert(run == here(plan.split, s1));
                lemma_cusp_runs(stage, n, plan.split, target, dest, value, origin, s1);
                lemma_one_step(stage, run);
                lemma_steps(stage, start, k1, 1);
                k1 + 1
            },
            _ => k1,
        }
    }
}

/// Control does a loop.
proof fn lemma_loop_runs(
    stage: Stage,
    loops: Map<validated::Expr, LoopContext>,
    dests: Map<validated::Expr, Dest>,
    draft: Draft,
    target: Place,
    dest: Dest,
    expr: validated::Expr,
    fuel: nat,
    store: Store,
) -> (count: nat)
    requires
        takes_part(stage, loops, dests, draft, target, dest, expr),
        stage.tree.expr(expr) is Loop,
    ensures
        arrives(stage, loops, dests, draft, target, dest, expr, fuel, store, count),
    decreases fuel, stage.tree.depth(expr), 0int, 1nat,
{
    let tree = stage.tree;
    recipe::lemma_parts_are_shallower(tree, expr);
    recipe::lemma_parts_are_valid(tree, expr, loops.dom());
    let origin = tree.expr_origin(expr);
    let after = recipe::assigned(tree, loops, draft, target, expr);
    let start = here(draft, store);
    let n = draft.code.local_variables.len();
    let slot = stage.slot(target);
    assert(growth::sound(draft)) by {
        reveal(growth::ready);
    }
    lemma_one_step(stage, start);
    let plan = settled::loop_plan(tree, loops, draft, target, expr);
    settled::lemma_loop_plan(tree, loops, draft, target, expr);
    lemma_loop_settles(stage, loops, dests, draft, target, dest, expr);
    let data = TerminatorShape::Goto(plan.body_block);
    assert(here(plan.set_up, store) == start);
    lemma_terminator_runs(stage, plan.set_up, data, Some(plan.break_block), origin, store);
    assert(stage.steps(start, 1) == meaning::entered(
        stage.sem,
        stage.code,
        plan.body_block,
        store,
    ));
    let k1 = lemma_loop_repeats(stage, loops, dests, draft, target, dest, expr, fuel, store);
    let e = stage.evaluated(dests, store.world, dest, expr, fuel);
    lemma_lands_later(
        stage,
        loops,
        after,
        n,
        slot,
        store.temporaries,
        start,
        1,
        n,
        slot,
        store.temporaries,
        e,
        fuel,
        fuel,
        after,
        k1,
    );
    1 + k1
}

/// Once the function has been left, there is nothing more to do.
pub proof fn lemma_end_is_final(
    sem: Semantics,
    declared: nat,
    code: Code,
    run: Run,
    first: nat,
    count: nat,
)
    requires
        meaning::steps(sem, declared, code, run, first) !is At,
        first <= count,
    ensures
        meaning::steps(sem, declared, code, run, count) == meaning::steps(
            sem,
            declared,
            code,
            run,
            first,
        ),
    decreases count,
{
    if first < count {
        lemma_end_is_final(sem, declared, code, run, first, (count - 1) as nat);
    }
}

/// Brewed code does what the validated code does, whatever the steps of a program do to the world.
/// It is run from its first block, with anything in the temporaries. If the evaluation of the body
/// of the function ends, starting loops over no more than `fuel` times, so does the run: with the
/// same world, and with the value of the body, with what is returned early, or with an error. If
/// it does not, the run has not ended after `fuel` steps either.
pub proof fn lemma_brewed_code_does_what_the_source_does(
    sem: Semantics,
    tree: Tree,
    store: Store,
    fuel: nat,
) -> (count: nat)
    requires
        tree.valid(),
        recipe::brewed(tree).0.fits(),
    ensures
        ({
            let (code, start) = recipe::brewed(tree);
            let declared = tree.data.tables.local_variables@.len();
            let root = tree.data.root_expr;
            let begin = meaning::entered(sem, code, start, store);
            let run = meaning::steps(sem, declared, code, begin, count);
            let outcome = meaning::evaluated(
                sem,
                tree,
                Map::empty(),
                (sem.enter)(store.world, tree.expr_origin(root)),
                Dest::Remembered,
                root,
                fuel,
            );
            match outcome {
                None => count >= fuel && run is At,
                Some((world, Outcome::Value(value))) => run == (Run::Returned {
                    world,
                    value,
                    origin: tree.expr_origin(root),
                }),
                Some((world, Outcome::Return(value, origin))) => run == (Run::Returned {
                    world,
                    value,
                    origin,
                }),
                Some((world, Outcome::Error(origin))) => run == (Run::Failed { world, origin }),
                Some((_, Outcome::Break(_, _))) => false,
                Some((_, Outcome::Continue(_))) => false,
            }
        }),
{
    let root = tree.data.root_expr;
    let origin = tree.expr_origin(root);
    let loops = Map::<validated::Expr, LoopContext>::empty();
    let dests = Map::<validated::Expr, Dest>::empty();
    let (full, start) = recipe::brewed(tree);
    let stage = Stage { sem, tree, code: full };
    let d0 = Draft { code: recipe::declared_variables(tree), end: None };
    assert(growth::sound(d0)) by {
        reveal(growth::sound);
    }
    let (d1, _) = d0.new_block(origin);
    growth::lemma_new_block(d0, origin);
    let d2 = d1.at(Some(start));
    assert(growth::ready(tree, loops, d2)) by {
        reveal(growth::ready);
        reveal(growth::sound);
        growth::lemma_still_known(d0, d1);
    }
    assert(loops.dom() =~= Set::empty());
    let (d3, place) = recipe::to_temporary(tree, loops, d2, root);
    growth::lemma_to_temporary_grows(tree, loops, d2, root);
    let data = TerminatorShape::Return(place);
    growth::lemma_terminate_adds(d3, data, None, origin);
    growth::lemma_still_known(d2, d3);
    settled::lemma_new_block_is_open(d0, origin);
    settled::lemma_to_temporary_is_open(tree, loops, d2, root);
    settled::lemma_settles_itself(full);
    assert(full == d3.diverge(data, origin).code);
    settled::lemma_terminated_settles(d3, data, None, origin, full);
    lemma_temporary_slot(stage, loops, d2, root);
    assert(stage.continues(loops, dests, d2));
    growth::lemma_still_known(d0, d1);
    assert(growth::sound(d2)) by {
        reveal(growth::ready);
    }
    settled::lemma_grown_settles(d2, d3, full);
    lemma_new_block_origin(stage, d0, origin);
    let inside = Store { world: stage.entering(start, store.world), ..store };
    let k1 = lemma_to_temporary_runs(stage, loops, dests, d2, root, fuel, inside);
    let begin = meaning::entered(sem, full, start, store);
    assert(here(d2, inside) == begin);
    let outcome = stage.evaluated(dests, inside.world, Dest::Remembered, root, fuel);
    match outcome {
        Some((world, Outcome::Value(value))) => {
            let s1 = stage.steps(begin, k1)->store;
            lemma_terminator_runs(stage, d3, data, None, origin, s1);
            lemma_one_step(stage, here(d3, s1));
            lemma_steps(stage, begin, k1, 1);
            k1 + 1
        },
        _ => k1,
    }
}

/// Where the evaluation of the body never ends, brewed code runs forever: it neither returns nor
/// fails nor comes to a block that has not been brewed.
pub proof fn lemma_brewed_code_runs_forever(
    sem: Semantics,
    tree: Tree,
    store: Store,
    count: nat,
)
    requires
        tree.valid(),
        recipe::brewed(tree).0.fits(),
        forall|fuel: nat|
            #[trigger] meaning::evaluated(
                sem,
                tree,
                Map::empty(),
                (sem.enter)(store.world, tree.expr_origin(tree.data.root_expr)),
                Dest::Remembered,
                tree.data.root_expr,
                fuel,
            ) is None,
    ensures
        ({
            let (code, start) = recipe::brewed(tree);
            let declared = tree.data.tables.local_variables@.len();
            let begin = meaning::entered(sem, code, start, store);
            meaning::steps(sem, declared, code, begin, count) is At
        }),
{
    let (code, start) = recipe::brewed(tree);
    let declared = tree.data.tables.local_variables@.len();
    let begin = meaning::entered(sem, code, start, store);
    let later = lemma_brewed_code_does_what_the_source_does(sem, tree, store, count);
    if meaning::steps(sem, declared, code, begin, count) !is At {
        lemma_end_is_final(sem, declared, code, begin, count, later);
    }
}

} // verus!
