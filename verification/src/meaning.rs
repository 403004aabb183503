//! What validated code and brewed code mean: an evaluator for each.
//!
//! Both run over a world, in which there are the declared variables and all that they lead to.
//! What the steps of a program do to the world is left open: it is given by a `Semantics`.
use vstd::prelude::*;

use crate::base::{Op, Word};
use crate::bir;
use crate::bir::{Code, ExprShape, PlaceData, StatementData, TerminatorExprShape, TerminatorShape};
use crate::recipe;
use crate::validated;
use crate::validated::{Class, Expr, ExprData, ExprOrigin, Function, Intrinsic, Tree};

verus! {

/// Where the way to a place begins.
pub enum Root {
    Variable(usize),
    Function(Function),
    Intrinsic(Intrinsic),
    Class(Class),
}

/// How a value is taken from a place.
pub enum Access {
    Share,
    Lease,
    Give,
}

/// A value that is made of other values alone.
pub enum Pure {
    Boolean(bool),
    Integer(u64),
    Text(Word),
    Unit,
    Tuple(Seq<int>),
    Op(int, Op, int),
}

/// What the steps of a program do, each for the sake of the syntax that is its origin. Values and
/// worlds are numbers.
pub struct Semantics {
    /// The value of what is made of other values.
    pub make: spec_fn(ExprOrigin, Pure) -> int,
    /// What is in a place.
    pub read: spec_fn(int, Root, Seq<Word>) -> int,
    /// The world once a value has been stored in a place.
    pub store: spec_fn(int, ExprOrigin, Root, Seq<Word>, int) -> int,
    /// The world once a value has been taken from a place, and that value.
    pub take: spec_fn(int, ExprOrigin, Access, Root, Seq<Word>) -> (int, int),
    /// Whether a value counts as true.
    pub holds: spec_fn(int) -> bool,
    /// The world once a future has been awaited, and the value of the future.
    pub wait: spec_fn(int, ExprOrigin, int) -> (int, int),
    /// The world once a function has been called with labelled arguments, and what it gave.
    pub call: spec_fn(int, ExprOrigin, int, Seq<int>, Seq<Word>) -> (int, int),
    /// The world once an atomic section has begun.
    pub begin: spec_fn(int, ExprOrigin) -> int,
    /// The world once an atomic section has ended.
    pub end: spec_fn(int, ExprOrigin) -> int,
    /// The world once control has come to another stretch of code, made for some syntax.
    pub enter: spec_fn(int, ExprOrigin) -> int,
    /// The world once the moment has been marked at which some syntax has been evaluated, and the
    /// value that can be seen, if there is one.
    pub mark: spec_fn(int, ExprOrigin, Option<int>) -> int,
}

/// Where an evaluation leaves the value of an expression.
pub enum Dest {
    /// It is only remembered.
    Remembered,
    /// It is stored in this place.
    Stored(validated::Place),
}

/// How the evaluation of an expression ends.
pub enum Outcome {
    /// With a value.
    Value(int),
    /// By leaving a loop, whose value this is.
    Break(Expr, int),
    /// By starting a loop over.
    Continue(Expr),
    /// By leaving the function with a value.
    Return(int, ExprOrigin),
    /// With an error.
    Error(ExprOrigin),
}

/// How the evaluation of several expressions ends.
pub enum Several {
    /// With a value for each of them.
    Values(Seq<int>),
    /// As that of one of them, which gave no value.
    Left(Outcome),
}

/// The variable, function or class and the fields that lead to `place`.
pub open spec fn source_path(tree: Tree, place: validated::Place) -> (Root, Seq<Word>)
    decreases tree.place_depth(place),
    when tree.valid_place(place)
{
    match tree.place(place) {
        validated::PlaceData::LocalVariable(variable) => (Root::Variable(variable.index), seq![]),
        validated::PlaceData::Function(function) => (Root::Function(function), seq![]),
        validated::PlaceData::Intrinsic(intrinsic) => (Root::Intrinsic(intrinsic), seq![]),
        validated::PlaceData::Class(class) => (Root::Class(class), seq![]),
        validated::PlaceData::Dot(owner, field) => {
            proof {
                tree.lemma_owner_is_valid(place);
            }
            let (root, fields) = source_path(tree, owner);
            (root, fields.push(field))
        },
    }
}

/// The origins of the places on the way to `place`: for `a.b.c` those of `a`, `a.b` and `a.b.c`.
pub open spec fn source_origins(tree: Tree, place: validated::Place) -> Seq<ExprOrigin>
    decreases tree.place_depth(place),
    when tree.valid_place(place)
{
    match tree.place(place) {
        validated::PlaceData::Dot(owner, _) => {
            proof {
                tree.lemma_owner_is_valid(place);
            }
            source_origins(tree, owner).push(tree.place_origin(place))
        },
        _ => seq![tree.place_origin(place)],
    }
}

/// The world once `value` is where `dest` says.
pub open spec fn delivered(
    sem: Semantics,
    tree: Tree,
    world: int,
    origin: ExprOrigin,
    dest: Dest,
    value: int,
) -> int {
    match dest {
        Dest::Remembered => world,
        Dest::Stored(place) => {
            let (root, fields) = source_path(tree, place);
            (sem.store)(world, origin, root, fields, value)
        },
    }
}

/// What can be seen where `value` has been left.
pub open spec fn seen(sem: Semantics, tree: Tree, world: int, dest: Dest, value: int) -> int {
    match dest {
        Dest::Remembered => value,
        Dest::Stored(place) => {
            let (root, fields) = source_path(tree, place);
            (sem.read)(world, root, fields)
        },
    }
}

/// The world once the moment has been marked at which the syntax `origin` has been evaluated to
/// what was left at `dest`.
pub open spec fn marked(
    sem: Semantics,
    tree: Tree,
    world: int,
    origin: ExprOrigin,
    dest: Dest,
    value: int,
) -> int {
    (sem.mark)(world, origin, Some(seen(sem, tree, world, dest, value)))
}

/// The world once the moments have been marked at which each of `origins` has been evaluated.
pub open spec fn marked_each(
    sem: Semantics,
    tree: Tree,
    world: int,
    origins: Seq<ExprOrigin>,
    dest: Dest,
    value: int,
) -> int
    decreases origins.len(),
{
    if origins.len() == 0 {
        world
    } else {
        let world = marked_each(sem, tree, world, origins.drop_last(), dest, value);
        marked(sem, tree, world, origins.last(), dest, value)
    }
}

/// The world once the moments have been marked at which each of `origins` has been evaluated, with
/// nothing to be seen.
pub open spec fn marked_blind(sem: Semantics, world: int, origins: Seq<ExprOrigin>) -> int
    decreases origins.len(),
{
    if origins.len() == 0 {
        world
    } else {
        let world = marked_blind(sem, world, origins.drop_last());
        (sem.mark)(world, origins.last(), None)
    }
}

/// The world once `value` has been left where `dest` says and the moment has been marked.
pub open spec fn finished(
    sem: Semantics,
    tree: Tree,
    world: int,
    origin: ExprOrigin,
    dest: Dest,
    value: int,
) -> (int, Outcome) {
    let world = delivered(sem, tree, world, origin, dest, value);
    (marked(sem, tree, world, origin, dest, value), Outcome::Value(value))
}

/// The world once `value`, for which control had to go elsewhere, has been left where `dest` says,
/// control has come back, and the moment has been marked.
pub open spec fn resumed(
    sem: Semantics,
    tree: Tree,
    world: int,
    origin: ExprOrigin,
    dest: Dest,
    value: int,
) -> (int, Outcome) {
    let world = (sem.enter)(delivered(sem, tree, world, origin, dest, value), origin);
    (marked(sem, tree, world, origin, dest, value), Outcome::Value(value))
}

/// The world once a value has been taken from `place` and left where `dest` says, and the moments
/// have been marked at which `place` and the places on the way to it have been evaluated.
pub open spec fn taken(
    sem: Semantics,
    tree: Tree,
    world: int,
    origin: ExprOrigin,
    access: Access,
    place: validated::Place,
    dest: Dest,
) -> (int, Outcome) {
    let (root, fields) = source_path(tree, place);
    let (world, value) = (sem.take)(world, origin, access, root, fields);
    let world = delivered(sem, tree, world, origin, dest, value);
    let world = marked_each(sem, tree, world, source_origins(tree, place), dest, value);
    (marked(sem, tree, world, origin, dest, value), Outcome::Value(value))
}

/// The evaluation of `expr`, whose value is left where `dest` says; the values of the loops around
/// it are left where `dests` says. Loops are started over at most `fuel` times; there is no result
/// if that is not enough.
pub open spec fn evaluated(
    sem: Semantics,
    tree: Tree,
    dests: Map<Expr, Dest>,
    world: int,
    dest: Dest,
    expr: Expr,
    fuel: nat,
) -> Option<(int, Outcome)>
    decreases fuel, tree.depth(expr), 1int, 0nat,
    when tree.is_finite(expr)
{
    proof {
        recipe::lemma_parts_are_shallower(tree, expr);
    }
    let origin = tree.expr_origin(expr);
    match tree.expr(expr) {
        ExprData::BooleanLiteral(value) => Some(
            finished(sem, tree, world, origin, dest, (sem.make)(origin, Pure::Boolean(value))),
        ),
        ExprData::IntegerLiteral(value) => Some(
            finished(sem, tree, world, origin, dest, (sem.make)(origin, Pure::Integer(value))),
        ),
        ExprData::StringLiteral(value) => Some(
            finished(sem, tree, world, origin, dest, (sem.make)(origin, Pure::Text(value))),
        ),
        ExprData::Share(place) => Some(
            taken(sem, tree, world, origin, Access::Share, place, dest),
        ),
        ExprData::Lease(place) => Some(
            taken(sem, tree, world, origin, Access::Lease, place, dest),
        ),
        ExprData::Give(place) => Some(taken(sem, tree, world, origin, Access::Give, place, dest)),
        ExprData::Op(lhs, op, rhs) => match evaluated(
            sem,
            tree,
            dests,
            world,
            Dest::Remembered,
            lhs,
            fuel,
        ) {
            Some((world, Outcome::Value(left))) => match evaluated(
                sem,
                tree,
                dests,
                world,
                Dest::Remembered,
                rhs,
                fuel,
            ) {
                Some((world, Outcome::Value(right))) => Some(
                    finished(
                        sem,
                        tree,
                        world,
                        origin,
                        dest,
                        (sem.make)(origin, Pure::Op(left, op, right)),
                    ),
                ),
                other => other,
            },
            other => other,
        },
        ExprData::Tuple(exprs) => match all_evaluated(sem, tree, dests, world, exprs@, fuel) {
            Some((world, Several::Values(values))) => {
                let value = if values.len() == 0 {
                    Pure::Unit
                } else {
                    Pure::Tuple(values)
                };
                Some(finished(sem, tree, world, origin, dest, (sem.make)(origin, value)))
            },
            Some((world, Several::Left(outcome))) => Some((world, outcome)),
            None => None,
        },
        ExprData::Sequence(exprs) => if exprs@.len() == 0 {
            Some(finished(sem, tree, world, origin, dest, (sem.make)(origin, Pure::Unit)))
        } else {
            match all_evaluated(sem, tree, dests, world, exprs@.drop_last(), fuel) {
                Some((world, Several::Values(_))) => match evaluated(
                    sem,
                    tree,
                    dests,
                    world,
                    dest,
                    exprs@.last(),
                    fuel,
                ) {
                    Some((world, Outcome::Value(value))) => Some(
                        (
                            marked(sem, tree, world, origin, dest, value),
                            Outcome::Value(value),
                        ),
                    ),
                    other => other,
                },
                Some((world, Several::Left(outcome))) => Some((world, outcome)),
                None => None,
            }
        },
        ExprData::If(condition, if_true, if_false) => match evaluated(
            sem,
            tree,
            dests,
            world,
            Dest::Remembered,
            condition,
            fuel,
        ) {
            Some((world, Outcome::Value(test))) => {
                let world = (sem.enter)(world, origin);
                let branch = if (sem.holds)(test) {
                    evaluated(sem, tree, dests, world, dest, if_true, fuel)
                } else {
                    evaluated(sem, tree, dests, world, dest, if_false, fuel)
                };
                match branch {
                    Some((world, Outcome::Value(value))) => {
                        let world = (sem.enter)(world, origin);
                        Some(
                            (
                                marked(sem, tree, world, origin, dest, value),
                                Outcome::Value(value),
                            ),
                        )
                    },
                    other => other,
                }
            },
            other => other,
        },
        ExprData::Loop(_) => looped(sem, tree, dests, world, dest, expr, fuel),
        ExprData::Break { from_expr, with_value } => match evaluated(
            sem,
            tree,
            dests,
            world,
            dests[from_expr],
            with_value,
            fuel,
        ) {
            Some((world, Outcome::Value(value))) => Some(
                (
                    marked(sem, tree, world, origin, dests[from_expr], value),
                    Outcome::Break(from_expr, value),
                ),
            ),
            other => other,
        },
        ExprData::Continue(from_expr) => Some(
            ((sem.mark)(world, origin, None), Outcome::Continue(from_expr)),
        ),
        ExprData::Return(value) => match evaluated(
            sem,
            tree,
            dests,
            world,
            Dest::Remembered,
            value,
            fuel,
        ) {
            Some((world, Outcome::Value(value))) => Some(
                ((sem.mark)(world, origin, Some(value)), Outcome::Return(value, origin)),
            ),
            other => other,
        },
        ExprData::Error => Some(((sem.mark)(world, origin, None), Outcome::Error(origin))),
        ExprData::Assign(place, value) => match evaluated(
            sem,
            tree,
            dests,
            world,
            Dest::Stored(place),
            value,
            fuel,
        ) {
            Some((world, Outcome::Value(_))) => {
                let world = marked_blind(sem, world, source_origins(tree, place));
                let world = (sem.mark)(world, origin, None);
                let unit = (sem.make)(origin, Pure::Unit);
                Some((delivered(sem, tree, world, origin, dest, unit), Outcome::Value(unit)))
            },
            other => other,
        },
        ExprData::Await(future) => match evaluated(
            sem,
            tree,
            dests,
            world,
            Dest::Remembered,
            future,
            fuel,
        ) {
            Some((world, Outcome::Value(future))) => {
                let (world, value) = (sem.wait)(world, origin, future);
                Some(resumed(sem, tree, world, origin, dest, value))
            },
            other => other,
        },
        ExprData::Call(function, arguments) => match evaluated(
            sem,
            tree,
            dests,
            world,
            Dest::Remembered,
            function,
            fuel,
        ) {
            Some((world, Outcome::Value(callee))) => match all_evaluated(
                sem,
                tree,
                dests,
                world,
                tree.argument_exprs(arguments@),
                fuel,
            ) {
                Some((world, Several::Values(values))) => {
                    let labels = arguments@.map_values(
                        |argument: validated::NamedExpr| tree.named_expr(argument).name,
                    );
                    let (world, value) = (sem.call)(world, origin, callee, values, labels);
                    Some(resumed(sem, tree, world, origin, dest, value))
                },
                Some((world, Several::Left(outcome))) => Some((world, outcome)),
                None => None,
            },
            other => other,
        },
        ExprData::Atomic(inner) => match evaluated(
            sem,
            tree,
            dests,
            (sem.enter)((sem.begin)(world, origin), origin),
            dest,
            inner,
            fuel,
        ) {
            Some((world, Outcome::Value(value))) => {
                let world = (sem.enter)((sem.end)(world, origin), origin);
                Some((marked(sem, tree, world, origin, dest, value), Outcome::Value(value)))
            },
            other => other,
        },
    }
}

/// The evaluation of `exprs`, one after the other.
pub open spec fn all_evaluated(
    sem: Semantics,
    tree: Tree,
    dests: Map<Expr, Dest>,
    world: int,
    exprs: Seq<Expr>,
    fuel: nat,
) -> Option<(int, Several)>
    decreases fuel, recipe::depth_of_all(tree, exprs), 2int, exprs.len(),
    when recipe::all_finite(tree, exprs)
{
    if exprs.len() == 0 {
        Some((world, Several::Values(seq![])))
    } else {
        match all_evaluated(sem, tree, dests, world, exprs.drop_last(), fuel) {
            Some((world, Several::Values(values))) => match evaluated(
                sem,
                tree,
                dests,
                world,
                Dest::Remembered,
                exprs.last(),
                fuel,
            ) {
                Some((world, Outcome::Value(value))) => Some(
                    (world, Several::Values(values.push(value))),
                ),
                Some((world, outcome)) => Some((world, Several::Left(outcome))),
                None => None,
            },
            other => other,
        }
    }
}

/// The evaluation of the loop `expr`: its body is evaluated again and again until it leaves the
/// loop.
pub open spec fn looped(
    sem: Semantics,
    tree: Tree,
    dests: Map<Expr, Dest>,
    world: int,
    dest: Dest,
    expr: Expr,
    fuel: nat,
) -> Option<(int, Outcome)>
    decreases fuel, tree.depth(expr), 0int, 0nat,
    when tree.is_finite(expr)
{
    proof {
        recipe::lemma_parts_are_shallower(tree, expr);
    }
    let origin = tree.expr_origin(expr);
    match tree.expr(expr) {
        ExprData::Loop(body) => if fuel == 0 {
            None
        } else {
            match evaluated(
                sem,
                tree,
                dests.insert(expr, dest),
                (sem.enter)(world, origin),
                Dest::Remembered,
                body,
                fuel,
            ) {
                Some((world, Outcome::Value(_))) => looped(
                    sem,
                    tree,
                    dests,
                    world,
                    dest,
                    expr,
                    (fuel - 1) as nat,
                ),
                Some((world, Outcome::Continue(target))) if target == expr => looped(
                    sem,
                    tree,
                    dests,
                    world,
                    dest,
                    expr,
                    (fuel - 1) as nat,
                ),
                Some((world, Outcome::Break(target, value))) if target == expr => {
                    let world = (sem.enter)(world, origin);
                    Some((marked(sem, tree, world, origin, dest, value), Outcome::Value(value)))
                },
                other => other,
            }
        },
        _ => None,
    }
}

/// The world, and the values of the temporaries of brewed code.
pub struct Store {
    pub world: int,
    pub temporaries: Map<int, int>,
}

/// How far the execution of brewed code has come.
pub enum Run {
    /// Before this statement of this block, or before its terminator.
    At { block: int, statement: int, store: Store },
    /// The function has been left with a value.
    Returned { world: int, value: int, origin: ExprOrigin },
    /// There was an error.
    Failed { world: int, origin: ExprOrigin },
    /// Control has come to the end of a block that has not been brewed.
    Lost,
}

/// The variable, function or class and the fields that lead to `place`.
pub open spec fn path(places: Seq<PlaceData>, place: bir::Place) -> (Root, Seq<Word>)
    decreases place.index,
{
    match places[place.index as int] {
        PlaceData::LocalVariable(variable) => (Root::Variable(variable.index), seq![]),
        PlaceData::Function(function) => (Root::Function(function), seq![]),
        PlaceData::Intrinsic(intrinsic) => (Root::Intrinsic(intrinsic), seq![]),
        PlaceData::Class(class) => (Root::Class(class), seq![]),
        PlaceData::Dot(owner, field) => if owner.index < place.index {
            let (root, fields) = path(places, owner);
            (root, fields.push(field))
        } else {
            arbitrary()
        },
    }
}

/// The temporary that `place` is, in code with `declared` declared variables, if it is one.
pub open spec fn temporary(places: Seq<PlaceData>, declared: nat, place: bir::Place) -> Option<
    int,
> {
    match places[place.index as int] {
        PlaceData::LocalVariable(variable) => if variable.index >= declared {
            Some(variable.index as int)
        } else {
            None
        },
        _ => None,
    }
}

/// What is in `place`.
pub open spec fn fetched(
    sem: Semantics,
    declared: nat,
    code: Code,
    store: Store,
    place: bir::Place,
) -> int {
    match temporary(code.places, declared, place) {
        Some(index) => store.temporaries[index],
        None => {
            let (root, fields) = path(code.places, place);
            (sem.read)(store.world, root, fields)
        },
    }
}

/// What is in each of `places`.
pub open spec fn all_fetched(
    sem: Semantics,
    declared: nat,
    code: Code,
    store: Store,
    places: Seq<bir::Place>,
) -> Seq<int> {
    places.map_values(|place: bir::Place| fetched(sem, declared, code, store, place))
}

/// The store once `value` is in `place`.
pub open spec fn put(
    sem: Semantics,
    declared: nat,
    code: Code,
    store: Store,
    origin: ExprOrigin,
    place: bir::Place,
    value: int,
) -> Store {
    match temporary(code.places, declared, place) {
        Some(index) => Store {
            temporaries: store.temporaries.insert(index, value),
            ..store
        },
        None => {
            let (root, fields) = path(code.places, place);
            Store { world: (sem.store)(store.world, origin, root, fields, value), ..store }
        },
    }
}

/// The world once the expression `shape` has been evaluated, and its value.
pub open spec fn computed(
    sem: Semantics,
    declared: nat,
    code: Code,
    store: Store,
    origin: ExprOrigin,
    shape: ExprShape,
) -> (int, int) {
    let world = store.world;
    match shape {
        ExprShape::BooleanLiteral(value) => (world, (sem.make)(origin, Pure::Boolean(value))),
        ExprShape::IntegerLiteral(value) => (world, (sem.make)(origin, Pure::Integer(value))),
        ExprShape::StringLiteral(value) => (world, (sem.make)(origin, Pure::Text(value))),
        ExprShape::Share(place) => {
            let (root, fields) = path(code.places, place);
            (sem.take)(world, origin, Access::Share, root, fields)
        },
        ExprShape::Lease(place) => {
            let (root, fields) = path(code.places, place);
            (sem.take)(world, origin, Access::Lease, root, fields)
        },
        ExprShape::Give(place) => {
            let (root, fields) = path(code.places, place);
            (sem.take)(world, origin, Access::Give, root, fields)
        },
        ExprShape::Tuple(places) => (
            world,
            (sem.make)(
                origin,
                Pure::Tuple(all_fetched(sem, declared, code, store, places)),
            ),
        ),
        ExprShape::Unit => (world, (sem.make)(origin, Pure::Unit)),
        ExprShape::Op(lhs, op, rhs) => (
            world,
            (sem.make)(
                origin,
                Pure::Op(
                    fetched(sem, declared, code, store, lhs),
                    op,
                    fetched(sem, declared, code, store, rhs),
                ),
            ),
        ),
    }
}

/// One statement.
pub open spec fn performed(
    sem: Semantics,
    declared: nat,
    code: Code,
    store: Store,
    data: StatementData,
    origin: ExprOrigin,
) -> Store {
    match data {
        StatementData::Assign(target, expr) => {
            let shape = code.exprs[expr.index as int];
            let made_for = code.expr_origins[expr.index as int];
            let (world, value) = computed(sem, declared, code, store, made_for, shape);
            put(sem, declared, code, Store { world, ..store }, origin, target, value)
        },
        StatementData::Cusp(Some(place)) => {
            let value = fetched(sem, declared, code, store, place);
            Store { world: (sem.mark)(store.world, origin, Some(value)), ..store }
        },
        StatementData::Cusp(None) => Store {
            world: (sem.mark)(store.world, origin, None),
            ..store
        },
    }
}

/// The end of a block.
pub open spec fn ended(
    sem: Semantics,
    declared: nat,
    code: Code,
    store: Store,
    data: TerminatorShape,
    origin: ExprOrigin,
) -> Run {
    match data {
        TerminatorShape::Goto(target) => entered(sem, code, target, store),
        TerminatorShape::If(condition, if_true, if_false) => if (sem.holds)(
            fetched(sem, declared, code, store, condition),
        ) {
            entered(sem, code, if_true, store)
        } else {
            entered(sem, code, if_false, store)
        },
        TerminatorShape::StartAtomic(next) => entered(
            sem,
            code,
            next,
            Store { world: (sem.begin)(store.world, origin), ..store },
        ),
        TerminatorShape::EndAtomic(next) => entered(
            sem,
            code,
            next,
            Store { world: (sem.end)(store.world, origin), ..store },
        ),
        TerminatorShape::Return(place) => Run::Returned {
            world: store.world,
            value: fetched(sem, declared, code, store, place),
            origin,
        },
        TerminatorShape::Assign(target, value, next) => {
            let (world, value) = match value {
                TerminatorExprShape::Await(place) => (sem.wait)(
                    store.world,
                    origin,
                    fetched(sem, declared, code, store, place),
                ),
                TerminatorExprShape::Call { function, arguments, labels } => (sem.call)(
                    store.world,
                    origin,
                    fetched(sem, declared, code, store, function),
                    all_fetched(sem, declared, code, store, arguments),
                    labels,
                ),
            };
            entered(
                sem,
                code,
                next,
                put(sem, declared, code, Store { world, ..store }, origin, target, value),
            )
        },
        TerminatorShape::Error => Run::Failed { world: store.world, origin },
        TerminatorShape::Panic => Run::Lost,
    }
}

/// Control at the start of `block`.
pub open spec fn start_of(block: bir::BasicBlock, store: Store) -> Run {
    Run::At { block: block.index as int, statement: 0, store }
}

/// Control that comes to `block`.
pub open spec fn entered(
    sem: Semantics,
    code: Code,
    block: bir::BasicBlock,
    store: Store,
) -> Run {
    let origin = code.basic_block_origins[block.index as int];
    start_of(block, Store { world: (sem.enter)(store.world, origin), ..store })
}

/// One step of brewed code with `declared` declared variables.
pub open spec fn step(sem: Semantics, declared: nat, code: Code, run: Run) -> Run {
    match run {
        Run::At { block, statement, store } => {
            let data = code.basic_blocks[block];
            if statement < data.statements.len() {
                let next = data.statements[statement].index as int;
                Run::At {
                    block,
                    statement: statement + 1,
                    store: performed(
                        sem,
                        declared,
                        code,
                        store,
                        code.statements[next],
                        code.statement_origins[next],
                    ),
                }
            } else {
                let last = data.terminator.index as int;
                ended(
                    sem,
                    declared,
                    code,
                    store,
                    code.terminators[last],
                    code.terminator_origins[last],
                )
            }
        },
        _ => run,
    }
}

/// `count` steps of brewed code.
pub open spec fn steps(
    sem: Semantics,
    declared: nat,
    code: Code,
    run: Run,
    count: nat,
) -> Run
    decreases count,
{
    if count == 0 {
        run
    } else {
        step(sem, declared, code, steps(sem, declared, code, run, (count - 1) as nat))
    }
}

/// Steps, and then more steps.
pub proof fn lemma_steps_add_up(
    sem: Semantics,
    declared: nat,
    code: Code,
    run: Run,
    first: nat,
    second: nat,
)
    ensures
        steps(sem, declared, code, run, first + second) == steps(
            sem,
            declared,
            code,
            steps(sem, declared, code, run, first),
            second,
        ),
    decreases second,
{
    if second > 0 {
        lemma_steps_add_up(sem, declared, code, run, first, (second - 1) as nat);
        assert(first + second - 1 == first + (second - 1));
    }
}

} // verus!
