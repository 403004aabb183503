//! What brewing produces, as a function from validated code to brewed code.
use vstd::prelude::*;

use crate::base::{StorageMode, Word};
use crate::bir::{
    BasicBlock, BlockShape, Code, ExprShape, LocalVariableData, Place, PlaceData, StatementData,
    TerminatorExprShape, TerminatorShape,
};
use crate::bir;
use crate::validated;
use crate::validated::{ExprData, ExprOrigin, LocalVariableOrigin, NamedExpr, Tree};

verus! {

/// What `break` and `continue` need to know of a loop.
#[derive(Clone, Copy, Debug, PartialEq, Eq, Structural)]
pub struct LoopContext {
    /// Where `continue` goes.
    pub continue_block: BasicBlock,
    /// Where `break` goes.
    pub break_block: BasicBlock,
    /// Where `break` stores the value of the loop.
    pub loop_value: Place,
}

/// Code that is being brewed, and the block at whose end it grows. There is no such block where
/// control cannot get to.
pub struct Draft {
    pub code: Code,
    pub end: Option<BasicBlock>,
}

/// The code with one more local variable, without a name, for the value of what `origin` points
/// to.
pub open spec fn with_temporary(code: Code, origin: ExprOrigin) -> Code {
    code.add_local_variable(
        LocalVariableData { name: None, storage_mode: StorageMode::Var },
        LocalVariableOrigin::Temporary(origin.source()),
    )
}

/// A temporary is a local variable that was not there before, without a name, that may be assigned
/// again. Every variable that was there before stays what it was, and so does the temporary
/// however many variables are added; another temporary, with the same origin or not, is a
/// different variable.
pub proof fn lemma_temporary_is_new(code: Code, one: ExprOrigin, later: Code, two: ExprOrigin)
    requires
        code.local_variables.len() == code.local_variable_origins.len(),
        later.local_variables.len() == later.local_variable_origins.len(),
        with_temporary(code, one).local_variables.is_prefix_of(later.local_variables),
        with_temporary(code, one).local_variable_origins.is_prefix_of(
            later.local_variable_origins,
        ),
        with_temporary(later, two).local_variables.len() <= usize::MAX,
    ensures
        ({
            let first = with_temporary(code, one).last_local_variable();
            let second = with_temporary(later, two).last_local_variable();
            let after = with_temporary(later, two);
            &&& first.index == code.local_variables.len()
            &&& second.index == later.local_variables.len()
            &&& first != second
            &&& after.local_variables[first.index as int] == LocalVariableData {
                name: None,
                storage_mode: StorageMode::Var,
            }
            &&& after.local_variable_origins[first.index as int]
                == LocalVariableOrigin::Temporary(one.source())
            &&& after.local_variables[second.index as int] == LocalVariableData {
                name: None,
                storage_mode: StorageMode::Var,
            }
            &&& after.local_variable_origins[second.index as int]
                == LocalVariableOrigin::Temporary(two.source())
            &&& code.local_variables.is_prefix_of(after.local_variables)
            &&& code.local_variable_origins.is_prefix_of(after.local_variable_origins)
        }),
{
    let between = with_temporary(code, one);
    let v = code.local_variables.len() as int;
    assert(later.local_variables.subrange(0, v + 1)[v] == later.local_variables[v]);
    assert(later.local_variable_origins.subrange(0, v + 1)[v] == later.local_variable_origins[v]);
    assert(code.local_variables.is_prefix_of(between.local_variables));
    assert(code.local_variable_origins.is_prefix_of(between.local_variable_origins));
}

impl Draft {
    /// Growth at the end of another block, if any.
    pub open spec fn at(self, end: Option<BasicBlock>) -> Draft {
        Draft { end, ..self }
    }

    /// A new block with nothing in it.
    pub open spec fn new_block(self, origin: ExprOrigin) -> (Draft, BasicBlock) {
        let code = self.code.add_terminator(TerminatorShape::Panic, origin);
        let code = code.add_basic_block(
            BlockShape { statements: seq![], terminator: code.last_terminator() },
            origin,
        );
        (Draft { code, ..self }, code.last_basic_block())
    }

    /// A place that is a new local variable without a name.
    pub open spec fn new_temporary(self, origin: ExprOrigin) -> (Draft, Place) {
        let code = with_temporary(self.code, origin);
        let code = code.add_place(
            PlaceData::LocalVariable(code.last_local_variable()),
            origin,
        );
        (Draft { code, ..self }, code.last_place())
    }

    /// One more statement, if control can get there.
    pub open spec fn statement(self, data: StatementData, origin: ExprOrigin) -> Draft {
        match self.end {
            Some(block) => {
                let code = self.code.add_statement(data, origin);
                Draft { code: code.push_statement(block, code.last_statement()), ..self }
            },
            None => self,
        }
    }

    /// One more assignment, if control can get there.
    pub open spec fn assign(self, target: Place, value: ExprShape, origin: ExprOrigin) -> Draft {
        match self.end {
            Some(_) => {
                let code = self.code.add_expr(value, origin);
                Draft { code, ..self }.statement(
                    StatementData::Assign(target, code.last_expr()),
                    origin,
                )
            },
            None => self,
        }
    }

    /// One more cusp, if control can get there.
    pub open spec fn cusp(self, value: Option<Place>, origin: ExprOrigin) -> Draft {
        self.statement(StatementData::Cusp(value), origin)
    }

    /// A cusp for each of `origins`, and one for `origin`.
    pub open spec fn cusps(
        self,
        value: Option<Place>,
        origins: Seq<ExprOrigin>,
        origin: ExprOrigin,
    ) -> Draft {
        self.cusp_each(value, origins).cusp(value, origin)
    }

    /// A cusp for each of `origins`.
    pub open spec fn cusp_each(self, value: Option<Place>, origins: Seq<ExprOrigin>) -> Draft
        decreases origins.len(),
    {
        if origins.len() == 0 {
            self
        } else {
            self.cusp_each(value, origins.drop_last()).cusp(value, origins.last())
        }
    }

    /// Ends the block in which the code grows, if control can get there. What is added from then
    /// on is at the end of `next`.
    pub open spec fn terminate(
        self,
        data: TerminatorShape,
        next: Option<BasicBlock>,
        origin: ExprOrigin,
    ) -> Draft {
        match self.end {
            Some(block) => {
                let code = self.code.add_terminator(data, origin);
                Draft { code: code.set_terminator(block, code.last_terminator()), end: next }
            },
            None => self,
        }
    }

    /// Ends the block in which the code grows, with nothing after it.
    pub open spec fn diverge(self, data: TerminatorShape, origin: ExprOrigin) -> Draft {
        self.terminate(data, None, origin)
    }

    /// Ends the block in which the code grows by going to `target`.
    pub open spec fn goto(self, target: BasicBlock, origin: ExprOrigin) -> Draft {
        self.diverge(TerminatorShape::Goto(target), origin)
    }
}

/// The code that holds only the local variables of `tree`.
pub open spec fn declared_variables(tree: Tree) -> Code {
    Code {
        local_variables: tree.data.tables.local_variables@.map_values(
            |data: validated::LocalVariableData|
                LocalVariableData { name: data.name, storage_mode: data.storage_mode },
        ),
        local_variable_origins: tree.origins.local_variables@,
        ..Code::empty()
    }
}

/// The code of a whole function, and the block in which it starts.
pub open spec fn brewed(tree: Tree) -> (Code, BasicBlock) {
    let root = tree.data.root_expr;
    let origin = tree.expr_origin(root);
    let draft = Draft { code: declared_variables(tree), end: None };
    let (draft, start) = draft.new_block(origin);
    let (draft, place) = to_temporary(tree, Map::empty(), draft.at(Some(start)), root);
    (draft.diverge(TerminatorShape::Return(place), origin).code, start)
}

/// Whether `part` is finite and less deep than `expr`.
pub open spec fn shallower(tree: Tree, part: validated::Expr, expr: validated::Expr) -> bool {
    &&& tree.is_finite(part)
    &&& tree.depth(part) < tree.depth(expr)
}

/// Whether all of `exprs` are finite.
pub open spec fn all_finite(tree: Tree, exprs: Seq<validated::Expr>) -> bool {
    forall|k: int| 0 <= k < exprs.len() ==> tree.is_finite(#[trigger] exprs[k])
}

/// How deeply expressions are nested in `exprs`.
pub open spec fn depth_of_all(tree: Tree, exprs: Seq<validated::Expr>) -> nat
    decreases exprs.len(),
{
    if exprs.len() == 0 {
        0
    } else {
        let rest = depth_of_all(tree, exprs.drop_last());
        let last = tree.depth(exprs.last());
        if rest > last {
            rest
        } else {
            last
        }
    }
}

/// Whether all of `parts` are finite and less deep than `expr`.
pub open spec fn all_shallower(
    tree: Tree,
    parts: Seq<validated::Expr>,
    expr: validated::Expr,
) -> bool {
    &&& all_finite(tree, parts)
    &&& depth_of_all(tree, parts) < tree.depth(expr)
}

proof fn lemma_depth_of_all(tree: Tree, parts: Seq<validated::Expr>, expr: validated::Expr)
    requires
        0 < tree.depth(expr),
        forall|k: int| 0 <= k < parts.len() ==> shallower(tree, #[trigger] parts[k], expr),
    ensures
        all_shallower(tree, parts, expr),
    decreases parts.len(),
{
    if parts.len() > 0 {
        lemma_depth_of_all(tree, parts.drop_last(), expr);
        assert(shallower(tree, parts[parts.len() - 1], expr));
    }
}

/// The expressions inside a finite expression are finite and less deep.
pub proof fn lemma_parts_are_shallower(tree: Tree, expr: validated::Expr)
    requires
        tree.is_finite(expr),
    ensures
        match tree.expr(expr) {
            ExprData::Await(future) => shallower(tree, future, expr),
            ExprData::If(condition, if_true, if_false) => {
                &&& shallower(tree, condition, expr)
                &&& shallower(tree, if_true, expr)
                &&& shallower(tree, if_false, expr)
            },
            ExprData::Loop(body) => shallower(tree, body, expr),
            ExprData::Break { from_expr: _, with_value } => shallower(tree, with_value, expr),
            ExprData::Return(value) => shallower(tree, value, expr),
            ExprData::Assign(_, value) => shallower(tree, value, expr),
            ExprData::Sequence(exprs) => exprs@.len() > 0 ==> {
                &&& all_shallower(tree, exprs@.drop_last(), expr)
                &&& shallower(tree, exprs@.last(), expr)
            },
            ExprData::Op(lhs, _, rhs) => shallower(tree, lhs, expr) && shallower(tree, rhs, expr),
            ExprData::Call(function, arguments) => {
                &&& shallower(tree, function, expr)
                &&& all_shallower(tree, tree.argument_exprs(arguments@), expr)
            },
            ExprData::Tuple(exprs) => all_shallower(tree, exprs@, expr),
            ExprData::Atomic(inner) => shallower(tree, inner, expr),
            _ => true,
        },
{
    let parts = tree.parts(expr);
    assert forall|k: int| 0 <= k < parts.len() implies shallower(
        tree,
        #[trigger] parts[k],
        expr,
    ) by {
        tree.lemma_part_is_shallower(expr, k);
    }
    tree.lemma_depth_is_positive(expr);
    match tree.expr(expr) {
        ExprData::If(condition, if_true, if_false) => {
            assert(parts[0] == condition && parts[1] == if_true && parts[2] == if_false);
        },
        ExprData::Op(lhs, _, rhs) => {
            assert(parts[0] == lhs && parts[1] == rhs);
        },
        ExprData::Sequence(exprs) => {
            if exprs@.len() > 0 {
                assert(parts[exprs@.len() - 1] == exprs@.last());
                assert forall|k: int| 0 <= k < exprs@.drop_last().len() implies shallower(
                    tree,
                    #[trigger] exprs@.drop_last()[k],
                    expr,
                ) by {
                    assert(exprs@.drop_last()[k] == parts[k]);
                }
                lemma_depth_of_all(tree, exprs@.drop_last(), expr);
            }
        },
        ExprData::Call(function, arguments) => {
            let values = tree.argument_exprs(arguments@);
            assert(parts[0] == function);
            assert forall|k: int| 0 <= k < values.len() implies shallower(
                tree,
                #[trigger] values[k],
                expr,
            ) by {
                assert(values[k] == parts[k + 1]);
            }
            lemma_depth_of_all(tree, values, expr);
        },
        ExprData::Tuple(exprs) => lemma_depth_of_all(tree, exprs@, expr),
        _ => {
            if parts.len() > 0 {
                assert(shallower(tree, parts[0], expr));
            }
        },
    }
}

/// Whether all of `exprs` can be brewed where `loops` are open.
pub open spec fn all_valid(
    tree: Tree,
    exprs: Seq<validated::Expr>,
    loops: Set<validated::Expr>,
) -> bool {
    forall|k: int| 0 <= k < exprs.len() ==> tree.valid_expr(#[trigger] exprs[k], loops)
}

/// The expressions inside an expression that can be brewed can be brewed.
pub proof fn lemma_parts_are_valid(
    tree: Tree,
    expr: validated::Expr,
    loops: Set<validated::Expr>,
)
    requires
        tree.valid_expr(expr, loops),
    ensures
        match tree.expr(expr) {
            ExprData::Await(future) => tree.valid_expr(future, loops),
            ExprData::If(condition, if_true, if_false) => {
                &&& tree.valid_expr(condition, loops)
                &&& tree.valid_expr(if_true, loops)
                &&& tree.valid_expr(if_false, loops)
            },
            ExprData::Loop(body) => tree.valid_expr(body, loops.insert(expr)),
            ExprData::Break { from_expr: _, with_value } => tree.valid_expr(with_value, loops),
            ExprData::Return(value) => tree.valid_expr(value, loops),
            ExprData::Assign(_, value) => tree.valid_expr(value, loops),
            ExprData::Sequence(exprs) => all_valid(tree, exprs@, loops),
            ExprData::Op(lhs, _, rhs) => {
                &&& tree.valid_expr(lhs, loops)
                &&& tree.valid_expr(rhs, loops)
            },
            ExprData::Call(function, arguments) => {
                &&& tree.valid_expr(function, loops)
                &&& all_valid(tree, tree.argument_exprs(arguments@), loops)
            },
            ExprData::Tuple(exprs) => all_valid(tree, exprs@, loops),
            ExprData::Atomic(inner) => tree.valid_expr(inner, loops),
            _ => true,
        },
{
    let parts = tree.parts(expr);
    let inside = tree.loops_inside(expr, loops);
    assert forall|k: int| 0 <= k < parts.len() implies tree.valid_expr(
        #[trigger] parts[k],
        inside,
    ) by {
        tree.lemma_part_is_valid(expr, loops, k);
    }
    match tree.expr(expr) {
        ExprData::If(condition, if_true, if_false) => {
            assert(parts[0] == condition && parts[1] == if_true && parts[2] == if_false);
        },
        ExprData::Op(lhs, _, rhs) => {
            assert(parts[0] == lhs && parts[1] == rhs);
        },
        ExprData::Call(function, arguments) => {
            let values = tree.argument_exprs(arguments@);
            assert(parts[0] == function);
            assert forall|k: int| 0 <= k < values.len() implies tree.valid_expr(
                #[trigger] values[k],
                loops,
            ) by {
                assert(values[k] == parts[k + 1]);
            }
        },
        _ => {
            if parts.len() > 0 {
                assert(tree.valid_expr(parts[0], inside));
            }
        },
    }
}

/// The depth of a series is at least the depth of each of its parts.
pub proof fn lemma_depth_of_one(tree: Tree, exprs: Seq<validated::Expr>, k: int)
    requires
        0 <= k < exprs.len(),
    ensures
        tree.depth(exprs[k]) <= depth_of_all(tree, exprs),
    decreases exprs.len(),
{
    if k < exprs.len() - 1 {
        lemma_depth_of_one(tree, exprs.drop_last(), k);
    }
}

/// Whether `expr` only directs control, or only stores a value in a place.
pub open spec fn is_command(tree: Tree, expr: validated::Expr) -> bool {
    match tree.expr(expr) {
        ExprData::Break { .. } => true,
        ExprData::Continue(_) => true,
        ExprData::Return(_) => true,
        ExprData::Error => true,
        ExprData::Assign(_, _) => true,
        _ => false,
    }
}

/// The code once `place` has been added to it, the place that stands for it, and the origins of
/// the places on the way to it, outermost owner first, then its own.
pub open spec fn brewed_place(tree: Tree, code: Code, place: validated::Place) -> (
    Code,
    Place,
    Seq<ExprOrigin>,
)
    decreases tree.place_depth(place),
    when tree.valid_place(place)
{
    let origin = tree.place_origin(place);
    match tree.place(place) {
        validated::PlaceData::LocalVariable(variable) => {
            let code = code.add_place(
                PlaceData::LocalVariable(bir::LocalVariable { index: variable.index }),
                origin,
            );
            (code, code.last_place(), seq![origin])
        },
        validated::PlaceData::Function(function) => {
            let code = code.add_place(PlaceData::Function(function), origin);
            (code, code.last_place(), seq![origin])
        },
        validated::PlaceData::Intrinsic(intrinsic) => {
            let code = code.add_place(PlaceData::Intrinsic(intrinsic), origin);
            (code, code.last_place(), seq![origin])
        },
        validated::PlaceData::Class(class) => {
            let code = code.add_place(PlaceData::Class(class), origin);
            (code, code.last_place(), seq![origin])
        },
        validated::PlaceData::Dot(owner, field) => {
            proof {
                tree.lemma_owner_is_valid(place);
            }
            let (code, base, origins) = brewed_place(tree, code, owner);
            let code = code.add_place(PlaceData::Dot(base, field), origin);
            (code, code.last_place(), origins.push(origin))
        },
    }
}

/// `draft` once `expr` has been evaluated for what it does, `loops` being open around it.
pub open spec fn side_effects(
    tree: Tree,
    loops: Map<validated::Expr, LoopContext>,
    draft: Draft,
    expr: validated::Expr,
) -> Draft
    decreases
            tree.depth(expr),
            if is_command(tree, expr) {
                0int
            } else {
                3int
            },
            0nat,
    when tree.is_finite(expr)
{
    proof {
        lemma_parts_are_shallower(tree, expr);
    }
    let origin = tree.expr_origin(expr);
    match tree.expr(expr) {
        ExprData::Break { from_expr, with_value } => {
            let context = loops[from_expr];
            assigned(tree, loops, draft, context.loop_value, with_value).cusp(
                Some(context.loop_value),
                origin,
            ).goto(context.break_block, origin)
        },
        ExprData::Continue(from_expr) => {
            draft.cusp(None, origin).goto(loops[from_expr].continue_block, origin)
        },
        ExprData::Return(value) => {
            let (draft, place) = to_temporary(tree, loops, draft, value);
            draft.cusp(Some(place), origin).diverge(TerminatorShape::Return(place), origin)
        },
        ExprData::Error => draft.cusp(None, origin).diverge(TerminatorShape::Error, origin),
        ExprData::Assign(place, value) => {
            let (code, target, origins) = brewed_place(tree, draft.code, place);
            assigned(tree, loops, Draft { code, ..draft }, target, value).cusps(
                None,
                origins,
                origin,
            )
        },
        _ => to_temporary(tree, loops, draft, expr).0,
    }
}

/// `draft` once the value of `expr` has been stored in a new temporary, and that temporary.
pub open spec fn to_temporary(
    tree: Tree,
    loops: Map<validated::Expr, LoopContext>,
    draft: Draft,
    expr: validated::Expr,
) -> (Draft, Place)
    decreases tree.depth(expr), 2int, 0nat,
    when tree.is_finite(expr)
{
    let (draft, temporary) = draft.new_temporary(tree.expr_origin(expr));
    (assigned(tree, loops, draft, temporary, expr), temporary)
}

/// `draft` once the values of `exprs` have been stored in new temporaries, one after the other,
/// and those temporaries.
pub open spec fn to_temporaries(
    tree: Tree,
    loops: Map<validated::Expr, LoopContext>,
    draft: Draft,
    exprs: Seq<validated::Expr>,
) -> (Draft, Seq<Place>)
    decreases depth_of_all(tree, exprs), 4int, exprs.len(),
    when all_finite(tree, exprs)
{
    if exprs.len() == 0 {
        (draft, seq![])
    } else {
        let (draft, places) = to_temporaries(tree, loops, draft, exprs.drop_last());
        let (draft, place) = to_temporary(tree, loops, draft, exprs.last());
        (draft, places.push(place))
    }
}

/// `draft` once `exprs` have been evaluated for what they do, one after the other.
pub open spec fn all_side_effects(
    tree: Tree,
    loops: Map<validated::Expr, LoopContext>,
    draft: Draft,
    exprs: Seq<validated::Expr>,
) -> Draft
    decreases depth_of_all(tree, exprs), 4int, exprs.len(),
    when all_finite(tree, exprs)
{
    if exprs.len() == 0 {
        draft
    } else {
        let draft = all_side_effects(tree, loops, draft, exprs.drop_last());
        side_effects(tree, loops, draft, exprs.last())
    }
}

/// The names of a series of arguments.
pub open spec fn labels(tree: Tree, arguments: Seq<NamedExpr>) -> Seq<Word> {
    arguments.map_values(|argument: NamedExpr| tree.named_expr(argument).name)
}

/// `draft` once the value of `expr` has been stored in `target`, `loops` being open around it.
pub open spec fn assigned(
    tree: Tree,
    loops: Map<validated::Expr, LoopContext>,
    draft: Draft,
    target: Place,
    expr: validated::Expr,
) -> Draft
    decreases tree.depth(expr), 1int, 0nat,
    when tree.is_finite(expr)
{
    proof {
        lemma_parts_are_shallower(tree, expr);
    }
    let origin = tree.expr_origin(expr);
    match tree.expr(expr) {
        ExprData::Await(future) => {
            let (draft, place) = to_temporary(tree, loops, draft, future);
            let (draft, next) = draft.new_block(origin);
            draft.terminate(
                TerminatorShape::Assign(target, TerminatorExprShape::Await(place), next),
                Some(next),
                origin,
            ).cusp(Some(target), origin)
        },
        ExprData::If(condition, if_true, if_false) => {
            let (draft, test) = to_temporary(tree, loops, draft, condition);
            let (draft, true_block) = draft.new_block(origin);
            let (draft, false_block) = draft.new_block(origin);
            let (draft, join) = draft.new_block(origin);
            let forked = draft.terminate(
                TerminatorShape::If(test, true_block, false_block),
                Some(join),
                origin,
            ).cusp(Some(target), origin);
            let one = assigned(tree, loops, forked.at(Some(true_block)), target, if_true).goto(
                join,
                origin,
            );
            let both = assigned(tree, loops, one.at(Some(false_block)), target, if_false).goto(
                join,
                origin,
            );
            both.at(forked.end)
        },
        ExprData::Loop(body) => {
            let (draft, body_block) = draft.new_block(origin);
            let (draft, break_block) = draft.new_block(origin);
            let entered = draft.terminate(
                TerminatorShape::Goto(body_block),
                Some(break_block),
                origin,
            ).cusp(Some(target), origin);
            let context = LoopContext {
                continue_block: body_block,
                break_block,
                loop_value: target,
            };
            side_effects(
                tree,
                loops.insert(expr, context),
                entered.at(Some(body_block)),
                body,
            ).goto(body_block, origin).at(entered.end)
        },
        ExprData::Share(place) => {
            let (code, source, origins) = brewed_place(tree, draft.code, place);
            Draft { code, ..draft }.assign(target, ExprShape::Share(source), origin).cusps(
                Some(target),
                origins,
                origin,
            )
        },
        ExprData::Lease(place) => {
            let (code, source, origins) = brewed_place(tree, draft.code, place);
            Draft { code, ..draft }.assign(target, ExprShape::Lease(source), origin).cusps(
                Some(target),
                origins,
                origin,
            )
        },
        ExprData::Give(place) => {
            let (code, source, origins) = brewed_place(tree, draft.code, place);
            Draft { code, ..draft }.assign(target, ExprShape::Give(source), origin).cusps(
                Some(target),
                origins,
                origin,
            )
        },
        ExprData::BooleanLiteral(value) => draft.assign(
            target,
            ExprShape::BooleanLiteral(value),
            origin,
        ).cusp(Some(target), origin),
        ExprData::IntegerLiteral(value) => draft.assign(
            target,
            ExprShape::IntegerLiteral(value),
            origin,
        ).cusp(Some(target), origin),
        ExprData::StringLiteral(value) => draft.assign(
            target,
            ExprShape::StringLiteral(value),
            origin,
        ).cusp(Some(target), origin),
        ExprData::Tuple(exprs) => {
            let (draft, places) = to_temporaries(tree, loops, draft, exprs@);
            let value = if places.len() == 0 {
                ExprShape::Unit
            } else {
                ExprShape::Tuple(places)
            };
            draft.assign(target, value, origin).cusp(Some(target), origin)
        },
        ExprData::Op(lhs, op, rhs) => {
            let (draft, left) = to_temporary(tree, loops, draft, lhs);
            let (draft, right) = to_temporary(tree, loops, draft, rhs);
            draft.assign(target, ExprShape::Op(left, op, right), origin).cusp(
                Some(target),
                origin,
            )
        },
        ExprData::Sequence(exprs) => {
            if exprs@.len() == 0 {
                draft.assign(target, ExprShape::Unit, origin).cusp(Some(target), origin)
            } else {
                let draft = all_side_effects(tree, loops, draft, exprs@.drop_last());
                assigned(tree, loops, draft, target, exprs@.last()).cusp(Some(target), origin)
            }
        },
        ExprData::Assign(_, _) => {
            side_effects(tree, loops, draft, expr).assign(target, ExprShape::Unit, origin)
        },
        ExprData::Call(function, arguments) => {
            let (draft, callee) = to_temporary(tree, loops, draft, function);
            let (draft, places) = to_temporaries(
                tree,
                loops,
                draft,
                tree.argument_exprs(arguments@),
            );
            let (draft, next) = draft.new_block(origin);
            let call = TerminatorExprShape::Call {
                function: callee,
                arguments: places,
                labels: labels(tree, arguments@),
            };
            draft.terminate(
                TerminatorShape::Assign(target, call, next),
                Some(next),
                origin,
            ).cusp(Some(target), origin)
        },
        ExprData::Atomic(inner) => {
            let (draft, inside) = draft.new_block(origin);
            let draft = draft.terminate(
                TerminatorShape::StartAtomic(inside),
                Some(inside),
                origin,
            );
            let draft = assigned(tree, loops, draft, target, inner);
            let (draft, after) = draft.new_block(origin);
            draft.terminate(TerminatorShape::EndAtomic(after), Some(after), origin).cusp(
                Some(target),
                origin,
            )
        },
        ExprData::Error => side_effects(tree, loops, draft, expr),
        ExprData::Return(_) => side_effects(tree, loops, draft, expr),
        ExprData::Continue(_) => side_effects(tree, loops, draft, expr),
        ExprData::Break { .. } => side_effects(tree, loops, draft, expr),
    }
}

/// The places on the way to `place`, outermost owner first, then `place` itself.
pub open spec fn way_to(tree: Tree, place: validated::Place) -> Seq<validated::Place>
    decreases tree.place_depth(place),
    when tree.valid_place(place)
{
    match tree.place(place) {
        validated::PlaceData::Dot(owner, _) => {
            proof {
                tree.lemma_owner_is_valid(place);
            }
            way_to(tree, owner).push(place)
        },
        _ => seq![place],
    }
}

/// Whether `brewed` among `places` is the same variable, function or class as `place`, or the same
/// field of the same place.
pub open spec fn same_place(
    tree: Tree,
    place: validated::Place,
    places: Seq<PlaceData>,
    brewed: Place,
) -> bool
    decreases tree.place_depth(place),
    when tree.valid_place(place)
{
    &&& brewed.index < places.len()
    &&& match tree.place(place) {
        validated::PlaceData::LocalVariable(variable) => places[brewed.index as int]
            == PlaceData::LocalVariable(bir::LocalVariable { index: variable.index }),
        validated::PlaceData::Function(function) => places[brewed.index as int]
            == PlaceData::Function(function),
        validated::PlaceData::Intrinsic(intrinsic) => places[brewed.index as int]
            == PlaceData::Intrinsic(intrinsic),
        validated::PlaceData::Class(class) => places[brewed.index as int] == PlaceData::Class(
            class,
        ),
        validated::PlaceData::Dot(owner, field) => {
            proof {
                tree.lemma_owner_is_valid(place);
            }
            &&& places[brewed.index as int] matches PlaceData::Dot(base, name)
            &&& name == field
            &&& same_place(tree, owner, places, base)
        },
    }
}

proof fn lemma_same_place_after_growth(
    tree: Tree,
    place: validated::Place,
    places: Seq<PlaceData>,
    later: Seq<PlaceData>,
    brewed: Place,
)
    requires
        tree.valid_place(place),
        same_place(tree, place, places, brewed),
        places.is_prefix_of(later),
    ensures
        same_place(tree, place, later, brewed),
    decreases tree.place_depth(place),
{
    assert(later[brewed.index as int] == places[brewed.index as int]);
    if let validated::PlaceData::Dot(owner, _) = tree.place(place) {
        tree.lemma_owner_is_valid(place);
        if let PlaceData::Dot(base, _) = places[brewed.index as int] {
            lemma_same_place_after_growth(tree, owner, places, later, base);
        }
    }
}

/// A brewed place is the place that it was brewed from, and the origins that come with it are
/// those of the places on the way to it: for `a.b.c` those of `a`, `a.b` and `a.b.c`.
pub proof fn lemma_brewed_place_is_same(tree: Tree, code: Code, place: validated::Place)
    requires
        tree.valid_place(place),
        brewed_place(tree, code, place).0.places.len() <= usize::MAX,
    ensures
        ({
            let (after, brewed, origins) = brewed_place(tree, code, place);
            &&& same_place(tree, place, after.places, brewed)
            &&& origins == way_to(tree, place).map_values(
                |on_way: validated::Place| tree.place_origin(on_way),
            )
            &&& code.places.is_prefix_of(after.places)
        }),
    decreases tree.place_depth(place),
{
    let (after, brewed, origins) = brewed_place(tree, code, place);
    let way = way_to(tree, place).map_values(|on_way: validated::Place| tree.place_origin(on_way));
    if let validated::PlaceData::Dot(owner, field) = tree.place(place) {
        tree.lemma_owner_is_valid(place);
        lemma_brewed_place_is_same(tree, code, owner);
        let (between, base, _) = brewed_place(tree, code, owner);
        lemma_same_place_after_growth(tree, owner, between.places, after.places, base);
    }
    assert(origins =~= way);
}

} // verus!
