//! Brewing validated code into basic blocks.
use vstd::prelude::*;

use crate::base::{StorageMode, Word};
use crate::bir;
use crate::bir::{Bir, BirData, Place, PlaceData, TerminatorData, TerminatorExpr};
use crate::brewery::Brewery;
use crate::cursor::Cursor;
use crate::growth;
use crate::recipe;
use crate::recipe::{Draft, LoopContext};
use crate::validated;
use crate::validated::{ExprData, ExprOrigin, LocalVariableOrigin, NamedExpr, Tree};

verus! {

impl Cursor {
    /// Whether brewing has led from `before`, in the code of `brewery_before`, to `self`, where the
    /// code of `brewery` is `draft`.
    pub open spec fn has_brewed(
        self,
        brewery: Brewery<'_>,
        before: Cursor,
        brewery_before: Brewery<'_>,
        draft: Draft,
    ) -> bool {
        &&& self.start_block == before.start_block
        &&& self.is_in(brewery)
        &&& brewery.continues(brewery_before)
        &&& self.draft(brewery) == draft
        &&& brewery_before.code().basic_blocks.len() <= brewery.code().basic_blocks.len()
    }

    /// Brews `expr` for what it does.
    pub fn brew_expr_for_side_effects(&mut self, brewery: &mut Brewery<'_>, expr: validated::Expr)
        requires
            old(self).is_in(*old(brewery)),
            old(brewery).tree().valid_expr(expr, old(brewery).loops().dom()),
        ensures
            final(self).has_brewed(
                *final(brewery),
                *old(self),
                *old(brewery),
                recipe::side_effects(
                    old(brewery).tree(),
                    old(brewery).loops(),
                    old(self).draft(*old(brewery)),
                    expr,
                ),
            ),
        decreases
                old(brewery).tree().depth(expr),
                if recipe::is_command(old(brewery).tree(), expr) {
                    0int
                } else {
                    3int
                },
                0nat,
    {
        let tree: &Tree = brewery.validated_tree;
        proof {
            recipe::lemma_parts_are_shallower(*tree, expr);
            recipe::lemma_parts_are_valid(*tree, expr, brewery.loops().dom());
        }
        let origin = tree.origins.exprs[expr.index];
        match &tree.data.tables.exprs[expr.index] {
            ExprData::Break { from_expr, with_value } => {
                let loop_context = brewery.loop_context(*from_expr);
                self.brew_expr_and_assign_to(brewery, loop_context.loop_value, *with_value);
                self.push_cusp(brewery, Some(loop_context.loop_value), origin);
                self.terminate_and_goto(brewery, loop_context.break_block, origin);
            },
            ExprData::Continue(from_expr) => {
                let loop_context = brewery.loop_context(*from_expr);
                self.push_cusp(brewery, None, origin);
                self.terminate_and_goto(brewery, loop_context.continue_block, origin);
            },
            ExprData::Return(value_expr) => {
                if let Some(value_place) = self.brew_expr_to_temporary(brewery, *value_expr) {
                    self.push_cusp(brewery, Some(value_place), origin);
                    self.terminate_and_diverge(
                        brewery,
                        TerminatorData::Return(value_place),
                        origin,
                    );
                }
            },
            ExprData::Error => {
                self.push_cusp(brewery, None, origin);
                self.terminate_and_diverge(brewery, TerminatorData::Error, origin);
            },
            ExprData::Assign(place, value_expr) => {
                let (place, origins) = self.brew_place(brewery, *place);
                self.brew_expr_and_assign_to(brewery, place, *value_expr);
                self.push_cusps(brewery, None, origins, origin);
            },
            _ => {
                self.brew_expr_to_temporary(brewery, expr);
            },
        }
    }

    /// Brews `expr` and stores its value in a new temporary.
    pub fn brew_expr_to_temporary(
        &mut self,
        brewery: &mut Brewery<'_>,
        expr: validated::Expr,
    ) -> (place: Option<Place>)
        requires
            old(self).is_in(*old(brewery)),
            old(brewery).tree().valid_expr(expr, old(brewery).loops().dom()),
        ensures
            ({
                let (draft, temporary) = recipe::to_temporary(
                    old(brewery).tree(),
                    old(brewery).loops(),
                    old(self).draft(*old(brewery)),
                    expr,
                );
                &&& final(self).has_brewed(*final(brewery), *old(self), *old(brewery), draft)
                &&& place == Some(temporary)
            }),
        decreases old(brewery).tree().depth(expr), 2int, 0nat,
    {
        let origin = brewery.validated_tree.origins.exprs[expr.index];
        // Spill into a temporary
        let temp_place = add_temporary_place(brewery, origin);
        self.brew_expr_and_assign_to(brewery, temp_place, expr);
        Some(temp_place)
    }

    /// Brews `exprs` one after the other and stores their values in new temporaries.
    fn brew_exprs_to_temporaries(
        &mut self,
        brewery: &mut Brewery<'_>,
        exprs: &Vec<validated::Expr>,
    ) -> (places: Vec<Place>)
        requires
            old(self).is_in(*old(brewery)),
            recipe::all_valid(old(brewery).tree(), exprs@, old(brewery).loops().dom()),
        ensures
            ({
                let (draft, temporaries) = recipe::to_temporaries(
                    old(brewery).tree(),
                    old(brewery).loops(),
                    old(self).draft(*old(brewery)),
                    exprs@,
                );
                &&& final(self).has_brewed(*final(brewery), *old(self), *old(brewery), draft)
                &&& places@ == temporaries
            }),
        decreases recipe::depth_of_all(old(brewery).tree(), exprs@), 4int, 0nat,
    {
        let ghost tree = brewery.tree();
        let ghost loops = brewery.loops();
        let ghost start = self.draft(*brewery);
        let mut places: Vec<Place> = Vec::new();
        let mut i: usize = 0;
        while i < exprs.len()
            invariant
                i <= exprs@.len(),
                tree == old(brewery).tree(),
                loops == old(brewery).loops(),
                start == old(self).draft(*old(brewery)),
                recipe::all_valid(tree, exprs@, loops.dom()),
                ({
                    let (draft, temporaries) = recipe::to_temporaries(
                        tree,
                        loops,
                        start,
                        exprs@.take(i as int),
                    );
                    &&& self.has_brewed(*brewery, *old(self), *old(brewery), draft)
                    &&& places@ == temporaries
                }),
            decreases exprs@.len() - i,
        {
            proof {
                recipe::lemma_depth_of_one(tree, exprs@, i as int);
                assert(exprs@.take(i + 1).drop_last() =~= exprs@.take(i as int));
                assert(exprs@.take(i + 1).last() == exprs@[i as int]);
            }
            if let Some(place) = self.brew_expr_to_temporary(brewery, exprs[i]) {
                places.push(place);
            }
            i = i + 1;
        }
        assert(exprs@.take(i as int) =~= exprs@);
        places
    }

    /// Brews all of `exprs` but the last for what they do.
    fn brew_prefix_for_side_effects(
        &mut self,
        brewery: &mut Brewery<'_>,
        exprs: &Vec<validated::Expr>,
    )
        requires
            old(self).is_in(*old(brewery)),
            exprs@.len() > 0,
            recipe::all_valid(old(brewery).tree(), exprs@, old(brewery).loops().dom()),
        ensures
            final(self).has_brewed(
                *final(brewery),
                *old(self),
                *old(brewery),
                recipe::all_side_effects(
                    old(brewery).tree(),
                    old(brewery).loops(),
                    old(self).draft(*old(brewery)),
                    exprs@.drop_last(),
                ),
            ),
        decreases recipe::depth_of_all(old(brewery).tree(), exprs@.drop_last()), 4int, 0nat,
    {
        let ghost tree = brewery.tree();
        let ghost loops = brewery.loops();
        let ghost start = self.draft(*brewery);
        let ghost prefix = exprs@.drop_last();
        let mut i: usize = 0;
        while i < exprs.len() - 1
            invariant
                i <= exprs@.len() - 1,
                prefix == exprs@.drop_last(),
                tree == old(brewery).tree(),
                loops == old(brewery).loops(),
                start == old(self).draft(*old(brewery)),
                recipe::all_valid(tree, exprs@, loops.dom()),
                self.has_brewed(
                    *brewery,
                    *old(self),
                    *old(brewery),
                    recipe::all_side_effects(tree, loops, start, prefix.take(i as int)),
                ),
            decreases exprs@.len() - i,
        {
            proof {
                recipe::lemma_depth_of_one(tree, prefix, i as int);
                assert(prefix.take(i + 1).drop_last() =~= prefix.take(i as int));
                assert(prefix.take(i + 1).last() == exprs@[i as int]);
            }
            self.brew_expr_for_side_effects(brewery, exprs[i]);
            i = i + 1;
        }
        assert(prefix.take(i as int) =~= prefix);
    }

    /// Brews an argument and stores its value in a new temporary. Gives the temporary and the name
    /// of the argument.
    fn brew_named_expr(&mut self, brewery: &mut Brewery<'_>, named_expr: NamedExpr) -> (brewed:
        Option<(Place, Word)>)
        requires
            old(self).is_in(*old(brewery)),
            named_expr.index < old(brewery).tree().data.tables.named_exprs@.len(),
            old(brewery).tree().valid_expr(
                old(brewery).tree().named_expr(named_expr).expr,
                old(brewery).loops().dom(),
            ),
        ensures
            ({
                let data = old(brewery).tree().named_expr(named_expr);
                let (draft, temporary) = recipe::to_temporary(
                    old(brewery).tree(),
                    old(brewery).loops(),
                    old(self).draft(*old(brewery)),
                    data.expr,
                );
                &&& final(self).has_brewed(*final(brewery), *old(self), *old(brewery), draft)
                &&& brewed == Some((temporary, data.name))
            }),
        decreases
                old(brewery).tree().depth(old(brewery).tree().named_expr(named_expr).expr),
                3int,
                0nat,
    {
        let data = brewery.validated_tree.data.tables.named_exprs[named_expr.index];
        let place = self.brew_expr_to_temporary(brewery, data.expr)?;
        Some((place, data.name))
    }

    /// Brews `arguments` one after the other and stores their values in new temporaries. Gives the
    /// temporaries and the names of the arguments.
    fn brew_named_exprs(&mut self, brewery: &mut Brewery<'_>, arguments: &Vec<NamedExpr>) -> (
        brewed: (Vec<Place>, Vec<Word>))
        requires
            old(self).is_in(*old(brewery)),
            forall|k: int|
                0 <= k < arguments@.len() ==> (#[trigger] arguments@[k]).index < old(
                    brewery,
                ).tree().data.tables.named_exprs@.len(),
            recipe::all_valid(
                old(brewery).tree(),
                old(brewery).tree().argument_exprs(arguments@),
                old(brewery).loops().dom(),
            ),
        ensures
            ({
                let (draft, temporaries) = recipe::to_temporaries(
                    old(brewery).tree(),
                    old(brewery).loops(),
                    old(self).draft(*old(brewery)),
                    old(brewery).tree().argument_exprs(arguments@),
                );
                &&& final(self).has_brewed(*final(brewery), *old(self), *old(brewery), draft)
                &&& brewed.0@ == temporaries
                &&& brewed.1@ == recipe::labels(old(brewery).tree(), arguments@)
            }),
        decreases
                recipe::depth_of_all(
                    old(brewery).tree(),
                    old(brewery).tree().argument_exprs(arguments@),
                ),
                4int,
                0nat,
    {
        let ghost tree = brewery.tree();
        let ghost loops = brewery.loops();
        let ghost start = self.draft(*brewery);
        let ghost exprs = tree.argument_exprs(arguments@);
        let mut places: Vec<Place> = Vec::new();
        let mut names: Vec<Word> = Vec::new();
        let mut i: usize = 0;
        while i < arguments.len()
            invariant
                i <= arguments@.len(),
                tree == old(brewery).tree(),
                loops == old(brewery).loops(),
                start == old(self).draft(*old(brewery)),
                exprs == tree.argument_exprs(arguments@),
                recipe::all_valid(tree, exprs, loops.dom()),
                forall|k: int|
                    0 <= k < arguments@.len() ==> (#[trigger] arguments@[k]).index
                        < tree.data.tables.named_exprs@.len(),
                ({
                    let (draft, temporaries) = recipe::to_temporaries(
                        tree,
                        loops,
                        start,
                        exprs.take(i as int),
                    );
                    &&& self.has_brewed(*brewery, *old(self), *old(brewery), draft)
                    &&& places@ == temporaries
                }),
                names@ =~= recipe::labels(tree, arguments@).take(i as int),
            decreases arguments@.len() - i,
        {
            proof {
                assert(exprs[i as int] == tree.named_expr(arguments@[i as int]).expr);
                recipe::lemma_depth_of_one(tree, exprs, i as int);
                assert(exprs.take(i + 1).drop_last() =~= exprs.take(i as int));
                assert(exprs.take(i + 1).last() == exprs[i as int]);
            }
            if let Some((place, name)) = self.brew_named_expr(brewery, arguments[i]) {
                places.push(place);
                names.push(name);
            }
            i = i + 1;
        }
        assert(exprs.take(i as int) =~= exprs);
        (places, names)
    }

    /// Compiles an expression down to the value it produces, which is stored in `target`.
    ///
    /// Returns `None` if this is an expression (like `break`) that
    /// produces diverging control flow (and hence no value): the
    /// cursor then has no block.
    #[verifier::rlimit(40)]
    pub fn brew_expr_and_assign_to(
        &mut self,
        brewery: &mut Brewery<'_>,
        target: Place,
        expr: validated::Expr,
    ) -> (value: Option<Place>)
        requires
            old(self).is_in(*old(brewery)),
            old(brewery).tree().valid_expr(expr, old(brewery).loops().dom()),
        ensures
            final(self).has_brewed(
                *final(brewery),
                *old(self),
                *old(brewery),
                recipe::assigned(
                    old(brewery).tree(),
                    old(brewery).loops(),
                    old(self).draft(*old(brewery)),
                    target,
                    expr,
                ),
            ),
            value == (if final(self).end_block is Some {
                Some(target)
            } else {
                None
            }),
        decreases old(brewery).tree().depth(expr), 1int, 0nat,
    {
        let tree: &Tree = brewery.validated_tree;
        proof {
            recipe::lemma_parts_are_shallower(*tree, expr);
            recipe::lemma_parts_are_valid(*tree, expr, brewery.loops().dom());
        }
        let origin = tree.origins.exprs[expr.index];
        match &tree.data.tables.exprs[expr.index] {
            ExprData::Await(future) => {
                if let Some(place) = self.brew_expr_to_temporary(brewery, *future) {
                    let next_block = brewery.dummy_block(origin);
                    self.terminate_and_continue(
                        brewery,
                        TerminatorData::Assign(target, TerminatorExpr::Await(place), next_block),
                        next_block,
                        origin,
                    );
                    self.push_cusp(brewery, Some(target), origin);
                }
            },
            ExprData::If(condition, if_true, if_false) => {
                if let Some(condition_place) = self.brew_expr_to_temporary(brewery, *condition) {
                    let if_true_block = brewery.dummy_block(origin);
                    let if_false_block = brewery.dummy_block(origin);
                    let join_block = brewery.dummy_block(origin);
                    self.terminate_and_continue(
                        brewery,
                        TerminatorData::If(condition_place, if_true_block, if_false_block),
                        join_block,
                        origin,
                    );
                    // "cusp" of an if is after it completes
                    self.push_cusp(brewery, Some(target), origin);

                    let mut if_true_cursor = self.with_end_block(if_true_block);
                    if_true_cursor.brew_expr_and_assign_to(brewery, target, *if_true);
                    if_true_cursor.terminate_and_goto(brewery, join_block, origin);

                    let mut if_false_cursor = self.with_end_block(if_false_block);
                    if_false_cursor.brew_expr_and_assign_to(brewery, target, *if_false);
                    if_false_cursor.terminate_and_goto(brewery, join_block, origin);
                }
            },
            ExprData::Loop(body) => {
                let body_block = brewery.dummy_block(origin);
                let break_block = brewery.dummy_block(origin);
                self.terminate_and_continue(
                    brewery,
                    TerminatorData::Goto(body_block),
                    break_block,
                    origin,
                );
                // "cusp" of a loop is after it breaks
                self.push_cusp(brewery, Some(target), origin);

                let ghost contexts = brewery.loop_contexts@;
                brewery.push_loop_context(
                    expr,
                    LoopContext { continue_block: body_block, break_block, loop_value: target },
                );
                let mut body_cursor = self.with_end_block(body_block);
                body_cursor.brew_expr_for_side_effects(brewery, *body);
                body_cursor.terminate_and_diverge(
                    brewery,
                    TerminatorData::Goto(body_block),
                    origin,
                );
                brewery.pop_loop_context();
                assert(brewery.loop_contexts@ =~= contexts);
            },
            ExprData::Share(place) => {
                let (place, origins) = self.brew_place(brewery, *place);
                self.push_assignment(brewery, target, bir::ExprData::Share(place), origin);
                self.push_cusps(brewery, Some(target), origins, origin);
            },
            ExprData::Lease(place) => {
                let (place, origins) = self.brew_place(brewery, *place);
                self.push_assignment(brewery, target, bir::ExprData::Lease(place), origin);
                self.push_cusps(brewery, Some(target), origins, origin);
            },
            ExprData::Give(place) => {
                let (place, origins) = self.brew_place(brewery, *place);
                self.push_assignment(brewery, target, bir::ExprData::Give(place), origin);
                self.push_cusps(brewery, Some(target), origins, origin);
            },
            ExprData::BooleanLiteral(value) => {
                self.push_assignment(
                    brewery,
                    target,
                    bir::ExprData::BooleanLiteral(*value),
                    origin,
                );
                self.push_cusp(brewery, Some(target), origin);
            },
            ExprData::IntegerLiteral(value) => {
                self.push_assignment(
                    brewery,
                    target,
                    bir::ExprData::IntegerLiteral(*value),
                    origin,
                );
                self.push_cusp(brewery, Some(target), origin);
            },
            ExprData::StringLiteral(value) => {
                self.push_assignment(
                    brewery,
                    target,
                    bir::ExprData::StringLiteral(*value),
                    origin,
                );
                self.push_cusp(brewery, Some(target), origin);
            },
            ExprData::Tuple(exprs) => {
                let values = self.brew_exprs_to_temporaries(brewery, exprs);
                if values.is_empty() {
                    self.push_assignment(brewery, target, bir::ExprData::Unit, origin);
                } else {
                    self.push_assignment(brewery, target, bir::ExprData::Tuple(values), origin);
                }
                self.push_cusp(brewery, Some(target), origin);
            },
            ExprData::Op(lhs, op, rhs) => {
                if let Some(lhs) = self.brew_expr_to_temporary(brewery, *lhs) {
                    if let Some(rhs) = self.brew_expr_to_temporary(brewery, *rhs) {
                        self.push_assignment(
                            brewery,
                            target,
                            bir::ExprData::Op(lhs, *op, rhs),
                            origin,
                        );
                        self.push_cusp(brewery, Some(target), origin);
                    }
                }
            },
            ExprData::Sequence(exprs) => {
                if exprs.len() > 0 {
                    self.brew_prefix_for_side_effects(brewery, exprs);
                    self.brew_expr_and_assign_to(brewery, target, exprs[exprs.len() - 1]);
                    self.push_cusp(brewery, Some(target), origin);
                } else {
                    self.push_assignment(brewery, target, bir::ExprData::Unit, origin);
                    self.push_cusp(brewery, Some(target), origin);
                }
            },
            ExprData::Assign(_, _) => {
                self.brew_expr_for_side_effects(brewery, expr);
                self.push_assignment(brewery, target, bir::ExprData::Unit, origin);
            },
            ExprData::Call(func, args) => {
                if let Some(func_place) = self.brew_expr_to_temporary(brewery, *func) {
                    let (places, names) = self.brew_named_exprs(brewery, args);
                    let next_block = brewery.dummy_block(origin);
                    self.terminate_and_continue(
                        brewery,
                        TerminatorData::Assign(
                            target,
                            TerminatorExpr::Call {
                                function: func_place,
                                arguments: places,
                                labels: names,
                            },
                            next_block,
                        ),
                        next_block,
                        origin,
                    );
                    self.push_cusp(brewery, Some(target), origin);
                }
            },
            ExprData::Atomic(subexpr) => {
                let start_block = brewery.dummy_block(origin);
                self.terminate_and_continue(
                    brewery,
                    TerminatorData::StartAtomic(start_block),
                    start_block,
                    origin,
                );
                self.brew_expr_and_assign_to(brewery, target, *subexpr);
                let end_block = brewery.dummy_block(origin);
                self.terminate_and_continue(
                    brewery,
                    TerminatorData::EndAtomic(end_block),
                    end_block,
                    origin,
                );
                self.push_cusp(brewery, Some(target), origin);
            },
            ExprData::Error | ExprData::Return(_) | ExprData::Continue(_) | ExprData::Break {
                ..
            } => {
                self.brew_expr_for_side_effects(brewery, expr);
            },
        }
        if self.end_block.is_some() {
            Some(target)
        } else {
            None
        }
    }

    /// Brews a place to a bir place, returning a vector of the
    /// syntactical expressions that were evaluated along the way.
    /// No cusp expressions are emitted, as places are evaluated
    /// instantaneously and do not represent a moment in time.
    ///
    /// Example: if you have `a.b.c`, we will evaluate this to the
    /// place `a.b.c` and return a vector with `[a, a.b, a.b.c]`.
    ///
    /// This vector is used to add cusp operations (they all show the value
    /// of `a.b.c` in its entirety, though).
    pub fn brew_place(&mut self, brewery: &mut Brewery<'_>, place: validated::Place) -> (brewed: (
        Place,
        Vec<ExprOrigin>,
    ))
        requires
            old(self).is_in(*old(brewery)),
            old(brewery).tree().valid_place(place),
        ensures
            *final(self) == *old(self),
            final(self).is_in(*final(brewery)),
            final(brewery).continues(*old(brewery)),
            recipe::brewed_place(old(brewery).tree(), old(brewery).code(), place) == (
                final(brewery).code(),
                brewed.0,
                brewed.1@,
            ),
            final(brewery).code().basic_blocks.len() == old(brewery).code().basic_blocks.len(),
        decreases old(brewery).tree().place_depth(place),
    {
        let tree: &Tree = brewery.validated_tree;
        let origin = tree.origins.places[place.index];
        match tree.data.tables.places[place.index] {
            validated::PlaceData::LocalVariable(validated_var) => {
                let bir_var = brewery.variable(validated_var);
                let place = brewery.add_place(PlaceData::LocalVariable(bir_var), origin);
                (place, vec![origin])
            },
            validated::PlaceData::Function(function) => {
                let place = brewery.add_place(PlaceData::Function(function), origin);
                (place, vec![origin])
            },
            validated::PlaceData::Intrinsic(intrinsic) => {
                let place = brewery.add_place(PlaceData::Intrinsic(intrinsic), origin);
                (place, vec![origin])
            },
            validated::PlaceData::Class(class) => {
                let place = brewery.add_place(PlaceData::Class(class), origin);
                (place, vec![origin])
            },
            validated::PlaceData::Dot(base, field) => {
                proof {
                    tree.lemma_owner_is_valid(place);
                }
                let (base, mut origins) = self.brew_place(brewery, base);
                let place = brewery.add_place(PlaceData::Dot(base, field), origin);
                origins.push(origin);
                (place, origins)
            },
        }
    }
}

/// Adds a local variable without a name.
pub fn add_temporary(brewery: &mut Brewery<'_>, origin: ExprOrigin) -> (variable:
    bir::LocalVariable)
    ensures
        final(brewery).continues(*old(brewery)),
        final(brewery).code() == recipe::with_temporary(old(brewery).code(), origin),
        variable == final(brewery).code().last_local_variable(),
        variable.index == old(brewery).code().local_variables.len(),
{
    brewery.add_local_variable(
        bir::LocalVariableData { name: None, storage_mode: StorageMode::Var },
        LocalVariableOrigin::Temporary(origin.syntax_expr()),
    )
}

/// Adds a local variable without a name and the place that is that variable.
pub fn add_temporary_place(brewery: &mut Brewery<'_>, origin: ExprOrigin) -> (place: Place)
    ensures
        final(brewery).continues(*old(brewery)),
        forall|end: Option<bir::BasicBlock>|
            (#[trigger] (Draft { code: old(brewery).code(), end }).new_temporary(origin)) == (
                Draft { code: final(brewery).code(), end },
                place,
            ),
        final(brewery).code().basic_blocks.len() == old(brewery).code().basic_blocks.len(),
{
    let temporary_var = add_temporary(brewery, origin);
    brewery.add_place(PlaceData::LocalVariable(temporary_var), origin)
}

/// Brews a validated function.
pub fn brew(validated_tree: &Tree) -> (brewed: Bir)
    requires
        validated_tree.valid(),
    ensures
        brewed.origin == validated_tree.origin,
        brewed.data.num_parameters == validated_tree.data.num_parameters,
        recipe::brewed(*validated_tree) == (
            bir::code(brewed.data.tables, brewed.origins),
            brewed.data.start_basic_block,
        ),
        bir::code(brewed.data.tables, brewed.origins).well_formed(),
        bir::code(brewed.data.tables, brewed.origins).fits(),
{
    let mut brewery = Brewery::new(validated_tree);
    let num_parameters: usize = validated_tree.data.num_parameters;

    // Compile the root expression and -- assuming it doesn't diverge --
    // return the resulting value.
    let root_expr = validated_tree.data.root_expr;
    let root_expr_origin = validated_tree.origins.exprs[root_expr.index];
    assert(brewery.loops().dom() =~= Set::empty());
    let mut cursor = Cursor::new(&mut brewery, root_expr_origin);
    if let Some(place) = cursor.brew_expr_to_temporary(&mut brewery, root_expr) {
        cursor.terminate_and_diverge(
            &mut brewery,
            TerminatorData::Return(place),
            root_expr_origin,
        );
    }
    let start_basic_block = cursor.complete();
    proof {
        growth::lemma_brewed_is_well_formed(*validated_tree);
        brewery.lemma_fits();
    }

    Bir {
        origin: validated_tree.origin,
        data: BirData { tables: brewery.tables, num_parameters, start_basic_block },
        origins: brewery.origins,
    }
}

} // verus!
