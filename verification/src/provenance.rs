//! Where the parts of brewed code come from.
use vstd::prelude::*;

use crate::base::StorageMode;
use crate::bir;
use crate::bir::{Code, PlaceData};
use crate::growth;
use crate::meaning;
use crate::recipe;
use crate::recipe::LoopContext;
use crate::validated;
use crate::validated::{ExprOrigin, LocalVariableOrigin, Tree};

verus! {

/// The first local variables of brewed code are the variables of the validated function: they have
/// the same names, are stored in the same way and come from the same syntax.
pub proof fn lemma_declared_variables_are_kept(tree: Tree, index: int)
    requires
        tree.valid(),
        0 <= index < tree.data.tables.local_variables@.len(),
    ensures
        ({
            let (code, _) = recipe::brewed(tree);
            let declared = tree.data.tables.local_variables@[index];
            &&& index < code.local_variables.len()
            &&& code.local_variables[index].name == declared.name
            &&& code.local_variables[index].storage_mode == declared.storage_mode
            &&& code.local_variable_origins[index] == tree.origins.local_variables@[index]
        }),
{
    growth::lemma_brewed_is_well_formed(tree);
    let (code, _) = recipe::brewed(tree);
    let count = tree.data.tables.local_variables@.len() as int;
    assert(code.local_variables.subrange(0, count)[index] == code.local_variables[index]);
    assert(code.local_variable_origins.subrange(0, count)[index]
        == code.local_variable_origins[index]);
}

/// The temporary for the value of an expression has no name, may be assigned again, and comes, as
/// does its place, from the syntax of that expression.
pub proof fn lemma_temporary_comes_from_expr(
    tree: Tree,
    loops: Map<validated::Expr, LoopContext>,
    draft: recipe::Draft,
    expr: validated::Expr,
)
    requires
        growth::ready(tree, loops, draft),
        tree.valid_expr(expr, loops.dom()),
        recipe::to_temporary(tree, loops, draft, expr).0.code.fits(),
    ensures
        ({
            let (after, place) = recipe::to_temporary(tree, loops, draft, expr);
            let origin = tree.expr_origin(expr);
            &&& after.code.place_origins[place.index as int] == origin
            &&& after.code.places[place.index as int] matches PlaceData::LocalVariable(variable)
            &&& after.code.local_variables[variable.index as int].name is None
            &&& after.code.local_variables[variable.index as int].storage_mode == StorageMode::Var
            &&& after.code.local_variable_origins[variable.index as int]
                == LocalVariableOrigin::Temporary(origin.source())
        }),
{
    let origin = tree.expr_origin(expr);
    let (d1, temporary) = draft.new_temporary(origin);
    let (after, _) = recipe::to_temporary(tree, loops, draft, expr);
    assert(growth::sound(draft)) by {
        reveal(growth::ready);
    }
    growth::lemma_new_temporary(draft, origin);
    growth::lemma_still_ready(tree, loops, draft, d1);
    growth::lemma_assigned_grows(tree, loops, d1, temporary, expr);
    growth::lemma_still_known(d1, after);
    reveal(growth::extends);
    reveal(growth::sound);
    let p = draft.code.places.len() as int;
    let v = draft.code.local_variables.len() as int;
    assert(after.code.places.subrange(0, p + 1)[p] == after.code.places[p]);
    assert(after.code.place_origins.subrange(0, p + 1)[p] == after.code.place_origins[p]);
    assert(after.code.local_variables.subrange(0, v + 1)[v] == after.code.local_variables[v]);
    assert(after.code.local_variable_origins.subrange(0, v + 1)[v]
        == after.code.local_variable_origins[v]);
}

/// The origins of the places on the way to `place`, outermost owner first, then its own.
pub open spec fn path_origins(code: Code, place: bir::Place) -> Seq<ExprOrigin>
    decreases place.index,
{
    let origin = code.place_origins[place.index as int];
    match code.places[place.index as int] {
        PlaceData::Dot(owner, _) if owner.index < place.index => {
            path_origins(code, owner).push(origin)
        },
        _ => seq![origin],
    }
}

proof fn lemma_path_origins_are_kept(before: Code, after: Code, place: bir::Place)
    requires
        before.places.is_prefix_of(after.places),
        before.place_origins.is_prefix_of(after.place_origins),
        before.places.len() == before.place_origins.len(),
        place.index < before.places.len(),
    ensures
        path_origins(after, place) == path_origins(before, place),
    decreases place.index,
{
    let k = place.index as int;
    let count = before.places.len() as int;
    assert(after.places.subrange(0, count)[k] == after.places[k]);
    assert(after.place_origins.subrange(0, count)[k] == after.place_origins[k]);
    if let PlaceData::Dot(owner, _) = before.places[k] {
        if owner.index < place.index {
            lemma_path_origins_are_kept(before, after, owner);
        }
    }
}

/// A brewed place, and each of the places on the way to it, comes from the syntax of the place that
/// it stands for.
pub proof fn lemma_brewed_place_comes_from_place(tree: Tree, code: Code, place: validated::Place)
    requires
        tree.valid_place(place),
        code.places.len() == code.place_origins.len(),
        recipe::brewed_place(tree, code, place).0.places.len() <= usize::MAX,
    ensures
        ({
            let (after, target, _) = recipe::brewed_place(tree, code, place);
            &&& target.index == after.places.len() - 1
            &&& after.places.len() == after.place_origins.len()
            &&& path_origins(after, target) == meaning::source_origins(tree, place)
        }),
    decreases tree.place_depth(place),
{
    let (after, target, _) = recipe::brewed_place(tree, code, place);
    if let validated::PlaceData::Dot(owner, field) = tree.place(place) {
        tree.lemma_owner_is_valid(place);
        let (between, base, _) = recipe::brewed_place(tree, code, owner);
        lemma_brewed_place_comes_from_place(tree, code, owner);
        assert(between.places.is_prefix_of(after.places));
        assert(between.place_origins.is_prefix_of(after.place_origins));
        lemma_path_origins_are_kept(between, after, base);
    }
}

} // verus!
