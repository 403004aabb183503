//! Following a place to the object that it leads to.
use vstd::prelude::*;

use crate::base::Joint;
use crate::bir;
use crate::bir::{Code, Place, PlaceData};
use crate::graph;
use crate::growth;
use crate::machine::{Machine, Object, Permission, PermissionData, PermissionShape, State, Value};
use crate::recipe;
use crate::validated::Tree;

verus! {

/// Runs a program one step at a time.
pub struct Stepper {
    pub machine: Machine,
}

/// What was used on the way to an object.
#[derive(Debug, PartialEq, Eq)]
pub struct AccumulatedPermissions {
    /// The permissions that were traversed, the one that led to the object last.
    pub traversed: Vec<Permission>,
    /// Whether one of them is shared with others.
    pub joint: Joint,
}

/// An object and the way to it.
#[derive(Debug, PartialEq, Eq)]
pub struct ObjectTraversal {
    pub object: Object,
    pub accumulated_permissions: AccumulatedPermissions,
}

/// Why a place leads to no object.
#[derive(Clone, Copy, Debug, PartialEq, Eq, Structural)]
pub enum TraversalError {
    /// This permission on the way can no longer be used.
    ExpiredPermission(Permission),
    /// The owner of this place has no such field.
    NoSuchField(Place),
}

/// The mathematical reading of `ObjectTraversal`.
pub struct Traversal {
    pub object: Object,
    pub traversed: Seq<Permission>,
    pub joint: Joint,
}

impl View for ObjectTraversal {
    type V = Traversal;

    open spec fn view(&self) -> Traversal {
        Traversal {
            object: self.object,
            traversed: self.accumulated_permissions.traversed@,
            joint: self.accumulated_permissions.joint,
        }
    }
}

impl Traversal {
    /// At least one permission was traversed, all that were traversed can be used, and the way is
    /// joint exactly if one of them is.
    pub open spec fn is_sound(self, state: State) -> bool {
        &&& self.traversed.len() > 0
        &&& forall|k: int|
            0 <= k < self.traversed.len() ==> state.is_valid(#[trigger] self.traversed[k])
        &&& self.joint == Joint::Yes <==> exists|k: int|
            0 <= k < self.traversed.len() && state.is_joint(#[trigger] self.traversed[k])
    }
}

/// Whether `place`, and every place on the way to it, is in the tables, for a function with
/// `variables` local variables.
pub open spec fn knows_place(places: Seq<PlaceData>, variables: nat, place: Place) -> bool
    decreases bir::place_depth(places, place),
    when bir::is_finite_place(places, place)
{
    &&& place.index < places.len()
    &&& match places[place.index as int] {
        PlaceData::LocalVariable(variable) => variable.index < variables,
        PlaceData::Dot(owner, _) => {
            proof {
                bir::lemma_owner_is_shallower(places, place);
            }
            knows_place(places, variables, owner)
        },
        _ => true,
    }
}

/// Whether `place` can be followed in `state`.
pub open spec fn can_follow(state: State, places: Seq<PlaceData>, place: Place) -> bool {
    &&& bir::is_finite_place(places, place)
    &&& knows_place(places, state.local_variables.len(), place)
}

/// One step further, to the object of `value`.
pub open spec fn step_to(
    state: State,
    traversed: Seq<Permission>,
    joint: Joint,
    value: Value,
) -> Result<Traversal, TraversalError> {
    match state.permission(value.permission) {
        PermissionShape::Valid { joint: shared, .. } => Ok(
            Traversal {
                object: value.object,
                traversed: traversed.push(value.permission),
                joint: if shared == Joint::Yes {
                    Joint::Yes
                } else {
                    joint
                },
            },
        ),
        PermissionShape::Expired => Err(TraversalError::ExpiredPermission(value.permission)),
    }
}

/// The object to which `place` leads and the way to it.
pub open spec fn followed(state: State, places: Seq<PlaceData>, place: Place) -> Result<
    Traversal,
    TraversalError,
>
    decreases bir::place_depth(places, place),
    when bir::is_finite_place(places, place)
{
    let our = state.our_permission;
    match places[place.index as int] {
        PlaceData::LocalVariable(variable) => step_to(
            state,
            seq![],
            Joint::No,
            state.local_variables[variable.index as int],
        ),
        PlaceData::Function(function) => step_to(
            state,
            seq![],
            Joint::No,
            Value { object: Object::Function(function), permission: our },
        ),
        PlaceData::Intrinsic(intrinsic) => step_to(
            state,
            seq![],
            Joint::No,
            Value { object: Object::Intrinsic(intrinsic), permission: our },
        ),
        PlaceData::Class(class) => step_to(
            state,
            seq![],
            Joint::No,
            Value { object: Object::Class(class), permission: our },
        ),
        PlaceData::Dot(owner, field) => {
            proof {
                bir::lemma_owner_is_shallower(places, place);
            }
            match followed(state, places, owner) {
                Ok(way) => match state.field(way.object, field) {
                    Some(value) => step_to(state, way.traversed, way.joint, value),
                    None => Err(TraversalError::NoSuchField(place)),
                },
                Err(error) => Err(error),
            }
        },
    }
}

/// The way that a place leads is sound, and the object at its end is in the tables.
pub proof fn lemma_followed_is_sound(state: State, places: Seq<PlaceData>, place: Place)
    requires
        state.well_formed(),
        can_follow(state, places, place),
    ensures
        followed(state, places, place) matches Ok(way) ==> {
            &&& way.is_sound(state)
            &&& state.knows_value(Value { object: way.object, permission: way.traversed.last() })
        },
    decreases bir::place_depth(places, place),
{
    match places[place.index as int] {
        PlaceData::LocalVariable(variable) => {
            lemma_step_is_sound(
                state,
                seq![],
                Joint::No,
                state.local_variables[variable.index as int],
            );
        },
        PlaceData::Function(function) => {
            lemma_step_is_sound(
                state,
                seq![],
                Joint::No,
                Value { object: Object::Function(function), permission: state.our_permission },
            );
        },
        PlaceData::Intrinsic(intrinsic) => {
            lemma_step_is_sound(
                state,
                seq![],
                Joint::No,
                Value { object: Object::Intrinsic(intrinsic), permission: state.our_permission },
            );
        },
        PlaceData::Class(class) => {
            lemma_step_is_sound(
                state,
                seq![],
                Joint::No,
                Value { object: Object::Class(class), permission: state.our_permission },
            );
        },
        PlaceData::Dot(owner, field) => {
            bir::lemma_owner_is_shallower(places, place);
            lemma_followed_is_sound(state, places, owner);
            if let Ok(way) = followed(state, places, owner) {
                if let Some(value) = state.field(way.object, field) {
                    state.lemma_field_is_known(way.object, field);
                    lemma_step_is_sound(state, way.traversed, way.joint, value);
                }
            }
        },
    }
}

proof fn lemma_step_is_sound(
    state: State,
    traversed: Seq<Permission>,
    joint: Joint,
    value: Value,
)
    requires
        state.knows_value(value),
        forall|k: int| 0 <= k < traversed.len() ==> state.is_valid(#[trigger] traversed[k]),
        joint == Joint::Yes <==> exists|k: int|
            0 <= k < traversed.len() && state.is_joint(#[trigger] traversed[k]),
    ensures
        step_to(state, traversed, joint, value) matches Ok(way) ==> {
            &&& way.is_sound(state)
            &&& way.object == value.object
            &&& way.traversed.last() == value.permission
        },
{
    if let Ok(way) = step_to(state, traversed, joint, value) {
        let last = way.traversed.len() - 1;
        assert(way.traversed[last] == value.permission);
        if joint == Joint::Yes {
            let k = choose|k: int|
                0 <= k < traversed.len() && state.is_joint(#[trigger] traversed[k]);
            assert(way.traversed[k] == traversed[k]);
        }
        assert forall|k: int| 0 <= k < way.traversed.len() implies state.is_valid(
            #[trigger] way.traversed[k],
        ) by {
            if k < last {
                assert(way.traversed[k] == traversed[k]);
            }
        }
        if way.joint == Joint::No {
            assert forall|k: int| 0 <= k < way.traversed.len() implies !state.is_joint(
                #[trigger] way.traversed[k],
            ) by {
                if k < last {
                    assert(way.traversed[k] == traversed[k]);
                }
            }
        }
    }
}

impl Stepper {
    /// Follows `value` after `accumulated_permissions`.
    fn traverse_to_value(
        &self,
        accumulated_permissions: AccumulatedPermissions,
        value: Value,
    ) -> (reached: Result<ObjectTraversal, TraversalError>)
        requires
            self.machine@.knows_value(value),
        ensures
            match reached {
                Ok(traversal) => Ok::<Traversal, TraversalError>(traversal@),
                Err(error) => Err(error),
            } == step_to(
                self.machine@,
                accumulated_permissions.traversed@,
                accumulated_permissions.joint,
                value,
            ),
    {
        let mut accumulated_permissions = accumulated_permissions;
        match &self.machine.permissions[value.permission.index] {
            PermissionData::Valid(data) => {
                accumulated_permissions.traversed.push(value.permission);
                if data.joint == Joint::Yes {
                    accumulated_permissions.joint = Joint::Yes;
                }
                Ok(ObjectTraversal { object: value.object, accumulated_permissions })
            },
            PermissionData::Expired => Err(TraversalError::ExpiredPermission(value.permission)),
        }
    }

    /// Follows `place` to the object that it leads to.
    pub fn traverse_to_object(&self, table: &bir::Tables, place: Place) -> (reached: Result<
        ObjectTraversal,
        TraversalError,
    >)
        requires
            self.machine@.well_formed(),
            can_follow(self.machine@, table.places@, place),
        ensures
            match reached {
                Ok(traversal) => Ok::<Traversal, TraversalError>(traversal@),
                Err(error) => Err(error),
            } == followed(self.machine@, table.places@, place),
        decreases bir::place_depth(table.places@, place),
    {
        let ghost state = self.machine@;
        let our = self.machine.our_permission;
        let nothing = AccumulatedPermissions { traversed: Vec::new(), joint: Joint::No };
        assert(nothing.traversed@ =~= seq![]);
        match table.places[place.index] {
            PlaceData::LocalVariable(variable) => {
                let value = self.machine.local_variables[variable.index];
                assert(state.knows_value(state.local_variables[variable.index as int]));
                self.traverse_to_value(nothing, value)
            },
            PlaceData::Function(function) => {
                let value = Value { object: Object::Function(function), permission: our };
                self.traverse_to_value(nothing, value)
            },
            PlaceData::Intrinsic(intrinsic) => {
                let value = Value { object: Object::Intrinsic(intrinsic), permission: our };
                self.traverse_to_value(nothing, value)
            },
            PlaceData::Class(class) => {
                let value = Value { object: Object::Class(class), permission: our };
                self.traverse_to_value(nothing, value)
            },
            PlaceData::Dot(owner, field) => {
                proof {
                    bir::lemma_owner_is_shallower(table.places@, place);
                    lemma_followed_is_sound(state, table.places@, owner);
                }
                let traversal = self.traverse_to_object(table, owner)?;
                match self.machine.field(traversal.object, field) {
                    Some(value) => {
                        proof {
                            state.lemma_field_is_known(traversal.object, field);
                        }
                        self.traverse_to_value(traversal.accumulated_permissions, value)
                    },
                    None => Err(TraversalError::NoSuchField(place)),
                }
            },
        }
    }
}

/// Every place of a brewed function can be followed in a state with a value for each of its local
/// variables.
pub proof fn lemma_brewed_places_can_be_followed(tree: Tree, state: State, place: Place)
    requires
        tree.valid(),
        recipe::brewed(tree).0.fits(),
        recipe::brewed(tree).0.knows_place(place),
        recipe::brewed(tree).0.local_variables.len() <= state.local_variables.len(),
    ensures
        can_follow(state, recipe::brewed(tree).0.places, place),
{
    growth::lemma_brewed_is_well_formed(tree);
    lemma_can_follow(state, recipe::brewed(tree).0, place);
}

/// A place can be followed if it is in the tables and is a variable with a value, a function or a
/// class, or a field of a place that can be followed.
pub proof fn lemma_place_can_be_followed(state: State, places: Seq<PlaceData>, place: Place)
    requires
        place.index < places.len(),
        match places[place.index as int] {
            PlaceData::LocalVariable(variable) => variable.index < state.local_variables.len(),
            PlaceData::Dot(owner, _) => can_follow(state, places, owner),
            _ => true,
        },
    ensures
        can_follow(state, places, place),
{
    graph::lemma_linking_is_well_founded(bir::place_links(places), place.index as int);
}

proof fn lemma_can_follow(state: State, code: Code, place: Place)
    requires
        code.well_formed(),
        code.fits(),
        code.knows_place(place),
        code.local_variables.len() <= state.local_variables.len(),
    ensures
        can_follow(state, code.places, place),
    decreases place.index,
{
    let data = code.places[place.index as int];
    assert(code.knows_parts_of_place(data));
    if let PlaceData::Dot(owner, _) = data {
        lemma_can_follow(state, code, owner);
    }
    lemma_place_can_be_followed(state, code.places, place);
}

} // verus!
