//! Leasing: borrowing an object without taking it from its owner.
use vstd::prelude::*;

use crate::base::{Joint, Leased};
use crate::bir;
use crate::bir::{Place, PlaceData};
use crate::machine::{
    Object, Permission, PermissionData, PermissionShape, State, ValidPermissionData, Value,
};
use crate::traversal;
use crate::traversal::{ObjectTraversal, Stepper, Traversal, TraversalError};

verus! {

/// The value that a lease at the end of `way` gives, and the state after it.
pub open spec fn leased(state: State, way: Traversal) -> (State, Value) {
    let last = way.traversed.last();
    if state.is_joint(last) && state.is_leased(last) {
        (state, Value { object: way.object, permission: last })
    } else {
        let tenant = Permission { index: state.permissions.len() as usize };
        (
            state.add_tenant(way.joint, last),
            Value { object: way.object, permission: tenant },
        )
    }
}

/// The outcome of a lease of `place`, and the state after it.
pub open spec fn leased_place(state: State, places: Seq<PlaceData>, place: Place) -> (
    State,
    Result<Value, TraversalError>,
) {
    match traversal::followed(state, places, place) {
        Ok(way) => {
            let (after, value) = leased(state, way);
            (after, Ok(value))
        },
        Err(error) => (state, Err(error)),
    }
}

/// The object to which `place` leads.
pub open spec fn object_at(state: State, places: Seq<PlaceData>, place: Place) -> Result<
    Object,
    TraversalError,
> {
    match traversal::followed(state, places, place) {
        Ok(way) => Ok(way.object),
        Err(error) => Err(error),
    }
}

impl Stepper {
    /// Leasing an object creates a new permission that remains valid so long as the original
    /// reference is not "reasserted" (used again).
    ///
    /// The result is leased and refers to the same object as `place`. It is jointly accessible if
    /// `place` is and exclusive if `place` is. `place` remains valid and unchanged; asserting
    /// `place` or invalidating it may invalidate the result.
    pub fn lease_place(&mut self, table: &bir::Tables, place: Place) -> (leased: Result<
        Value,
        TraversalError,
    >)
        requires
            old(self).machine@.well_formed(),
            traversal::can_follow(old(self).machine@, table.places@, place),
        ensures
            (final(self).machine@, leased) == leased_place(
                old(self).machine@,
                table.places@,
                place,
            ),
            final(self).machine@.well_formed(),
    {
        proof {
            traversal::lemma_followed_is_sound(self.machine@, table.places@, place);
        }
        let object_traversal = self.traverse_to_object(table, place)?;
        self.lease_traversal(object_traversal)
    }

    /// Leases the object at the end of `object_traversal`.
    ///
    /// If the last permission on the way is already a shared lease, it is duplicated:
    ///
    /// ```text
    /// a ----> [ Obj ]
    ///   ===== [  f  ] --shared---> b
    ///     |           ============ duplicate this permission
    ///   can be any
    ///   permission(s)
    /// ```
    ///
    /// Otherwise there is a new lease permission, a tenant of that last permission; it is exclusive
    /// if access along the way is exclusive, and joint otherwise:
    ///
    /// ```text
    /// a -our-> [ Obj ]
    ///          [  f  ] --leased---> b
    ///                    :
    ///                    : tenant
    ///                    v
    ///                  --shared--> b
    ///                  =========== resulting permission
    /// ```
    pub fn lease_traversal(&mut self, object_traversal: ObjectTraversal) -> (value: Result<
        Value,
        TraversalError,
    >)
        requires
            object_traversal@.traversed.len() > 0,
            old(self).machine@.is_valid(object_traversal@.traversed.last()),
        ensures
            value is Ok,
            (final(self).machine@, value->Ok_0) == leased(old(self).machine@, object_traversal@),
            old(self).machine@.well_formed() ==> final(self).machine@.well_formed(),
    {
        let ObjectTraversal { object, accumulated_permissions } = object_traversal;
        // There is a last permission: no object is reached without traversing one.
        let count: usize = accumulated_permissions.traversed.len();
        let last_permission = accumulated_permissions.traversed[count - 1];
        if let PermissionData::Valid(data) = &self.machine.permissions[last_permission.index] {
            if data.joint == Joint::Yes && data.leased == Leased::Yes {
                return Ok(Value { object, permission: last_permission });
            }
        }
        let permission = self.new_tenant_permission(accumulated_permissions.joint, last_permission);
        Ok(Value { object, permission })
    }

    /// Adds a lease permission that is a tenant of `landlord`.
    pub fn new_tenant_permission(&mut self, joint: Joint, landlord: Permission) -> (tenant:
        Permission)
        requires
            old(self).machine@.is_valid(landlord),
        ensures
            tenant.index == old(self).machine@.permissions.len(),
            final(self).machine@ == old(self).machine@.add_tenant(joint, landlord),
            old(self).machine@.well_formed() ==> final(self).machine@.well_formed(),
    {
        let index: usize = self.machine.permissions.len();
        let tenant = Permission { index };
        let ghost before = self.machine@;
        let data = ValidPermissionData { joint, leased: Leased::Yes, tenants: Vec::new() };
        match &mut self.machine.permissions[landlord.index] {
            PermissionData::Valid(valid) => {
                valid.tenants.push(tenant);
            },
            PermissionData::Expired => {},
        }
        self.machine.permissions.push(PermissionData::Valid(data));
        assert(data.tenants@ =~= seq![]);
        assert(self.machine.permissions.len() == self.machine.permissions@.len());
        assert(self.machine@ =~= before.add_tenant(joint, landlord));
        tenant
    }
}

/// Leasing a place gives a valid, leased value that refers to the object at that place.
pub proof fn lemma_lease_is_leased(state: State, places: Seq<PlaceData>, place: Place)
    requires
        state.well_formed(),
        traversal::can_follow(state, places, place),
    ensures
        ({
            let (after, outcome) = leased_place(state, places, place);
            outcome matches Ok(value) ==> {
                &&& after.is_valid(value.permission)
                &&& after.is_leased(value.permission)
                &&& Ok::<Object, TraversalError>(value.object) == object_at(state, places, place)
            }
        }),
{
    traversal::lemma_followed_is_sound(state, places, place);
}

/// Leasing a place preserves its sharing: the result is jointly accessible exactly if some
/// permission on the way to the object is, and exclusive otherwise.
pub proof fn lemma_lease_preserves_sharing(state: State, places: Seq<PlaceData>, place: Place)
    requires
        state.well_formed(),
        traversal::can_follow(state, places, place),
    ensures
        ({
            let (after, outcome) = leased_place(state, places, place);
            outcome matches Ok(value) ==> {
                let traversed = traversal::followed(state, places, place)->Ok_0.traversed;
                after.is_joint(value.permission) <==> exists|k: int|
                    0 <= k < traversed.len() && state.is_joint(#[trigger] traversed[k])
            }
        }),
{
    traversal::lemma_followed_is_sound(state, places, place);
    if let Ok(way) = traversal::followed(state, places, place) {
        let last = way.traversed.len() - 1;
        assert(way.traversed[last] == way.traversed.last());
    }
}

/// Leasing a place leaves that place, and every other place, as it was: the same objects are
/// reached over the same permissions, and the same places cannot be followed.
pub proof fn lemma_lease_leaves_places_unchanged(
    state: State,
    places: Seq<PlaceData>,
    place: Place,
    other: Place,
)
    requires
        state.well_formed(),
        traversal::can_follow(state, places, place),
        traversal::can_follow(state, places, other),
    ensures
        ({
            let after = leased_place(state, places, place).0;
            &&& traversal::can_follow(after, places, other)
            &&& traversal::followed(after, places, other) == traversal::followed(
                state,
                places,
                other,
            )
        }),
    decreases bir::place_depth(places, other),
{
    traversal::lemma_followed_is_sound(state, places, place);
    if let PlaceData::Dot(owner, field) = places[other.index as int] {
        bir::lemma_owner_is_shallower(places, other);
        lemma_lease_leaves_places_unchanged(state, places, place, owner);
        traversal::lemma_followed_is_sound(state, places, owner);
        if let Ok(way) = traversal::followed(state, places, owner) {
            state.lemma_field_is_known(way.object, field);
        }
    }
}

/// A lease leaves the program's values as they were and ends no permission: the permission that
/// led to the object may gain a tenant, which is then the result, and every other permission is
/// the same.
pub proof fn lemma_lease_only_adds_tenant(state: State, places: Seq<PlaceData>, place: Place)
    requires
        state.well_formed(),
        traversal::can_follow(state, places, place),
    ensures
        ({
            let (after, outcome) = leased_place(state, places, place);
            &&& after.instances == state.instances
            &&& after.local_variables == state.local_variables
            &&& after.our_permission == state.our_permission
            &&& outcome is Err ==> after == state
            &&& outcome matches Ok(value) ==> {
                let last = traversal::followed(state, places, place)->Ok_0.traversed.last();
                &&& after.permissions.len() >= state.permissions.len()
                &&& forall|k: int|
                    0 <= k < state.permissions.len() && k != last.index
                        ==> #[trigger] after.permissions[k] == state.permissions[k]
                &&& state.permission(last) matches PermissionShape::Valid { joint, leased, tenants }
                &&& after.permission(last) == if value.permission == last {
                    state.permission(last)
                } else {
                    PermissionShape::Valid {
                        joint,
                        leased,
                        tenants: tenants.push(value.permission),
                    }
                }
            }
        }),
{
    traversal::lemma_followed_is_sound(state, places, place);
}

/// Leasing a shared lease duplicates it: where `place` leads to `lease`, and that is jointly
/// accessible and leased, leasing `place` gives `lease` again and changes nothing.
pub proof fn lemma_shared_lease_is_duplicated(
    state: State,
    places: Seq<PlaceData>,
    place: Place,
    lease: Value,
)
    requires
        state.well_formed(),
        traversal::can_follow(state, places, place),
        traversal::followed(state, places, place) matches Ok(way) && lease == (Value {
            object: way.object,
            permission: way.traversed.last(),
        }),
        state.is_joint(lease.permission),
        state.is_leased(lease.permission),
    ensures
        leased_place(state, places, place) == (state, Ok::<Value, TraversalError>(lease)),
{
}

} // verus!
