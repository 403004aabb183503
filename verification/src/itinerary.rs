//! Where a place leads, told by the names of fields and the tables of the machine.
use vstd::prelude::*;

use crate::base::{Joint, Leased, Word};
use crate::bir;
use crate::bir::{Place, PlaceData};
use crate::lease;
use crate::machine;
use crate::machine::{Object, Permission, PermissionShape, State, Value};
use crate::traversal;
use crate::traversal::{Traversal, TraversalError};

verus! {

/// The places on the way to `place`, outermost owner first, then `place` itself.
pub open spec fn stations(places: Seq<PlaceData>, place: Place) -> Seq<Place>
    decreases bir::place_depth(places, place),
    when bir::is_finite_place(places, place)
{
    match places[place.index as int] {
        PlaceData::Dot(owner, _) => {
            proof {
                bir::lemma_owner_is_shallower(places, place);
            }
            stations(places, owner).push(place)
        },
        _ => seq![place],
    }
}

/// The value with which the way to the outermost owner of a place begins: that of a local variable,
/// or a function or class, which everyone may use.
pub open spec fn departure(state: State, data: PlaceData) -> Value {
    let our = state.our_permission;
    match data {
        PlaceData::LocalVariable(variable) => state.local_variables[variable.index as int],
        PlaceData::Function(function) => Value {
            object: Object::Function(function),
            permission: our,
        },
        PlaceData::Intrinsic(intrinsic) => Value {
            object: Object::Intrinsic(intrinsic),
            permission: our,
        },
        PlaceData::Class(class) => Value { object: Object::Class(class), permission: our },
        PlaceData::Dot(_, _) => arbitrary(),
    }
}

/// Whether `value` is what the first field called `name` of `object` holds.
pub open spec fn has_field(state: State, object: Object, name: Word, value: Value) -> bool {
    object matches Object::Instance(instance) && exists|j: int|
        is_first_field(state.instances[instance.index as int].fields, name, value, j)
}

/// Whether field number `j` of `fields` is the first one called `name`, and holds `value`.
pub open spec fn is_first_field(
    fields: Seq<(Word, Value)>,
    name: Word,
    value: Value,
    j: int,
) -> bool {
    &&& 0 <= j < fields.len()
    &&& fields[j] == (name, value)
    &&& forall|i: int| 0 <= i < j ==> (#[trigger] fields[i]).0 != name
}

/// Whether `object` has no field called `name`.
pub open spec fn lacks_field(state: State, object: Object, name: Word) -> bool {
    object matches Object::Instance(instance) ==> {
        let fields = state.instances[instance.index as int].fields;
        forall|i: int| 0 <= i < fields.len() ==> (#[trigger] fields[i]).0 != name
    }
}

/// Whether `values` are those that lie on the way to the first `values.len()` of the places on the
/// way to `place`: the value with which the way begins, and then each time what the named field of
/// the object before holds.
pub open spec fn is_itinerary(
    state: State,
    places: Seq<PlaceData>,
    place: Place,
    values: Seq<Value>,
) -> bool {
    let way = stations(places, place);
    &&& 0 < values.len() <= way.len()
    &&& values[0] == departure(state, places[way[0].index as int])
    &&& forall|k: int|
        0 < k < values.len() ==> (places[(#[trigger] way[k]).index as int] matches PlaceData::Dot(
            _,
            name,
        ) && has_field(state, values[k - 1].object, name, values[k]))
}

/// The permissions of `values`.
pub open spec fn permissions_of(values: Seq<Value>) -> Seq<Permission> {
    values.map_values(|value: Value| value.permission)
}

proof fn lemma_first_field(fields: Seq<(Word, Value)>, name: Word, value: Value, j: int)
    requires
        is_first_field(fields, name, value, j),
    ensures
        machine::first_field(fields, name) == Some(value),
    decreases fields.len(),
{
    if j > 0 {
        assert(fields[0].0 != name);
        let rest = fields.skip(1);
        assert forall|i: int| 0 <= i < j - 1 implies (#[trigger] rest[i]).0 != name by {
            assert(rest[i] == fields[i + 1]);
        }
        lemma_first_field(rest, name, value, j - 1);
    }
}

proof fn lemma_no_field(fields: Seq<(Word, Value)>, name: Word)
    requires
        forall|i: int| 0 <= i < fields.len() ==> (#[trigger] fields[i]).0 != name,
    ensures
        machine::first_field(fields, name) is None,
    decreases fields.len(),
{
    if fields.len() > 0 {
        assert(fields[0].0 != name);
        let rest = fields.skip(1);
        assert forall|i: int| 0 <= i < rest.len() implies (#[trigger] rest[i]).0 != name by {
            assert(rest[i] == fields[i + 1]);
        }
        lemma_no_field(rest, name);
    }
}

proof fn lemma_stations_are_not_empty(places: Seq<PlaceData>, place: Place)
    requires
        bir::is_finite_place(places, place),
    ensures
        stations(places, place).len() > 0,
        stations(places, place).last() == place,
{
    if let PlaceData::Dot(owner, _) = places[place.index as int] {
        bir::lemma_owner_is_shallower(places, place);
    }
}

/// An itinerary to a field begins with one to its owner.
proof fn lemma_itinerary_to_owner(
    state: State,
    places: Seq<PlaceData>,
    place: Place,
    values: Seq<Value>,
    shorter: Seq<Value>,
)
    requires
        bir::is_finite_place(places, place),
        places[place.index as int] is Dot,
        is_itinerary(state, places, place, values),
        shorter.is_prefix_of(values),
        0 < shorter.len() <= stations(places, places[place.index as int]->Dot_0).len(),
    ensures
        is_itinerary(state, places, places[place.index as int]->Dot_0, shorter),
{
    let owner = places[place.index as int]->Dot_0;
    bir::lemma_owner_is_shallower(places, place);
    lemma_stations_are_not_empty(places, owner);
    let way = stations(places, owner);
    let longer = stations(places, place);
    assert(longer =~= way.push(place));
    assert(way[0] == longer[0]);
    assert(shorter[0] == values[0]);
    assert forall|k: int| 0 < k < shorter.len() implies (
    places[(#[trigger] way[k]).index as int] matches PlaceData::Dot(_, name) && has_field(
        state,
        shorter[k - 1].object,
        name,
        shorter[k],
    )) by {
        assert(way[k] == longer[k]);
        assert(shorter[k] == values[k]);
        assert(shorter[k - 1] == values[k - 1]);
    }
}

/// A place leads to the object of the last value on the way: the value with which the way begins,
/// and then, name by name, what the first field of that name holds. The permissions that are
/// traversed are those of the values on the way, in order, and access is joint exactly if one of
/// them is.
pub proof fn lemma_place_leads_along_names(
    state: State,
    places: Seq<PlaceData>,
    place: Place,
    values: Seq<Value>,
)
    requires
        state.well_formed(),
        traversal::can_follow(state, places, place),
        is_itinerary(state, places, place, values),
        values.len() == stations(places, place).len(),
        forall|k: int|
            0 <= k < values.len() ==> state.is_valid((#[trigger] values[k]).permission),
    ensures
        traversal::followed(state, places, place) matches Ok(way) && {
            &&& way.object == values.last().object
            &&& way.traversed == permissions_of(values)
            &&& way.joint == Joint::Yes <==> exists|k: int|
                0 <= k < values.len() && state.is_joint((#[trigger] values[k]).permission)
        },
    decreases bir::place_depth(places, place),
{
    let last = values.len() - 1;
    assert(state.is_valid(values[last].permission));
    if let PlaceData::Dot(owner, name) = places[place.index as int] {
        let shorter = values.drop_last();
        bir::lemma_owner_is_shallower(places, place);
        lemma_stations_are_not_empty(places, owner);
        let way = stations(places, place);
        assert(way =~= stations(places, owner).push(place));
        lemma_itinerary_to_owner(state, places, place, values, shorter);
        assert forall|k: int| 0 <= k < shorter.len() implies state.is_valid(
            (#[trigger] shorter[k]).permission,
        ) by {
            assert(shorter[k] == values[k]);
        }
        lemma_place_leads_along_names(state, places, owner, shorter);
        assert(way[last] == place);
        assert(has_field(state, values[last - 1].object, name, values[last]));
        if let Object::Instance(instance) = values[last - 1].object {
            let fields = state.instances[instance.index as int].fields;
            let j = choose|j: int| is_first_field(fields, name, values[last], j);
            lemma_first_field(fields, name, values[last], j);
        }
        assert(permissions_of(values) =~= permissions_of(shorter).push(values[last].permission));
        if exists|k: int|
            0 <= k < values.len() && state.is_joint((#[trigger] values[k]).permission) {
            let k = choose|k: int|
                0 <= k < values.len() && state.is_joint((#[trigger] values[k]).permission);
            if k < last {
                assert(shorter[k] == values[k]);
            }
        }
        if exists|k: int|
            0 <= k < shorter.len() && state.is_joint((#[trigger] shorter[k]).permission) {
            let k = choose|k: int|
                0 <= k < shorter.len() && state.is_joint((#[trigger] shorter[k]).permission);
            assert(values[k] == shorter[k]);
        }
    } else {
        assert(values.len() == 1);
        assert(permissions_of(values) =~= seq![values[0].permission]);
    }
}

/// Where a permission on the way has expired, that is the error, whatever comes after it.
pub proof fn lemma_expired_permission_is_in_the_way(
    state: State,
    places: Seq<PlaceData>,
    place: Place,
    values: Seq<Value>,
)
    requires
        state.well_formed(),
        traversal::can_follow(state, places, place),
        is_itinerary(state, places, place, values),
        forall|k: int|
            0 <= k < values.len() - 1 ==> state.is_valid((#[trigger] values[k]).permission),
        !state.is_valid(values.last().permission),
    ensures
        traversal::followed(state, places, place) == Err::<Traversal, TraversalError>(
            TraversalError::ExpiredPermission(values.last().permission),
        ),
    decreases bir::place_depth(places, place),
{
    let last = values.len() - 1;
    if let PlaceData::Dot(owner, name) = places[place.index as int] {
        bir::lemma_owner_is_shallower(places, place);
        lemma_stations_are_not_empty(places, owner);
        let way = stations(places, place);
        assert(way =~= stations(places, owner).push(place));
        if values.len() < way.len() {
            lemma_itinerary_to_owner(state, places, place, values, values);
            lemma_expired_permission_is_in_the_way(state, places, owner, values);
        } else {
            let shorter = values.drop_last();
            lemma_itinerary_to_owner(state, places, place, values, shorter);
            assert forall|k: int| 0 <= k < shorter.len() implies state.is_valid(
                (#[trigger] shorter[k]).permission,
            ) by {
                assert(shorter[k] == values[k]);
            }
            lemma_place_leads_along_names(state, places, owner, shorter);
            traversal::lemma_followed_is_sound(state, places, owner);
            assert(way[last] == place);
            assert(has_field(state, values[last - 1].object, name, values[last]));
            if let Object::Instance(instance) = values[last - 1].object {
                let fields = state.instances[instance.index as int].fields;
                let j = choose|j: int| is_first_field(fields, name, values[last], j);
                lemma_first_field(fields, name, values[last], j);
                state.lemma_field_is_known(values[last - 1].object, name);
            }
        }
    } else {
        assert(values.len() == 1);
        assert(state.knows_value(values[0]));
    }
}

/// Where an object on the way has no field of the name that comes next, the error is at the place
/// with that name, whatever comes after it.
pub proof fn lemma_missing_field_is_in_the_way(
    state: State,
    places: Seq<PlaceData>,
    place: Place,
    values: Seq<Value>,
)
    requires
        state.well_formed(),
        traversal::can_follow(state, places, place),
        is_itinerary(state, places, place, values),
        forall|k: int|
            0 <= k < values.len() ==> state.is_valid((#[trigger] values[k]).permission),
        values.len() < stations(places, place).len(),
        places[stations(places, place)[values.len() as int].index as int] matches PlaceData::Dot(
            _,
            name,
        ) && lacks_field(state, values.last().object, name),
    ensures
        traversal::followed(state, places, place) == Err::<Traversal, TraversalError>(
            TraversalError::NoSuchField(stations(places, place)[values.len() as int]),
        ),
    decreases bir::place_depth(places, place),
{
    if let PlaceData::Dot(owner, name) = places[place.index as int] {
        bir::lemma_owner_is_shallower(places, place);
        lemma_stations_are_not_empty(places, owner);
        let before = stations(places, owner);
        let way = stations(places, place);
        assert(way =~= before.push(place));
        lemma_itinerary_to_owner(state, places, place, values, values);
        if values.len() < before.len() {
            assert(before[values.len() as int] == way[values.len() as int]);
            lemma_missing_field_is_in_the_way(state, places, owner, values);
        } else {
            lemma_place_leads_along_names(state, places, owner, values);
            assert(way[values.len() as int] == place);
            if let Object::Instance(instance) = values.last().object {
                lemma_no_field(state.instances[instance.index as int].fields, name);
            }
        }
    }
}

/// Leasing a place, told along the names on the way to it, `values` being the values that lie on
/// the way, all of them usable. The result refers to the object at the end of the way. If the last
/// permission on the way is a shared lease, it is the result, and nothing changes. Otherwise the
/// result is a new lease without tenants, jointly accessible exactly if some permission on the way
/// is; it becomes the last tenant of the last permission on the way, and nothing else changes.
pub proof fn lemma_lease_along_names(
    state: State,
    places: Seq<PlaceData>,
    place: Place,
    values: Seq<Value>,
)
    requires
        state.well_formed(),
        traversal::can_follow(state, places, place),
        is_itinerary(state, places, place, values),
        values.len() == stations(places, place).len(),
        forall|k: int|
            0 <= k < values.len() ==> state.is_valid((#[trigger] values[k]).permission),
    ensures
        ({
            let (after, outcome) = lease::leased_place(state, places, place);
            let last = values.last().permission;
            outcome matches Ok(value) && value.object == values.last().object && if state.is_joint(
                last,
            ) && state.is_leased(last) {
                value.permission == last && after == state
            } else {
                &&& value.permission.index == state.permissions.len()
                &&& after.permissions.len() == state.permissions.len() + 1
                &&& after.permission(value.permission) matches PermissionShape::Valid {
                    joint,
                    leased,
                    tenants,
                } && leased == Leased::Yes && tenants.len() == 0 && (joint == Joint::Yes
                    <==> exists|k: int|
                    0 <= k < values.len() && state.is_joint((#[trigger] values[k]).permission))
                &&& state.permission(last) matches PermissionShape::Valid {
                    joint,
                    leased,
                    tenants,
                } && after.permission(last) == (PermissionShape::Valid {
                    joint,
                    leased,
                    tenants: tenants.push(value.permission),
                })
                &&& forall|k: int|
                    0 <= k < state.permissions.len() && k != last.index
                        ==> #[trigger] after.permissions[k] == state.permissions[k]
                &&& after.instances == state.instances
                &&& after.local_variables == state.local_variables
                &&& after.our_permission == state.our_permission
            }
        }),
{
    lemma_place_leads_along_names(state, places, place, values);
    assert(permissions_of(values).last() == values.last().permission);
    assert(state.is_valid(values[values.len() - 1].permission));
}

/// A place that cannot be followed cannot be leased either: the error is the same, and nothing
/// changes. Here the way ends at a permission that has expired, or at an object without the field.
pub proof fn lemma_lease_is_refused(
    state: State,
    places: Seq<PlaceData>,
    place: Place,
    values: Seq<Value>,
)
    requires
        state.well_formed(),
        traversal::can_follow(state, places, place),
        is_itinerary(state, places, place, values),
        forall|k: int|
            0 <= k < values.len() - 1 ==> state.is_valid((#[trigger] values[k]).permission),
        state.is_valid(values.last().permission) ==> {
            let way = stations(places, place);
            &&& values.len() < way.len()
            &&& places[way[values.len() as int].index as int] matches PlaceData::Dot(_, name)
                && lacks_field(state, values.last().object, name)
        },
    ensures
        lease::leased_place(state, places, place) == (
            state,
            Err::<Value, TraversalError>(
                if state.is_valid(values.last().permission) {
                    TraversalError::NoSuchField(stations(places, place)[values.len() as int])
                } else {
                    TraversalError::ExpiredPermission(values.last().permission)
                },
            ),
        ),
{
    if state.is_valid(values.last().permission) {
        lemma_missing_field_is_in_the_way(state, places, place, values);
    } else {
        lemma_expired_permission_is_in_the_way(state, places, place, values);
    }
}

} // verus!
