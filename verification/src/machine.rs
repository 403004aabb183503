//! The state of a running program: objects, and permissions to use them.
use vstd::prelude::*;

use crate::base::{Joint, Leased, Word};
use crate::validated::{Class, Function, Intrinsic};

verus! {

/// An entry of the table of instances.
#[derive(Clone, Copy, Debug, PartialEq, Eq, Structural)]
pub struct Instance {
    pub index: usize,
}

/// An entry of the table of permissions.
#[derive(Clone, Copy, Debug, PartialEq, Eq, Structural)]
pub struct Permission {
    pub index: usize,
}

/// Something that a value can refer to.
#[derive(Clone, Copy, Debug, PartialEq, Eq, Structural)]
pub enum Object {
    Instance(Instance),
    Function(Function),
    Intrinsic(Intrinsic),
    Class(Class),
}

/// A reference to an object, with the permission to use it.
#[derive(Clone, Copy, Debug, PartialEq, Eq, Structural)]
pub struct Value {
    pub object: Object,
    pub permission: Permission,
}

/// A permission that can be used.
#[derive(Debug, PartialEq, Eq)]
pub struct ValidPermissionData {
    pub joint: Joint,
    pub leased: Leased,
    /// The permissions that were lent out from this one. They may end when this one is used or
    /// ends.
    pub tenants: Vec<Permission>,
}

/// What a permission is.
#[derive(Debug, PartialEq, Eq)]
pub enum PermissionData {
    Expired,
    Valid(ValidPermissionData),
}

/// What an instance is.
#[derive(Debug, PartialEq, Eq)]
pub struct InstanceData {
    pub class: Class,
    pub fields: Vec<(Word, Value)>,
}

/// The state of a running program.
#[derive(Debug, PartialEq, Eq)]
pub struct Machine {
    pub instances: Vec<InstanceData>,
    pub permissions: Vec<PermissionData>,
    /// The local variables of the running function.
    pub local_variables: Vec<Value>,
    /// The permission that everyone has to use functions and classes.
    pub our_permission: Permission,
}

/// The mathematical reading of `PermissionData`.
pub enum PermissionShape {
    Expired,
    Valid { joint: Joint, leased: Leased, tenants: Seq<Permission> },
}

impl View for PermissionData {
    type V = PermissionShape;

    open spec fn view(&self) -> PermissionShape {
        match *self {
            PermissionData::Expired => PermissionShape::Expired,
            PermissionData::Valid(data) => PermissionShape::Valid {
                joint: data.joint,
                leased: data.leased,
                tenants: data.tenants@,
            },
        }
    }
}

/// The mathematical reading of `InstanceData`.
pub struct InstanceShape {
    pub class: Class,
    pub fields: Seq<(Word, Value)>,
}

impl View for InstanceData {
    type V = InstanceShape;

    open spec fn view(&self) -> InstanceShape {
        InstanceShape { class: self.class, fields: self.fields@ }
    }
}

/// The mathematical reading of `Machine`.
#[verifier::ext_equal]
pub struct State {
    pub instances: Seq<InstanceShape>,
    pub permissions: Seq<PermissionShape>,
    pub local_variables: Seq<Value>,
    pub our_permission: Permission,
}

impl View for Machine {
    type V = State;

    open spec fn view(&self) -> State {
        State {
            instances: self.instances@.map_values(|data: InstanceData| data@),
            permissions: self.permissions@.map_values(|data: PermissionData| data@),
            local_variables: self.local_variables@,
            our_permission: self.our_permission,
        }
    }
}

impl State {
    /// What `permission` is.
    pub open spec fn permission(self, permission: Permission) -> PermissionShape {
        self.permissions[permission.index as int]
    }

    /// Whether `permission` is in the table and can be used.
    pub open spec fn is_valid(self, permission: Permission) -> bool {
        &&& permission.index < self.permissions.len()
        &&& self.permission(permission) is Valid
    }

    /// Whether `permission` is shared with others.
    pub open spec fn is_joint(self, permission: Permission) -> bool {
        self.permission(permission) matches PermissionShape::Valid { joint, .. } && joint
            == Joint::Yes
    }

    /// Whether `permission` was lent by another.
    pub open spec fn is_leased(self, permission: Permission) -> bool {
        self.permission(permission) matches PermissionShape::Valid { leased, .. } && leased
            == Leased::Yes
    }

    /// Whether the object and the permission of `value` are in the tables.
    pub open spec fn knows_value(self, value: Value) -> bool {
        &&& value.permission.index < self.permissions.len()
        &&& value.object matches Object::Instance(instance) ==> instance.index
            < self.instances.len()
    }

    /// Every value that the program holds refers to what is in the tables, permissions can be
    /// counted, and functions and classes can be used, jointly, by everyone.
    pub open spec fn well_formed(self) -> bool {
        &&& forall|k: int|
            0 <= k < self.local_variables.len() ==> self.knows_value(
                #[trigger] self.local_variables[k],
            )
        &&& forall|i: int, k: int|
            0 <= i < self.instances.len() && 0 <= k < self.instances[i].fields.len()
                ==> self.knows_value((#[trigger] self.instances[i].fields[k]).1)
        &&& self.permissions.len() <= usize::MAX
        &&& self.is_valid(self.our_permission)
        &&& self.is_joint(self.our_permission)
    }

    /// The state with one more valid permission, lent out from `landlord`.
    pub open spec fn add_tenant(self, joint: Joint, landlord: Permission) -> State {
        let tenant = Permission { index: self.permissions.len() as usize };
        let lent = match self.permission(landlord) {
            PermissionShape::Valid { joint, leased, tenants } => PermissionShape::Valid {
                joint,
                leased,
                tenants: tenants.push(tenant),
            },
            PermissionShape::Expired => PermissionShape::Expired,
        };
        State {
            permissions: self.permissions.update(landlord.index as int, lent).push(
                PermissionShape::Valid { joint, leased: Leased::Yes, tenants: seq![] },
            ),
            ..self
        }
    }
}

/// The value of the first of `fields` called `name`, if there is one.
pub open spec fn first_field(fields: Seq<(Word, Value)>, name: Word) -> Option<Value>
    decreases fields.len(),
{
    if fields.len() == 0 {
        None
    } else if fields[0].0 == name {
        Some(fields[0].1)
    } else {
        first_field(fields.skip(1), name)
    }
}

impl Machine {
    /// The value of the first field called `name` of `object`, if there is one.
    pub fn field(&self, object: Object, name: Word) -> (value: Option<Value>)
        requires
            object matches Object::Instance(instance) ==> instance.index < self@.instances.len(),
        ensures
            value == self@.field(object, name),
    {
        if let Object::Instance(instance) = object {
            let fields = &self.instances[instance.index].fields;
            let mut i: usize = 0;
            assert(fields@.skip(0) =~= fields@);
            while i < fields.len()
                invariant
                    i <= fields@.len(),
                    self@.field(object, name) == first_field(fields@, name),
                    first_field(fields@, name) == first_field(fields@.skip(i as int), name),
                decreases fields@.len() - i,
            {
                let (candidate, value) = fields[i];
                assert(fields@.skip(i as int)[0] == fields@[i as int]);
                if candidate == name {
                    return Some(value);
                }
                assert(fields@.skip(i as int).skip(1) =~= fields@.skip(i + 1));
                i = i + 1;
            }
        }
        None
    }
}

impl State {
    /// The value of the first field called `name` of `object`, if there is one.
    pub open spec fn field(self, object: Object, name: Word) -> Option<Value> {
        match object {
            Object::Instance(instance) => first_field(
                self.instances[instance.index as int].fields,
                name,
            ),
            _ => None,
        }
    }

    /// What a field of a known object holds is known.
    pub proof fn lemma_field_is_known(self, object: Object, name: Word)
        requires
            self.well_formed(),
            object matches Object::Instance(instance) ==> instance.index < self.instances.len(),
        ensures
            self.field(object, name) matches Some(value) ==> self.knows_value(value),
    {
        if let Object::Instance(instance) = object {
            let i = instance.index as int;
            let fields = self.instances[i].fields;
            assert forall|k: int| 0 <= k < fields.len() implies self.knows_value(
                (#[trigger] fields[k]).1,
            ) by {
                assert(self.instances[i].fields[k] == fields[k]);
            }
            self.lemma_first_field_is_known(fields, name);
        }
    }

    proof fn lemma_first_field_is_known(self, fields: Seq<(Word, Value)>, name: Word)
        requires
            forall|k: int| 0 <= k < fields.len() ==> self.knows_value((#[trigger] fields[k]).1),
        ensures
            first_field(fields, name) matches Some(value) ==> self.knows_value(value),
        decreases fields.len(),
    {
        if fields.len() > 0 && fields[0].0 != name {
            let rest = fields.skip(1);
            assert forall|k: int| 0 <= k < rest.len() implies self.knows_value(
                (#[trigger] rest[k]).1,
            ) by {
                assert(rest[k] == fields[k + 1]);
            }
            self.lemma_first_field_is_known(rest, name);
        }
    }
}

} // verus!
