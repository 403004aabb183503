use dada::base::{Joint, Leased, StorageMode, Word};
use dada::bir::{LocalVariable, Place, PlaceData, Tables};
use dada::brew::brew;
use dada::machine::{
    Instance, InstanceData, Machine, Object, Permission, PermissionData, ValidPermissionData, Value,
};
use dada::syntax;
use dada::traversal::{AccumulatedPermissions, ObjectTraversal, Stepper, TraversalError};
use dada::validated;
use dada::validated::{Class, Function, Intrinsic};

fn permission(index: usize) -> Permission {
    Permission { index }
}

fn valid(joint: Joint, leased: Leased) -> PermissionData {
    PermissionData::Valid(ValidPermissionData { joint, leased, tenants: vec![] })
}

fn with_tenant(joint: Joint, leased: Leased, tenant: usize) -> PermissionData {
    PermissionData::Valid(ValidPermissionData {
        joint,
        leased,
        tenants: vec![permission(tenant)],
    })
}

fn instance(index: usize) -> Object {
    Object::Instance(Instance { index })
}

fn value(object: usize, index: usize) -> Value {
    Value { object: instance(object), permission: permission(index) }
}

fn field(index: u32) -> Word {
    Word { index }
}

fn place(index: usize) -> Place {
    Place { index }
}

/// The place `a`, the place `a.f` and the place `a.g`, a function, a built-in function and a class.
fn places() -> Tables {
    Tables {
        local_variables: vec![],
        places: vec![
            PlaceData::LocalVariable(LocalVariable { index: 0 }),
            PlaceData::Dot(place(0), field(0)),
            PlaceData::Dot(place(0), field(1)),
            PlaceData::Function(Function { index: 7 }),
            PlaceData::Intrinsic(Intrinsic { index: 8 }),
            PlaceData::Class(Class { index: 9 }),
        ],
        exprs: vec![],
        statements: vec![],
        terminators: vec![],
        basic_blocks: vec![],
    }
}

/// A state in which `a` holds an object, by permission 1, whose field `f` holds another one, by
/// permission 2. Permission 0 is everyone's.
fn stepper(a: PermissionData, f: PermissionData) -> Stepper {
    Stepper {
        machine: Machine {
            instances: vec![
                InstanceData { class: Class { index: 0 }, fields: vec![(field(0), value(1, 2))] },
                InstanceData { class: Class { index: 1 }, fields: vec![] },
            ],
            permissions: vec![valid(Joint::Yes, Leased::No), a, f],
            local_variables: vec![value(0, 1)],
            our_permission: permission(0),
        },
    }
}

fn mine() -> PermissionData {
    valid(Joint::No, Leased::No)
}

fn ours() -> PermissionData {
    valid(Joint::Yes, Leased::No)
}

fn leased() -> PermissionData {
    valid(Joint::No, Leased::Yes)
}

fn shared_lease() -> PermissionData {
    valid(Joint::Yes, Leased::Yes)
}

#[test]
fn lease_of_what_is_mine_is_exclusive() {
    let mut stepper = stepper(mine(), mine());
    let result = stepper.lease_place(&places(), place(1));
    assert_eq!(result, Ok(value(1, 3)));
    assert_eq!(
        stepper.machine.permissions,
        vec![ours(), mine(), with_tenant(Joint::No, Leased::No, 3), leased()]
    );
}

#[test]
fn lease_of_what_is_leased_is_exclusive() {
    let mut stepper = stepper(mine(), leased());
    assert_eq!(stepper.lease_place(&places(), place(1)), Ok(value(1, 3)));
    assert_eq!(
        stepper.machine.permissions,
        vec![ours(), mine(), with_tenant(Joint::No, Leased::Yes, 3), leased()]
    );
}

#[test]
fn lease_along_a_joint_way_is_joint() {
    let mut stepper = stepper(ours(), leased());
    assert_eq!(stepper.lease_place(&places(), place(1)), Ok(value(1, 3)));
    assert_eq!(
        stepper.machine.permissions,
        vec![ours(), ours(), with_tenant(Joint::No, Leased::Yes, 3), shared_lease()]
    );
}

#[test]
fn shared_lease_is_duplicated() {
    let mut stepper = stepper(mine(), shared_lease());
    assert_eq!(stepper.lease_place(&places(), place(1)), Ok(value(1, 2)));
    assert_eq!(stepper.machine.permissions, vec![ours(), mine(), shared_lease()]);
}

#[test]
fn lease_of_joint_permission_that_is_not_leased_is_new() {
    let mut stepper = stepper(ours(), mine());
    assert_eq!(stepper.lease_place(&places(), place(0)), Ok(value(0, 3)));
    assert_eq!(
        stepper.machine.permissions,
        vec![ours(), with_tenant(Joint::Yes, Leased::No, 3), mine(), shared_lease()]
    );
}

#[test]
fn leasing_the_result_of_a_joint_lease_changes_nothing() {
    let mut stepper = stepper(ours(), mine());
    let first = stepper.lease_place(&places(), place(0)).unwrap();
    stepper.machine.local_variables[0] = first;
    let before = stepper.machine.permissions.len();
    assert_eq!(stepper.lease_place(&places(), place(0)), Ok(first));
    assert_eq!(stepper.machine.permissions.len(), before);
}

#[test]
fn leasing_the_result_of_an_exclusive_lease_is_another_lease() {
    let mut stepper = stepper(mine(), mine());
    let first = stepper.lease_place(&places(), place(0)).unwrap();
    stepper.machine.local_variables[0] = first;
    assert_eq!(stepper.lease_place(&places(), place(0)), Ok(value(0, 4)));
    assert_eq!(stepper.machine.permissions[3], with_tenant(Joint::No, Leased::Yes, 4));
}

#[test]
fn second_lease_is_a_second_tenant() {
    let mut stepper = stepper(mine(), mine());
    stepper.lease_place(&places(), place(1)).unwrap();
    assert_eq!(stepper.lease_place(&places(), place(1)), Ok(value(1, 4)));
    assert_eq!(
        stepper.machine.permissions[2],
        PermissionData::Valid(ValidPermissionData {
            joint: Joint::No,
            leased: Leased::No,
            tenants: vec![permission(3), permission(4)],
        })
    );
}

#[test]
fn lease_leaves_places_unchanged() {
    let mut stepper = stepper(mine(), leased());
    let before: Vec<_> =
        (0..6).map(|i| stepper.traverse_to_object(&places(), place(i))).collect();
    stepper.lease_place(&places(), place(1)).unwrap();
    let after: Vec<_> =
        (0..6).map(|i| stepper.traverse_to_object(&places(), place(i))).collect();
    assert_eq!(before, after);
    assert_eq!(stepper.machine.local_variables, vec![value(0, 1)]);
    assert_eq!(stepper.machine.instances[0].fields, vec![(field(0), value(1, 2))]);
}

#[test]
fn functions_and_classes_are_leased_jointly() {
    let mut stepper = stepper(mine(), mine());
    let result = stepper.lease_place(&places(), place(3)).unwrap();
    assert_eq!(result.object, Object::Function(Function { index: 7 }));
    assert_eq!(stepper.machine.permissions[result.permission.index], shared_lease());
    let result = stepper.lease_place(&places(), place(4)).unwrap();
    assert_eq!(result.object, Object::Intrinsic(Intrinsic { index: 8 }));
    let result = stepper.lease_place(&places(), place(5)).unwrap();
    assert_eq!(result.object, Object::Class(Class { index: 9 }));
}

#[test]
fn expired_permission_on_the_way() {
    let mut on_way = stepper(PermissionData::Expired, mine());
    let expected = Err(TraversalError::ExpiredPermission(permission(1)));
    assert_eq!(on_way.lease_place(&places(), place(1)), expected);
    assert_eq!(on_way.machine.permissions, vec![ours(), PermissionData::Expired, mine()]);
    let mut at_end = stepper(mine(), PermissionData::Expired);
    let expected = Err(TraversalError::ExpiredPermission(permission(2)));
    assert_eq!(at_end.lease_place(&places(), place(1)), expected);
    assert_eq!(at_end.lease_place(&places(), place(0)), Ok(value(0, 3)));
}

#[test]
fn missing_field() {
    let mut stepper = stepper(mine(), mine());
    let expected = Err(TraversalError::NoSuchField(place(2)));
    assert_eq!(stepper.lease_place(&places(), place(2)), expected);
    assert_eq!(stepper.machine.permissions, vec![ours(), mine(), mine()]);
}

#[test]
fn function_has_no_fields() {
    let mut tables = places();
    tables.places.push(PlaceData::Dot(place(3), field(0)));
    let stepper = stepper(mine(), mine());
    assert_eq!(
        stepper.traverse_to_object(&tables, place(6)),
        Err(TraversalError::NoSuchField(place(6)))
    );
}

#[test]
fn traversal_collects_permissions() {
    let stepper = stepper(ours(), mine());
    assert_eq!(
        stepper.traverse_to_object(&places(), place(1)),
        Ok(ObjectTraversal {
            object: instance(1),
            accumulated_permissions: AccumulatedPermissions {
                traversed: vec![permission(1), permission(2)],
                joint: Joint::Yes,
            },
        })
    );
}

#[test]
fn first_of_two_fields_with_the_same_name_counts() {
    let mut stepper = stepper(mine(), mine());
    stepper.machine.instances[0].fields.push((field(0), value(0, 1)));
    stepper.machine.instances[0].fields.push((field(1), value(0, 1)));
    assert_eq!(stepper.machine.field(instance(0), field(0)), Some(value(1, 2)));
    assert_eq!(stepper.machine.field(instance(0), field(1)), Some(value(0, 1)));
    assert_eq!(stepper.machine.field(instance(0), field(2)), None);
}

#[test]
fn lease_of_a_given_traversal() {
    let mut stepper = stepper(mine(), mine());
    let traversal = ObjectTraversal {
        object: instance(1),
        accumulated_permissions: AccumulatedPermissions {
            traversed: vec![permission(2)],
            joint: Joint::Yes,
        },
    };
    assert_eq!(stepper.lease_traversal(traversal), Ok(value(1, 3)));
    assert_eq!(stepper.machine.permissions[3], shared_lease());
}

#[test]
fn places_of_a_brewed_function_can_be_leased() {
    // a.f, for a variable a
    let origin = validated::ExprOrigin::Real(syntax::Expr { index: 0 });
    let tree = validated::Tree {
        origin: Function { index: 0 },
        origins: validated::Origins {
            exprs: vec![origin],
            places: vec![origin, origin],
            local_variables: vec![validated::LocalVariableOrigin::Parameter(0)],
        },
        data: validated::TreeData {
            tables: validated::Tables {
                exprs: vec![validated::ExprData::Lease(validated::Place { index: 1 })],
                named_exprs: vec![],
                places: vec![
                    validated::PlaceData::LocalVariable(validated::LocalVariable { index: 0 }),
                    validated::PlaceData::Dot(validated::Place { index: 0 }, field(0)),
                ],
                local_variables: vec![validated::LocalVariableData {
                    name: Some(field(9)),
                    storage_mode: StorageMode::Shared,
                }],
            },
            num_parameters: 1,
            root_expr: validated::Expr { index: 0 },
        },
    };
    let tables = brew(&tree).data.tables;
    let mut stepper = stepper(mine(), mine());
    // A value for the temporary too.
    stepper.machine.local_variables.push(value(1, 0));
    assert_eq!(tables.local_variables.len(), stepper.machine.local_variables.len());
    for index in 0..tables.places.len() {
        assert!(stepper.traverse_to_object(&tables, place(index)).is_ok());
    }
    assert_eq!(stepper.lease_place(&tables, place(2)), Ok(value(1, 3)));
}
