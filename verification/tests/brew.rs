use dada::base::{Op, StorageMode, Word};
use dada::bir;
use dada::bir::{BasicBlock, Bir, StatementData, TerminatorData, TerminatorExpr};
use dada::brew::brew;
use dada::syntax;
use dada::validated::{
    Class, Expr, ExprData, ExprOrigin, Function, Intrinsic, LocalVariable, LocalVariableData,
    LocalVariableOrigin, NamedExpr, NamedExprData, Origins, Place, PlaceData, Tables, Tree,
    TreeData,
};

fn expr(index: usize) -> Expr {
    Expr { index }
}

fn word(index: u32) -> Word {
    Word { index }
}

/// The origin of expression `index`.
fn expr_origin(index: usize) -> ExprOrigin {
    ExprOrigin::Real(syntax::Expr { index })
}

/// The origin of place `index`.
fn place_origin(index: usize) -> ExprOrigin {
    ExprOrigin::Synthetic(syntax::Expr { index: 100 + index })
}

/// A function with two parameters, `named_exprs` and `places`, whose last expression is the root.
fn tree_with(exprs: Vec<ExprData>, named: Vec<NamedExprData>, places: Vec<PlaceData>) -> Tree {
    let root_expr = expr(exprs.len() - 1);
    let parameter = LocalVariableData { name: Some(word(1)), storage_mode: StorageMode::Shared };
    Tree {
        origin: Function { index: 5 },
        origins: Origins {
            exprs: (0..exprs.len()).map(expr_origin).collect(),
            places: (0..places.len()).map(place_origin).collect(),
            local_variables: vec![
                LocalVariableOrigin::Parameter(0),
                LocalVariableOrigin::Parameter(1),
            ],
        },
        data: TreeData {
            tables: Tables {
                exprs,
                named_exprs: named,
                places,
                local_variables: vec![parameter, parameter],
            },
            num_parameters: 2,
            root_expr,
        },
    }
}

fn tree(exprs: Vec<ExprData>) -> Tree {
    tree_with(exprs, vec![], vec![])
}

fn block(index: usize) -> BasicBlock {
    BasicBlock { index }
}

fn place(index: usize) -> bir::Place {
    bir::Place { index }
}

fn statements(bir: &Bir, index: usize) -> Vec<StatementData> {
    let tables = &bir.data.tables;
    let ids = &tables.basic_blocks[index].statements;
    ids.iter().map(|statement| tables.statements[statement.index]).collect()
}

fn statement_origins(bir: &Bir, index: usize) -> Vec<ExprOrigin> {
    let ids = &bir.data.tables.basic_blocks[index].statements;
    ids.iter().map(|statement| bir.origins.statements[statement.index]).collect()
}

fn terminator(bir: &Bir, index: usize) -> &TerminatorData {
    let tables = &bir.data.tables;
    &tables.terminators[tables.basic_blocks[index].terminator.index]
}

fn value_of(bir: &Bir, statement: StatementData) -> &bir::ExprData {
    match statement {
        StatementData::Assign(_, value) => &bir.data.tables.exprs[value.index],
        StatementData::Cusp(_) => panic!("no assignment"),
    }
}

fn assign(target: usize, value: usize) -> StatementData {
    StatementData::Assign(place(target), bir::Expr { index: value })
}

fn cusp(value: usize) -> StatementData {
    StatementData::Cusp(Some(place(value)))
}

fn successors(terminator: &TerminatorData) -> Vec<BasicBlock> {
    match terminator {
        TerminatorData::Goto(next) => vec![*next],
        TerminatorData::If(_, if_true, if_false) => vec![*if_true, *if_false],
        TerminatorData::StartAtomic(next) => vec![*next],
        TerminatorData::EndAtomic(next) => vec![*next],
        TerminatorData::Assign(_, _, next) => vec![*next],
        TerminatorData::Return(_) | TerminatorData::Error | TerminatorData::Panic => vec![],
    }
}

/// The blocks to which control can get, checking that the end of each has been brewed.
fn reachable(bir: &Bir) -> Vec<usize> {
    let mut seen = vec![];
    let mut next = vec![bir.data.start_basic_block];
    while let Some(block) = next.pop() {
        if !seen.contains(&block.index) {
            assert_ne!(*terminator(bir, block.index), TerminatorData::Panic);
            seen.push(block.index);
            next.extend(successors(terminator(bir, block.index)));
        }
    }
    seen.sort();
    seen
}

fn check_origins(bir: &Bir) {
    let (tables, origins) = (&bir.data.tables, &bir.origins);
    assert_eq!(tables.local_variables.len(), origins.local_variables.len());
    assert_eq!(tables.places.len(), origins.places.len());
    assert_eq!(tables.exprs.len(), origins.exprs.len());
    assert_eq!(tables.statements.len(), origins.statements.len());
    assert_eq!(tables.terminators.len(), origins.terminators.len());
    assert_eq!(tables.basic_blocks.len(), origins.basic_blocks.len());
}

#[test]
fn literal_is_returned() {
    let bir = brew(&tree(vec![ExprData::IntegerLiteral(22)]));
    check_origins(&bir);
    assert_eq!(bir.origin, Function { index: 5 });
    assert_eq!(bir.data.num_parameters, 2);
    assert_eq!(bir.data.start_basic_block, block(0));
    let tables = &bir.data.tables;
    assert_eq!(
        tables.local_variables[2],
        bir::LocalVariableData { name: None, storage_mode: StorageMode::Var }
    );
    assert_eq!(
        bir.origins.local_variables[2],
        LocalVariableOrigin::Temporary(syntax::Expr { index: 0 })
    );
    assert_eq!(
        tables.places,
        vec![bir::PlaceData::LocalVariable(bir::LocalVariable { index: 2 })]
    );
    assert_eq!(tables.exprs, vec![bir::ExprData::IntegerLiteral(22)]);
    assert_eq!(statements(&bir, 0), vec![assign(0, 0), cusp(0)]);
    assert_eq!(*terminator(&bir, 0), TerminatorData::Return(place(0)));
    assert_eq!(statement_origins(&bir, 0), vec![expr_origin(0), expr_origin(0)]);
    assert_eq!(tables.basic_blocks.len(), 1);
}

#[test]
fn declared_variables_come_first() {
    let bir = brew(&tree(vec![ExprData::BooleanLiteral(true)]));
    let parameter =
        bir::LocalVariableData { name: Some(word(1)), storage_mode: StorageMode::Shared };
    assert_eq!(bir.data.tables.local_variables[..2], [parameter, parameter]);
    assert_eq!(
        bir.origins.local_variables[..2],
        [LocalVariableOrigin::Parameter(0), LocalVariableOrigin::Parameter(1)]
    );
    assert_eq!(bir.data.tables.exprs, vec![bir::ExprData::BooleanLiteral(true)]);
}

#[test]
fn operands_are_spilled_into_temporaries() {
    let bir = brew(&tree(vec![
        ExprData::IntegerLiteral(1),
        ExprData::StringLiteral(word(9)),
        ExprData::Op(expr(0), Op::Plus, expr(1)),
    ]));
    check_origins(&bir);
    assert_eq!(
        bir.data.tables.exprs,
        vec![
            bir::ExprData::IntegerLiteral(1),
            bir::ExprData::StringLiteral(word(9)),
            bir::ExprData::Op(place(1), Op::Plus, place(2)),
        ]
    );
    assert_eq!(
        statements(&bir, 0),
        vec![assign(1, 0), cusp(1), assign(2, 1), cusp(2), assign(0, 2), cusp(0)]
    );
    assert_eq!(*terminator(&bir, 0), TerminatorData::Return(place(0)));
}

#[test]
fn tuples() {
    let bir = brew(&tree(vec![ExprData::Tuple(vec![])]));
    assert_eq!(bir.data.tables.exprs, vec![bir::ExprData::Unit]);
    let bir = brew(&tree(vec![
        ExprData::IntegerLiteral(1),
        ExprData::IntegerLiteral(2),
        ExprData::Tuple(vec![expr(0), expr(1)]),
    ]));
    assert_eq!(bir.data.tables.exprs[2], bir::ExprData::Tuple(vec![place(1), place(2)]));
    assert_eq!(statements(&bir, 0)[4..], [assign(0, 2), cusp(0)]);
}

#[test]
fn branches_store_in_the_same_place_and_join() {
    let bir = brew(&tree(vec![
        ExprData::BooleanLiteral(true),
        ExprData::IntegerLiteral(1),
        ExprData::IntegerLiteral(2),
        ExprData::If(expr(0), expr(1), expr(2)),
    ]));
    check_origins(&bir);
    assert_eq!(statements(&bir, 0), vec![assign(1, 0), cusp(1)]);
    assert_eq!(*terminator(&bir, 0), TerminatorData::If(place(1), block(1), block(2)));
    assert_eq!(statements(&bir, 1), vec![assign(0, 1), cusp(0)]);
    assert_eq!(*terminator(&bir, 1), TerminatorData::Goto(block(3)));
    assert_eq!(statements(&bir, 2), vec![assign(0, 2), cusp(0)]);
    assert_eq!(*terminator(&bir, 2), TerminatorData::Goto(block(3)));
    assert_eq!(statements(&bir, 3), vec![cusp(0)]);
    assert_eq!(statement_origins(&bir, 3), vec![expr_origin(3)]);
    assert_eq!(*terminator(&bir, 3), TerminatorData::Return(place(0)));
    assert_eq!(reachable(&bir), vec![0, 1, 2, 3]);
}

#[test]
fn break_stores_the_value_of_the_loop() {
    // loop { break 7 }
    let bir = brew(&tree(vec![
        ExprData::IntegerLiteral(7),
        ExprData::Break { from_expr: expr(2), with_value: expr(0) },
        ExprData::Loop(expr(1)),
    ]));
    check_origins(&bir);
    assert_eq!(statements(&bir, 0), vec![]);
    assert_eq!(*terminator(&bir, 0), TerminatorData::Goto(block(1)));
    // The value is stored in the place of the loop, which is where it is returned from.
    assert_eq!(statements(&bir, 1), vec![assign(0, 0), cusp(0), cusp(0)]);
    assert_eq!(statement_origins(&bir, 1), vec![expr_origin(0), expr_origin(0), expr_origin(1)]);
    assert_eq!(*terminator(&bir, 1), TerminatorData::Goto(block(2)));
    assert_eq!(statements(&bir, 2), vec![cusp(0)]);
    assert_eq!(*terminator(&bir, 2), TerminatorData::Return(place(0)));
    assert_eq!(reachable(&bir), vec![0, 1, 2]);
}

#[test]
fn continue_starts_the_loop_over() {
    let bir = brew(&tree(vec![ExprData::Continue(expr(1)), ExprData::Loop(expr(0))]));
    assert_eq!(statements(&bir, 1), vec![StatementData::Cusp(None)]);
    assert_eq!(*terminator(&bir, 1), TerminatorData::Goto(block(1)));
    assert_eq!(reachable(&bir), vec![0, 1]);
}

#[test]
fn body_of_a_loop_goes_back_to_its_start() {
    let bir = brew(&tree(vec![ExprData::IntegerLiteral(1), ExprData::Loop(expr(0))]));
    // The value of the body is not the value of the loop.
    assert_eq!(statements(&bir, 1), vec![assign(1, 0), cusp(1)]);
    assert_eq!(*terminator(&bir, 1), TerminatorData::Goto(block(1)));
    assert_eq!(reachable(&bir), vec![0, 1]);
}

#[test]
fn break_may_leave_an_outer_loop() {
    // loop { loop { break 'outer 7 } }
    let bir = brew(&tree(vec![
        ExprData::IntegerLiteral(7),
        ExprData::Break { from_expr: expr(3), with_value: expr(0) },
        ExprData::Loop(expr(1)),
        ExprData::Loop(expr(2)),
    ]));
    // Block 2 follows the outer loop, blocks 3 and 4 belong to the inner one.
    assert_eq!(*terminator(&bir, 1), TerminatorData::Goto(block(3)));
    assert_eq!(statements(&bir, 3), vec![assign(0, 0), cusp(0), cusp(0)]);
    assert_eq!(*terminator(&bir, 3), TerminatorData::Goto(block(2)));
    assert_eq!(*terminator(&bir, 2), TerminatorData::Return(place(0)));
    assert_eq!(reachable(&bir), vec![0, 1, 2, 3]);
}

#[test]
fn nothing_follows_a_return() {
    // { return 1 2 }
    let bir = brew(&tree(vec![
        ExprData::IntegerLiteral(1),
        ExprData::Return(expr(0)),
        ExprData::IntegerLiteral(2),
        ExprData::Sequence(vec![expr(1), expr(2)]),
    ]));
    check_origins(&bir);
    assert_eq!(statements(&bir, 0), vec![assign(1, 0), cusp(1), cusp(1)]);
    assert_eq!(*terminator(&bir, 0), TerminatorData::Return(place(1)));
    assert_eq!(bir.data.tables.exprs, vec![bir::ExprData::IntegerLiteral(1)]);
}

#[test]
fn code_after_a_return_is_unreachable() {
    // { return 1 if true { 2 } else { 3 } }
    let bir = brew(&tree(vec![
        ExprData::IntegerLiteral(1),
        ExprData::Return(expr(0)),
        ExprData::BooleanLiteral(true),
        ExprData::IntegerLiteral(2),
        ExprData::IntegerLiteral(3),
        ExprData::If(expr(2), expr(3), expr(4)),
        ExprData::Sequence(vec![expr(1), expr(5)]),
    ]));
    check_origins(&bir);
    assert_eq!(reachable(&bir), vec![0]);
    // The blocks of the branches exist, but the end of the block after them was never brewed.
    assert_eq!(bir.data.tables.basic_blocks.len(), 4);
    assert_eq!(*terminator(&bir, 1), TerminatorData::Goto(block(3)));
    assert_eq!(*terminator(&bir, 3), TerminatorData::Panic);
}

#[test]
fn error_ends_its_block() {
    let bir = brew(&tree(vec![ExprData::Error]));
    assert_eq!(statements(&bir, 0), vec![StatementData::Cusp(None)]);
    assert_eq!(*terminator(&bir, 0), TerminatorData::Error);
}

#[test]
fn sequences() {
    let bir = brew(&tree(vec![ExprData::Sequence(vec![])]));
    assert_eq!(bir.data.tables.exprs, vec![bir::ExprData::Unit]);
    assert_eq!(statements(&bir, 0), vec![assign(0, 0), cusp(0)]);
    let bir = brew(&tree(vec![
        ExprData::IntegerLiteral(1),
        ExprData::IntegerLiteral(2),
        ExprData::Sequence(vec![expr(0), expr(1)]),
    ]));
    assert_eq!(
        statements(&bir, 0),
        vec![assign(1, 0), cusp(1), assign(0, 1), cusp(0), cusp(0)]
    );
    assert_eq!(statement_origins(&bir, 0)[3..], [expr_origin(1), expr_origin(2)]);
}

fn a_b_c() -> Vec<PlaceData> {
    vec![
        PlaceData::LocalVariable(LocalVariable { index: 1 }),
        PlaceData::Dot(Place { index: 0 }, word(2)),
        PlaceData::Dot(Place { index: 1 }, word(3)),
    ]
}

#[test]
fn place_shows_a_cusp_for_each_step() {
    let bir = brew(&tree_with(
        vec![ExprData::Lease(Place { index: 2 })],
        vec![],
        a_b_c(),
    ));
    check_origins(&bir);
    assert_eq!(
        bir.data.tables.places[1..],
        [
            bir::PlaceData::LocalVariable(bir::LocalVariable { index: 1 }),
            bir::PlaceData::Dot(place(1), word(2)),
            bir::PlaceData::Dot(place(2), word(3)),
        ]
    );
    assert_eq!(bir.data.tables.exprs, vec![bir::ExprData::Lease(place(3))]);
    assert_eq!(
        statements(&bir, 0),
        vec![assign(0, 0), cusp(0), cusp(0), cusp(0), cusp(0)]
    );
    assert_eq!(
        statement_origins(&bir, 0),
        vec![expr_origin(0), place_origin(0), place_origin(1), place_origin(2), expr_origin(0)]
    );
}

#[test]
fn share_and_give() {
    let bir = brew(&tree_with(vec![ExprData::Share(Place { index: 0 })], vec![], a_b_c()));
    assert_eq!(bir.data.tables.exprs, vec![bir::ExprData::Share(place(1))]);
    let bir = brew(&tree_with(vec![ExprData::Give(Place { index: 1 })], vec![], a_b_c()));
    assert_eq!(bir.data.tables.exprs, vec![bir::ExprData::Give(place(2))]);
}

#[test]
fn places_of_functions_and_classes() {
    let places = vec![
        PlaceData::Function(Function { index: 1 }),
        PlaceData::Intrinsic(Intrinsic { index: 2 }),
        PlaceData::Class(Class { index: 3 }),
    ];
    let bir = brew(&tree_with(
        vec![
            ExprData::Share(Place { index: 0 }),
            ExprData::Share(Place { index: 1 }),
            ExprData::Share(Place { index: 2 }),
            ExprData::Sequence(vec![expr(0), expr(1), expr(2)]),
        ],
        vec![],
        places,
    ));
    let tables = &bir.data.tables;
    assert!(tables.places.contains(&bir::PlaceData::Function(Function { index: 1 })));
    assert!(tables.places.contains(&bir::PlaceData::Intrinsic(Intrinsic { index: 2 })));
    assert!(tables.places.contains(&bir::PlaceData::Class(Class { index: 3 })));
}

#[test]
fn assignment_stores_and_is_unit() {
    // a.b = 7
    let bir = brew(&tree_with(
        vec![ExprData::IntegerLiteral(7), ExprData::Assign(Place { index: 1 }, expr(0))],
        vec![],
        a_b_c(),
    ));
    let all = statements(&bir, 0);
    assert_eq!(
        all,
        vec![
            assign(2, 0),
            cusp(2),
            StatementData::Cusp(None),
            StatementData::Cusp(None),
            StatementData::Cusp(None),
            assign(0, 1),
        ]
    );
    assert_eq!(*value_of(&bir, all[0]), bir::ExprData::IntegerLiteral(7));
    assert_eq!(*value_of(&bir, all[5]), bir::ExprData::Unit);
    assert_eq!(
        statement_origins(&bir, 0)[2..],
        [place_origin(0), place_origin(1), expr_origin(1), expr_origin(1)]
    );
}

#[test]
fn call_continues_in_a_new_block() {
    // f(x: 1 y: 2)
    let bir = brew(&tree_with(
        vec![
            ExprData::Share(Place { index: 0 }),
            ExprData::IntegerLiteral(1),
            ExprData::IntegerLiteral(2),
            ExprData::Call(expr(0), vec![NamedExpr { index: 0 }, NamedExpr { index: 1 }]),
        ],
        vec![
            NamedExprData { name: word(10), expr: expr(1) },
            NamedExprData { name: word(11), expr: expr(2) },
        ],
        vec![PlaceData::Function(Function { index: 1 })],
    ));
    check_origins(&bir);
    // Place 0 is the result, place 1 the callee, place 2 the function, then the arguments.
    assert_eq!(
        *terminator(&bir, 0),
        TerminatorData::Assign(
            place(0),
            TerminatorExpr::Call {
                function: place(1),
                arguments: vec![place(3), place(4)],
                labels: vec![word(10), word(11)],
            },
            block(1),
        )
    );
    assert_eq!(statements(&bir, 1), vec![cusp(0)]);
    assert_eq!(*terminator(&bir, 1), TerminatorData::Return(place(0)));
}

#[test]
fn await_continues_in_a_new_block() {
    let bir = brew(&tree(vec![ExprData::IntegerLiteral(1), ExprData::Await(expr(0))]));
    assert_eq!(
        *terminator(&bir, 0),
        TerminatorData::Assign(place(0), TerminatorExpr::Await(place(1)), block(1))
    );
    assert_eq!(statements(&bir, 1), vec![cusp(0)]);
    assert_eq!(reachable(&bir), vec![0, 1]);
}

#[test]
fn atomic_section_has_blocks_of_its_own() {
    let bir = brew(&tree(vec![ExprData::IntegerLiteral(1), ExprData::Atomic(expr(0))]));
    assert_eq!(*terminator(&bir, 0), TerminatorData::StartAtomic(block(1)));
    assert_eq!(statements(&bir, 1), vec![assign(0, 0), cusp(0)]);
    assert_eq!(*terminator(&bir, 1), TerminatorData::EndAtomic(block(2)));
    assert_eq!(statements(&bir, 2), vec![cusp(0)]);
    assert_eq!(*terminator(&bir, 2), TerminatorData::Return(place(0)));
}

#[test]
fn control_stays_in_brewed_blocks() {
    // loop { if true { break 1 } else { atomic { return 2 } } await 3 }
    let bir = brew(&tree(vec![
        ExprData::BooleanLiteral(true),
        ExprData::IntegerLiteral(1),
        ExprData::Break { from_expr: expr(10), with_value: expr(1) },
        ExprData::IntegerLiteral(2),
        ExprData::Return(expr(3)),
        ExprData::Atomic(expr(4)),
        ExprData::If(expr(0), expr(2), expr(5)),
        ExprData::IntegerLiteral(3),
        ExprData::Await(expr(7)),
        ExprData::Sequence(vec![expr(6), expr(8)]),
        ExprData::Loop(expr(9)),
    ]));
    check_origins(&bir);
    let reached = reachable(&bir);
    assert!(reached.len() < bir.data.tables.basic_blocks.len());
    assert!(reached.contains(&0));
}

#[test]
fn diverging_condition_makes_the_branches_unreachable() {
    // if (return 1) { 2 } else { 3 }
    let bir = brew(&tree(vec![
        ExprData::IntegerLiteral(1),
        ExprData::Return(expr(0)),
        ExprData::IntegerLiteral(2),
        ExprData::IntegerLiteral(3),
        ExprData::If(expr(1), expr(2), expr(3)),
    ]));
    assert_eq!(reachable(&bir), vec![0]);
    assert_eq!(*terminator(&bir, 0), TerminatorData::Return(place(2)));
}

/// How often control stores a value in the variable of `target` along `path`.
fn path_writes(bir: &Bir, path: &[usize], target: bir::Place) -> usize {
    let tables = &bir.data.tables;
    let same = |place: bir::Place| tables.places[place.index] == tables.places[target.index];
    let mut count = 0;
    for block in path {
        for statement in statements(bir, *block) {
            if let StatementData::Assign(place, _) = statement {
                count += same(place) as usize;
            }
        }
        if let TerminatorData::Assign(place, _, _) = terminator(bir, *block) {
            count += same(*place) as usize;
        }
    }
    count
}

/// The paths of at most `longest` blocks from the start to a block that ends by returning a place,
/// with that place.
fn returning_paths(bir: &Bir, longest: usize) -> Vec<(Vec<usize>, bir::Place)> {
    let mut found = vec![];
    let mut open = vec![vec![bir.data.start_basic_block.index]];
    while let Some(path) = open.pop() {
        let last = terminator(bir, path[path.len() - 1]);
        if let TerminatorData::Return(place) = last {
            found.push((path.clone(), *place));
        }
        if path.len() < longest {
            for next in successors(last) {
                let mut longer = path.clone();
                longer.push(next.index);
                open.push(longer);
            }
        }
    }
    found
}

#[test]
fn value_is_stored_once_on_every_path() {
    // if true { loop { if true { break 1 } else { continue } } } else { atomic { await 2 } }
    let bir = brew(&tree(vec![
        ExprData::BooleanLiteral(true),
        ExprData::IntegerLiteral(1),
        ExprData::Break { from_expr: expr(5), with_value: expr(1) },
        ExprData::Continue(expr(5)),
        ExprData::If(expr(0), expr(2), expr(3)),
        ExprData::Loop(expr(4)),
        ExprData::IntegerLiteral(2),
        ExprData::Await(expr(6)),
        ExprData::Atomic(expr(7)),
        ExprData::If(expr(0), expr(5), expr(8)),
    ]));
    let paths = returning_paths(&bir, 12);
    // The loop may be run through more than once.
    assert!(paths.len() > 2);
    for (path, returned) in &paths {
        assert_eq!(*returned, place(0));
        assert_eq!(path_writes(&bir, path, place(0)), 1);
    }
}

#[test]
fn leaving_an_expression_stores_nothing() {
    // loop { break (if true { continue } else { 7 }) }
    let bir = brew(&tree(vec![
        ExprData::BooleanLiteral(true),
        ExprData::Continue(expr(5)),
        ExprData::IntegerLiteral(7),
        ExprData::If(expr(0), expr(1), expr(2)),
        ExprData::Break { from_expr: expr(5), with_value: expr(3) },
        ExprData::Loop(expr(4)),
    ]));
    let paths = returning_paths(&bir, 12);
    assert!(paths.len() > 1);
    for (path, _) in &paths {
        assert_eq!(path_writes(&bir, path, place(0)), 1);
    }
}

#[test]
fn returned_value_is_stored() {
    // loop { if true { return 1 } else { break 2 } }
    let bir = brew(&tree(vec![
        ExprData::BooleanLiteral(true),
        ExprData::IntegerLiteral(1),
        ExprData::Return(expr(1)),
        ExprData::IntegerLiteral(2),
        ExprData::Break { from_expr: expr(6), with_value: expr(3) },
        ExprData::If(expr(0), expr(2), expr(4)),
        ExprData::Loop(expr(5)),
    ]));
    let paths = returning_paths(&bir, 8);
    assert_eq!(paths.len(), 2);
    for (path, returned) in &paths {
        assert_eq!(path_writes(&bir, path, *returned), 1);
    }
    assert_ne!(paths[0].1, paths[1].1);
}

#[test]
fn temporaries_differ() {
    let bir = brew(&tree(vec![
        ExprData::IntegerLiteral(1),
        ExprData::Op(expr(0), Op::Plus, expr(0)),
    ]));
    let variables: Vec<_> = (2..5)
        .map(|index| bir::PlaceData::LocalVariable(bir::LocalVariable { index }))
        .collect();
    assert_eq!(bir.data.tables.places, variables);
    for index in 2..5 {
        assert_eq!(bir.data.tables.local_variables[index].name, None);
    }
}
