use dada::base::StorageMode;
use dada::bir;
use dada::bir::{PlaceData, StatementData, TerminatorData};
use dada::brew::{add_temporary, add_temporary_place};
use dada::brewery::Brewery;
use dada::cursor::Cursor;
use dada::recipe::LoopContext;
use dada::syntax;
use dada::validated::{
    Expr, ExprData, ExprOrigin, Function, LocalVariable, LocalVariableData, LocalVariableOrigin,
    Origins, Tables, Tree, TreeData,
};

fn origin() -> ExprOrigin {
    ExprOrigin::Real(syntax::Expr { index: 0 })
}

fn tree(exprs: Vec<ExprData>) -> Tree {
    let root_expr = Expr { index: exprs.len() - 1 };
    Tree {
        origin: Function { index: 0 },
        origins: Origins {
            exprs: exprs.iter().map(|_| origin()).collect(),
            places: vec![],
            local_variables: vec![LocalVariableOrigin::Declared(syntax::Expr { index: 1 })],
        },
        data: TreeData {
            tables: Tables {
                exprs,
                named_exprs: vec![],
                places: vec![],
                local_variables: vec![LocalVariableData {
                    name: None,
                    storage_mode: StorageMode::Shared,
                }],
            },
            num_parameters: 0,
            root_expr,
        },
    }
}

#[test]
fn brewing_into_a_place_tells_whether_there_is_a_value() {
    let tree = tree(vec![
        ExprData::IntegerLiteral(1),
        ExprData::Return(Expr { index: 0 }),
        ExprData::Error,
    ]);
    let mut brewery = Brewery::new(&tree);
    let mut cursor = Cursor::new(&mut brewery, origin());
    let variable = brewery.variable(LocalVariable { index: 0 });
    let target = brewery.add_place(PlaceData::LocalVariable(variable), origin());
    let value = cursor.brew_expr_and_assign_to(&mut brewery, target, Expr { index: 0 });
    assert_eq!(value, Some(target));
    let value = cursor.brew_expr_and_assign_to(&mut brewery, target, Expr { index: 1 });
    assert_eq!(value, None);
    assert_eq!(cursor.end_block, None);
    // Where control cannot get, nothing has a value.
    let value = cursor.brew_expr_and_assign_to(&mut brewery, target, Expr { index: 0 });
    assert_eq!(value, None);
}

#[test]
fn dead_cursor_adds_nothing() {
    let tree = tree(vec![ExprData::Error]);
    let mut brewery = Brewery::new(&tree);
    let mut cursor = Cursor::new(&mut brewery, origin());
    let block = cursor.start_block;
    cursor.terminate_and_diverge(&mut brewery, TerminatorData::Error, origin());
    let terminators = brewery.tables.terminators.len();
    cursor.push_cusp(&mut brewery, None, origin());
    cursor.push_cusps(&mut brewery, None, vec![origin()], origin());
    cursor.push_assignment(
        &mut brewery,
        bir::Place { index: 0 },
        bir::ExprData::Unit,
        origin(),
    );
    cursor.terminate_and_goto(&mut brewery, block, origin());
    assert_eq!(brewery.tables.statements, vec![]);
    assert_eq!(brewery.tables.exprs, vec![]);
    assert_eq!(brewery.tables.terminators.len(), terminators);
    assert_eq!(cursor.complete(), block);
}

#[test]
fn cursor_follows_the_end_of_the_code() {
    let tree = tree(vec![ExprData::Error]);
    let mut brewery = Brewery::new(&tree);
    let mut cursor = Cursor::new(&mut brewery, origin());
    let next = brewery.dummy_block(origin());
    assert_eq!(next.index, 1);
    cursor.terminate_and_continue(&mut brewery, TerminatorData::Goto(next), next, origin());
    assert_eq!(cursor.end_block, Some(next));
    cursor.push_cusp(&mut brewery, None, origin());
    assert_eq!(brewery.tables.basic_blocks[0].statements, vec![]);
    assert_eq!(brewery.tables.basic_blocks[1].statements.len(), 1);
    assert_eq!(brewery.tables.statements, vec![StatementData::Cusp(None)]);
    let elsewhere = cursor.with_end_block(cursor.start_block);
    assert_eq!(elsewhere.end_block, Some(cursor.start_block));
}

#[test]
fn innermost_context_of_a_loop_counts() {
    let tree = tree(vec![ExprData::Error]);
    let mut brewery = Brewery::new(&tree);
    let outer = brewery.dummy_block(origin());
    let inner = brewery.dummy_block(origin());
    let context = |block| LoopContext {
        continue_block: block,
        break_block: block,
        loop_value: bir::Place { index: 0 },
    };
    let (one, two) = (Expr { index: 1 }, Expr { index: 2 });
    brewery.push_loop_context(one, context(outer));
    brewery.push_loop_context(two, context(inner));
    assert_eq!(brewery.loop_context(one), context(outer));
    assert_eq!(brewery.loop_context(two), context(inner));
    brewery.push_loop_context(one, context(inner));
    assert_eq!(brewery.loop_context(one), context(inner));
    brewery.pop_loop_context();
    assert_eq!(brewery.loop_context(one), context(outer));
}

#[test]
fn temporaries_are_new_variables() {
    let tree = tree(vec![ExprData::Error]);
    let mut brewery = Brewery::new(&tree);
    let declared = brewery.tables.local_variables[0];
    let one = add_temporary(&mut brewery, origin());
    let two = add_temporary(&mut brewery, origin());
    assert_eq!((one.index, two.index), (1, 2));
    let temporary = bir::LocalVariableData { name: None, storage_mode: StorageMode::Var };
    assert_eq!(brewery.tables.local_variables, vec![declared, temporary, temporary]);
    let recorded = LocalVariableOrigin::Temporary(syntax::Expr { index: 0 });
    assert_eq!(
        brewery.origins.local_variables,
        vec![
            LocalVariableOrigin::Declared(syntax::Expr { index: 1 }),
            recorded,
            recorded,
        ]
    );
    let place = add_temporary_place(&mut brewery, origin());
    assert_eq!(
        brewery.tables.places[place.index],
        PlaceData::LocalVariable(bir::LocalVariable { index: 3 })
    );
}
