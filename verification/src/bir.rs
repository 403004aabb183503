//! Brewed code: basic blocks of simple statements.
use vstd::prelude::*;

use crate::base::{Op, StorageMode, Word};
use crate::graph;
use crate::graph::Links;
use crate::validated::{Class, ExprOrigin, Function, Intrinsic, LocalVariableOrigin};

verus! {

/// An entry of the table of local variables.
#[derive(Clone, Copy, Debug, PartialEq, Eq, Structural)]
pub struct LocalVariable {
    pub index: usize,
}

/// An entry of the table of places.
#[derive(Clone, Copy, Debug, PartialEq, Eq, Structural)]
pub struct Place {
    pub index: usize,
}

/// An entry of the table of expressions.
#[derive(Clone, Copy, Debug, PartialEq, Eq, Structural)]
pub struct Expr {
    pub index: usize,
}

/// An entry of the table of statements.
#[derive(Clone, Copy, Debug, PartialEq, Eq, Structural)]
pub struct Statement {
    pub index: usize,
}

/// An entry of the table of terminators.
#[derive(Clone, Copy, Debug, PartialEq, Eq, Structural)]
pub struct Terminator {
    pub index: usize,
}

/// An entry of the table of basic blocks.
#[derive(Clone, Copy, Debug, PartialEq, Eq, Structural)]
pub struct BasicBlock {
    pub index: usize,
}

/// What a local variable is.
#[derive(Clone, Copy, Debug, PartialEq, Eq, Structural)]
pub struct LocalVariableData {
    pub name: Option<Word>,
    pub storage_mode: StorageMode,
}

/// What a place is.
#[derive(Clone, Copy, Debug, PartialEq, Eq, Structural)]
pub enum PlaceData {
    LocalVariable(LocalVariable),
    Function(Function),
    Intrinsic(Intrinsic),
    Class(Class),
    Dot(Place, Word),
}

/// What an expression is.
#[derive(Debug, PartialEq, Eq)]
pub enum ExprData {
    BooleanLiteral(bool),
    IntegerLiteral(u64),
    StringLiteral(Word),
    Share(Place),
    Lease(Place),
    Give(Place),
    Tuple(Vec<Place>),
    Unit,
    Op(Place, Op, Place),
}

/// What a statement does.
#[derive(Clone, Copy, Debug, PartialEq, Eq, Structural)]
pub enum StatementData {
    /// Stores the value of the expression in the place.
    Assign(Place, Expr),
    /// Marks the moment at which the syntax that is the origin of the statement has been
    /// evaluated, and the place in which its value can be seen, if it has one.
    Cusp(Option<Place>),
}

/// A computation after which control continues in another block.
#[derive(Debug, PartialEq, Eq)]
pub enum TerminatorExpr {
    Await(Place),
    Call { function: Place, arguments: Vec<Place>, labels: Vec<Word> },
}

/// What happens at the end of a block.
#[derive(Debug, PartialEq, Eq)]
pub enum TerminatorData {
    Goto(BasicBlock),
    If(Place, BasicBlock, BasicBlock),
    StartAtomic(BasicBlock),
    EndAtomic(BasicBlock),
    Return(Place),
    /// Stores the value of the computation in the place and goes on.
    Assign(Place, TerminatorExpr, BasicBlock),
    /// The source was malformed.
    Error,
    /// Stands in blocks whose end has not been brewed.
    Panic,
}

/// A series of statements and what happens after them.
#[derive(Debug, PartialEq, Eq)]
pub struct BasicBlockData {
    pub statements: Vec<Statement>,
    pub terminator: Terminator,
}

/// What every part of brewed code is.
#[derive(Debug, PartialEq, Eq)]
pub struct Tables {
    pub local_variables: Vec<LocalVariableData>,
    pub places: Vec<PlaceData>,
    pub exprs: Vec<ExprData>,
    pub statements: Vec<StatementData>,
    pub terminators: Vec<TerminatorData>,
    pub basic_blocks: Vec<BasicBlockData>,
}

/// Where every part of brewed code came from.
#[derive(Debug, PartialEq, Eq)]
pub struct Origins {
    pub local_variables: Vec<LocalVariableOrigin>,
    pub places: Vec<ExprOrigin>,
    pub exprs: Vec<ExprOrigin>,
    pub statements: Vec<ExprOrigin>,
    pub terminators: Vec<ExprOrigin>,
    pub basic_blocks: Vec<ExprOrigin>,
}

/// The brewed code of a function. Its first `num_parameters` local variables are its parameters.
#[derive(Debug, PartialEq, Eq)]
pub struct BirData {
    pub tables: Tables,
    pub num_parameters: usize,
    pub start_basic_block: BasicBlock,
}

/// A brewed function.
#[derive(Debug, PartialEq, Eq)]
pub struct Bir {
    pub origin: Function,
    pub data: BirData,
    pub origins: Origins,
}

/// The links from places to the places that own them.
pub open spec fn place_links(places: Seq<PlaceData>) -> Links {
    |i: int|
        match places[i] {
            PlaceData::Dot(owner, _) => seq![owner.index as int],
            _ => seq![],
        }
}

/// Whether finitely many fields lead to `place`.
pub open spec fn is_finite_place(places: Seq<PlaceData>, place: Place) -> bool {
    graph::well_founded(place_links(places), place.index as int)
}

/// How many fields lead to `place`.
pub open spec fn place_depth(places: Seq<PlaceData>, place: Place) -> nat {
    graph::height(place_links(places), place.index as int)
}

/// The owner of a finite place is finite and less deep.
pub proof fn lemma_owner_is_shallower(places: Seq<PlaceData>, place: Place)
    requires
        is_finite_place(places, place),
        places[place.index as int] is Dot,
    ensures
        is_finite_place(places, places[place.index as int]->Dot_0),
        place_depth(places, places[place.index as int]->Dot_0) < place_depth(places, place),
{
    graph::lemma_linked_is_lower(place_links(places), place.index as int, 0);
}

/// The mathematical reading of `ExprData`.
pub enum ExprShape {
    BooleanLiteral(bool),
    IntegerLiteral(u64),
    StringLiteral(Word),
    Share(Place),
    Lease(Place),
    Give(Place),
    Tuple(Seq<Place>),
    Unit,
    Op(Place, Op, Place),
}

impl View for ExprData {
    type V = ExprShape;

    open spec fn view(&self) -> ExprShape {
        match *self {
            ExprData::BooleanLiteral(value) => ExprShape::BooleanLiteral(value),
            ExprData::IntegerLiteral(value) => ExprShape::IntegerLiteral(value),
            ExprData::StringLiteral(value) => ExprShape::StringLiteral(value),
            ExprData::Share(place) => ExprShape::Share(place),
            ExprData::Lease(place) => ExprShape::Lease(place),
            ExprData::Give(place) => ExprShape::Give(place),
            ExprData::Tuple(places) => ExprShape::Tuple(places@),
            ExprData::Unit => ExprShape::Unit,
            ExprData::Op(lhs, op, rhs) => ExprShape::Op(lhs, op, rhs),
        }
    }
}

/// The mathematical reading of `TerminatorExpr`.
pub enum TerminatorExprShape {
    Await(Place),
    Call { function: Place, arguments: Seq<Place>, labels: Seq<Word> },
}

impl View for TerminatorExpr {
    type V = TerminatorExprShape;

    open spec fn view(&self) -> TerminatorExprShape {
        match *self {
            TerminatorExpr::Await(place) => TerminatorExprShape::Await(place),
            TerminatorExpr::Call { function, arguments, labels } => TerminatorExprShape::Call {
                function,
                arguments: arguments@,
                labels: labels@,
            },
        }
    }
}

/// The mathematical reading of `TerminatorData`.
pub enum TerminatorShape {
    Goto(BasicBlock),
    If(Place, BasicBlock, BasicBlock),
    StartAtomic(BasicBlock),
    EndAtomic(BasicBlock),
    Return(Place),
    Assign(Place, TerminatorExprShape, BasicBlock),
    Error,
    Panic,
}

impl View for TerminatorData {
    type V = TerminatorShape;

    open spec fn view(&self) -> TerminatorShape {
        match *self {
            TerminatorData::Goto(target) => TerminatorShape::Goto(target),
            TerminatorData::If(condition, if_true, if_false) => TerminatorShape::If(
                condition,
                if_true,
                if_false,
            ),
            TerminatorData::StartAtomic(next) => TerminatorShape::StartAtomic(next),
            TerminatorData::EndAtomic(next) => TerminatorShape::EndAtomic(next),
            TerminatorData::Return(place) => TerminatorShape::Return(place),
            TerminatorData::Assign(target, value, next) => TerminatorShape::Assign(
                target,
                value@,
                next,
            ),
            TerminatorData::Error => TerminatorShape::Error,
            TerminatorData::Panic => TerminatorShape::Panic,
        }
    }
}

/// The mathematical reading of `BasicBlockData`.
pub struct BlockShape {
    pub statements: Seq<Statement>,
    pub terminator: Terminator,
}

impl View for BasicBlockData {
    type V = BlockShape;

    open spec fn view(&self) -> BlockShape {
        BlockShape { statements: self.statements@, terminator: self.terminator }
    }
}

/// The contents of `Tables` and `Origins` together.
#[verifier::ext_equal]
pub struct Code {
    pub local_variables: Seq<LocalVariableData>,
    pub local_variable_origins: Seq<LocalVariableOrigin>,
    pub places: Seq<PlaceData>,
    pub place_origins: Seq<ExprOrigin>,
    pub exprs: Seq<ExprShape>,
    pub expr_origins: Seq<ExprOrigin>,
    pub statements: Seq<StatementData>,
    pub statement_origins: Seq<ExprOrigin>,
    pub terminators: Seq<TerminatorShape>,
    pub terminator_origins: Seq<ExprOrigin>,
    pub basic_blocks: Seq<BlockShape>,
    pub basic_block_origins: Seq<ExprOrigin>,
}

/// The contents of `tables` and `origins` together.
pub open spec fn code(tables: Tables, origins: Origins) -> Code {
    Code {
        local_variables: tables.local_variables@,
        local_variable_origins: origins.local_variables@,
        places: tables.places@,
        place_origins: origins.places@,
        exprs: tables.exprs@.map_values(|data: ExprData| data@),
        expr_origins: origins.exprs@,
        statements: tables.statements@,
        statement_origins: origins.statements@,
        terminators: tables.terminators@.map_values(|data: TerminatorData| data@),
        terminator_origins: origins.terminators@,
        basic_blocks: tables.basic_blocks@.map_values(|data: BasicBlockData| data@),
        basic_block_origins: origins.basic_blocks@,
    }
}

impl Code {
    pub open spec fn empty() -> Code {
        Code {
            local_variables: seq![],
            local_variable_origins: seq![],
            places: seq![],
            place_origins: seq![],
            exprs: seq![],
            expr_origins: seq![],
            statements: seq![],
            statement_origins: seq![],
            terminators: seq![],
            terminator_origins: seq![],
            basic_blocks: seq![],
            basic_block_origins: seq![],
        }
    }

    /// The code with one more local variable.
    pub open spec fn add_local_variable(
        self,
        data: LocalVariableData,
        origin: LocalVariableOrigin,
    ) -> Code {
        Code {
            local_variables: self.local_variables.push(data),
            local_variable_origins: self.local_variable_origins.push(origin),
            ..self
        }
    }

    /// The code with one more place.
    pub open spec fn add_place(self, data: PlaceData, origin: ExprOrigin) -> Code {
        Code {
            places: self.places.push(data),
            place_origins: self.place_origins.push(origin),
            ..self
        }
    }

    /// The code with one more expression.
    pub open spec fn add_expr(self, data: ExprShape, origin: ExprOrigin) -> Code {
        Code {
            exprs: self.exprs.push(data),
            expr_origins: self.expr_origins.push(origin),
            ..self
        }
    }

    /// The code with one more statement.
    pub open spec fn add_statement(self, data: StatementData, origin: ExprOrigin) -> Code {
        Code {
            statements: self.statements.push(data),
            statement_origins: self.statement_origins.push(origin),
            ..self
        }
    }

    /// The code with one more terminator.
    pub open spec fn add_terminator(self, data: TerminatorShape, origin: ExprOrigin) -> Code {
        Code {
            terminators: self.terminators.push(data),
            terminator_origins: self.terminator_origins.push(origin),
            ..self
        }
    }

    /// The code with one more basic block.
    pub open spec fn add_basic_block(self, data: BlockShape, origin: ExprOrigin) -> Code {
        Code {
            basic_blocks: self.basic_blocks.push(data),
            basic_block_origins: self.basic_block_origins.push(origin),
            ..self
        }
    }

    /// The code with `statement` at the end of `block`.
    pub open spec fn push_statement(self, block: BasicBlock, statement: Statement) -> Code {
        let data = self.basic_blocks[block.index as int];
        Code {
            basic_blocks: self.basic_blocks.update(
                block.index as int,
                BlockShape { statements: data.statements.push(statement), ..data },
            ),
            ..self
        }
    }

    /// The code with `terminator` as what happens at the end of `block`.
    pub open spec fn set_terminator(self, block: BasicBlock, terminator: Terminator) -> Code {
        let data = self.basic_blocks[block.index as int];
        Code {
            basic_blocks: self.basic_blocks.update(
                block.index as int,
                BlockShape { terminator, ..data },
            ),
            ..self
        }
    }

    /// The most recent local variable.
    pub open spec fn last_local_variable(self) -> LocalVariable {
        LocalVariable { index: (self.local_variables.len() - 1) as usize }
    }

    /// The most recent place.
    pub open spec fn last_place(self) -> Place {
        Place { index: (self.places.len() - 1) as usize }
    }

    /// The most recent expression.
    pub open spec fn last_expr(self) -> Expr {
        Expr { index: (self.exprs.len() - 1) as usize }
    }

    /// The most recent statement.
    pub open spec fn last_statement(self) -> Statement {
        Statement { index: (self.statements.len() - 1) as usize }
    }

    /// The most recent terminator.
    pub open spec fn last_terminator(self) -> Terminator {
        Terminator { index: (self.terminators.len() - 1) as usize }
    }

    /// The most recent basic block.
    pub open spec fn last_basic_block(self) -> BasicBlock {
        BasicBlock { index: (self.basic_blocks.len() - 1) as usize }
    }
}

impl Code {
    /// Whether `place` is in the tables.
    pub open spec fn knows_place(self, place: Place) -> bool {
        place.index < self.places.len()
    }

    /// Whether all of `places` are in the tables.
    pub open spec fn knows_places(self, places: Seq<Place>) -> bool {
        forall|k: int| 0 <= k < places.len() ==> self.knows_place(#[trigger] places[k])
    }

    /// Whether `block` is in the tables.
    pub open spec fn knows_block(self, block: BasicBlock) -> bool {
        block.index < self.basic_blocks.len()
    }

    /// Whether what `data` refers to is in the tables.
    pub open spec fn knows_parts_of_place(self, data: PlaceData) -> bool {
        match data {
            PlaceData::LocalVariable(variable) => variable.index < self.local_variables.len(),
            PlaceData::Dot(owner, _) => self.knows_place(owner),
            _ => true,
        }
    }

    /// Whether what `shape` refers to is in the tables.
    pub open spec fn knows_parts_of_expr(self, shape: ExprShape) -> bool {
        match shape {
            ExprShape::Share(place) => self.knows_place(place),
            ExprShape::Lease(place) => self.knows_place(place),
            ExprShape::Give(place) => self.knows_place(place),
            ExprShape::Tuple(places) => self.knows_places(places),
            ExprShape::Op(lhs, _, rhs) => self.knows_place(lhs) && self.knows_place(rhs),
            _ => true,
        }
    }

    /// Whether what `data` refers to is in the tables.
    pub open spec fn knows_parts_of_statement(self, data: StatementData) -> bool {
        match data {
            StatementData::Assign(target, value) => {
                self.knows_place(target) && value.index < self.exprs.len()
            },
            StatementData::Cusp(Some(place)) => self.knows_place(place),
            StatementData::Cusp(None) => true,
        }
    }

    /// Whether what `shape` refers to is in the tables, and arguments have a label each.
    pub open spec fn knows_parts_of_terminator(self, shape: TerminatorShape) -> bool {
        match shape {
            TerminatorShape::Goto(target) => self.knows_block(target),
            TerminatorShape::If(condition, if_true, if_false) => {
                &&& self.knows_place(condition)
                &&& self.knows_block(if_true)
                &&& self.knows_block(if_false)
            },
            TerminatorShape::StartAtomic(next) => self.knows_block(next),
            TerminatorShape::EndAtomic(next) => self.knows_block(next),
            TerminatorShape::Return(place) => self.knows_place(place),
            TerminatorShape::Assign(target, value, next) => {
                &&& self.knows_place(target)
                &&& self.knows_block(next)
                &&& match value {
                    TerminatorExprShape::Await(place) => self.knows_place(place),
                    TerminatorExprShape::Call { function, arguments, labels } => {
                        &&& self.knows_place(function)
                        &&& self.knows_places(arguments)
                        &&& arguments.len() == labels.len()
                    },
                }
            },
            TerminatorShape::Error => true,
            TerminatorShape::Panic => true,
        }
    }

    /// Whether what `shape` refers to is in the tables.
    pub open spec fn knows_parts_of_block(self, shape: BlockShape) -> bool {
        &&& shape.terminator.index < self.terminators.len()
        &&& forall|k: int|
            0 <= k < shape.statements.len() ==> (#[trigger] shape.statements[k]).index
                < self.statements.len()
    }

    /// Whether the entries of the tables can be counted.
    pub open spec fn fits(self) -> bool {
        &&& self.local_variables.len() <= usize::MAX
        &&& self.places.len() <= usize::MAX
        &&& self.exprs.len() <= usize::MAX
        &&& self.statements.len() <= usize::MAX
        &&& self.terminators.len() <= usize::MAX
        &&& self.basic_blocks.len() <= usize::MAX
    }

    /// Whether every entry of the tables has an origin.
    pub open spec fn has_origins(self) -> bool {
        &&& self.local_variables.len() == self.local_variable_origins.len()
        &&& self.places.len() == self.place_origins.len()
        &&& self.exprs.len() == self.expr_origins.len()
        &&& self.statements.len() == self.statement_origins.len()
        &&& self.terminators.len() == self.terminator_origins.len()
        &&& self.basic_blocks.len() == self.basic_block_origins.len()
    }

    /// Whether every entry has an origin and refers only to what is in the tables, and every place
    /// stands after the place that owns it.
    pub open spec fn well_formed(self) -> bool {
        &&& self.has_origins()
        &&& forall|i: int|
            0 <= i < self.places.len() ==> self.knows_parts_of_place(#[trigger] self.places[i])
        &&& self.fits() ==> owners_first(self.places)
        &&& forall|i: int|
            0 <= i < self.exprs.len() ==> self.knows_parts_of_expr(#[trigger] self.exprs[i])
        &&& forall|i: int|
            0 <= i < self.statements.len() ==> self.knows_parts_of_statement(
                #[trigger] self.statements[i],
            )
        &&& forall|i: int|
            0 <= i < self.terminators.len() ==> self.knows_parts_of_terminator(
                #[trigger] self.terminators[i],
            )
        &&& forall|i: int|
            0 <= i < self.basic_blocks.len() ==> self.knows_parts_of_block(
                #[trigger] self.basic_blocks[i],
            )
    }
}

/// Whether every place stands after the place that owns it.
pub open spec fn owners_first(places: Seq<PlaceData>) -> bool {
    forall|i: int|
        0 <= i < places.len() ==> (#[trigger] places[i] matches PlaceData::Dot(owner, _)
            ==> owner.index < i)
}

} // verus!
