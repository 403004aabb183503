//! Validated code: names are resolved and every construct is one that can be brewed.
use vstd::prelude::*;

use crate::base::{Op, StorageMode, Word};
use crate::graph;
use crate::graph::Links;
use crate::syntax;

verus! {

/// A function of the program.
#[derive(Clone, Copy, Debug, PartialEq, Eq, Structural)]
pub struct Function {
    pub index: u32,
}

/// A class of the program.
#[derive(Clone, Copy, Debug, PartialEq, Eq, Structural)]
pub struct Class {
    pub index: u32,
}

/// A function that is built into the language.
#[derive(Clone, Copy, Debug, PartialEq, Eq, Structural)]
pub struct Intrinsic {
    pub index: u32,
}

/// An entry of the table of expressions.
#[derive(Clone, Copy, Debug, PartialEq, Eq, Structural)]
pub struct Expr {
    pub index: usize,
}

/// An entry of the table of named expressions.
#[derive(Clone, Copy, Debug, PartialEq, Eq, Structural)]
pub struct NamedExpr {
    pub index: usize,
}

/// An entry of the table of places.
#[derive(Clone, Copy, Debug, PartialEq, Eq, Structural)]
pub struct Place {
    pub index: usize,
}

/// An entry of the table of local variables.
#[derive(Clone, Copy, Debug, PartialEq, Eq, Structural)]
pub struct LocalVariable {
    pub index: usize,
}

/// What an expression is.
#[derive(Debug, PartialEq, Eq)]
pub enum ExprData {
    Await(Expr),
    If(Expr, Expr, Expr),
    Loop(Expr),
    /// Leaves the loop `from_expr`, whose value is then `with_value`.
    Break { from_expr: Expr, with_value: Expr },
    /// Starts the loop over.
    Continue(Expr),
    Return(Expr),
    Error,
    Assign(Place, Expr),
    Sequence(Vec<Expr>),
    Op(Expr, Op, Expr),
    BooleanLiteral(bool),
    IntegerLiteral(u64),
    StringLiteral(Word),
    Call(Expr, Vec<NamedExpr>),
    Share(Place),
    Lease(Place),
    Give(Place),
    /// A tuple of no expressions or of at least two.
    Tuple(Vec<Expr>),
    Atomic(Expr),
}

/// An argument of a call.
#[derive(Clone, Copy, Debug, PartialEq, Eq, Structural)]
pub struct NamedExprData {
    pub name: Word,
    pub expr: Expr,
}

/// What a place is.
#[derive(Clone, Copy, Debug, PartialEq, Eq, Structural)]
pub enum PlaceData {
    LocalVariable(LocalVariable),
    Function(Function),
    Intrinsic(Intrinsic),
    Class(Class),
    Dot(Place, Word),
}

/// What a local variable is.
#[derive(Clone, Copy, Debug, PartialEq, Eq, Structural)]
pub struct LocalVariableData {
    pub name: Option<Word>,
    pub storage_mode: StorageMode,
}

/// The syntax from which an expression or a place came.
#[derive(Clone, Copy, Debug, PartialEq, Eq, Structural)]
pub enum ExprOrigin {
    /// It is what this syntax says.
    Real(syntax::Expr),
    /// It was put in for the sake of this syntax.
    Synthetic(syntax::Expr),
}

/// Where a local variable came from.
#[derive(Clone, Copy, Debug, PartialEq, Eq, Structural)]
pub enum LocalVariableOrigin {
    /// It holds the value of this syntax for a while.
    Temporary(syntax::Expr),
    /// This syntax declares it.
    Declared(syntax::Expr),
    /// It is the parameter with this number.
    Parameter(u32),
}

impl ExprOrigin {
    /// The syntax to which the origin points.
    pub open spec fn source(self) -> syntax::Expr {
        match self {
            ExprOrigin::Real(expr) => expr,
            ExprOrigin::Synthetic(expr) => expr,
        }
    }

    /// The syntax to which the origin points.
    pub fn syntax_expr(self) -> (expr: syntax::Expr)
        ensures
            expr == self.source(),
    {
        match self {
            ExprOrigin::Real(expr) => expr,
            ExprOrigin::Synthetic(expr) => expr,
        }
    }
}

/// What every expression, named expression, place and local variable is.
#[derive(Debug, PartialEq, Eq)]
pub struct Tables {
    pub exprs: Vec<ExprData>,
    pub named_exprs: Vec<NamedExprData>,
    pub places: Vec<PlaceData>,
    pub local_variables: Vec<LocalVariableData>,
}

/// Where every expression, place and local variable came from.
#[derive(Debug, PartialEq, Eq)]
pub struct Origins {
    pub exprs: Vec<ExprOrigin>,
    pub places: Vec<ExprOrigin>,
    pub local_variables: Vec<LocalVariableOrigin>,
}

/// The validated code of a function. Its first `num_parameters` local variables are its
/// parameters.
#[derive(Debug, PartialEq, Eq)]
pub struct TreeData {
    pub tables: Tables,
    pub num_parameters: usize,
    pub root_expr: Expr,
}

/// A validated function.
#[derive(Debug, PartialEq, Eq)]
pub struct Tree {
    pub origin: Function,
    pub data: TreeData,
    pub origins: Origins,
}

impl Tree {
    pub open spec fn expr(self, expr: Expr) -> ExprData {
        self.data.tables.exprs@[expr.index as int]
    }

    pub open spec fn named_expr(self, named_expr: NamedExpr) -> NamedExprData {
        self.data.tables.named_exprs@[named_expr.index as int]
    }

    pub open spec fn place(self, place: Place) -> PlaceData {
        self.data.tables.places@[place.index as int]
    }

    pub open spec fn expr_origin(self, expr: Expr) -> ExprOrigin {
        self.origins.exprs@[expr.index as int]
    }

    pub open spec fn place_origin(self, place: Place) -> ExprOrigin {
        self.origins.places@[place.index as int]
    }

    /// The values of a series of arguments.
    pub open spec fn argument_exprs(self, arguments: Seq<NamedExpr>) -> Seq<Expr> {
        arguments.map_values(|argument: NamedExpr| self.named_expr(argument).expr)
    }

    /// The expressions that are directly inside `expr`.
    pub open spec fn parts(self, expr: Expr) -> Seq<Expr> {
        match self.expr(expr) {
            ExprData::Await(future) => seq![future],
            ExprData::If(condition, if_true, if_false) => seq![condition, if_true, if_false],
            ExprData::Loop(body) => seq![body],
            ExprData::Break { from_expr: _, with_value } => seq![with_value],
            ExprData::Return(value) => seq![value],
            ExprData::Assign(_, value) => seq![value],
            ExprData::Sequence(exprs) => exprs@,
            ExprData::Op(lhs, _, rhs) => seq![lhs, rhs],
            ExprData::Call(function, arguments) => seq![function] + self.argument_exprs(
                arguments@,
            ),
            ExprData::Tuple(exprs) => exprs@,
            ExprData::Atomic(inner) => seq![inner],
            _ => seq![],
        }
    }

    /// The links from expressions to the expressions inside them.
    pub open spec fn expr_links(self) -> Links {
        |i: int| self.parts(Expr { index: i as usize }).map_values(|part: Expr| part.index as int)
    }

    /// The links from places to the places that own them.
    pub open spec fn place_links(self) -> Links {
        |i: int|
            match self.data.tables.places@[i] {
                PlaceData::Dot(owner, _) => seq![owner.index as int],
                _ => seq![],
            }
    }

    /// How deeply expressions are nested in `expr`.
    pub open spec fn depth(self, expr: Expr) -> nat {
        graph::height(self.expr_links(), expr.index as int)
    }

    /// How many fields lead to `place`.
    pub open spec fn place_depth(self, place: Place) -> nat {
        graph::height(self.place_links(), place.index as int)
    }

    /// Whether `expr` has finitely many expressions inside it.
    pub open spec fn is_finite(self, expr: Expr) -> bool {
        graph::well_founded(self.expr_links(), expr.index as int)
    }

    /// Whether finitely many fields lead to `place`.
    pub open spec fn is_finite_place(self, place: Place) -> bool {
        graph::well_founded(self.place_links(), place.index as int)
    }

    /// Whether `place`, and every place on the way to it, is in the tables.
    pub open spec fn knows_place(self, place: Place) -> bool
        decreases self.place_depth(place),
        when self.is_finite_place(place)
        via Self::knows_place_decreases
    {
        &&& place.index < self.data.tables.places@.len()
        &&& place.index < self.origins.places@.len()
        &&& match self.place(place) {
            PlaceData::LocalVariable(variable) => variable.index
                < self.data.tables.local_variables@.len(),
            PlaceData::Dot(owner, _) => self.knows_place(owner),
            _ => true,
        }
    }

    #[via_fn]
    proof fn knows_place_decreases(self, place: Place) {
        if let PlaceData::Dot(owner, _) = self.place(place) {
            graph::lemma_linked_is_lower(self.place_links(), place.index as int, 0);
        }
    }

    /// Whether `place` can be brewed.
    pub open spec fn valid_place(self, place: Place) -> bool {
        &&& self.is_finite_place(place)
        &&& self.knows_place(place)
    }

    /// The loops that are open inside `expr` if `loops` are open around it.
    pub open spec fn loops_inside(self, expr: Expr, loops: Set<Expr>) -> Set<Expr> {
        match self.expr(expr) {
            ExprData::Loop(_) => loops.insert(expr),
            _ => loops,
        }
    }

    /// Whether what `expr` refers to is in the tables, `loops` being the loops that are open around
    /// it, apart from the expressions inside it.
    pub open spec fn refers_to_known(self, expr: Expr, loops: Set<Expr>) -> bool {
        match self.expr(expr) {
            ExprData::Break { from_expr, with_value: _ } => loops.contains(from_expr),
            ExprData::Continue(from_expr) => loops.contains(from_expr),
            ExprData::Assign(place, _) => self.valid_place(place),
            ExprData::Share(place) => self.valid_place(place),
            ExprData::Lease(place) => self.valid_place(place),
            ExprData::Give(place) => self.valid_place(place),
            ExprData::Call(_, arguments) => forall|k: int|
                0 <= k < arguments@.len() ==> (#[trigger] arguments@[k]).index
                    < self.data.tables.named_exprs@.len(),
            ExprData::Tuple(exprs) => exprs@.len() != 1,
            _ => true,
        }
    }

    /// Whether `expr`, and every expression inside it, is in the tables and refers only to what is
    /// in the tables, `loops` being the loops that are open around it.
    pub open spec fn knows_expr(self, expr: Expr, loops: Set<Expr>) -> bool
        decreases self.depth(expr),
        when self.is_finite(expr)
        via Self::knows_expr_decreases
    {
        &&& expr.index < self.data.tables.exprs@.len()
        &&& expr.index < self.origins.exprs@.len()
        &&& self.refers_to_known(expr, loops)
        &&& forall|k: int|
            0 <= k < self.parts(expr).len() ==> self.knows_expr(
                #[trigger] self.parts(expr)[k],
                self.loops_inside(expr, loops),
            )
    }

    #[via_fn]
    proof fn knows_expr_decreases(self, expr: Expr, loops: Set<Expr>) {
        assert forall|k: int| 0 <= k < self.parts(expr).len() implies self.depth(
            #[trigger] self.parts(expr)[k],
        ) < self.depth(expr) by {
            self.lemma_part_is_shallower(expr, k);
        }
    }

    /// Whether `expr` can be brewed where `loops` are open: it is finite, all that it refers to is
    /// in the tables, what it leaves or starts over is a loop around it, and no tuple has exactly
    /// one part.
    pub open spec fn valid_expr(self, expr: Expr, loops: Set<Expr>) -> bool {
        &&& self.is_finite(expr)
        &&& self.knows_expr(expr, loops)
    }

    /// Whether every local variable has an origin and the root expression can be brewed.
    pub open spec fn valid(self) -> bool {
        &&& self.data.tables.local_variables@.len() == self.origins.local_variables@.len()
        &&& self.valid_expr(self.data.root_expr, Set::empty())
    }

    /// An expression inside a finite expression is finite and less deep.
    pub proof fn lemma_part_is_shallower(self, expr: Expr, k: int)
        requires
            self.is_finite(expr),
            0 <= k < self.parts(expr).len(),
        ensures
            self.is_finite(self.parts(expr)[k]),
            self.depth(self.parts(expr)[k]) < self.depth(expr),
    {
        assert(Expr { index: expr.index as int as usize } == expr);
        graph::lemma_linked_is_lower(self.expr_links(), expr.index as int, k);
    }

    /// The depth of a finite expression counts the expression itself.
    pub proof fn lemma_depth_is_positive(self, expr: Expr)
        requires
            self.is_finite(expr),
        ensures
            0 < self.depth(expr),
    {
        graph::lemma_height_is_positive(self.expr_links(), expr.index as int);
    }

    /// An expression inside one that can be brewed can itself be brewed.
    pub proof fn lemma_part_is_valid(self, expr: Expr, loops: Set<Expr>, k: int)
        requires
            self.valid_expr(expr, loops),
            0 <= k < self.parts(expr).len(),
        ensures
            self.valid_expr(self.parts(expr)[k], self.loops_inside(expr, loops)),
            self.depth(self.parts(expr)[k]) < self.depth(expr),
    {
        self.lemma_part_is_shallower(expr, k);
    }

    /// The owner of a field that can be brewed can itself be brewed.
    pub proof fn lemma_owner_is_valid(self, place: Place)
        requires
            self.valid_place(place),
            self.place(place) is Dot,
        ensures
            self.valid_place(self.place(place)->Dot_0),
            self.place_depth(self.place(place)->Dot_0) < self.place_depth(place),
    {
        graph::lemma_linked_is_lower(self.place_links(), place.index as int, 0);
    }

    /// An expression can be brewed if it is in the tables, refers only to what is in the tables,
    /// and the expressions inside it can be brewed.
    pub proof fn lemma_expr_is_valid(self, expr: Expr, loops: Set<Expr>)
        requires
            expr.index < self.data.tables.exprs@.len(),
            expr.index < self.origins.exprs@.len(),
            self.refers_to_known(expr, loops),
            forall|k: int|
                0 <= k < self.parts(expr).len() ==> self.valid_expr(
                    #[trigger] self.parts(expr)[k],
                    self.loops_inside(expr, loops),
                ),
        ensures
            self.valid_expr(expr, loops),
    {
        let links = self.expr_links();
        let i = expr.index as int;
        assert(Expr { index: i as usize } == expr);
        assert forall|k: int| 0 <= k < links(i).len() implies graph::well_founded(
            links,
            #[trigger] links(i)[k],
        ) by {
            assert(self.is_finite(self.parts(expr)[k]));
        }
        graph::lemma_linking_is_well_founded(links, i);
    }

    /// A place can be brewed if it is in the tables and is a known variable, a function or a class,
    /// or a field of a place that can be brewed.
    pub proof fn lemma_place_is_valid(self, place: Place)
        requires
            place.index < self.data.tables.places@.len(),
            place.index < self.origins.places@.len(),
            match self.place(place) {
                PlaceData::LocalVariable(variable) => variable.index
                    < self.data.tables.local_variables@.len(),
                PlaceData::Dot(owner, _) => self.valid_place(owner),
                _ => true,
            },
        ensures
            self.valid_place(place),
    {
        graph::lemma_linking_is_well_founded(self.place_links(), place.index as int);
    }
}

} // verus!
