//! The tables into which code is brewed.
use vstd::prelude::*;

use crate::bir;
use crate::bir::{
    BasicBlock, BasicBlockData, BlockShape, Code, ExprData, LocalVariableData, Origins, Place,
    PlaceData, Statement, StatementData, Tables, Terminator, TerminatorData,
};
use crate::recipe;
use crate::recipe::{Draft, LoopContext};
use crate::validated;
use crate::validated::{ExprOrigin, LocalVariableOrigin, Tree};

verus! {

/// Brewed code and what it is brewed from.
pub struct Brewery<'me> {
    pub validated_tree: &'me Tree,
    pub tables: Tables,
    pub origins: Origins,
    pub loop_contexts: Vec<(validated::Expr, LoopContext)>,
}

/// What is known of each loop, the most recent first.
pub open spec fn loops(contexts: Seq<(validated::Expr, LoopContext)>) -> Map<
    validated::Expr,
    LoopContext,
>
    decreases contexts.len(),
{
    if contexts.len() == 0 {
        Map::empty()
    } else {
        let (expr, context) = contexts.last();
        loops(contexts.drop_last()).insert(expr, context)
    }
}

impl<'me> Brewery<'me> {
    /// The validated code.
    pub open spec fn tree(self) -> Tree {
        *self.validated_tree
    }

    /// The brewed code.
    pub open spec fn code(self) -> Code {
        bir::code(self.tables, self.origins)
    }

    /// The loops around what is being brewed.
    pub open spec fn loops(self) -> Map<validated::Expr, LoopContext> {
        loops(self.loop_contexts@)
    }

    /// Whether `self` differs from `before` in the brewed code alone.
    pub open spec fn continues(self, before: Brewery<'me>) -> bool {
        &&& self.validated_tree == before.validated_tree
        &&& self.loop_contexts@ == before.loop_contexts@
    }

    /// The tables for the code of `validated_tree`, in which there are as yet only its local
    /// variables.
    pub fn new(validated_tree: &'me Tree) -> (brewery: Brewery<'me>)
        requires
            validated_tree.valid(),
        ensures
            brewery.validated_tree == validated_tree,
            brewery.code() == recipe::declared_variables(*validated_tree),
            brewery.loops() == Map::<validated::Expr, LoopContext>::empty(),
    {
        let mut local_variables: Vec<LocalVariableData> = Vec::new();
        let mut local_variable_origins: Vec<LocalVariableOrigin> = Vec::new();
        let count: usize = validated_tree.data.tables.local_variables.len();
        let mut i: usize = 0;
        while i < count
            invariant
                i <= count,
                validated_tree.valid(),
                count == validated_tree.data.tables.local_variables@.len(),
                local_variables@ =~= recipe::declared_variables(
                    *validated_tree,
                ).local_variables.take(i as int),
                local_variable_origins@ =~= validated_tree.origins.local_variables@.take(i as int),
            decreases count - i,
        {
            let data = validated_tree.data.tables.local_variables[i];
            local_variables.push(
                LocalVariableData { name: data.name, storage_mode: data.storage_mode },
            );
            local_variable_origins.push(validated_tree.origins.local_variables[i]);
            i = i + 1;
        }
        let brewery = Brewery {
            validated_tree,
            tables: Tables {
                local_variables,
                places: Vec::new(),
                exprs: Vec::new(),
                statements: Vec::new(),
                terminators: Vec::new(),
                basic_blocks: Vec::new(),
            },
            origins: Origins {
                local_variables: local_variable_origins,
                places: Vec::new(),
                exprs: Vec::new(),
                statements: Vec::new(),
                terminators: Vec::new(),
                basic_blocks: Vec::new(),
            },
            loop_contexts: Vec::new(),
        };
        assert(brewery.code() =~= recipe::declared_variables(*validated_tree));
        brewery
    }

    /// The entries of tables can be counted.
    pub proof fn lemma_fits(&self)
        ensures
            self.code().fits(),
    {
        assert(self.tables.local_variables.len() == self.tables.local_variables@.len());
        assert(self.tables.places.len() == self.tables.places@.len());
        assert(self.tables.exprs.len() == self.tables.exprs@.len());
        assert(self.tables.statements.len() == self.tables.statements@.len());
        assert(self.tables.terminators.len() == self.tables.terminators@.len());
        assert(self.tables.basic_blocks.len() == self.tables.basic_blocks@.len());
    }

    /// Adds a local variable.
    pub fn add_local_variable(
        &mut self,
        data: LocalVariableData,
        origin: LocalVariableOrigin,
    ) -> (key: bir::LocalVariable)
        ensures
            final(self).continues(*old(self)),
            final(self).code() == old(self).code().add_local_variable(data, origin),
            key == final(self).code().last_local_variable(),
            key.index == old(self).code().local_variables.len(),
    {
        let index: usize = self.tables.local_variables.len();
        self.tables.local_variables.push(data);
        self.origins.local_variables.push(origin);
        assert(self.code() =~= old(self).code().add_local_variable(data, origin));
        bir::LocalVariable { index }
    }

    /// Adds a place.
    pub fn add_place(&mut self, data: PlaceData, origin: ExprOrigin) -> (key: Place)
        ensures
            final(self).continues(*old(self)),
            final(self).code() == old(self).code().add_place(data, origin),
            key == final(self).code().last_place(),
    {
        let index: usize = self.tables.places.len();
        self.tables.places.push(data);
        self.origins.places.push(origin);
        assert(self.code() =~= old(self).code().add_place(data, origin));
        Place { index }
    }

    /// Adds an expression.
    pub fn add_expr(&mut self, data: ExprData, origin: ExprOrigin) -> (key: bir::Expr)
        ensures
            final(self).continues(*old(self)),
            final(self).code() == old(self).code().add_expr(data@, origin),
            key == final(self).code().last_expr(),
    {
        let index: usize = self.tables.exprs.len();
        self.tables.exprs.push(data);
        self.origins.exprs.push(origin);
        assert(self.code() =~= old(self).code().add_expr(data@, origin));
        bir::Expr { index }
    }

    /// Adds a statement, which as yet is in no block.
    pub fn add_statement(&mut self, data: StatementData, origin: ExprOrigin) -> (key: Statement)
        ensures
            final(self).continues(*old(self)),
            final(self).code() == old(self).code().add_statement(data, origin),
            key == final(self).code().last_statement(),
    {
        let index: usize = self.tables.statements.len();
        self.tables.statements.push(data);
        self.origins.statements.push(origin);
        assert(self.code() =~= old(self).code().add_statement(data, origin));
        Statement { index }
    }

    /// Adds a terminator, which as yet ends no block.
    pub fn add_terminator(&mut self, data: TerminatorData, origin: ExprOrigin) -> (key: Terminator)
        ensures
            final(self).continues(*old(self)),
            final(self).code() == old(self).code().add_terminator(data@, origin),
            key == final(self).code().last_terminator(),
    {
        let index: usize = self.tables.terminators.len();
        self.tables.terminators.push(data);
        self.origins.terminators.push(origin);
        assert(self.code() =~= old(self).code().add_terminator(data@, origin));
        Terminator { index }
    }

    /// Adds a block with nothing in it.
    pub fn dummy_block(&mut self, origin: ExprOrigin) -> (key: BasicBlock)
        ensures
            final(self).continues(*old(self)),
            forall|end: Option<BasicBlock>|
                (#[trigger] (Draft { code: old(self).code(), end }).new_block(origin)) == (
                    Draft { code: final(self).code(), end },
                    key,
                ),
            key.index == old(self).code().basic_blocks.len(),
            final(self).code().basic_blocks.len() == old(self).code().basic_blocks.len() + 1,
    {
        let terminator = self.add_terminator(TerminatorData::Panic, origin);
        let ghost before = self.code();
        let index: usize = self.tables.basic_blocks.len();
        let statements: Vec<Statement> = Vec::new();
        self.tables.basic_blocks.push(BasicBlockData { statements, terminator });
        self.origins.basic_blocks.push(origin);
        assert(self.code() =~= before.add_basic_block(
            BlockShape { statements: seq![], terminator },
            origin,
        ));
        BasicBlock { index }
    }

    /// The brewed form of a local variable of the validated code.
    pub fn variable(&self, variable: validated::LocalVariable) -> (key: bir::LocalVariable)
        ensures
            key == (bir::LocalVariable { index: variable.index }),
    {
        bir::LocalVariable { index: variable.index }
    }

    /// Puts `statement` at the end of `block`.
    pub fn push_statement(&mut self, block: BasicBlock, statement: Statement)
        requires
            block.index < old(self).code().basic_blocks.len(),
        ensures
            final(self).continues(*old(self)),
            final(self).code() == old(self).code().push_statement(block, statement),
    {
        self.tables.basic_blocks[block.index].statements.push(statement);
        assert(self.code() =~= old(self).code().push_statement(block, statement));
    }

    /// Makes `terminator` what happens at the end of `block`.
    pub fn set_terminator(&mut self, block: BasicBlock, terminator: Terminator)
        requires
            block.index < old(self).code().basic_blocks.len(),
        ensures
            final(self).continues(*old(self)),
            final(self).code() == old(self).code().set_terminator(block, terminator),
    {
        self.tables.basic_blocks[block.index].terminator = terminator;
        assert(self.code() =~= old(self).code().set_terminator(block, terminator));
    }

    /// What is known of the loop `expr`.
    pub fn loop_context(&self, expr: validated::Expr) -> (context: LoopContext)
        requires
            self.loops().contains_key(expr),
        ensures
            context == self.loops()[expr],
    {
        let mut i: usize = self.loop_contexts.len();
        assert(self.loop_contexts@.take(i as int) =~= self.loop_contexts@);
        loop
            invariant
                i <= self.loop_contexts@.len(),
                loops(self.loop_contexts@.take(i as int)).contains_key(expr),
                loops(self.loop_contexts@.take(i as int))[expr] == self.loops()[expr],
            decreases i,
        {
            assert(i > 0);
            i = i - 1;
            assert(self.loop_contexts@.take(i + 1).drop_last() =~= self.loop_contexts@.take(
                i as int,
            ));
            let (candidate, context) = self.loop_contexts[i];
            if candidate == expr {
                return context;
            }
        }
    }

    /// Opens the loop `expr`.
    pub fn push_loop_context(&mut self, expr: validated::Expr, context: LoopContext)
        ensures
            final(self).validated_tree == old(self).validated_tree,
            final(self).code() == old(self).code(),
            final(self).loop_contexts@ == old(self).loop_contexts@.push((expr, context)),
            final(self).loops() == old(self).loops().insert(expr, context),
    {
        self.loop_contexts.push((expr, context));
        assert(self.loop_contexts@.drop_last() =~= old(self).loop_contexts@);
    }

    /// Closes the loop that was opened last.
    pub fn pop_loop_context(&mut self)
        requires
            old(self).loop_contexts@.len() > 0,
        ensures
            final(self).validated_tree == old(self).validated_tree,
            final(self).code() == old(self).code(),
            final(self).loop_contexts@ == old(self).loop_contexts@.drop_last(),
    {
        self.loop_contexts.pop();
    }
}

} // verus!
