//! The place at which brewed code grows.
use vstd::prelude::*;

use crate::bir::{BasicBlock, ExprData, Place, StatementData, TerminatorData};
use crate::brewery::Brewery;
use crate::recipe::Draft;
use crate::validated::ExprOrigin;

verus! {

/// A position at the end of a block, or nowhere if control cannot get there.
pub struct Cursor {
    pub start_block: BasicBlock,
    pub end_block: Option<BasicBlock>,
}

impl Cursor {
    /// The code of `brewery`, growing at the cursor.
    pub open spec fn draft(self, brewery: Brewery<'_>) -> Draft {
        Draft { code: brewery.code(), end: self.end_block }
    }

    /// Whether the cursor is in a block of `brewery`, if it is anywhere.
    pub open spec fn is_in(self, brewery: Brewery<'_>) -> bool {
        self.end_block matches Some(block) ==> block.index < brewery.code().basic_blocks.len()
    }

    /// A cursor at the end of a new block.
    pub fn new(brewery: &mut Brewery<'_>, origin: ExprOrigin) -> (cursor: Cursor)
        ensures
            final(brewery).continues(*old(brewery)),
            cursor.is_in(*final(brewery)),
            cursor.end_block == Some(cursor.start_block),
            (Draft { code: old(brewery).code(), end: cursor.end_block }).new_block(origin) == (
                cursor.draft(*final(brewery)),
                cursor.start_block,
            ),
    {
        let block = brewery.dummy_block(origin);
        Cursor { start_block: block, end_block: Some(block) }
    }

    /// The block in which the code starts.
    pub fn complete(self) -> (start_block: BasicBlock)
        ensures
            start_block == self.start_block,
    {
        self.start_block
    }

    /// A cursor at the end of `block`.
    pub fn with_end_block(&self, block: BasicBlock) -> (cursor: Cursor)
        ensures
            cursor == (Cursor { start_block: self.start_block, end_block: Some(block) }),
    {
        Cursor { start_block: self.start_block, end_block: Some(block) }
    }

    /// Adds a statement, if control can get there.
    fn push_statement(
        &mut self,
        brewery: &mut Brewery<'_>,
        data: StatementData,
        origin: ExprOrigin,
    )
        requires
            old(self).is_in(*old(brewery)),
        ensures
            *final(self) == *old(self),
            final(brewery).continues(*old(brewery)),
            final(self).draft(*final(brewery)) == old(self).draft(*old(brewery)).statement(
                data,
                origin,
            ),
            final(brewery).code().basic_blocks.len() == old(brewery).code().basic_blocks.len(),
    {
        if let Some(block) = self.end_block {
            let statement = brewery.add_statement(data, origin);
            brewery.push_statement(block, statement);
        }
    }

    /// Adds an assignment, if control can get there.
    pub fn push_assignment(
        &mut self,
        brewery: &mut Brewery<'_>,
        target: Place,
        value: ExprData,
        origin: ExprOrigin,
    )
        requires
            old(self).is_in(*old(brewery)),
        ensures
            *final(self) == *old(self),
            final(brewery).continues(*old(brewery)),
            final(self).draft(*final(brewery)) == old(self).draft(*old(brewery)).assign(
                target,
                value@,
                origin,
            ),
            final(brewery).code().basic_blocks.len() == old(brewery).code().basic_blocks.len(),
    {
        if self.end_block.is_some() {
            let expr = brewery.add_expr(value, origin);
            self.push_statement(brewery, StatementData::Assign(target, expr), origin);
        }
    }

    /// Adds a cusp, if control can get there.
    pub fn push_cusp(
        &mut self,
        brewery: &mut Brewery<'_>,
        value: Option<Place>,
        origin: ExprOrigin,
    )
        requires
            old(self).is_in(*old(brewery)),
        ensures
            *final(self) == *old(self),
            final(brewery).continues(*old(brewery)),
            final(self).draft(*final(brewery)) == old(self).draft(*old(brewery)).cusp(
                value,
                origin,
            ),
            final(brewery).code().basic_blocks.len() == old(brewery).code().basic_blocks.len(),
    {
        self.push_statement(brewery, StatementData::Cusp(value), origin);
    }

    /// Adds a cusp for each of `origins` and one for `origin`, if control can get there.
    pub fn push_cusps(
        &mut self,
        brewery: &mut Brewery<'_>,
        value: Option<Place>,
        origins: Vec<ExprOrigin>,
        origin: ExprOrigin,
    )
        requires
            old(self).is_in(*old(brewery)),
        ensures
            *final(self) == *old(self),
            final(brewery).continues(*old(brewery)),
            final(self).draft(*final(brewery)) == old(self).draft(*old(brewery)).cusps(
                value,
                origins@,
                origin,
            ),
            final(brewery).code().basic_blocks.len() == old(brewery).code().basic_blocks.len(),
    {
        let ghost start = self.draft(*brewery);
        let mut i: usize = 0;
        while i < origins.len()
            invariant
                i <= origins@.len(),
                start == old(self).draft(*old(brewery)),
                old(self).is_in(*old(brewery)),
                *self == *old(self),
                brewery.continues(*old(brewery)),
                self.draft(*brewery) == start.cusp_each(value, origins@.take(i as int)),
                brewery.code().basic_blocks.len() == old(brewery).code().basic_blocks.len(),
            decreases origins@.len() - i,
        {
            self.push_cusp(brewery, value, origins[i]);
            assert(origins@.take(i + 1).drop_last() =~= origins@.take(i as int));
            i = i + 1;
        }
        assert(origins@.take(i as int) =~= origins@);
        self.push_cusp(brewery, value, origin);
    }

    /// Ends the block at the cursor, if control can get there. The cursor moves to the end of
    /// `next`.
    fn terminate(
        &mut self,
        brewery: &mut Brewery<'_>,
        data: TerminatorData,
        next: Option<BasicBlock>,
        origin: ExprOrigin,
    )
        requires
            old(self).is_in(*old(brewery)),
            next matches Some(block) ==> block.index < old(brewery).code().basic_blocks.len(),
        ensures
            final(self).start_block == old(self).start_block,
            final(self).is_in(*final(brewery)),
            final(brewery).continues(*old(brewery)),
            final(self).draft(*final(brewery)) == old(self).draft(*old(brewery)).terminate(
                data@,
                next,
                origin,
            ),
            final(brewery).code().basic_blocks.len() == old(brewery).code().basic_blocks.len(),
    {
        if let Some(block) = self.end_block {
            let terminator = brewery.add_terminator(data, origin);
            brewery.set_terminator(block, terminator);
            self.end_block = next;
        }
    }

    /// Ends the block at the cursor, if control can get there, and continues in `next`.
    pub fn terminate_and_continue(
        &mut self,
        brewery: &mut Brewery<'_>,
        data: TerminatorData,
        next: BasicBlock,
        origin: ExprOrigin,
    )
        requires
            old(self).is_in(*old(brewery)),
            next.index < old(brewery).code().basic_blocks.len(),
        ensures
            final(self).start_block == old(self).start_block,
            final(self).is_in(*final(brewery)),
            final(brewery).continues(*old(brewery)),
            final(self).draft(*final(brewery)) == old(self).draft(*old(brewery)).terminate(
                data@,
                Some(next),
                origin,
            ),
            final(brewery).code().basic_blocks.len() == old(brewery).code().basic_blocks.len(),
    {
        self.terminate(brewery, data, Some(next), origin);
    }

    /// Ends the block at the cursor, if control can get there. Control cannot get to what follows.
    pub fn terminate_and_diverge(
        &mut self,
        brewery: &mut Brewery<'_>,
        data: TerminatorData,
        origin: ExprOrigin,
    )
        requires
            old(self).is_in(*old(brewery)),
        ensures
            final(self).start_block == old(self).start_block,
            final(self).is_in(*final(brewery)),
            final(self).end_block is None,
            final(brewery).continues(*old(brewery)),
            final(self).draft(*final(brewery)) == old(self).draft(*old(brewery)).diverge(
                data@,
                origin,
            ),
            final(brewery).code().basic_blocks.len() == old(brewery).code().basic_blocks.len(),
    {
        self.terminate(brewery, data, None, origin);
    }

    /// Ends the block at the cursor by going to `target`, if control can get there.
    pub fn terminate_and_goto(
        &mut self,
        brewery: &mut Brewery<'_>,
        target: BasicBlock,
        origin: ExprOrigin,
    )
        requires
            old(self).is_in(*old(brewery)),
        ensures
            final(self).start_block == old(self).start_block,
            final(self).is_in(*final(brewery)),
            final(self).end_block is None,
            final(brewery).continues(*old(brewery)),
            final(self).draft(*final(brewery)) == old(self).draft(*old(brewery)).goto(
                target,
                origin,
            ),
            final(brewery).code().basic_blocks.len() == old(brewery).code().basic_blocks.len(),
    {
        self.terminate_and_diverge(brewery, TerminatorData::Goto(target), origin);
    }
}

} // verus!
