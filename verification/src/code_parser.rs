//! Parsing the body of a function.
use vstd::prelude::*;

use crate::base::{Keyword, Op, Span};
use crate::diagnostic::{Diagnostic, DiagnosticKind};
use crate::grammar;
use crate::grammar::{Argument, Node, NodeKind, Parsed};
use crate::layout;
use crate::parser::{Parser, Tokens};
use crate::progress;
use crate::syntax;
use crate::syntax::{
    Arena, Ast, Block, BlockData, Expr, ExprData, ExprShape, NamedExpr, NamedExprData,
    NamedExprSpan, Spans, Tables,
};
use crate::token::TokenTree;

verus! {

/// A parser that adds what it finds to tables.
pub struct CodeParser<'t> {
    pub parser: Parser<'t>,
    pub tables: Tables,
    pub spans: Spans,
}

impl<'t> Parser<'t> {
    /// Parses all of the tokens that are left as the body of a function.
    pub fn parse_ast(&mut self) -> (ast: Ast)
        requires
            old(self).well_formed(),
        ensures
            final(self).well_formed(),
            ({
                let block = grammar::block_contents(old(self).tree(), old(self).pos());
                let (arena, exprs) = layout::lay_nodes(Arena::empty(), block.nodes);
                &&& final(self).moved(*old(self), old(self).tree().count(), block.errors)
                &&& ast.tables.holds(arena.add_block(exprs))
                &&& ast.block == arena.add_block(exprs).last_block()
                &&& layout::fits(arena)
            }),
    {
        let mut errors: Vec<Diagnostic> = Vec::new();
        std::mem::swap(&mut errors, &mut self.errors);
        let tokens = Tokens { tree: self.tokens.tree, pos: self.tokens.pos };
        let mut code_parser = CodeParser {
            parser: Parser { tokens, errors },
            tables: Tables::new(),
            spans: Spans::new(),
        };
        assert(code_parser.arena() =~= Arena::empty());
        let block = code_parser.parse_only_block_contents();
        proof {
            let tables = code_parser.tables;
            assert(tables.exprs.len() == tables.exprs@.len());
            assert(tables.named_exprs.len() == tables.named_exprs@.len());
            assert(tables.blocks.len() == tables.blocks@.len());
        }
        self.tokens = code_parser.parser.tokens;
        self.errors = code_parser.parser.errors;
        Ast { tables: code_parser.tables, block }
    }
}

impl<'t> CodeParser<'t> {
    pub open spec fn tree(self) -> TokenTree {
        self.parser.tree()
    }

    pub open spec fn pos(self) -> int {
        self.parser.pos()
    }

    /// The contents of the tables.
    pub open spec fn arena(self) -> Arena {
        syntax::arena(self.tables, self.spans)
    }

    pub open spec fn well_formed(self) -> bool {
        &&& self.parser.well_formed()
        &&& self.arena().well_formed()
    }

    /// Whether `self` is `before` after reading what `parsed` describes, where `found` stands for
    /// the tree that was found, if there is one. Without a tree the tables are unchanged.
    pub open spec fn has_read(
        self,
        before: CodeParser<'t>,
        parsed: Parsed,
        found: Option<Expr>,
    ) -> bool {
        &&& self.parser.moved(before.parser, parsed.pos, parsed.errors)
        &&& match parsed.node {
            Some(node) => {
                &&& self.arena() == layout::lay(before.arena(), node)
                &&& found == Some(self.arena().last_expr())
            },
            None => self.arena() == before.arena() && found is None,
        }
    }

    /// Whether `self` is `before` after reading all that was left of the token tree as a series of
    /// arguments, which `found` stands for.
    pub open spec fn has_read_arguments(
        self,
        before: CodeParser<'t>,
        found: Seq<NamedExpr>,
    ) -> bool {
        let list = grammar::arguments(before.tree(), before.pos());
        &&& self.well_formed()
        &&& self.parser.moved(before.parser, before.tree().count(), list.errors)
        &&& layout::lay_arguments(before.arena(), list.arguments) == (self.arena(), found)
    }

    /// Whether `self` is `before` after reading all that was left of the token tree as a series of
    /// expressions, which `found` stands for.
    pub open spec fn has_read_block(self, before: CodeParser<'t>, found: Block) -> bool {
        let block = grammar::block_contents(before.tree(), before.pos());
        let (arena, exprs) = layout::lay_nodes(before.arena(), block.nodes);
        &&& self.well_formed()
        &&& self.parser.moved(before.parser, before.tree().count(), block.errors)
        &&& self.arena() == arena.add_block(exprs)
        &&& found == self.arena().last_block()
    }

    /// Adds an expression to the tables.
    fn add(&mut self, data: ExprData, span: Span) -> (key: Expr)
        requires
            old(self).well_formed(),
        ensures
            final(self).well_formed(),
            final(self).parser == old(self).parser,
            final(self).arena() == old(self).arena().add_expr(data@, span),
            key == final(self).arena().last_expr(),
    {
        let index: usize = self.tables.exprs.len();
        self.tables.exprs.push(data);
        self.spans.exprs.push(span);
        assert(self.arena() =~= old(self).arena().add_expr(data@, span));
        Expr { index }
    }

    /// Adds a named expression to the tables.
    fn add_named_expr(&mut self, data: NamedExprData, span: NamedExprSpan) -> (key: NamedExpr)
        requires
            old(self).well_formed(),
        ensures
            final(self).well_formed(),
            final(self).parser == old(self).parser,
            final(self).arena() == old(self).arena().add_named_expr(data, span),
            key == final(self).arena().last_named_expr(),
    {
        let index: usize = self.tables.named_exprs.len();
        self.tables.named_exprs.push(data);
        self.spans.named_exprs.push(span);
        assert(self.arena() =~= old(self).arena().add_named_expr(data, span));
        NamedExpr { index }
    }

    /// Adds a block to the tables.
    fn add_block(&mut self, exprs: Vec<Expr>) -> (key: Block)
        requires
            old(self).well_formed(),
        ensures
            final(self).well_formed(),
            final(self).parser == old(self).parser,
            final(self).arena() == old(self).arena().add_block(exprs@),
            key == final(self).arena().last_block(),
    {
        let index: usize = self.tables.blocks.len();
        self.tables.blocks.push(BlockData { exprs });
        assert(self.arena() =~= old(self).arena().add_block(exprs@));
        Block { index }
    }

    /// The span of the expression that stands for `node`, which was laid out in `arena`.
    fn span(&self, expr: Expr, Ghost(arena): Ghost<Arena>, Ghost(node): Ghost<Node>) -> (span: Span)
        requires
            self.well_formed(),
            arena.well_formed(),
            layout::lay(arena, node).grows_to(self.arena()),
            expr == layout::lay(arena, node).last_expr(),
        ensures
            span == node.span,
    {
        proof {
            assert(self.tables.exprs.len() == self.tables.exprs@.len());
            layout::lemma_span_kept(arena, node, self.arena());
        }
        self.spans.exprs[expr.index]
    }

    /// The expression that was found, or an error expression at the next token.
    fn or_dummy_expr(&mut self, found: Option<Expr>) -> (expr: Expr)
        requires
            old(self).well_formed(),
        ensures
            final(self).well_formed(),
            final(self).parser == old(self).parser,
            match found {
                Some(found) => expr == found && *final(self) == *old(self),
                None => {
                    &&& final(self).arena() == layout::lay(
                        old(self).arena(),
                        Node {
                            span: old(self).tree().span_at(old(self).pos()),
                            kind: NodeKind::Error,
                        },
                    )
                    &&& expr == final(self).arena().last_expr()
                },
            },
    {
        match found {
            Some(found) => found,
            None => {
                let span = self.parser.tokens.peek_span();
                self.add(ExprData::Error, span)
            },
        }
    }

    /// The expression that was found, or, after a report, an error expression.
    fn or_report_error(
        &mut self,
        found: Option<Expr>,
        kind: DiagnosticKind,
        Ghost(before): Ghost<CodeParser<'t>>,
        Ghost(parsed): Ghost<Parsed>,
    ) -> (expr: Expr)
        requires
            old(self).well_formed(),
            old(self).has_read(before, parsed, found),
        ensures
            final(self).well_formed(),
            final(self).has_read(before, parsed.or_error(old(self).tree(), kind), Some(expr)),
    {
        if found.is_none() {
            self.parser.report_error_at_current_token(kind);
        }
        self.or_dummy_expr(found)
    }

    /// The parser for a token tree inside the one that `self` reads.
    pub open spec fn sub_parser(self, token_tree: &'t TokenTree) -> CodeParser<'t> {
        CodeParser {
            parser: Parser {
                tokens: Tokens { tree: token_tree, pos: 0 },
                errors: self.parser.errors,
            },
            tables: self.tables,
            spans: self.spans,
        }
    }

    /// `self` with the reports and the tables of a parser for a token tree inside the one that
    /// `self` reads.
    pub open spec fn resumed(self, sub_parser: CodeParser<'t>) -> CodeParser<'t> {
        CodeParser {
            parser: Parser { tokens: self.parser.tokens, errors: sub_parser.parser.errors },
            tables: sub_parser.tables,
            spans: sub_parser.spans,
        }
    }

    /// Runs `op` on a parser for `token_tree` that shares the reports and the tables of `self`.
    fn with_sub_parser<R, F>(&mut self, token_tree: &'t TokenTree, op: F) -> (result: R) where
        F: FnOnce(CodeParser<'t>) -> (R, CodeParser<'t>),

        requires
            op.requires((old(self).sub_parser(token_tree),)),
        ensures
            exists|sub_parser: CodeParser<'t>| #[trigger]
                op.ensures((old(self).sub_parser(token_tree),), (result, sub_parser))
                    && *final(self) == old(self).resumed(sub_parser),
    {
        let mut errors: Vec<Diagnostic> = Vec::new();
        let mut tables = Tables::new();
        let mut spans = Spans::new();
        std::mem::swap(&mut errors, &mut self.parser.errors);
        std::mem::swap(&mut tables, &mut self.tables);
        std::mem::swap(&mut spans, &mut self.spans);
        let sub_parser = CodeParser { parser: Parser::new(token_tree, errors), tables, spans };
        assert(sub_parser == old(self).sub_parser(token_tree));
        let callback = move || -> (done: (R, CodeParser<'t>))
            requires
                op.requires((sub_parser,)),
            ensures
                op.ensures((sub_parser,), done),
            {
                op(sub_parser)
            };
        let (result, sub_parser) = stacker::maybe_grow(32 * 1024, 1024 * 1024, callback);
        self.parser.errors = sub_parser.parser.errors;
        self.tables = sub_parser.tables;
        self.spans = sub_parser.spans;
        result
    }

    /// Parses an expression that must follow the operator `before`.
    fn parse_required_expr(&mut self, before: Op) -> (expr: Expr)
        requires
            old(self).well_formed(),
        ensures
            final(self).well_formed(),
            final(self).has_read(
                *old(self),
                grammar::required_expr(old(self).tree(), old(self).pos(), before),
                Some(expr),
            ),
        decreases old(self).tree(), old(self).tree().count() - old(self).pos(), 6int,
    {
        let ghost start = *self;
        let found = self.parse_expr();
        self.or_report_error(
            found,
            DiagnosticKind::ExpectedExpressionAfter(before),
            Ghost(start),
            Ghost(grammar::expr(start.tree(), start.pos())),
        )
    }

    /// Parses an if/while condition -- this can be any sort of expression but a block.
    pub fn parse_condition(&mut self) -> (found: Option<Expr>)
        requires
            old(self).well_formed(),
        ensures
            final(self).well_formed(),
            final(self).has_read(
                *old(self),
                grammar::condition(old(self).tree(), old(self).pos()),
                found,
            ),
        decreases old(self).tree(), old(self).tree().count() - old(self).pos(), 6int,
    {
        if self.parser.peek_delimiter('{') {
            None
        } else {
            self.parse_expr()
        }
    }

    /// Parses an expression.
    pub fn parse_expr(&mut self) -> (found: Option<Expr>)
        requires
            old(self).well_formed(),
        ensures
            final(self).well_formed(),
            final(self).has_read(
                *old(self),
                grammar::expr(old(self).tree(), old(self).pos()),
                found,
            ),
        decreases old(self).tree(), old(self).tree().count() - old(self).pos(), 5int,
    {
        self.parse_expr_3()
    }

    /// Parses a sum or anything that binds more tightly.
    pub fn parse_expr_3(&mut self) -> (found: Option<Expr>)
        requires
            old(self).well_formed(),
        ensures
            final(self).well_formed(),
            final(self).has_read(
                *old(self),
                grammar::expr_3(old(self).tree(), old(self).pos()),
                found,
            ),
        decreases old(self).tree(), old(self).tree().count() - old(self).pos(), 4int,
    {
        let ghost start = *self;
        let ghost left = grammar::expr_2(start.tree(), start.pos());
        let expr = self.parse_expr_2()?;
        proof {
            progress::lemma_expr_2_progress(start.tree(), start.pos());
            layout::lemma_lay_grows(start.arena(), left.node->0);
            assert(self.tables.exprs.len() == self.tables.exprs@.len());
        }
        let ops = [Op::Plus, Op::Minus];
        assert(ops@ =~= seq![Op::Plus, Op::Minus]);
        if let Some(expr1) = self.parse_binop(expr, &ops) {
            return Some(expr1);
        }
        Some(expr)
    }

    /// Parses a product or anything that binds more tightly.
    pub fn parse_expr_2(&mut self) -> (found: Option<Expr>)
        requires
            old(self).well_formed(),
        ensures
            final(self).well_formed(),
            final(self).has_read(
                *old(self),
                grammar::expr_2(old(self).tree(), old(self).pos()),
                found,
            ),
        decreases old(self).tree(), old(self).tree().count() - old(self).pos(), 3int,
    {
        let ghost start = *self;
        let ghost left = grammar::expr_1(start.tree(), start.pos());
        let expr = self.parse_expr_1()?;
        proof {
            progress::lemma_expr_1_progress(start.tree(), start.pos());
            layout::lemma_lay_grows(start.arena(), left.node->0);
            assert(self.tables.exprs.len() == self.tables.exprs@.len());
        }
        let ops = [Op::DividedBy, Op::Times];
        assert(ops@ =~= seq![Op::DividedBy, Op::Times]);
        if let Some(expr1) = self.parse_binop(expr, &ops) {
            return Some(expr1);
        }
        Some(expr)
    }

    /// Parses the rest of an operation on `base`, if one of `ops` comes next.
    fn parse_binop(&mut self, base: Expr, ops: &[Op]) -> (found: Option<Expr>)
        requires
            old(self).well_formed(),
            base.index < old(self).arena().exprs.len(),
        ensures
            final(self).well_formed(),
            match old(self).tree().operator_at(old(self).pos(), ops@) {
                Some(op) => {
                    let right = grammar::required_expr(old(self).tree(), old(self).pos() + 1, op);
                    let operand = right.node->0;
                    let arena = layout::lay(old(self).arena(), operand);
                    let span = old(self).arena().expr_spans[base.index as int].up_to(
                        operand.span,
                    );
                    &&& right.node is Some
                    &&& final(self).parser.moved(old(self).parser, right.pos, right.errors)
                    &&& final(self).arena() == arena.add_expr(
                        ExprShape::Op(base, op, arena.last_expr()),
                        span,
                    )
                    &&& found == Some(final(self).arena().last_expr())
                },
                None => *final(self) == *old(self) && found is None,
            },
        decreases old(self).tree(), old(self).tree().count() - old(self).pos(), 0int,
    {
        let mut i: usize = 0;
        while i < ops.len()
            invariant
                i <= ops@.len(),
                *self == *old(self),
                old(self).well_formed(),
                base.index < old(self).arena().exprs.len(),
                forall|k: int| 0 <= k < i ==> !self.tree().op_at(self.pos(), #[trigger] ops@[k]),
            decreases ops@.len() - i,
        {
            let op = ops[i];
            if self.parser.eat_op(op).is_some() {
                let rhs = self.parse_required_expr(op);
                let ghost right = grammar::required_expr(
                    old(self).tree(),
                    old(self).pos() + 1,
                    op,
                );
                proof {
                    assert(ops@[i as int] == op);
                    assert(old(self).tree().operator_at(old(self).pos(), ops@) == Some(op));
                    layout::lemma_lay_grows(old(self).arena(), right.node->0);
                    let spans = self.arena().expr_spans;
                    let count = old(self).arena().expr_spans.len() as int;
                    assert(spans.subrange(0, count)[base.index as int]
                        == spans[base.index as int]);
                }
                let base_span = self.spans.exprs[base.index];
                let rhs_span = self.span(rhs, Ghost(old(self).arena()), Ghost(right.node->0));
                let span = base_span.to(rhs_span);
                return Some(self.add(ExprData::Op(base, op, rhs), span));
            }
            i = i + 1;
        }
        None
    }

    /// Parses an expression followed by any number of field accesses and argument lists.
    pub fn parse_expr_1(&mut self) -> (found: Option<Expr>)
        requires
            old(self).well_formed(),
        ensures
            final(self).well_formed(),
            final(self).has_read(
                *old(self),
                grammar::expr_1(old(self).tree(), old(self).pos()),
                found,
            ),
        decreases old(self).tree(), old(self).tree().count() - old(self).pos(), 2int,
    {
        let ghost start = *self;
        let ghost head = grammar::expr_0(start.tree(), start.pos());
        let expr = self.parse_expr_0()?;
        proof {
            progress::lemma_expr_0_progress(start.tree(), start.pos());
        }
        Some(self.parse_suffixes(expr, Ghost(start.arena()), Ghost(head.node->0)))
    }

    /// Parses the field accesses and argument lists that follow `expr`, which stands for `base`.
    fn parse_suffixes(
        &mut self,
        expr: Expr,
        Ghost(arena): Ghost<Arena>,
        Ghost(base): Ghost<Node>,
    ) -> (whole: Expr)
        requires
            old(self).well_formed(),
            arena.well_formed(),
            old(self).arena() == layout::lay(arena, base),
            expr == old(self).arena().last_expr(),
        ensures
            final(self).well_formed(),
            ({
                let parsed = grammar::suffixes(old(self).tree(), old(self).pos(), base);
                &&& final(self).parser.moved(old(self).parser, parsed.pos, parsed.errors)
                &&& parsed.node is Some
                &&& final(self).arena() == layout::lay(arena, parsed.node->0)
                &&& whole == final(self).arena().last_expr()
            }),
        decreases old(self).tree(), 0int, 2int,
    {
        let ghost start = *self;
        let ghost parsed = grammar::suffixes(start.tree(), start.pos(), base);
        let ghost mut node = base;
        let ghost mut errors: Seq<Diagnostic> = seq![];
        let mut expr = expr;
        loop
            invariant
                start == *old(self),
                parsed == grammar::suffixes(start.tree(), start.pos(), base),
                arena.well_formed(),
                self.well_formed(),
                self.parser.moved(start.parser, self.pos(), errors),
                self.arena() == layout::lay(arena, node),
                expr == self.arena().last_expr(),
                parsed =~= grammar::suffixes(start.tree(), self.pos(), node).after(errors),
            decreases start.tree().count() - self.pos(),
        {
            match self.parse_suffix(expr, Ghost(arena), Ghost(node)) {
                Some((next, next_node, reports)) => {
                    expr = next;
                    proof {
                        node = next_node@;
                        errors = errors + reports@;
                    }
                },
                None => {
                    return expr;
                },
            }
        }
    }

    /// Parses one field access or argument list that follows `expr`, which stands for `base`.
    /// Gives the expression that it makes with the tree for which that stands and what was
    /// reported on the way.
    fn parse_suffix(
        &mut self,
        expr: Expr,
        Ghost(arena): Ghost<Arena>,
        Ghost(base): Ghost<Node>,
    ) -> (found: Option<(Expr, Ghost<Node>, Ghost<Seq<Diagnostic>>)>)
        requires
            old(self).well_formed(),
            arena.well_formed(),
            old(self).arena() == layout::lay(arena, base),
            expr == old(self).arena().last_expr(),
        ensures
            final(self).well_formed(),
            ({
                let whole = grammar::suffixes(old(self).tree(), old(self).pos(), base);
                match found {
                    Some((next, node, errors)) => {
                        &&& old(self).pos() < final(self).pos()
                        &&& final(self).parser.moved(old(self).parser, final(self).pos(), errors@)
                        &&& final(self).arena() == layout::lay(arena, node@)
                        &&& next == final(self).arena().last_expr()
                        &&& whole =~= grammar::suffixes(
                            old(self).tree(),
                            final(self).pos(),
                            node@,
                        ).after(errors@)
                    },
                    None => {
                        &&& final(self).parser.moved(old(self).parser, whole.pos, whole.errors)
                        &&& final(self).arena() == old(self).arena()
                        &&& whole.node == Some(base)
                    },
                }
            }),
        decreases old(self).tree(), 0int, 1int,
    {
        let ghost tree = self.tree();
        let dot = self.parser.eat_op(Op::Dot);
        if dot.is_some() {
            if let Some((id_span, id)) = self.parser.eat_identifier() {
                let span = self.span(expr, Ghost(arena), Ghost(base)).to(id_span);
                let access = self.add(ExprData::Dot(expr, id), span);
                let ghost node = Node { span, kind: NodeKind::Dot(Box::new(base), id) };
                return Some((access, Ghost(node), Ghost(Seq::empty())));
            }
            self.parser.report_error_at_current_token(DiagnosticKind::ExpectedIdentifierAfterDot);
        }
        let ghost dot_errors = grammar::report_unless(
            dot is None,
            tree,
            old(self).pos() + 1,
            DiagnosticKind::ExpectedIdentifierAfterDot,
        );
        let ghost open = self.pos();
        if let Some((arg_span, token_tree)) = self.parser.delimited('(') {
            // `base(...)`
            let ghost list = grammar::delimited(tree, open, '(')->0;
            let ghost arguments = grammar::arguments(list.tree, 0);
            let named_exprs = self.parse_arguments(token_tree, Ghost(tree), Ghost(open));
            proof {
                layout::lemma_lay_arguments_grows(old(self).arena(), arguments.arguments);
            }
            let span = self.span(expr, Ghost(arena), Ghost(base)).to(arg_span);
            let call = self.add(ExprData::Call(expr, named_exprs), span);
            let ghost node = Node {
                span,
                kind: NodeKind::Call(Box::new(base), arguments.arguments),
            };
            let ghost errors = dot_errors + list.errors + arguments.errors;
            return Some((call, Ghost(node), Ghost(errors)));
        }
        None
    }

    /// Parses the argument list `token_tree`, which is the one at `open` in `tree`.
    fn parse_arguments(
        &mut self,
        token_tree: &'t TokenTree,
        Ghost(tree): Ghost<TokenTree>,
        Ghost(open): Ghost<int>,
    ) -> (named_exprs: Vec<NamedExpr>)
        requires
            old(self).well_formed(),
            tree.delimited_at(open, '(') == Some(*token_tree),
        ensures
            final(self).well_formed(),
            final(self).parser.moved(
                old(self).parser,
                old(self).pos(),
                grammar::arguments(*token_tree, 0).errors,
            ),
            layout::lay_arguments(
                old(self).arena(),
                grammar::arguments(*token_tree, 0).arguments,
            ) == (final(self).arena(), named_exprs@),
        decreases tree, 0int, 0int,
    {
        let op = |sub_parser: CodeParser<'t>| -> (done: (Vec<NamedExpr>, CodeParser<'t>))
            requires
                tree.delimited_at(open, '(') == Some(sub_parser.tree()),
                sub_parser.well_formed(),
                sub_parser.pos() == 0,
            ensures
                done.1.has_read_arguments(sub_parser, done.0@),
            {
                let mut sub_parser = sub_parser;
                let named_exprs = sub_parser.parse_only_named_exprs();
                (named_exprs, sub_parser)
            };
        self.with_sub_parser(token_tree, op)
    }

    /// Parses the expression in parentheses `token_tree`, which is the one at `open` in `tree`.
    fn parse_group(
        &mut self,
        token_tree: &'t TokenTree,
        Ghost(tree): Ghost<TokenTree>,
        Ghost(open): Ghost<int>,
    ) -> (expr: Expr)
        requires
            old(self).well_formed(),
            tree.delimited_at(open, '(') == Some(*token_tree),
        ensures
            final(self).well_formed(),
            final(self).has_read(
                *old(self),
                Parsed { pos: old(self).pos(), ..grammar::only_expr(*token_tree, 0) },
                Some(expr),
            ),
        decreases tree, 0int, 0int,
    {
        let op = |sub_parser: CodeParser<'t>| -> (done: (Expr, CodeParser<'t>))
            requires
                tree.delimited_at(open, '(') == Some(sub_parser.tree()),
                sub_parser.well_formed(),
                sub_parser.pos() == 0,
            ensures
                done.1.well_formed(),
                done.1.has_read(
                    sub_parser,
                    grammar::only_expr(sub_parser.tree(), 0),
                    Some(done.0),
                ),
            {
                let mut sub_parser = sub_parser;
                let expr = sub_parser.parse_only_expr();
                (expr, sub_parser)
            };
        self.with_sub_parser(token_tree, op)
    }

    /// Parses an expression that is no operation on what precedes it.
    #[verifier::rlimit(40)]
    #[verifier::spinoff_prover]
    pub fn parse_expr_0(&mut self) -> (found: Option<Expr>)
        requires
            old(self).well_formed(),
        ensures
            final(self).well_formed(),
            final(self).has_read(
                *old(self),
                grammar::expr_0(old(self).tree(), old(self).pos()),
                found,
            ),
        decreases old(self).tree(), old(self).tree().count() - old(self).pos(), 1int,
    {
        let ghost tree = self.tree();
        let ghost open = self.pos();
        if let Some((id_span, id)) = self.parser.eat_identifier() {
            Some(self.add(ExprData::Id(id), id_span))
        } else if let Some(expr) = self.parse_block_expr() {
            // { ... }
            Some(expr)
        } else if let Some(if_span) = self.parser.eat_keyword(Keyword::If) {
            if let Some(condition) = self.parse_condition() {
                let if_true = self.parse_required_block_expr(Keyword::If);
                let if_false = if self.parser.eat_keyword(Keyword::Else).is_some() {
                    Some(self.parse_required_block_expr(Keyword::Else))
                } else {
                    None
                };
                let span = self.parser.span_consumed_since(if_span);
                Some(self.add(ExprData::If(condition, if_true, if_false), span))
            } else {
                self.parser.report_error_at_current_token(
                    DiagnosticKind::ExpectedCondition(Keyword::If),
                );
                None
            }
        } else if let Some(while_span) = self.parser.eat_keyword(Keyword::While) {
            if let Some(condition) = self.parse_condition() {
                let body = self.parse_required_block_expr(Keyword::While);
                let span = self.parser.span_consumed_since(while_span);
                Some(self.add(ExprData::While(condition, body), span))
            } else {
                self.parser.report_error_at_current_token(
                    DiagnosticKind::ExpectedCondition(Keyword::While),
                );
                None
            }
        } else if let Some(loop_span) = self.parser.eat_keyword(Keyword::Loop) {
            let body = self.parse_required_block_expr(Keyword::Loop);
            let span = self.parser.span_consumed_since(loop_span);
            Some(self.add(ExprData::Loop(body), span))
        } else if let Some(span) = self.parser.eat_keyword(Keyword::Continue) {
            Some(self.add(ExprData::Continue, span))
        } else if let Some(break_span) = self.parser.eat_keyword(Keyword::Break) {
            let value = self.parse_expr();
            let span = self.parser.span_consumed_since(break_span);
            Some(self.add(ExprData::Break(value), span))
        } else if let Some(return_span) = self.parser.eat_keyword(Keyword::Return) {
            let value = self.parse_expr();
            let span = self.parser.span_consumed_since(return_span);
            Some(self.add(ExprData::Return(value), span))
        } else if let Some(op_span) = self.parser.eat_op(Op::Minus) {
            let ghost operand = grammar::required_expr(tree, open + 1, Op::Minus);
            let expr = self.parse_required_expr(Op::Minus);
            let span = op_span.to(
                self.span(expr, Ghost(old(self).arena()), Ghost(operand.node->0)),
            );
            Some(self.add(ExprData::Unary(Op::Minus, expr), span))
        } else if let Some((span, token_tree)) = self.parser.delimited('(') {
            let expr = self.parse_group(token_tree, Ghost(tree), Ghost(open));
            Some(self.add(ExprData::Parenthesized(expr), span))
        } else {
            None
        }
    }

    /// Parses a block in braces that must follow `after`.
    fn parse_required_block_expr(&mut self, after: Keyword) -> (expr: Expr)
        requires
            old(self).well_formed(),
        ensures
            final(self).well_formed(),
            final(self).has_read(
                *old(self),
                grammar::required_block(old(self).tree(), old(self).pos(), after),
                Some(expr),
            ),
        decreases old(self).tree(), 0int, 1int,
    {
        let ghost start = *self;
        let found = self.parse_block_expr();
        self.or_report_error(
            found,
            DiagnosticKind::ExpectedBlockAfter(after),
            Ghost(start),
            Ghost(grammar::block_expr(start.tree(), start.pos())),
        )
    }

    /// Parses a block in braces.
    fn parse_block_expr(&mut self) -> (found: Option<Expr>)
        requires
            old(self).well_formed(),
        ensures
            final(self).well_formed(),
            final(self).has_read(
                *old(self),
                grammar::block_expr(old(self).tree(), old(self).pos()),
                found,
            ),
        decreases old(self).tree(), 0int, 0int,
    {
        let ghost tree = self.tree();
        let ghost open = self.pos();
        let (span, token_tree) = self.parser.delimited('{')?;
        let op = |sub_parser: CodeParser<'t>| -> (done: (Block, CodeParser<'t>))
            requires
                tree.delimited_at(open, '{') == Some(sub_parser.tree()),
                sub_parser.well_formed(),
                sub_parser.pos() == 0,
            ensures
                done.1.has_read_block(sub_parser, done.0),
            {
                let mut sub_parser = sub_parser;
                let block = sub_parser.parse_only_block_contents();
                (block, sub_parser)
            };
        let block = self.with_sub_parser(token_tree, op);
        let expr = self.add(ExprData::Block(block), span);
        Some(expr)
    }

    /// Parses a series of expressions; expects to consume all available tokens (and errors if
    /// there are extra).
    pub fn parse_only_block_contents(&mut self) -> (block: Block)
        requires
            old(self).well_formed(),
        ensures
            final(self).has_read_block(*old(self), block),
        decreases old(self).tree(), old(self).tree().count() - old(self).pos(), 7int,
    {
        let ghost start = *self;
        let ghost tree = start.tree();
        let ghost whole = grammar::block_contents(tree, start.pos());
        let ghost mut nodes: Seq<Node> = seq![];
        let ghost mut errors: Seq<Diagnostic> = seq![];
        let mut exprs: Vec<Expr> = Vec::new();
        while self.parser.tokens.peek().is_some()
            invariant
                start == *old(self),
                tree == start.tree(),
                start.well_formed(),
                self.well_formed(),
                start.pos() <= self.pos(),
                self.parser.moved(start.parser, self.pos(), errors),
                layout::lay_nodes(start.arena(), nodes) == (self.arena(), exprs@),
                whole == grammar::block_contents(tree, start.pos()),
                ({
                    let rest = grammar::block_contents(tree, self.pos());
                    &&& whole.nodes =~= nodes + rest.nodes
                    &&& whole.errors =~= errors + rest.errors
                }),
            decreases tree.count() - self.pos(),
        {
            let ghost before = *self;
            let ghost first = grammar::expr(tree, before.pos());
            proof {
                progress::lemma_expr_progress(tree, before.pos());
            }
            if let Some(expr) = self.parse_expr() {
                exprs.push(expr);
                proof {
                    assert(nodes.push(first.node->0).drop_last() =~= nodes);
                    nodes = nodes.push(first.node->0);
                    errors = errors + first.errors;
                }
            } else {
                self.parser.report_error_at_current_token(DiagnosticKind::ExpectedExpression);
                self.parser.tokens.consume();
                proof {
                    errors = errors + first.errors.push(
                        grammar::report(tree, first.pos, DiagnosticKind::ExpectedExpression),
                    );
                }
            }
        }
        self.add_block(exprs)
    }

    /// Parses a single expression (and errors if there are extra tokens).
    pub fn parse_only_expr(&mut self) -> (expr: Expr)
        requires
            old(self).well_formed(),
        ensures
            final(self).well_formed(),
            final(self).has_read(
                *old(self),
                grammar::only_expr(old(self).tree(), old(self).pos()),
                Some(expr),
            ),
        decreases old(self).tree(), old(self).tree().count() - old(self).pos(), 7int,
    {
        if let Some(expr) = self.parse_expr() {
            if self.parser.tokens.peek().is_some() {
                self.parser.report_error_at_current_token(DiagnosticKind::ExtraTokens);
            }
            return expr;
        }
        self.parser.report_error_at_current_token(DiagnosticKind::ExpectedExpression);
        self.or_dummy_expr(None)
    }

    /// Parses an argument, `id: expr`.
    pub fn parse_named_expr(&mut self) -> (found: Option<NamedExpr>)
        requires
            old(self).well_formed(),
        ensures
            final(self).well_formed(),
            ({
                let parsed = grammar::argument(old(self).tree(), old(self).pos());
                &&& final(self).parser.moved(old(self).parser, parsed.pos, parsed.errors)
                &&& match parsed.argument {
                    Some(argument) => {
                        &&& final(self).arena() == layout::lay_argument(
                            old(self).arena(),
                            argument,
                        )
                        &&& found == Some(final(self).arena().last_named_expr())
                    },
                    None => final(self).arena() == old(self).arena() && found is None,
                }
            }),
        decreases old(self).tree(), old(self).tree().count() - old(self).pos(), 6int,
    {
        let eaten = self.parser.eat_identifier();
        if eaten.is_none() {
            self.parser.report_error_at_current_token(DiagnosticKind::ExpectedArgumentName);
        }
        let (id_span, id) = eaten?;
        if self.parser.eat_op(Op::Colon).is_none() {
            self.parser.report_error_at_current_token(DiagnosticKind::ExpectedColon);
        }
        let ghost start = *self;
        let found = self.parse_expr();
        let expr = self.or_report_error(
            found,
            DiagnosticKind::ExpectedExpression,
            Ghost(start),
            Ghost(grammar::expr(start.tree(), start.pos())),
        );
        let span = self.parser.span_consumed_since(id_span);
        Some(
            self.add_named_expr(
                NamedExprData { name: id, expr },
                NamedExprSpan { span, name_span: id_span },
            ),
        )
    }

    /// Parses a series of named expressions (`id: expr`); expects to consume all available tokens
    /// (and errors if there are extra).
    pub fn parse_only_named_exprs(&mut self) -> (exprs: Vec<NamedExpr>)
        requires
            old(self).well_formed(),
        ensures
            final(self).has_read_arguments(*old(self), exprs@),
        decreases old(self).tree(), old(self).tree().count() - old(self).pos(), 7int,
    {
        let ghost start = *self;
        let ghost tree = start.tree();
        let ghost whole = grammar::arguments(tree, start.pos());
        let ghost mut arguments: Seq<Argument> = seq![];
        let ghost mut errors: Seq<Diagnostic> = seq![];
        let mut exprs: Vec<NamedExpr> = Vec::new();
        while self.parser.tokens.peek().is_some()
            invariant
                start == *old(self),
                tree == start.tree(),
                start.well_formed(),
                self.well_formed(),
                start.pos() <= self.pos(),
                self.parser.moved(start.parser, self.pos(), errors),
                layout::lay_arguments(start.arena(), arguments) == (self.arena(), exprs@),
                whole == grammar::arguments(tree, start.pos()),
                ({
                    let rest = grammar::arguments(tree, self.pos());
                    &&& whole.arguments =~= arguments + rest.arguments
                    &&& whole.errors =~= errors + rest.errors
                }),
            decreases tree.count() - self.pos(),
        {
            let ghost before = *self;
            let ghost first = grammar::argument(tree, before.pos());
            proof {
                progress::lemma_argument_progress(tree, before.pos());
            }
            if let Some(expr) = self.parse_named_expr() {
                exprs.push(expr);
                proof {
                    assert(arguments.push(first.argument->0).drop_last() =~= arguments);
                    arguments = arguments.push(first.argument->0);
                    errors = errors + first.errors;
                }
            } else {
                self.parser.report_error_at_current_token(DiagnosticKind::ExpectedExpression);
                self.parser.tokens.consume();
                proof {
                    errors = errors + first.errors.push(
                        grammar::report(tree, first.pos, DiagnosticKind::ExpectedExpression),
                    );
                }
            }
        }
        exprs
    }
}

} // verus!
