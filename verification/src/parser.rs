//! Reading tokens and reporting problems.
use vstd::prelude::*;

use crate::base::{Keyword, Op, Span, Word};
use crate::diagnostic::{Diagnostic, DiagnosticKind};
use crate::grammar;
use crate::token::{Token, TokenTree};

verus! {

/// A position in a token tree.
pub struct Tokens<'t> {
    pub tree: &'t TokenTree,
    pub pos: usize,
}

impl<'t> Tokens<'t> {
    /// The position is that of a token or the end of the tree.
    pub open spec fn well_formed(self) -> bool {
        self.pos <= self.tree.count()
    }

    /// The start of `tree`.
    pub fn new(tree: &'t TokenTree) -> (tokens: Tokens<'t>)
        ensures
            tokens == (Tokens { tree, pos: 0 }),
    {
        Tokens { tree, pos: 0 }
    }

    /// The next token, if there is one.
    pub fn peek(&self) -> (token: Option<&'t Token>)
        ensures
            match token {
                Some(token) => self.tree.token_at(self.pos as int) == Some(*token),
                None => self.tree.token_at(self.pos as int) is None,
            },
    {
        if self.pos < self.tree.tokens.len() {
            Some(&self.tree.tokens[self.pos].1)
        } else {
            None
        }
    }

    /// The span of the next token; at the end, the empty span that closes the tree.
    pub fn peek_span(&self) -> (span: Span)
        ensures
            span == self.tree.span_at(self.pos as int),
    {
        if self.pos < self.tree.tokens.len() {
            self.tree.tokens[self.pos].0
        } else {
            Span { start: self.tree.span.end, end: self.tree.span.end }
        }
    }

    /// The span of the last token that was consumed; at the start, the empty span that opens the
    /// tree.
    pub fn last_span(&self) -> (span: Span)
        requires
            self.well_formed(),
        ensures
            span == self.tree.span_before(self.pos as int),
    {
        if self.pos > 0 {
            self.tree.tokens[self.pos - 1].0
        } else {
            Span { start: self.tree.span.start, end: self.tree.span.start }
        }
    }

    /// Moves past the next token, if there is one.
    pub fn consume(&mut self)
        requires
            old(self).well_formed(),
        ensures
            final(self).well_formed(),
            final(self).tree == old(self).tree,
            final(self).pos == grammar::skip_token(*old(self).tree, old(self).pos as int),
    {
        if self.pos < self.tree.tokens.len() {
            self.pos = self.pos + 1;
        }
    }
}

/// Reads the tokens of one token tree and collects reports.
pub struct Parser<'t> {
    pub tokens: Tokens<'t>,
    pub errors: Vec<Diagnostic>,
}

impl<'t> Parser<'t> {
    /// The token tree that is being read.
    pub open spec fn tree(self) -> TokenTree {
        *self.tokens.tree
    }

    /// The position of the next token.
    pub open spec fn pos(self) -> int {
        self.tokens.pos as int
    }

    pub open spec fn well_formed(self) -> bool {
        self.tokens.well_formed()
    }

    /// Whether `self` is `before` moved to `pos` in the same tree, with `errors` reported on the
    /// way.
    pub open spec fn moved(self, before: Parser<'t>, pos: int, errors: Seq<Diagnostic>) -> bool {
        &&& self.tokens.tree == before.tokens.tree
        &&& self.pos() == pos
        &&& self.errors@ =~= before.errors@ + errors
    }

    /// A parser at the start of `tree` that adds its reports to `errors`.
    pub fn new(tree: &'t TokenTree, errors: Vec<Diagnostic>) -> (parser: Parser<'t>)
        ensures
            parser == (Parser { tokens: Tokens { tree, pos: 0 }, errors }),
            parser.well_formed(),
    {
        Parser { tokens: Tokens::new(tree), errors }
    }

    /// Reports a problem with the next token.
    pub fn report_error_at_current_token(&mut self, kind: DiagnosticKind)
        requires
            old(self).well_formed(),
        ensures
            final(self).well_formed(),
            final(self).moved(
                *old(self),
                old(self).pos(),
                seq![grammar::report(old(self).tree(), old(self).pos(), kind)],
            ),
    {
        let span = self.tokens.peek_span();
        self.errors.push(Diagnostic { span, kind });
    }

    /// Consumes the next token if it is an identifier.
    pub fn eat_identifier(&mut self) -> (eaten: Option<(Span, Word)>)
        requires
            old(self).well_formed(),
        ensures
            final(self).well_formed(),
            match old(self).tree().identifier_at(old(self).pos()) {
                Some(word) => {
                    &&& eaten == Some((old(self).tree().span_at(old(self).pos()), word))
                    &&& final(self).moved(*old(self), old(self).pos() + 1, seq![])
                },
                None => eaten is None && *final(self) == *old(self),
            },
    {
        if let Some(Token::Identifier(word)) = self.tokens.peek() {
            let word = *word;
            let span = self.tokens.peek_span();
            self.tokens.consume();
            Some((span, word))
        } else {
            None
        }
    }

    /// Consumes the next token if it is the keyword `kw`.
    pub fn eat_keyword(&mut self, kw: Keyword) -> (eaten: Option<Span>)
        requires
            old(self).well_formed(),
        ensures
            final(self).well_formed(),
            if old(self).tree().keyword_at(old(self).pos(), kw) {
                &&& eaten == Some(old(self).tree().span_at(old(self).pos()))
                &&& final(self).moved(*old(self), old(self).pos() + 1, seq![])
            } else {
                eaten is None && *final(self) == *old(self)
            },
    {
        if let Some(Token::Keyword(next)) = self.tokens.peek() {
            if *next == kw {
                let span = self.tokens.peek_span();
                self.tokens.consume();
                return Some(span);
            }
        }
        None
    }

    /// Consumes the next token if it is the operator `op`.
    pub fn eat_op(&mut self, op: Op) -> (eaten: Option<Span>)
        requires
            old(self).well_formed(),
        ensures
            final(self).well_formed(),
            if old(self).tree().op_at(old(self).pos(), op) {
                &&& eaten == Some(old(self).tree().span_at(old(self).pos()))
                &&& final(self).moved(*old(self), old(self).pos() + 1, seq![])
            } else {
                eaten is None && *final(self) == *old(self)
            },
    {
        if let Some(Token::Op(next)) = self.tokens.peek() {
            if *next == op {
                let span = self.tokens.peek_span();
                self.tokens.consume();
                return Some(span);
            }
        }
        None
    }

    /// Whether the next token is the delimiter `delimiter`.
    pub fn peek_delimiter(&self, delimiter: char) -> (found: bool)
        ensures
            found == self.tree().delimiter_at(self.pos(), delimiter),
    {
        match self.tokens.peek() {
            Some(Token::Delimiter(next)) => *next == delimiter,
            _ => false,
        }
    }

    /// If the next token is the opening delimiter `delimiter`, consumes it, the token tree that
    /// follows it and the closing delimiter. Gives the span from one delimiter to the other and
    /// the tree between them. Reports a missing closing delimiter.
    pub fn delimited(&mut self, delimiter: char) -> (found: Option<(Span, &'t TokenTree)>)
        requires
            old(self).well_formed(),
        ensures
            final(self).well_formed(),
            match grammar::delimited(old(self).tree(), old(self).pos(), delimiter) {
                Some(group) => {
                    &&& found matches Some((span, tree)) && span == group.span && *tree
                        == group.tree
                    &&& final(self).moved(*old(self), group.pos, group.errors)
                },
                None => found is None && *final(self) == *old(self),
            },
    {
        if !self.peek_delimiter(delimiter) {
            return None;
        }
        let tokens: &'t Vec<(Span, Token)> = &self.tokens.tree.tokens;
        let open: usize = self.tokens.pos;
        if tokens.len() - open < 2 {
            return None;
        }
        if let Token::Tree(tree) = &tokens[open + 1].1 {
            let open_span = self.tokens.peek_span();
            self.tokens.consume();
            self.tokens.consume();
            let close = closing_delimiter(delimiter);
            if self.peek_delimiter(close) {
                self.tokens.consume();
            } else {
                self.report_error_at_current_token(DiagnosticKind::ExpectedClosing(close));
            }
            Some((self.span_consumed_since(open_span), tree))
        } else {
            None
        }
    }

    /// The span that begins where `span` begins and ends with the last token that was consumed.
    pub fn span_consumed_since(&self, span: Span) -> (taken: Span)
        requires
            self.well_formed(),
        ensures
            taken == span.up_to(self.tree().span_before(self.pos())),
    {
        span.to(self.tokens.last_span())
    }
}

/// The delimiter that closes what `delimiter` opens.
pub fn closing_delimiter(delimiter: char) -> (close: char)
    ensures
        close == grammar::closing(delimiter),
{
    if delimiter == '(' {
        ')'
    } else if delimiter == '{' {
        '}'
    } else {
        delimiter
    }
}

} // verus!
