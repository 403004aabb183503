//! Token trees: the lexed form of source text.
use vstd::prelude::*;

use crate::base::{Keyword, Op, Span, Word};

verus! {

/// A token. An opening delimiter is followed by a `Tree` that holds everything up to the
/// matching closing delimiter, which in turn follows the `Tree` if it is present at all.
#[derive(Debug)]
pub enum Token {
    Identifier(Word),
    Keyword(Keyword),
    Op(Op),
    Delimiter(char),
    Tree(TokenTree),
    Number(Word),
    Unknown(char),
}

/// A run of tokens, each with its place in the source.
#[derive(Debug)]
pub struct TokenTree {
    /// What the tree as a whole covers.
    pub span: Span,
    pub tokens: Vec<(Span, Token)>,
}

impl TokenTree {
    /// The number of tokens at the top level of the tree.
    pub open spec fn count(self) -> int {
        self.tokens@.len() as int
    }

    /// The token at `pos`, if there is one.
    pub open spec fn token_at(self, pos: int) -> Option<Token> {
        if 0 <= pos < self.count() {
            Some(self.tokens@[pos].1)
        } else {
            None
        }
    }

    /// The span of the token at `pos`; at the end, the empty span that closes the tree.
    pub open spec fn span_at(self, pos: int) -> Span {
        if 0 <= pos < self.count() {
            self.tokens@[pos].0
        } else {
            Span { start: self.span.end, end: self.span.end }
        }
    }

    /// The span of the last token before `pos`; at the start, the empty span that opens the tree.
    pub open spec fn span_before(self, pos: int) -> Span {
        if 0 < pos <= self.count() {
            self.tokens@[pos - 1].0
        } else {
            Span { start: self.span.start, end: self.span.start }
        }
    }

    /// The identifier at `pos`, if that is what stands there.
    pub open spec fn identifier_at(self, pos: int) -> Option<Word> {
        match self.token_at(pos) {
            Some(Token::Identifier(word)) => Some(word),
            _ => None,
        }
    }

    /// Whether keyword `kw` stands at `pos`.
    pub open spec fn keyword_at(self, pos: int, kw: Keyword) -> bool {
        self.token_at(pos) == Some(Token::Keyword(kw))
    }

    /// Whether operator `op` stands at `pos`.
    pub open spec fn op_at(self, pos: int, op: Op) -> bool {
        self.token_at(pos) == Some(Token::Op(op))
    }

    /// The operator at `pos`, if it is one of `ops`.
    pub open spec fn operator_at(self, pos: int, ops: Seq<Op>) -> Option<Op> {
        match self.token_at(pos) {
            Some(Token::Op(op)) if ops.contains(op) => Some(op),
            _ => None,
        }
    }

    /// Whether delimiter `delimiter` stands at `pos`.
    pub open spec fn delimiter_at(self, pos: int, delimiter: char) -> bool {
        self.token_at(pos) == Some(Token::Delimiter(delimiter))
    }

    /// The tree that `delimiter` opens at `pos`, if there is one.
    pub open spec fn delimited_at(self, pos: int, delimiter: char) -> Option<TokenTree> {
        if self.delimiter_at(pos, delimiter) {
            match self.token_at(pos + 1) {
                Some(Token::Tree(tree)) => Some(tree),
                _ => None,
            }
        } else {
            None
        }
    }
}

/// Every token has its own span. What is missing at the end of a tree is missed at the empty span
/// that closes it, and nothing before the first token is the empty span that opens it.
pub proof fn lemma_spans(tokens: TokenTree, pos: int)
    requires
        0 <= pos <= tokens.count(),
    ensures
        pos < tokens.count() ==> tokens.span_at(pos) == tokens.tokens@[pos].0,
        pos == tokens.count() ==> tokens.span_at(pos).start == tokens.span.end
            && tokens.span_at(pos).end == tokens.span.end,
        0 < pos ==> tokens.span_before(pos) == tokens.span_at(pos - 1),
        pos == 0 ==> tokens.span_before(pos).start == tokens.span.start && tokens.span_before(
            pos,
        ).end == tokens.span.start,
{
}

} // verus!
