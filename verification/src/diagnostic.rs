//! What the parser reports about malformed source.
use vstd::prelude::*;
use vstd::string::*;

use crate::base::{Keyword, Op, Span};

verus! {

/// The ways in which source can be malformed.
#[derive(Clone, Copy, Debug, PartialEq, Eq, Structural)]
pub enum DiagnosticKind {
    ExpectedExpression,
    ExpectedExpressionAfter(Op),
    ExpectedBlockAfter(Keyword),
    ExpectedCondition(Keyword),
    ExpectedIdentifierAfterDot,
    ExpectedArgumentName,
    ExpectedColon,
    ExpectedClosing(char),
    ExtraTokens,
}

/// One reported problem and the place in the source that it concerns.
#[derive(Clone, Copy, Debug, PartialEq, Eq, Structural)]
pub struct Diagnostic {
    pub span: Span,
    pub kind: DiagnosticKind,
}

impl DiagnosticKind {
    /// The wording of the report.
    pub open spec fn text(self) -> Seq<char> {
        match self {
            DiagnosticKind::ExpectedExpression => "expected expression"@,
            DiagnosticKind::ExpectedExpressionAfter(op) => "expected expression after "@
                + op.text(),
            DiagnosticKind::ExpectedBlockAfter(kw) => "expected block after "@ + kw.text(),
            DiagnosticKind::ExpectedCondition(kw) => "expected `"@ + kw.text() + "` condition"@,
            DiagnosticKind::ExpectedIdentifierAfterDot => "expected identifier after `.`"@,
            DiagnosticKind::ExpectedArgumentName => "expected name for argument"@,
            DiagnosticKind::ExpectedColon => "expected `:` after argument name"@,
            DiagnosticKind::ExpectedClosing(delimiter) => "expected closing "@ + closing_text(
                delimiter,
            ),
            DiagnosticKind::ExtraTokens => "extra tokens after expression"@,
        }
    }
}

/// How a closing delimiter is quoted in a report.
pub open spec fn closing_text(delimiter: char) -> Seq<char> {
    if delimiter == ')' {
        "`)`"@
    } else if delimiter == '}' {
        "`}`"@
    } else {
        "delimiter"@
    }
}

impl Diagnostic {
    /// The wording of the report.
    pub fn message(&self) -> (text: String)
        ensures
            text@ == self.kind.text(),
    {
        let mut text = String::new();
        match self.kind {
            DiagnosticKind::ExpectedExpression => text.append("expected expression"),
            DiagnosticKind::ExpectedExpressionAfter(op) => {
                text.append("expected expression after ");
                text.append(op.str());
            },
            DiagnosticKind::ExpectedBlockAfter(kw) => {
                text.append("expected block after ");
                text.append(kw.str());
            },
            DiagnosticKind::ExpectedCondition(kw) => {
                text.append("expected `");
                text.append(kw.str());
                text.append("` condition");
            },
            DiagnosticKind::ExpectedIdentifierAfterDot => {
                text.append("expected identifier after `.`")
            },
            DiagnosticKind::ExpectedArgumentName => text.append("expected name for argument"),
            DiagnosticKind::ExpectedColon => text.append("expected `:` after argument name"),
            DiagnosticKind::ExpectedClosing(delimiter) => {
                text.append("expected closing ");
                if delimiter == ')' {
                    text.append("`)`");
                } else if delimiter == '}' {
                    text.append("`}`");
                } else {
                    text.append("delimiter");
                }
            },
            DiagnosticKind::ExtraTokens => text.append("extra tokens after expression"),
        }
        assert(text@ =~= self.kind.text());
        text
    }
}

} // verus!
