use dada::base::{Keyword, Op, Span, Word};
use dada::code_parser::CodeParser;
use dada::diagnostic::{Diagnostic, DiagnosticKind};
use dada::parser::Parser;
use dada::syntax::{
    Ast, Block, BlockData, Expr, ExprData, NamedExpr, NamedExprData, NamedExprSpan, Spans, Tables,
};
use dada::token::{Token, TokenTree};

/// A tree whose token number `i` covers `10 * i` up to `10 * i + 5`.
fn tree(tokens: Vec<Token>) -> TokenTree {
    let mut spanned = Vec::new();
    for (i, token) in tokens.into_iter().enumerate() {
        let start = 10 * i as u32;
        spanned.push((Span { start, end: start + 5 }, token));
    }
    let end = 10 * spanned.len() as u32;
    TokenTree { span: Span { start: 0, end }, tokens: spanned }
}

fn id(index: u32) -> Token {
    Token::Identifier(Word { index })
}

fn word(index: u32) -> Word {
    Word { index }
}

fn op(op: Op) -> Token {
    Token::Op(op)
}

fn kw(kw: Keyword) -> Token {
    Token::Keyword(kw)
}

fn expr(index: usize) -> Expr {
    Expr { index }
}

fn span(start: u32, end: u32) -> Span {
    Span { start, end }
}

/// All of `parts`, one after the other.
fn all(parts: Vec<Vec<Token>>) -> Vec<Token> {
    parts.into_iter().flatten().collect()
}

/// `tokens` in parentheses.
fn parens(tokens: Vec<Token>) -> Vec<Token> {
    vec![Token::Delimiter('('), Token::Tree(tree(tokens)), Token::Delimiter(')')]
}

/// `tokens` in braces.
fn braces(tokens: Vec<Token>) -> Vec<Token> {
    vec![Token::Delimiter('{'), Token::Tree(tree(tokens)), Token::Delimiter('}')]
}

fn parse(tokens: Vec<Token>) -> (Ast, Vec<Diagnostic>) {
    let tree = tree(tokens);
    let mut parser = Parser::new(&tree, Vec::new());
    let ast = parser.parse_ast();
    assert_eq!(parser.tokens.pos, tree.tokens.len());
    (ast, parser.errors)
}

/// The tables of a body that must parse without reports.
fn parse_ok(tokens: Vec<Token>) -> Ast {
    let (ast, errors) = parse(tokens);
    assert_eq!(errors, vec![]);
    ast
}

fn code_parser(tree: &TokenTree) -> CodeParser<'_> {
    CodeParser { parser: Parser::new(tree, Vec::new()), tables: Tables::new(), spans: Spans::new() }
}

/// The expression, the spans of all expressions and the reports.
fn parse_expr(tokens: Vec<Token>) -> (Option<Expr>, Tables, Spans, Vec<Diagnostic>) {
    let tree = tree(tokens);
    let mut code_parser = code_parser(&tree);
    let found = code_parser.parse_expr();
    (found, code_parser.tables, code_parser.spans, code_parser.parser.errors)
}

fn kinds(errors: &[Diagnostic]) -> Vec<DiagnosticKind> {
    errors.iter().map(|error| error.kind).collect()
}

fn flatten(tree: &TokenTree, out: &mut Vec<String>) {
    for (_, token) in &tree.tokens {
        match token {
            Token::Tree(inner) => flatten(inner, out),
            token => out.push(format!("{:?}", token)),
        }
    }
}

fn spell_token(token: Token, out: &mut Vec<String>) {
    out.push(format!("{:?}", token));
}

/// Spells what the tables hold at `expr`, checking that parts come before wholes.
fn spell(tables: &Tables, expr: Expr, out: &mut Vec<String>) {
    let part = |inner: Expr, out: &mut Vec<String>| {
        assert!(inner.index < expr.index);
        spell(tables, inner, out);
    };
    match &tables.exprs[expr.index] {
        ExprData::Id(name) => spell_token(Token::Identifier(*name), out),
        ExprData::Dot(owner, field) => {
            part(*owner, out);
            spell_token(op(Op::Dot), out);
            spell_token(Token::Identifier(*field), out);
        }
        ExprData::Call(callee, arguments) => {
            part(*callee, out);
            spell_token(Token::Delimiter('('), out);
            for argument in arguments {
                let data = tables.named_exprs[argument.index];
                spell_token(Token::Identifier(data.name), out);
                spell_token(op(Op::Colon), out);
                part(data.expr, out);
            }
            spell_token(Token::Delimiter(')'), out);
        }
        ExprData::If(condition, if_true, if_false) => {
            spell_token(kw(Keyword::If), out);
            part(*condition, out);
            part(*if_true, out);
            if let Some(if_false) = if_false {
                spell_token(kw(Keyword::Else), out);
                part(*if_false, out);
            }
        }
        ExprData::While(condition, body) => {
            spell_token(kw(Keyword::While), out);
            part(*condition, out);
            part(*body, out);
        }
        ExprData::Loop(body) => {
            spell_token(kw(Keyword::Loop), out);
            part(*body, out);
        }
        ExprData::Continue => spell_token(kw(Keyword::Continue), out),
        ExprData::Break(value) => {
            spell_token(kw(Keyword::Break), out);
            if let Some(value) = value {
                part(*value, out);
            }
        }
        ExprData::Return(value) => {
            spell_token(kw(Keyword::Return), out);
            if let Some(value) = value {
                part(*value, out);
            }
        }
        ExprData::Parenthesized(inner) => {
            spell_token(Token::Delimiter('('), out);
            part(*inner, out);
            spell_token(Token::Delimiter(')'), out);
        }
        ExprData::Block(block) => {
            spell_token(Token::Delimiter('{'), out);
            for inner in &tables.blocks[block.index].exprs {
                part(*inner, out);
            }
            spell_token(Token::Delimiter('}'), out);
        }
        ExprData::Op(left, operator, right) => {
            part(*left, out);
            spell_token(op(*operator), out);
            part(*right, out);
        }
        ExprData::Unary(operator, operand) => {
            spell_token(op(*operator), out);
            part(*operand, out);
        }
        ExprData::Error => panic!("error expression"),
    }
}

/// One of everything: `if a.b(c: -d e: (f)).g { h } else { } while i { continue } loop { break j
/// return break } k * l + m { return n }`.
fn everything() -> Vec<Token> {
    all(vec![
        vec![kw(Keyword::If), id(0), op(Op::Dot), id(1)],
        parens(all(vec![
            vec![id(2), op(Op::Colon), op(Op::Minus), id(3), id(4), op(Op::Colon)],
            parens(vec![id(5)]),
        ])),
        vec![op(Op::Dot), id(6)],
        braces(vec![id(7)]),
        vec![kw(Keyword::Else)],
        braces(vec![]),
        vec![kw(Keyword::While), id(8)],
        braces(vec![kw(Keyword::Continue)]),
        vec![kw(Keyword::Loop)],
        braces(vec![
            kw(Keyword::Break),
            id(9),
            kw(Keyword::Return),
            kw(Keyword::Break),
        ]),
        vec![id(10), op(Op::Times), id(11), op(Op::Plus), id(12)],
        braces(vec![kw(Keyword::Return), id(13)]),
    ])
}

#[test]
fn empty_body() {
    let ast = parse_ok(vec![]);
    assert_eq!(ast.tables.exprs, vec![]);
    assert_eq!(ast.tables.blocks, vec![BlockData { exprs: vec![] }]);
    assert_eq!(ast.block, Block { index: 0 });
}

#[test]
fn series_of_identifiers() {
    let ast = parse_ok(vec![id(7), id(8)]);
    assert_eq!(ast.tables.exprs, vec![ExprData::Id(word(7)), ExprData::Id(word(8))]);
    assert_eq!(ast.tables.blocks, vec![BlockData { exprs: vec![expr(0), expr(1)] }]);
}

#[test]
fn right_operand_extends_as_far_as_it_can() {
    let ast = parse_ok(vec![id(0), op(Op::Minus), id(1), op(Op::Minus), id(2)]);
    assert_eq!(
        ast.tables.exprs,
        vec![
            ExprData::Id(word(0)),
            ExprData::Id(word(1)),
            ExprData::Id(word(2)),
            ExprData::Op(expr(1), Op::Minus, expr(2)),
            ExprData::Op(expr(0), Op::Minus, expr(3)),
        ]
    );
}

#[test]
fn left_operand_of_a_sum_may_be_a_product() {
    let (found, tables, spans, errors) =
        parse_expr(vec![id(0), op(Op::Times), id(1), op(Op::Plus), id(2)]);
    assert_eq!(errors, vec![]);
    assert_eq!(found, Some(expr(4)));
    assert_eq!(tables.exprs[3], ExprData::Op(expr(1), Op::Plus, expr(2)));
    assert_eq!(tables.exprs[4], ExprData::Op(expr(0), Op::Times, expr(3)));
    assert_eq!(spans.exprs[3], span(20, 45));
    assert_eq!(spans.exprs[4], span(0, 45));

    let (found, tables, _, _) = parse_expr(vec![id(0), op(Op::DividedBy), id(1)]);
    assert_eq!(found, Some(expr(2)));
    assert_eq!(tables.exprs[2], ExprData::Op(expr(0), Op::DividedBy, expr(1)));
}

#[test]
fn unary_minus() {
    let (found, tables, spans, errors) = parse_expr(vec![op(Op::Minus), id(0)]);
    assert_eq!(errors, vec![]);
    assert_eq!(found, Some(expr(1)));
    assert_eq!(tables.exprs[1], ExprData::Unary(Op::Minus, expr(0)));
    assert_eq!(spans.exprs[1], span(0, 15));
}

#[test]
fn fields_and_calls_chain() {
    // a.b(c: d).e
    let tokens = all(vec![
        vec![id(0), op(Op::Dot), id(1)],
        parens(vec![id(2), op(Op::Colon), id(3)]),
        vec![op(Op::Dot), id(4)],
    ]);
    let (found, tables, spans, errors) = parse_expr(tokens);
    assert_eq!(errors, vec![]);
    assert_eq!(found, Some(expr(4)));
    assert_eq!(
        tables.exprs,
        vec![
            ExprData::Id(word(0)),
            ExprData::Dot(expr(0), word(1)),
            ExprData::Id(word(3)),
            ExprData::Call(expr(1), vec![NamedExpr { index: 0 }]),
            ExprData::Dot(expr(3), word(4)),
        ]
    );
    assert_eq!(tables.named_exprs, vec![NamedExprData { name: word(2), expr: expr(2) }]);
    assert_eq!(
        spans.named_exprs,
        vec![NamedExprSpan { span: span(0, 25), name_span: span(0, 5) }]
    );
    assert_eq!(spans.exprs[1], span(0, 25));
    assert_eq!(spans.exprs[3], span(0, 55));
    assert_eq!(spans.exprs[4], span(0, 75));
}

#[test]
fn if_with_and_without_else() {
    let tokens = all(vec![
        vec![kw(Keyword::If), id(0)],
        braces(vec![id(1)]),
        vec![kw(Keyword::Else)],
        braces(vec![]),
    ]);
    let (found, tables, spans, errors) = parse_expr(tokens);
    assert_eq!(errors, vec![]);
    assert_eq!(found, Some(expr(4)));
    assert_eq!(tables.exprs[2], ExprData::Block(Block { index: 0 }));
    assert_eq!(tables.exprs[3], ExprData::Block(Block { index: 1 }));
    assert_eq!(tables.exprs[4], ExprData::If(expr(0), expr(2), Some(expr(3))));
    assert_eq!(tables.blocks[0], BlockData { exprs: vec![expr(1)] });
    assert_eq!(tables.blocks[1], BlockData { exprs: vec![] });
    assert_eq!(spans.exprs[4], span(0, 85));

    let tokens = all(vec![vec![kw(Keyword::If), id(0)], braces(vec![])]);
    let (_, tables, _, errors) = parse_expr(tokens);
    assert_eq!(errors, vec![]);
    assert_eq!(tables.exprs[2], ExprData::If(expr(0), expr(1), None));
}

#[test]
fn loops() {
    let tokens = all(vec![vec![kw(Keyword::While), id(0)], braces(vec![])]);
    let (_, tables, spans, errors) = parse_expr(tokens);
    assert_eq!(errors, vec![]);
    assert_eq!(tables.exprs[2], ExprData::While(expr(0), expr(1)));
    assert_eq!(spans.exprs[2], span(0, 45));

    let tokens = all(vec![vec![kw(Keyword::Loop)], braces(vec![kw(Keyword::Continue)])]);
    let (_, tables, spans, errors) = parse_expr(tokens);
    assert_eq!(errors, vec![]);
    assert_eq!(
        tables.exprs,
        vec![
            ExprData::Continue,
            ExprData::Block(Block { index: 0 }),
            ExprData::Loop(expr(1)),
        ]
    );
    assert_eq!(spans.exprs[2], span(0, 35));
}

#[test]
fn break_and_return_with_and_without_value() {
    let (_, tables, spans, errors) = parse_expr(vec![kw(Keyword::Break), id(0)]);
    assert_eq!(errors, vec![]);
    assert_eq!(tables.exprs[1], ExprData::Break(Some(expr(0))));
    assert_eq!(spans.exprs[1], span(0, 15));
    let (_, tables, _, errors) = parse_expr(vec![kw(Keyword::Break)]);
    assert_eq!(errors, vec![]);
    assert_eq!(tables.exprs, vec![ExprData::Break(None)]);
    let (_, tables, _, errors) = parse_expr(vec![kw(Keyword::Return), id(0)]);
    assert_eq!(errors, vec![]);
    assert_eq!(tables.exprs[1], ExprData::Return(Some(expr(0))));
    let (_, tables, spans, errors) = parse_expr(vec![kw(Keyword::Return)]);
    assert_eq!(errors, vec![]);
    assert_eq!(tables.exprs, vec![ExprData::Return(None)]);
    assert_eq!(spans.exprs, vec![span(0, 5)]);
}

#[test]
fn parentheses_hold_one_expression() {
    let (found, tables, spans, errors) = parse_expr(parens(vec![id(3)]));
    assert_eq!(errors, vec![]);
    assert_eq!(found, Some(expr(1)));
    assert_eq!(tables.exprs[1], ExprData::Parenthesized(expr(0)));
    assert_eq!(spans.exprs[1], span(0, 25));
}

#[test]
fn no_expression_leaves_everything_as_it_was() {
    let tree = tree(vec![op(Op::Comma), id(0)]);
    let mut code_parser = code_parser(&tree);
    assert_eq!(code_parser.parse_expr(), None);
    assert_eq!(code_parser.parser.tokens.pos, 0);
    assert_eq!(code_parser.parser.errors, vec![]);
    assert_eq!(code_parser.tables, Tables::new());
    assert_eq!(code_parser.spans, Spans::new());
}

#[test]
fn expected_expression_skips_one_token() {
    let (ast, errors) = parse(vec![op(Op::Comma), id(0), Token::Number(word(1)), id(2)]);
    assert_eq!(ast.tables.exprs, vec![ExprData::Id(word(0)), ExprData::Id(word(2))]);
    assert_eq!(
        errors,
        vec![
            Diagnostic { span: span(0, 5), kind: DiagnosticKind::ExpectedExpression },
            Diagnostic { span: span(20, 25), kind: DiagnosticKind::ExpectedExpression },
        ]
    );
}

#[test]
fn expected_expression_after_operator() {
    let (found, tables, spans, errors) = parse_expr(vec![id(0), op(Op::Plus)]);
    assert_eq!(found, Some(expr(2)));
    assert_eq!(tables.exprs[1], ExprData::Error);
    assert_eq!(tables.exprs[2], ExprData::Op(expr(0), Op::Plus, expr(1)));
    assert_eq!(spans.exprs[1], span(20, 20));
    assert_eq!(
        errors,
        vec![Diagnostic {
            span: span(20, 20),
            kind: DiagnosticKind::ExpectedExpressionAfter(Op::Plus),
        }]
    );
}

#[test]
fn expected_block() {
    let (_, tables, _, errors) = parse_expr(vec![kw(Keyword::If), id(0)]);
    assert_eq!(tables.exprs[2], ExprData::If(expr(0), expr(1), None));
    assert_eq!(tables.exprs[1], ExprData::Error);
    assert_eq!(kinds(&errors), vec![DiagnosticKind::ExpectedBlockAfter(Keyword::If)]);
    let tokens = all(vec![
        vec![kw(Keyword::If), id(0)],
        braces(vec![]),
        vec![kw(Keyword::Else)],
    ]);
    let (_, _, _, errors) = parse_expr(tokens);
    assert_eq!(kinds(&errors), vec![DiagnosticKind::ExpectedBlockAfter(Keyword::Else)]);
    let (_, _, _, errors) = parse_expr(vec![kw(Keyword::While), id(0)]);
    assert_eq!(kinds(&errors), vec![DiagnosticKind::ExpectedBlockAfter(Keyword::While)]);
    let (_, _, _, errors) = parse_expr(vec![kw(Keyword::Loop)]);
    assert_eq!(kinds(&errors), vec![DiagnosticKind::ExpectedBlockAfter(Keyword::Loop)]);
}

#[test]
fn block_is_no_condition() {
    let tokens = all(vec![vec![kw(Keyword::If)], braces(vec![])]);
    let (found, tables, _, errors) = parse_expr(tokens);
    assert_eq!(found, None);
    assert_eq!(tables, Tables::new());
    assert_eq!(
        errors,
        vec![Diagnostic {
            span: span(10, 15),
            kind: DiagnosticKind::ExpectedCondition(Keyword::If),
        }]
    );
    let (found, _, _, errors) = parse_expr(vec![kw(Keyword::While)]);
    assert_eq!(found, None);
    assert_eq!(kinds(&errors), vec![DiagnosticKind::ExpectedCondition(Keyword::While)]);
}

#[test]
fn expected_identifier_after_dot() {
    let (found, tables, _, errors) = parse_expr(vec![id(0), op(Op::Dot), op(Op::Plus), id(1)]);
    assert_eq!(found, Some(expr(2)));
    assert_eq!(tables.exprs[2], ExprData::Op(expr(0), Op::Plus, expr(1)));
    assert_eq!(
        errors,
        vec![Diagnostic {
            span: span(20, 25),
            kind: DiagnosticKind::ExpectedIdentifierAfterDot,
        }]
    );
    // The arguments after a dangling dot still belong to the call.
    let tokens = all(vec![vec![id(0), op(Op::Dot)], parens(vec![])]);
    let (_, tables, _, errors) = parse_expr(tokens);
    assert_eq!(tables.exprs[1], ExprData::Call(expr(0), vec![]));
    assert_eq!(kinds(&errors), vec![DiagnosticKind::ExpectedIdentifierAfterDot]);
}

#[test]
fn malformed_arguments() {
    // f(, a b: )
    let tokens = all(vec![
        vec![id(0)],
        parens(vec![op(Op::Comma), id(1), id(2), id(3), op(Op::Colon)]),
    ]);
    let (_, tables, _, errors) = parse_expr(tokens);
    assert_eq!(
        kinds(&errors),
        vec![
            DiagnosticKind::ExpectedArgumentName,
            DiagnosticKind::ExpectedExpression,
            DiagnosticKind::ExpectedColon,
            DiagnosticKind::ExpectedExpression,
        ]
    );
    assert_eq!(
        tables.named_exprs,
        vec![
            NamedExprData { name: word(1), expr: expr(1) },
            NamedExprData { name: word(3), expr: expr(2) },
        ]
    );
    assert_eq!(tables.exprs[1], ExprData::Id(word(2)));
    assert_eq!(tables.exprs[2], ExprData::Error);
    assert_eq!(errors[0].span, span(0, 5));
    assert_eq!(errors[2].span, span(20, 25));
    assert_eq!(errors[3].span, span(50, 50));
}

#[test]
fn unclosed_delimiters() {
    let tokens = vec![Token::Delimiter('('), Token::Tree(tree(vec![id(0)]))];
    let (_, tables, spans, errors) = parse_expr(tokens);
    assert_eq!(tables.exprs[1], ExprData::Parenthesized(expr(0)));
    assert_eq!(spans.exprs[1], span(0, 15));
    assert_eq!(
        errors,
        vec![Diagnostic { span: span(20, 20), kind: DiagnosticKind::ExpectedClosing(')') }]
    );
    let tokens = vec![Token::Delimiter('{'), Token::Tree(tree(vec![])), id(0)];
    let (_, _, _, errors) = parse_expr(tokens);
    assert_eq!(kinds(&errors), vec![DiagnosticKind::ExpectedClosing('}')]);
}

#[test]
fn extra_tokens() {
    let (_, tables, _, errors) = parse_expr(parens(vec![id(0), id(1)]));
    assert_eq!(tables.exprs[1], ExprData::Parenthesized(expr(0)));
    assert_eq!(
        errors,
        vec![Diagnostic { span: span(10, 15), kind: DiagnosticKind::ExtraTokens }]
    );
    let (_, tables, _, errors) = parse_expr(parens(vec![]));
    assert_eq!(tables.exprs, vec![ExprData::Error, ExprData::Parenthesized(expr(0))]);
    assert_eq!(kinds(&errors), vec![DiagnosticKind::ExpectedExpression]);
}

#[test]
fn only_expr_may_start_anywhere() {
    let tree = tree(vec![id(0), id(1), id(2)]);
    let mut code_parser = code_parser(&tree);
    code_parser.parser.tokens.consume();
    assert_eq!(code_parser.parse_only_expr(), expr(0));
    assert_eq!(code_parser.tables.exprs, vec![ExprData::Id(word(1))]);
    assert_eq!(
        code_parser.parser.errors,
        vec![Diagnostic { span: span(20, 25), kind: DiagnosticKind::ExtraTokens }]
    );
}

#[test]
fn reports_are_added_to_earlier_ones() {
    let earlier = Diagnostic { span: span(1, 2), kind: DiagnosticKind::ExtraTokens };
    let tree = tree(vec![op(Op::Colon)]);
    let mut parser = Parser::new(&tree, vec![earlier]);
    parser.parse_ast();
    assert_eq!(
        parser.errors,
        vec![
            earlier,
            Diagnostic { span: span(0, 5), kind: DiagnosticKind::ExpectedExpression },
        ]
    );
}

#[test]
fn wording_of_reports() {
    let message = |kind: DiagnosticKind| Diagnostic { span: span(0, 0), kind }.message();
    assert_eq!(message(DiagnosticKind::ExpectedExpression), "expected expression");
    assert_eq!(
        message(DiagnosticKind::ExpectedExpressionAfter(Op::DividedBy)),
        "expected expression after /"
    );
    assert_eq!(
        message(DiagnosticKind::ExpectedBlockAfter(Keyword::Else)),
        "expected block after else"
    );
    assert_eq!(
        message(DiagnosticKind::ExpectedCondition(Keyword::If)),
        "expected `if` condition"
    );
    assert_eq!(
        message(DiagnosticKind::ExpectedCondition(Keyword::While)),
        "expected `while` condition"
    );
    assert_eq!(
        message(DiagnosticKind::ExpectedIdentifierAfterDot),
        "expected identifier after `.`"
    );
    assert_eq!(message(DiagnosticKind::ExpectedArgumentName), "expected name for argument");
    assert_eq!(message(DiagnosticKind::ExpectedColon), "expected `:` after argument name");
    assert_eq!(message(DiagnosticKind::ExpectedClosing(')')), "expected closing `)`");
    assert_eq!(message(DiagnosticKind::ExpectedClosing('}')), "expected closing `}`");
    assert_eq!(message(DiagnosticKind::ExpectedClosing('|')), "expected closing delimiter");
    assert_eq!(message(DiagnosticKind::ExtraTokens), "extra tokens after expression");
}

#[test]
fn operators_and_keywords_are_spelled() {
    let ops = [Op::Colon, Op::Comma, Op::Dot, Op::Plus, Op::Minus, Op::Times, Op::DividedBy];
    let texts: Vec<&str> = ops.iter().map(|op| op.str()).collect();
    assert_eq!(texts, vec![":", ",", ".", "+", "-", "*", "/"]);
    let keywords = [
        Keyword::If,
        Keyword::Else,
        Keyword::While,
        Keyword::Loop,
        Keyword::Continue,
        Keyword::Break,
        Keyword::Return,
    ];
    let texts: Vec<&str> = keywords.iter().map(|kw| kw.str()).collect();
    assert_eq!(texts, vec!["if", "else", "while", "loop", "continue", "break", "return"]);
}

#[test]
fn body_can_be_read_back() {
    let tree = tree(everything());
    let mut parser = Parser::new(&tree, Vec::new());
    let ast = parser.parse_ast();
    assert_eq!(parser.errors, vec![]);
    let mut expected = Vec::new();
    flatten(&tree, &mut expected);
    let mut spelled = Vec::new();
    for expr in &ast.tables.blocks[ast.block.index].exprs {
        spell(&ast.tables, *expr, &mut spelled);
    }
    assert_eq!(spelled, expected);
}

#[test]
fn every_expression_has_a_span() {
    let tree = tree(everything());
    let mut code_parser = code_parser(&tree);
    code_parser.parse_only_block_contents();
    assert_eq!(code_parser.tables.exprs.len(), code_parser.spans.exprs.len());
    assert_eq!(code_parser.tables.named_exprs.len(), code_parser.spans.named_exprs.len());
    // The spans of the whole are those of the tokens: the first expression starts with the first
    // token, the last one ends with the last.
    let exprs = &code_parser.tables.blocks.last().unwrap().exprs;
    let first = code_parser.spans.exprs[exprs[0].index];
    let last = code_parser.spans.exprs[exprs[exprs.len() - 1].index];
    assert_eq!(first.start, 0);
    assert_eq!(last.end, tree.tokens.last().unwrap().0.end);
}

#[test]
fn every_error_expression_is_reported() {
    // a + -if b loop , ()
    let tokens = all(vec![
        vec![id(0), op(Op::Plus), op(Op::Minus), kw(Keyword::If), id(1)],
        vec![kw(Keyword::Loop), op(Op::Comma)],
        parens(vec![]),
    ]);
    let (ast, errors) = parse(tokens);
    let gaps = ast.tables.exprs.iter().filter(|data| **data == ExprData::Error).count();
    assert_eq!(gaps, 3);
    assert_eq!(
        kinds(&errors),
        vec![
            DiagnosticKind::ExpectedBlockAfter(Keyword::If),
            DiagnosticKind::ExpectedBlockAfter(Keyword::Loop),
            DiagnosticKind::ExpectedExpression,
            DiagnosticKind::ExpectedExpression,
        ]
    );
}

#[test]
fn deep_nesting_does_not_exhaust_the_stack() {
    let depth: usize = 20_000;
    let mut tokens = vec![id(0)];
    for _ in 0..depth {
        tokens = parens(tokens);
    }
    let tree = tree(tokens);
    let mut parser = Parser::new(&tree, Vec::new());
    let ast = parser.parse_ast();
    assert_eq!(parser.errors, vec![]);
    assert_eq!(ast.tables.exprs.len(), depth + 1);
    assert_eq!(ast.tables.exprs[0], ExprData::Id(word(0)));
    assert_eq!(ast.tables.exprs[depth], ExprData::Parenthesized(expr(depth - 1)));
    // Dropping a tree this deep would recurse.
    std::mem::forget(tree);
}
