//! End-to-end runs of the pipeline: source text to tokens to tree, with the
//! exact spans, values and diagnostics the stages promise.

use yps_frontend::{
    BinaryOp, Diagnostic, Expr, Lexer, Literal, Parser, Program, Severity, SourceFile, Stmt,
    TokenKind,
};

fn run(src: &str) -> (Program, Vec<Diagnostic>, Vec<Diagnostic>) {
    let source = SourceFile::new("test.yop".to_string(), src.to_string());
    let (tokens, lex_diags) = Lexer::new(&source).tokenize();
    let (program, parse_diags) = Parser::new(&tokens, &source).parse_program();
    (program, lex_diags, parse_diags)
}

#[test]
fn empty_source_parses_to_empty_program() {
    let source = SourceFile::new("test.yop".to_string(), String::new());
    let (tokens, lex_diags) = Lexer::new(&source).tokenize();

    assert_eq!(tokens.len(), 1);
    assert_eq!(tokens[0].kind, TokenKind::Eof);
    assert!(lex_diags.is_empty());

    let (program, parse_diags) = Parser::new(&tokens, &source).parse_program();
    assert!(program.items.is_empty());
    assert!(parse_diags.is_empty());
}

#[test]
fn assignment_parses_as_binary_assign() {
    let source = SourceFile::new("test.yop".to_string(), "x = 5".to_string());
    let (tokens, _) = Lexer::new(&source).tokenize();
    let mut parser = Parser::new(&tokens, &source);
    let expr = parser.parse_expr().unwrap();

    match expr {
        Expr::Binary { op: BinaryOp::Assign, lhs, rhs, .. } => {
            assert!(matches!(*lhs, Expr::Identifier(_)));
            assert!(matches!(*rhs, Expr::Literal(Literal::Number { .. })));
        }
        _ => panic!("Expected Assign at top level"),
    }
}

#[test]
fn string_literal_value_drops_the_quotes() {
    let source = SourceFile::new("test.yop".to_string(), "\"hello\"".to_string());
    let (tokens, _) = Lexer::new(&source).tokenize();
    let mut parser = Parser::new(&tokens, &source);
    let expr = parser.parse_expr().unwrap();

    match expr {
        Expr::Literal(Literal::String { value, span }) => {
            assert_eq!(value, "hello");
            assert_eq!((span.start, span.end), (0, 7));
        }
        _ => panic!("Expected a string literal"),
    }
}

#[test]
fn number_literal_keeps_its_lexeme() {
    let source = SourceFile::new("test.yop".to_string(), "42.5".to_string());
    let (tokens, _) = Lexer::new(&source).tokenize();
    let mut parser = Parser::new(&tokens, &source);
    let expr = parser.parse_expr().unwrap();

    match expr {
        Expr::Literal(Literal::Number { raw, span }) => {
            assert_eq!(raw, "42.5");
            assert_eq!((span.start, span.end), (0, 4));
        }
        _ => panic!("Expected a number literal"),
    }
}

#[test]
fn expression_spans_cover_their_children() {
    let source = SourceFile::new("test.yop".to_string(), "2 + 3 * 4".to_string());
    let (tokens, _) = Lexer::new(&source).tokenize();
    let mut parser = Parser::new(&tokens, &source);
    let expr = parser.parse_expr().unwrap();

    let span = expr.span();
    assert_eq!((span.start, span.end), (0, 9));
    match expr {
        Expr::Binary { lhs, rhs, .. } => {
            let l = lhs.span();
            let r = rhs.span();
            assert_eq!((l.start, l.end), (0, 1));
            assert_eq!((r.start, r.end), (4, 9));
        }
        _ => panic!("Expected Binary"),
    }
}

#[test]
fn grouping_preserves_structure() {
    let source = SourceFile::new("test.yop".to_string(), "(2 + 3)".to_string());
    let (tokens, _) = Lexer::new(&source).tokenize();
    let mut parser = Parser::new(&tokens, &source);
    let grouped = parser.parse_expr().unwrap();

    let plain_source = SourceFile::new("test.yop".to_string(), "2 + 3".to_string());
    let (plain_tokens, _) = Lexer::new(&plain_source).tokenize();
    let mut plain_parser = Parser::new(&plain_tokens, &plain_source);
    let plain = plain_parser.parse_expr().unwrap();

    let inner = match grouped {
        Expr::Grouping { expr, span } => {
            assert_eq!((span.start, span.end), (0, 7));
            *expr
        }
        _ => panic!("Expected Grouping"),
    };
    match (inner, plain) {
        (
            Expr::Binary { op: op_a, lhs: lhs_a, rhs: rhs_a, .. },
            Expr::Binary { op: op_b, lhs: lhs_b, rhs: rhs_b, .. },
        ) => {
            assert_eq!(op_a, op_b);
            assert!(matches!(*lhs_a, Expr::Literal(Literal::Number { .. })));
            assert!(matches!(*lhs_b, Expr::Literal(Literal::Number { .. })));
            assert!(matches!(*rhs_a, Expr::Literal(Literal::Number { .. })));
            assert!(matches!(*rhs_b, Expr::Literal(Literal::Number { .. })));
        }
        _ => panic!("Expected the same Binary under the Grouping"),
    }
}

#[test]
fn var_decl_span_runs_from_keyword_to_semicolon() {
    let src = "гыы x = 5;";
    let (program, lex_diags, parse_diags) = run(src);

    assert!(lex_diags.is_empty());
    assert!(parse_diags.is_empty());
    match &program.items[0] {
        Stmt::VarDecl { span, .. } => {
            assert_eq!(span.start, 0);
            assert_eq!(span.end, src.len());
        }
        _ => panic!("Expected VarDecl"),
    }
}

#[test]
fn missing_initialiser_recovers_with_one_diagnostic() {
    let (program, lex_diags, parse_diags) = run("гыы x = ;");

    assert!(lex_diags.is_empty());
    assert!(parse_diags.len() >= 1);
    assert!(program.items.len() <= 1);
    assert!(parse_diags[0].message.starts_with("Неожиданный токен: "));
    assert_eq!(parse_diags[0].severity, Severity::Error);
}

#[test]
fn unexpected_token_names_the_kind() {
    let (_, _, parse_diags) = run(") ;");

    assert!(!parse_diags.is_empty());
    assert_eq!(
        parse_diags[0].message,
        "Неожиданный токен: Punctuation(RParen)"
    );
}

#[test]
fn recovery_continues_after_a_bad_statement() {
    let (program, _, parse_diags) = run("гыы x 5; гыы y = 2;");

    assert!(!parse_diags.is_empty());
    assert_eq!(program.items.len(), 1);
    assert!(matches!(program.items[0], Stmt::VarDecl { .. }));
}

#[test]
fn missing_semicolon_is_reported() {
    let (_, _, parse_diags) = run("x + 5");

    assert_eq!(parse_diags.len(), 1);
    assert_eq!(parse_diags[0].message, "Ожидалась ';' после выражения");
}

#[test]
fn missing_rparen_is_reported() {
    let (_, _, parse_diags) = run("(2 + 3;");

    assert!(!parse_diags.is_empty());
    assert_eq!(parse_diags[0].message, "Ожидался ')'");
}

#[test]
fn missing_rbrace_is_reported() {
    let (_, _, parse_diags) = run("{ x = 1;");

    assert!(!parse_diags.is_empty());
    assert!(parse_diags.iter().any(|d| d.message == "Ожидалась '}'"));
}

#[test]
fn nested_blocks_parse() {
    let (program, _, parse_diags) = run("{ гыы x = 1; { x = 2; } }");

    assert!(parse_diags.is_empty());
    assert_eq!(program.items.len(), 1);
    match &program.items[0] {
        Stmt::Block(block) => {
            assert_eq!(block.stmts.len(), 2);
            assert!(matches!(block.stmts[1], Stmt::Block(_)));
        }
        _ => panic!("Expected Block"),
    }
}

#[test]
fn left_associative_subtraction() {
    let expr = {
        let source = SourceFile::new("test.yop".to_string(), "10 - 4 - 3".to_string());
        let (tokens, _) = Lexer::new(&source).tokenize();
        let mut parser = Parser::new(&tokens, &source);
        parser.parse_expr().unwrap()
    };
    match expr {
        Expr::Binary { op: BinaryOp::Sub, lhs, rhs, .. } => {
            assert!(matches!(*lhs, Expr::Binary { op: BinaryOp::Sub, .. }));
            assert!(matches!(*rhs, Expr::Literal(Literal::Number { .. })));
        }
        _ => panic!("Expected left-nested subtraction"),
    }
}

#[test]
fn keyword_statement_over_unicode_source_keeps_byte_spans() {
    let src = "вилкойвглаз (привет > 5) привет = 10;";
    let (program, lex_diags, parse_diags) = run(src);

    assert!(lex_diags.is_empty());
    assert!(parse_diags.is_empty(), "got: {parse_diags:?}");
    match &program.items[0] {
        Stmt::If { span, .. } => {
            assert_eq!(span.start, 0);
            assert_eq!(span.end, src.len());
        }
        _ => panic!("Expected If"),
    }
}

#[test]
fn missing_assign_in_var_decl_is_reported() {
    let (_, _, parse_diags) = run("гыы x 5;");

    assert!(!parse_diags.is_empty());
    assert_eq!(parse_diags[0].message, "Ожидался '=' после имени переменной");
}

#[test]
fn missing_identifier_in_var_decl_is_reported() {
    let (_, _, parse_diags) = run("гыы = 5;");

    assert!(!parse_diags.is_empty());
    assert_eq!(parse_diags[0].message, "Ожидался идентификатор");
}

#[test]
fn missing_lparen_after_if_keyword_is_reported() {
    let (_, _, parse_diags) = run("вилкойвглаз x > 5) x = 1;");

    assert!(!parse_diags.is_empty());
    assert_eq!(parse_diags[0].message, "Ожидалась '(' после 'вилкойвглаз'");
}

#[test]
fn missing_rparen_after_condition_is_reported() {
    let (_, _, parse_diags) = run("вилкойвглаз (x > 5 x = 1;");

    assert!(!parse_diags.is_empty());
    assert_eq!(parse_diags[0].message, "Ожидалась ')' после условия");
}

#[test]
fn unary_binds_tighter_than_binary() {
    let source = SourceFile::new("test.yop".to_string(), "-2 + 3".to_string());
    let (tokens, _) = Lexer::new(&source).tokenize();
    let mut parser = Parser::new(&tokens, &source);
    let expr = parser.parse_expr().unwrap();

    match expr {
        Expr::Binary { op: BinaryOp::Add, lhs, .. } => {
            assert!(matches!(*lhs, Expr::Unary { .. }));
        }
        _ => panic!("Expected Add with a unary left operand"),
    }
}

#[test]
fn escaped_quote_stays_inside_the_string() {
    let source = SourceFile::new("test.yop".to_string(), "\"a\\\"b\";".to_string());
    let (tokens, lex_diags) = Lexer::new(&source).tokenize();

    assert!(lex_diags.is_empty());
    assert_eq!(tokens[0].kind, TokenKind::StringLiteral);
    assert_eq!((tokens[0].span.start, tokens[0].span.end), (0, 6));
}

#[test]
fn parse_source_runs_the_whole_front_end() {
    let source = SourceFile::new("test.yop".to_string(), "гыы x = 5; \"open".to_string());
    let (tokens, lex_diags, program, parse_diags) = yps_frontend::parse_source(&source);

    assert_eq!(tokens.last().unwrap().kind, TokenKind::Eof);
    assert_eq!(lex_diags.len(), 1);
    assert!(lex_diags[0].message.contains("Незакрытая строка"));
    assert_eq!(program.items.len(), 1);
    assert!(matches!(program.items[0], Stmt::VarDecl { .. }));
    assert!(!parse_diags.is_empty());
    assert!(parse_diags.iter().all(|d| d.severity == Severity::Error));
}
