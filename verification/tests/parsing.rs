//! The parser: expressions, precedence, statements and recovery.

use yps_frontend::{
    BinaryOp, Diagnostic, Expr, Lexer, Literal, Parser, SourceFile, Stmt, UnaryOp,
};

fn parse_expr_from_source(src: &str) -> Result<Expr, Vec<Diagnostic>> {
    let source = SourceFile::new("test.yop".to_string(), src.to_string());
    let lexer = Lexer::new(&source);
    let (tokens, lex_diags) = lexer.tokenize();

    if !lex_diags.is_empty() {
        return Err(lex_diags);
    }

    let mut parser = Parser::new(&tokens, &source);
    match parser.parse_expr() {
        Ok(expr) => Ok(expr),
        Err(()) => Err(parser.diagnostics().to_vec()),
    }
}

#[test]
fn test_parse_number() {
    let expr = parse_expr_from_source("42").unwrap();
    assert!(matches!(expr, Expr::Literal(Literal::Number { .. })));
}

#[test]
fn test_parse_string() {
    let expr = parse_expr_from_source("\"hello\"").unwrap();
    assert!(matches!(expr, Expr::Literal(Literal::String { .. })));
}

#[test]
fn test_parse_identifier() {
    let expr = parse_expr_from_source("foo").unwrap();
    assert!(matches!(expr, Expr::Identifier(_)));
}

#[test]
fn test_parse_grouping() {
    let expr = parse_expr_from_source("(5)").unwrap();
    assert!(matches!(expr, Expr::Grouping { .. }));
}

#[test]
fn test_parse_unary_minus() {
    let expr = parse_expr_from_source("-5").unwrap();
    match expr {
        Expr::Unary { op, .. } => assert_eq!(op, UnaryOp::Minus),
        _ => panic!("Expected Unary expression"),
    }
}

#[test]
fn test_parse_unary_plus() {
    let expr = parse_expr_from_source("+5").unwrap();
    match expr {
        Expr::Unary { op, .. } => assert_eq!(op, UnaryOp::Plus),
        _ => panic!("Expected Unary expression"),
    }
}

#[test]
fn test_parse_unary_not() {
    let expr = parse_expr_from_source("!true").unwrap();
    match expr {
        Expr::Unary { op, .. } => assert_eq!(op, UnaryOp::Not),
        _ => panic!("Expected Unary expression"),
    }
}

#[test]
fn test_parse_binary_add() {
    let expr = parse_expr_from_source("2 + 3").unwrap();
    match expr {
        Expr::Binary { op, .. } => assert_eq!(op, BinaryOp::Add),
        _ => panic!("Expected Binary expression"),
    }
}

#[test]
fn test_parse_binary_multiply() {
    let expr = parse_expr_from_source("2 * 3").unwrap();
    match expr {
        Expr::Binary { op, .. } => assert_eq!(op, BinaryOp::Mul),
        _ => panic!("Expected Binary expression"),
    }
}

#[test]
fn test_precedence_mul_over_add() {
    let expr = parse_expr_from_source("2 + 3 * 4").unwrap();
    match expr {
        Expr::Binary { op: BinaryOp::Add, lhs, rhs, .. } => {
            assert!(matches!(*lhs, Expr::Literal(Literal::Number { .. })));
            assert!(matches!(*rhs, Expr::Binary { op: BinaryOp::Mul, .. }));
        }
        _ => panic!("Expected Add at top level with Mul on right"),
    }
}

#[test]
fn test_precedence_parentheses() {
    let expr = parse_expr_from_source("(2 + 3) * 4").unwrap();
    match expr {
        Expr::Binary { op: BinaryOp::Mul, lhs, rhs, .. } => {
            assert!(matches!(*lhs, Expr::Grouping { .. }));
            assert!(matches!(*rhs, Expr::Literal(Literal::Number { .. })));
        }
        _ => panic!("Expected Mul at top level with Grouping on left"),
    }
}

#[test]
fn test_comparison_less() {
    let expr = parse_expr_from_source("x < 5").unwrap();
    match expr {
        Expr::Binary { op, .. } => assert_eq!(op, BinaryOp::Less),
        _ => panic!("Expected Binary expression"),
    }
}

#[test]
fn test_comparison_greater_or_equal() {
    let expr = parse_expr_from_source("x >= 10").unwrap();
    match expr {
        Expr::Binary { op, .. } => assert_eq!(op, BinaryOp::GreaterOrEqual),
        _ => panic!("Expected Binary expression"),
    }
}

#[test]
fn test_logical_and() {
    let expr = parse_expr_from_source("x && y").unwrap();
    match expr {
        Expr::Binary { op, .. } => assert_eq!(op, BinaryOp::And),
        _ => panic!("Expected Binary expression"),
    }
}

#[test]
fn test_logical_or() {
    let expr = parse_expr_from_source("x || y").unwrap();
    match expr {
        Expr::Binary { op, .. } => assert_eq!(op, BinaryOp::Or),
        _ => panic!("Expected Binary expression"),
    }
}

#[test]
fn test_equality() {
    let expr = parse_expr_from_source("x == 5").unwrap();
    match expr {
        Expr::Binary { op, .. } => assert_eq!(op, BinaryOp::Equals),
        _ => panic!("Expected Binary expression"),
    }
}

#[test]
fn test_strict_equality() {
    let expr = parse_expr_from_source("x === 5").unwrap();
    match expr {
        Expr::Binary { op, .. } => assert_eq!(op, BinaryOp::StrictEquals),
        _ => panic!("Expected Binary expression"),
    }
}

#[test]
fn test_complex_expression() {
    let expr = parse_expr_from_source("2 + 3 * 4 - 5 / 2").unwrap();
    assert!(matches!(expr, Expr::Binary { op: BinaryOp::Sub, .. }));
}

#[test]
fn test_precedence_logical_over_comparison() {
    let expr = parse_expr_from_source("x > 5 && y < 10").unwrap();
    match expr {
        Expr::Binary { op: BinaryOp::And, lhs, rhs, .. } => {
            assert!(matches!(*lhs, Expr::Binary { op: BinaryOp::Greater, .. }));
            assert!(matches!(*rhs, Expr::Binary { op: BinaryOp::Less, .. }));
        }
        _ => panic!("Expected And at top level with comparisons as operands"),
    }
}

#[test]
fn test_parse_var_decl_gyy() {
    let source = SourceFile::new("test.yop".to_string(), "гыы x = 5;".to_string());
    let lexer = Lexer::new(&source);
    let (tokens, lex_diags) = lexer.tokenize();
    assert!(lex_diags.is_empty());

    let parser = Parser::new(&tokens, &source);
    let (program, diags) = parser.parse_program();

    assert!(diags.is_empty(), "Expected no errors, got: {diags:?}");
    assert_eq!(program.items.len(), 1);

    match &program.items[0] {
        Stmt::VarDecl { name, init, .. } => {
            assert_eq!(name.name, "x");
            assert!(matches!(init, Expr::Literal(Literal::Number { .. })));
        }
        _ => panic!("Expected VarDecl, got: {:?}", program.items[0]),
    }
}

#[test]
fn test_parse_var_decl_yasen_huy() {
    let source = SourceFile::new("test.yop".to_string(), "ясенХуй y = \"hello\";".to_string());
    let lexer = Lexer::new(&source);
    let (tokens, lex_diags) = lexer.tokenize();
    assert!(lex_diags.is_empty());

    let parser = Parser::new(&tokens, &source);
    let (program, diags) = parser.parse_program();

    assert!(diags.is_empty(), "Expected no errors, got: {diags:?}");
    assert_eq!(program.items.len(), 1);

    match &program.items[0] {
        Stmt::VarDecl { name, init, .. } => {
            assert_eq!(name.name, "y");
            assert!(matches!(init, Expr::Literal(Literal::String { .. })));
        }
        _ => panic!("Expected VarDecl"),
    }
}

#[test]
fn test_parse_expr_stmt() {
    let source = SourceFile::new("test.yop".to_string(), "x + 5;".to_string());
    let lexer = Lexer::new(&source);
    let (tokens, lex_diags) = lexer.tokenize();
    assert!(lex_diags.is_empty());

    let parser = Parser::new(&tokens, &source);
    let (program, diags) = parser.parse_program();

    assert!(diags.is_empty(), "Expected no errors, got: {diags:?}");
    assert_eq!(program.items.len(), 1);

    match &program.items[0] {
        Stmt::Expr { expr, .. } => {
            assert!(matches!(expr, Expr::Binary { op: BinaryOp::Add, .. }));
        }
        _ => panic!("Expected Expr statement"),
    }
}

#[test]
fn test_parse_empty_stmt() {
    let source = SourceFile::new("test.yop".to_string(), ";".to_string());
    let lexer = Lexer::new(&source);
    let (tokens, lex_diags) = lexer.tokenize();
    assert!(lex_diags.is_empty());

    let parser = Parser::new(&tokens, &source);
    let (program, diags) = parser.parse_program();

    assert!(diags.is_empty());
    assert_eq!(program.items.len(), 1);
    assert!(matches!(program.items[0], Stmt::Empty { .. }));
}

#[test]
fn test_parse_multiple_statements() {
    let source = SourceFile::new(
        "test.yop".to_string(),
        "гыы x = 5;\nясенХуй y = 10;\nx + y;".to_string(),
    );
    let lexer = Lexer::new(&source);
    let (tokens, lex_diags) = lexer.tokenize();
    assert!(lex_diags.is_empty());

    let parser = Parser::new(&tokens, &source);
    let (program, diags) = parser.parse_program();

    assert!(diags.is_empty(), "Expected no errors, got: {diags:?}");
    assert_eq!(program.items.len(), 3);

    assert!(matches!(program.items[0], Stmt::VarDecl { .. }));
    assert!(matches!(program.items[1], Stmt::VarDecl { .. }));
    assert!(matches!(program.items[2], Stmt::Expr { .. }));
}

#[test]
fn test_parse_if_stmt() {
    let source = SourceFile::new("test.yop".to_string(), "вилкойвглаз (x > 5) x = 10;".to_string());
    let lexer = Lexer::new(&source);
    let (tokens, lex_diags) = lexer.tokenize();
    assert!(lex_diags.is_empty());

    let parser = Parser::new(&tokens, &source);
    let (program, diags) = parser.parse_program();

    assert!(diags.is_empty(), "Expected no errors, got: {diags:?}");
    assert_eq!(program.items.len(), 1);

    match &program.items[0] {
        Stmt::If { condition, then_branch, else_branch, .. } => {
            assert!(matches!(condition, Expr::Binary { op: BinaryOp::Greater, .. }));
            assert!(matches!(then_branch.as_ref(), Stmt::Expr { .. }));
            assert!(else_branch.is_none());
        }
        _ => panic!("Expected If statement"),
    }
}

#[test]
fn test_parse_if_else_stmt() {
    let source = SourceFile::new(
        "test.yop".to_string(),
        "вилкойвглаз (x > 5) x = 10; иливжопураз x = 0;".to_string(),
    );
    let lexer = Lexer::new(&source);
    let (tokens, lex_diags) = lexer.tokenize();
    assert!(lex_diags.is_empty());

    let parser = Parser::new(&tokens, &source);
    let (program, diags) = parser.parse_program();

    assert!(diags.is_empty(), "Expected no errors, got: {diags:?}");
    assert_eq!(program.items.len(), 1);

    match &program.items[0] {
        Stmt::If { condition, then_branch, else_branch, .. } => {
            assert!(matches!(condition, Expr::Binary { op: BinaryOp::Greater, .. }));
            assert!(matches!(then_branch.as_ref(), Stmt::Expr { .. }));
            assert!(else_branch.is_some());
            assert!(matches!(else_branch.as_ref().unwrap().as_ref(), Stmt::Expr { .. }));
        }
        _ => panic!("Expected If statement"),
    }
}

#[test]
fn test_parse_if_with_block() {
    let source = SourceFile::new("test.yop".to_string(), "вилкойвглаз (x > 5) { x = 10; }".to_string());
    let lexer = Lexer::new(&source);
    let (tokens, lex_diags) = lexer.tokenize();
    assert!(lex_diags.is_empty());

    let parser = Parser::new(&tokens, &source);
    let (program, diags) = parser.parse_program();

    assert!(diags.is_empty(), "Expected no errors, got: {diags:?}");
    assert_eq!(program.items.len(), 1);

    match &program.items[0] {
        Stmt::If { then_branch, .. } => {
            assert!(matches!(then_branch.as_ref(), Stmt::Block(_)));
        }
        _ => panic!("Expected If statement"),
    }
}
