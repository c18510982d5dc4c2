//! The lexer: token kinds, byte spans and lexical diagnostics.

use yps_frontend::{
    Diagnostic, KeywordKind, Lexer, OperatorKind, PunctuationKind, Severity, SourceFile, Token,
    TokenKind,
};

fn lex(src: &str) -> (Vec<Token>, Vec<Diagnostic>) {
    let source = SourceFile::new("test.yop".to_string(), src.to_string());
    Lexer::new(&source).tokenize()
}

fn collect_kinds(src: &str) -> Vec<TokenKind> {
    let (tokens, _) = lex(src);
    tokens.into_iter().map(|t| t.kind).collect()
}

#[test]
fn returns_eof_on_empty_input() {
    let kinds = collect_kinds("");

    assert_eq!(kinds, vec![TokenKind::Eof]);
}

#[test]
fn lexes_assignment() {
    let kinds = collect_kinds("x = 1");

    assert_eq!(
        kinds,
        vec![
            TokenKind::Identifier,
            TokenKind::Operator(OperatorKind::Assign),
            TokenKind::Number,
            TokenKind::Eof,
        ]
    )
}

#[test]
fn lexes_equality() {
    let kinds = collect_kinds("x == 1");

    assert_eq!(
        kinds,
        vec![
            TokenKind::Identifier,
            TokenKind::Operator(OperatorKind::Equals),
            TokenKind::Number,
            TokenKind::Eof,
        ]
    )
}

#[test]
fn lexes_strict_equality() {
    let kinds = collect_kinds("x === 1");

    assert_eq!(
        kinds,
        vec![
            TokenKind::Identifier,
            TokenKind::Operator(OperatorKind::StrictEquals),
            TokenKind::Number,
            TokenKind::Eof,
        ]
    )
}

#[test]
fn lexes_pachan_line_as_identifiers() {
    let kinds = collect_kinds("pachan x + 42");

    assert_eq!(
        kinds,
        vec![
            TokenKind::Identifier,
            TokenKind::Identifier,
            TokenKind::Operator(OperatorKind::Plus),
            TokenKind::Number,
            TokenKind::Eof,
        ]
    )
}

#[test]
fn whitespace_only_input_gives_lone_eof() {
    let kinds = collect_kinds("\n \t\n");

    assert_eq!(kinds, vec![TokenKind::Eof]);
}

#[test]
fn empty_input_gives_no_diagnostics() {
    let (tokens, diags) = lex("");

    assert_eq!(tokens.len(), 1);
    assert_eq!(tokens[0].span.start, 0);
    assert_eq!(tokens[0].span.end, 0);
    assert!(diags.is_empty());
}

#[test]
fn eof_span_sits_at_end_of_source() {
    let src = "гыы x = 5;";
    let (tokens, _) = lex(src);

    let last = tokens.last().unwrap();
    assert_eq!(last.kind, TokenKind::Eof);
    assert_eq!(last.span.start, src.len());
    assert_eq!(last.span.end, src.len());
    assert_eq!(
        tokens.iter().filter(|t| t.kind == TokenKind::Eof).count(),
        1
    );
}

#[test]
fn token_spans_are_monotone_and_slices_match() {
    let src = "гыы x = \"привет\"; // слова\nx == 42.5;";
    let source = SourceFile::new("test.yop".to_string(), src.to_string());
    let (tokens, _) = Lexer::new(&source).tokenize();

    for pair in tokens.windows(2) {
        assert!(pair[0].span.end <= pair[1].span.start);
    }
    for t in &tokens {
        assert!(t.span.start <= t.span.end);
        assert!(t.span.end <= src.len());
        // slicing must not panic: spans lie on character boundaries
        let _ = source.slice(t.span);
    }
}

#[test]
fn relexing_a_lexeme_gives_the_same_kind() {
    let src = "гыы x = \"привет\" + 42.5 <= y === z && !ok;";
    let source = SourceFile::new("test.yop".to_string(), src.to_string());
    let (tokens, _) = Lexer::new(&source).tokenize();

    for t in tokens {
        if t.kind == TokenKind::Eof {
            continue;
        }
        let lexeme = source.slice(t.span).to_string();
        let again = SourceFile::new("re.yop".to_string(), lexeme);
        let (retokens, _) = Lexer::new(&again).tokenize();
        assert_eq!(retokens.len(), 2);
        assert_eq!(retokens[0].kind, t.kind);
        assert_eq!(retokens[1].kind, TokenKind::Eof);
    }
}

#[test]
fn every_keyword_is_recognised() {
    let cases = [
        ("гыы", KeywordKind::Gyy),
        ("участковый", KeywordKind::Uchastkoviy),
        ("ясенХуй", KeywordKind::YasenHuy),
        ("вилкойвглаз", KeywordKind::Vilkoyvglaz),
        ("иливжопураз", KeywordKind::Ilivzhopuraz),
        ("потрещим", KeywordKind::Potreshchim),
        ("го", KeywordKind::Go),
        ("харэ", KeywordKind::Hare),
        ("двигай", KeywordKind::Dvigay),
        ("йопта", KeywordKind::Yopta),
        ("отвечаю", KeywordKind::Otvechayu),
    ];
    for (word, kind) in cases {
        let kinds = collect_kinds(word);
        assert_eq!(kinds, vec![TokenKind::Keyword(kind), TokenKind::Eof]);
    }
}

#[test]
fn keyword_comparison_is_case_sensitive() {
    let kinds = collect_kinds("Гыы ясенхуй");

    assert_eq!(
        kinds,
        vec![TokenKind::Identifier, TokenKind::Identifier, TokenKind::Eof]
    );
}

#[test]
fn keyword_spans_count_bytes() {
    let (tokens, diags) = lex("гыы x");

    assert!(diags.is_empty());
    assert_eq!(tokens[0].kind, TokenKind::Keyword(KeywordKind::Gyy));
    assert_eq!(tokens[0].span.start, 0);
    assert_eq!(tokens[0].span.end, 6);
    assert_eq!(tokens[1].span.start, 7);
    assert_eq!(tokens[1].span.end, 8);
}

#[test]
fn number_with_fraction_is_one_token() {
    let source = SourceFile::new("test.yop".to_string(), "12.5".to_string());
    let (tokens, diags) = Lexer::new(&source).tokenize();

    assert!(diags.is_empty());
    assert_eq!(tokens.len(), 2);
    assert_eq!(tokens[0].kind, TokenKind::Number);
    assert_eq!(source.slice(tokens[0].span), "12.5");
}

#[test]
fn trailing_bare_dot_stays_out_of_the_number() {
    let kinds = collect_kinds("12.");

    assert_eq!(
        kinds,
        vec![
            TokenKind::Number,
            TokenKind::Punctuation(PunctuationKind::Dot),
            TokenKind::Eof,
        ]
    );
}

#[test]
fn line_comment_is_skipped() {
    let kinds = collect_kinds("// пусто\n42 // хвост");

    assert_eq!(kinds, vec![TokenKind::Number, TokenKind::Eof]);
}

#[test]
fn lone_slash_is_divide() {
    let kinds = collect_kinds("x / y");

    assert_eq!(
        kinds,
        vec![
            TokenKind::Identifier,
            TokenKind::Operator(OperatorKind::Divide),
            TokenKind::Identifier,
            TokenKind::Eof,
        ]
    );
}

#[test]
fn maximal_munch_on_comparisons() {
    let kinds = collect_kinds("< <= > >= ! != !== || &&");

    assert_eq!(
        kinds,
        vec![
            TokenKind::Operator(OperatorKind::Less),
            TokenKind::Operator(OperatorKind::LessOrEqual),
            TokenKind::Operator(OperatorKind::Greater),
            TokenKind::Operator(OperatorKind::GreaterOrEqual),
            TokenKind::Operator(OperatorKind::Not),
            TokenKind::Operator(OperatorKind::NotEquals),
            TokenKind::Operator(OperatorKind::StrictNotEquals),
            TokenKind::Operator(OperatorKind::Or),
            TokenKind::Operator(OperatorKind::And),
            TokenKind::Eof,
        ]
    );
}

#[test]
fn unterminated_string_keeps_its_token_and_reports() {
    let (tokens, diags) = lex("\"hi");

    let strings: Vec<&Token> = tokens
        .iter()
        .filter(|t| t.kind == TokenKind::StringLiteral)
        .collect();
    assert_eq!(strings.len(), 1);
    assert_eq!(diags.len(), 1);
    assert!(diags[0].message.contains("Незакрытая строка"));
    assert_eq!(diags[0].severity, Severity::Error);
}

#[test]
fn single_quoted_string_is_accepted() {
    let source = SourceFile::new("test.yop".to_string(), "'ok'".to_string());
    let (tokens, diags) = Lexer::new(&source).tokenize();

    assert!(diags.is_empty());
    assert_eq!(tokens[0].kind, TokenKind::StringLiteral);
    assert_eq!(source.slice(tokens[0].span), "'ok'");
}

#[test]
fn known_escapes_raise_no_diagnostic() {
    let (tokens, diags) = lex("\"a\\n\\t\\r\\\\\\\"b\"");

    assert_eq!(tokens[0].kind, TokenKind::StringLiteral);
    assert!(diags.is_empty());
}

#[test]
fn unknown_escape_raises_a_warning() {
    let (tokens, diags) = lex("\"a\\qb\"");

    assert_eq!(tokens[0].kind, TokenKind::StringLiteral);
    assert_eq!(tokens[1].kind, TokenKind::Eof);
    assert_eq!(diags.len(), 1);
    assert_eq!(diags[0].severity, Severity::Warning);
    assert_eq!(
        diags[0].message,
        "Неизвестная экранированная последовательность"
    );
}

#[test]
fn lone_ampersand_is_unknown_with_hint() {
    let (tokens, diags) = lex("&");

    assert_eq!(tokens[0].kind, TokenKind::Unknown);
    assert_eq!(diags.len(), 1);
    assert!(diags[0].message.contains("&&"));
}

#[test]
fn lone_pipe_is_unknown_with_hint() {
    let (tokens, diags) = lex("|");

    assert_eq!(tokens[0].kind, TokenKind::Unknown);
    assert_eq!(diags.len(), 1);
    assert!(diags[0].message.contains("||"));
}

#[test]
fn unknown_character_is_reported_with_the_character() {
    let (tokens, diags) = lex("$");

    assert_eq!(tokens[0].kind, TokenKind::Unknown);
    assert_eq!(diags.len(), 1);
    assert_eq!(diags[0].message, "Неизвестный символ: '$'");
}

#[test]
fn all_punctuation_kinds_lex() {
    let kinds = collect_kinds("( ) { } [ ] ; , : .");

    assert_eq!(
        kinds,
        vec![
            TokenKind::Punctuation(PunctuationKind::LParen),
            TokenKind::Punctuation(PunctuationKind::RParen),
            TokenKind::Punctuation(PunctuationKind::LBrace),
            TokenKind::Punctuation(PunctuationKind::RBrace),
            TokenKind::Punctuation(PunctuationKind::LBracket),
            TokenKind::Punctuation(PunctuationKind::RBracket),
            TokenKind::Punctuation(PunctuationKind::Semicolon),
            TokenKind::Punctuation(PunctuationKind::Comma),
            TokenKind::Punctuation(PunctuationKind::Colon),
            TokenKind::Punctuation(PunctuationKind::Dot),
            TokenKind::Eof,
        ]
    );
}

#[test]
fn a_keyword_with_a_suffix_is_an_identifier() {
    let kinds = collect_kinds("гыых");

    assert_eq!(kinds, vec![TokenKind::Identifier, TokenKind::Eof]);
}

#[test]
fn underscore_starts_an_identifier() {
    let kinds = collect_kinds("_x1");

    assert_eq!(kinds, vec![TokenKind::Identifier, TokenKind::Eof]);
}
