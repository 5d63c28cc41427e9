use engine::component::ComponentErrors;
use engine::errors::{LexerError, LexerErrorKind};
use engine::lexer::Lexer;
use engine::source::SourceFile;
use engine::tokens::{LexerLiteral, LexerToken, LexerTokenKind};

fn lex(src: &str) -> (Vec<LexerToken>, Vec<LexerError>) {
    let sf = SourceFile::create(src.chars().collect());
    let mut lx = Lexer::create(&sf);
    let toks = lx.tokens().clone();
    let errs = lx.fetch_errors().clone();
    (toks, errs)
}

fn chars(s: &str) -> Vec<char> {
    s.chars().collect()
}

#[test]
fn eof_terminates_every_scan() {
    let (toks, errs) = lex("ab");
    assert_eq!(toks.len(), 2);
    assert_eq!(toks[1].kind, LexerTokenKind::EOF);
    assert_eq!(toks[1].start, toks[1].end);
    assert_eq!(toks[1].end.line, 1);
    assert_eq!(toks[1].end.column, 3);
    assert!(errs.is_empty());
}

#[test]
fn tokens_is_idempotent() {
    let sf = SourceFile::create(chars("var x = 5"));
    let mut lx = Lexer::create(&sf);
    let first = lx.tokens().clone();
    let second = lx.tokens().clone();
    assert_eq!(first, second);
}

#[test]
fn escaped_newline_in_string() {
    let (toks, errs) = lex("\"ab\\ncd\"");
    assert!(errs.is_empty());
    assert_eq!(toks.len(), 2);
    assert_eq!(toks[0].kind, LexerTokenKind::String);
    assert_eq!(toks[0].value, Some(LexerLiteral::String(vec!['a', 'b', '\n', 'c', 'd'])));
}

#[test]
fn unterminated_string_reports_expected_quote() {
    let (toks, errs) = lex("\"abc");
    assert_eq!(toks.len(), 1);
    assert_eq!(toks[0].kind, LexerTokenKind::EOF);
    assert_eq!(errs.len(), 1);
    assert_eq!(
        errs[0].kind,
        LexerErrorKind::ExpectedCharacter { expected: vec!['"'], found: None }
    );
}

#[test]
fn negative_hex_literal() {
    let (toks, errs) = lex("-0x1F");
    assert!(errs.is_empty());
    assert_eq!(toks.len(), 2);
    assert_eq!(toks[0].kind, LexerTokenKind::Integer);
    assert_eq!(toks[0].value, Some(LexerLiteral::Integer(-31)));
}

#[test]
fn multi_line_comment_with_interior_star() {
    let (toks, errs) = lex("/* a * b */");
    assert!(errs.is_empty());
    assert_eq!(toks.len(), 1);
    assert_eq!(toks[0].kind, LexerTokenKind::EOF);
}

#[test]
fn shell_command_with_paren_arguments() {
    let (toks, errs) = lex("$echo(hello world)");
    assert!(errs.is_empty());
    assert_eq!(toks.len(), 2);
    assert_eq!(toks[0].kind, LexerTokenKind::ShellCommand);
    assert_eq!(
        toks[0].value,
        Some(LexerLiteral::ShellCommand(chars("echo"), Some(chars("hello world"))))
    );
}

#[test]
fn double_ampersand_is_and() {
    let (toks, errs) = lex("&&");
    assert!(errs.is_empty());
    assert_eq!(toks.len(), 2);
    assert_eq!(toks[0].kind, LexerTokenKind::And);
}

#[test]
fn single_ampersand_is_unknown_token() {
    let (toks, errs) = lex("&");
    assert_eq!(toks.len(), 1);
    assert_eq!(toks[0].kind, LexerTokenKind::EOF);
    assert_eq!(errs.len(), 1);
    assert_eq!(errs[0].kind, LexerErrorKind::UnknownToken);
    assert_eq!(errs[0].start.line, 1);
    assert_eq!(errs[0].start.column, 1);
    assert_eq!(errs[0].end.line, 1);
    assert_eq!(errs[0].end.column, 2);
    assert_eq!(errs[0].source_file.code, vec!['&']);
}

#[test]
fn keywords_and_identifiers() {
    let (toks, errs) = lex("var x = 5");
    assert!(errs.is_empty());
    let kinds: Vec<LexerTokenKind> = toks.iter().map(|t| t.kind).collect();
    assert_eq!(
        kinds,
        vec![
            LexerTokenKind::Var,
            LexerTokenKind::Identifier,
            LexerTokenKind::Equal,
            LexerTokenKind::Integer,
            LexerTokenKind::EOF,
        ]
    );
    assert_eq!(toks[1].value, Some(LexerLiteral::Identifier(chars("x"))));
    assert_eq!(toks[3].value, Some(LexerLiteral::Integer(5)));
}

#[test]
fn radix_prefixes() {
    let cases = [("0b101", 5isize), ("0o17", 15), ("0d10", 10), ("0x10", 16), ("0", 0)];
    for (src, want) in cases {
        let (toks, errs) = lex(src);
        assert!(errs.is_empty(), "{src}");
        assert_eq!(toks[0].value, Some(LexerLiteral::Integer(want)), "{src}");
    }
}

#[test]
fn underscore_separators_are_ignored() {
    let (toks, errs) = lex("1_000");
    assert!(errs.is_empty());
    assert_eq!(toks[0].value, Some(LexerLiteral::Integer(1000)));
}

#[test]
fn invalid_radix_letter() {
    let (toks, errs) = lex("0q12");
    assert_eq!(toks.len(), 1);
    assert_eq!(errs.len(), 1);
    assert_eq!(errs[0].kind, LexerErrorKind::InvalidNumberNotation);
}

#[test]
fn integer_overflow_is_reported_not_wrapped() {
    let (toks, errs) = lex("0xFFFFFFFFFFFFFFFF");
    assert_eq!(toks.len(), 1);
    assert_eq!(errs.len(), 1);
    assert!(matches!(errs[0].kind, LexerErrorKind::IntegerOverflow(_)));
}

#[test]
fn two_character_operators() {
    let cases = [
        ("==", LexerTokenKind::EqualEqual),
        ("=>", LexerTokenKind::Arrow),
        ("+=", LexerTokenKind::PlusEqual),
        ("-=", LexerTokenKind::MinusEqual),
        ("*=", LexerTokenKind::MultiplyEqual),
        ("/=", LexerTokenKind::DivideEqual),
        ("!=", LexerTokenKind::NotEqual),
        ("<=", LexerTokenKind::LesserEqualThan),
        (">=", LexerTokenKind::GreaterEqualThan),
        ("||", LexerTokenKind::Or),
        ("..", LexerTokenKind::Range),
        ("..=", LexerTokenKind::RangeInclusive),
    ];
    for (src, want) in cases {
        let (toks, errs) = lex(src);
        assert!(errs.is_empty(), "{src}");
        assert_eq!(toks.len(), 2, "{src}");
        assert_eq!(toks[0].kind, want, "{src}");
    }
}

#[test]
fn single_line_comment_elides_to_line_end() {
    let (toks, errs) = lex("// hi\nx");
    assert!(errs.is_empty());
    let kinds: Vec<LexerTokenKind> = toks.iter().map(|t| t.kind).collect();
    assert_eq!(kinds, vec![LexerTokenKind::Identifier, LexerTokenKind::EOF]);
}

#[test]
fn unterminated_multi_line_comment() {
    let (_, errs) = lex("/*abc");
    assert_eq!(errs.len(), 1);
    assert_eq!(
        errs[0].kind,
        LexerErrorKind::ExpectedCharacter { expected: vec!['*'], found: None }
    );
}

#[test]
fn surrounding_whitespace_is_trimmed() {
    let (toks, errs) = lex("  var  ");
    assert!(errs.is_empty());
    assert_eq!(toks.len(), 2);
    assert_eq!(toks[0].kind, LexerTokenKind::Var);
    assert_eq!(toks[0].start.column, 1);
}

#[test]
fn newline_yields_eol_token() {
    let (toks, errs) = lex("a\nb");
    assert!(errs.is_empty());
    let kinds: Vec<LexerTokenKind> = toks.iter().map(|t| t.kind).collect();
    assert_eq!(
        kinds,
        vec![
            LexerTokenKind::Identifier,
            LexerTokenKind::EOL,
            LexerTokenKind::Identifier,
            LexerTokenKind::EOF,
        ]
    );
    assert_eq!(toks[2].start.line, 2);
    assert_eq!(toks[2].start.column, 1);
}

#[test]
fn unicode_alphanumerics_continue_identifiers() {
    let (toks, errs) = lex("h\u{00e9}llo");
    assert!(errs.is_empty());
    assert_eq!(toks.len(), 2);
    assert_eq!(toks[0].kind, LexerTokenKind::Identifier);
    assert_eq!(toks[0].value, Some(LexerLiteral::Identifier(chars("h\u{00e9}llo"))));
}

#[test]
fn unicode_whitespace_is_trimmed() {
    let (toks, errs) = lex("\u{00a0}x\u{00a0}");
    assert!(errs.is_empty());
    assert_eq!(toks.len(), 2);
    assert_eq!(toks[0].kind, LexerTokenKind::Identifier);
}

#[test]
fn shell_command_space_arguments_run_to_line_end() {
    let (toks, errs) = lex("$ls -la");
    assert!(errs.is_empty());
    assert_eq!(
        toks[0].value,
        Some(LexerLiteral::ShellCommand(chars("ls"), Some(chars("-la"))))
    );
}

#[test]
fn shell_command_empty_paren_list_consumes_the_close() {
    let (toks, errs) = lex("$ls()");
    assert!(errs.is_empty());
    assert_eq!(toks.len(), 2);
    assert_eq!(toks[0].kind, LexerTokenKind::ShellCommand);
    assert_eq!(toks[0].value, Some(LexerLiteral::ShellCommand(chars("ls"), None)));
    assert_eq!(toks[1].kind, LexerTokenKind::EOF);
}

#[test]
fn shell_command_unclosed_paren_list_is_expected_character() {
    let (_, errs) = lex("$ls(a");
    assert_eq!(errs.len(), 1);
    assert_eq!(
        errs[0].kind,
        LexerErrorKind::ExpectedCharacter { expected: vec![')'], found: None }
    );
}

#[test]
fn radix_prefix_without_digits_is_expected_character() {
    let (toks, errs) = lex("0x");
    assert_eq!(toks.len(), 1);
    assert_eq!(errs.len(), 1);
    assert_eq!(
        errs[0].kind,
        LexerErrorKind::ExpectedCharacter { expected: vec!['0', '.', '.', '9'], found: None }
    );
}

#[test]
fn shell_command_without_name_is_unexpected_end() {
    let (_, errs) = lex("$");
    assert_eq!(errs.len(), 1);
    assert_eq!(errs[0].kind, LexerErrorKind::UnexpectedEnd);
}

#[test]
fn string_escapes_decode() {
    let (toks, errs) = lex("\"a\\tb\\0c\\rd\\\\e\"");
    assert!(errs.is_empty());
    assert_eq!(
        toks[0].value,
        Some(LexerLiteral::String(vec![
            'a', '\t', 'b', '\0', 'c', '\r', 'd', '\\', 'e'
        ]))
    );
}

#[test]
fn booleans_are_literals_not_keywords() {
    let (toks, errs) = lex("true false");
    assert!(errs.is_empty());
    assert_eq!(toks[0].kind, LexerTokenKind::Boolean);
    assert_eq!(toks[0].value, Some(LexerLiteral::Boolean(true)));
    assert_eq!(toks[1].kind, LexerTokenKind::Boolean);
    assert_eq!(toks[1].value, Some(LexerLiteral::Boolean(false)));
}

#[test]
fn has_errors_reflects_error_list() {
    let sf = SourceFile::create(chars("&"));
    let mut lx = Lexer::create(&sf);
    lx.tokens();
    assert!(lx.has_errors());
    let sf2 = SourceFile::create(chars("ok"));
    let mut lx2 = Lexer::create(&sf2);
    lx2.tokens();
    assert!(!lx2.has_errors());
}

#[test]
fn directive_keywords() {
    let (toks, errs) = lex("@include @const");
    assert!(errs.is_empty());
    assert_eq!(toks[0].kind, LexerTokenKind::Include);
    assert_eq!(toks[1].kind, LexerTokenKind::Const);
}

#[test]
fn textual_logical_aliases() {
    let (toks, errs) = lex("not and or in is");
    assert!(errs.is_empty());
    let kinds: Vec<LexerTokenKind> = toks.iter().map(|t| t.kind).collect();
    assert_eq!(
        kinds,
        vec![
            LexerTokenKind::Not,
            LexerTokenKind::And,
            LexerTokenKind::Or,
            LexerTokenKind::In,
            LexerTokenKind::Is,
            LexerTokenKind::EOF,
        ]
    );
}

#[test]
fn integer_literal_round_trips_through_formatting() {
    let (toks, errs) = lex("0x1f");
    assert!(errs.is_empty());
    let v = match &toks[0].value {
        Some(LexerLiteral::Integer(v)) => *v,
        _ => panic!("integer expected"),
    };
    assert_eq!(v, 31);
    assert_eq!(format!("{:x}", v), "1f");
    let (toks2, errs2) = lex("0b101");
    assert!(errs2.is_empty());
    let v2 = match &toks2[0].value {
        Some(LexerLiteral::Integer(v)) => *v,
        _ => panic!("integer expected"),
    };
    assert_eq!(format!("{:b}", v2), "101");
}
