//! The frontend: lexing, parsing, lowering.

use august_build::lexer::{lexer, EncapsulatorType, LexError, Token};
use august_build::parser::{parser, ParserError, Spanned, AST};
use august_build::{Command, IoCommand, LowerError, Module, Pragma, Unit};

fn lex(src: &str) -> Vec<(Token, (usize, usize))> {
    let (toks, errs) = lexer(src);
    assert!(errs.is_empty(), "unexpected lex errors: {errs:?}");
    toks
}

fn parse_module(src: &str) -> Result<Module, Vec<LowerError>> {
    let toks = lex(src);
    let (ast, perrs) = parser(&toks);
    assert!(perrs.is_empty(), "unexpected parse errors: {perrs:?}");
    Module::lower(ast)
}

#[test]
fn lexes_keywords_idents_and_punctuation() {
    let toks = lex("expose greet as build unit x { } :: => @ ~ ,");
    let kinds: Vec<&Token> = toks.iter().map(|t| &t.0).collect();
    assert!(matches!(kinds[0], Token::Expose));
    assert!(matches!(kinds[1], Token::Ident(s) if s == "greet"));
    assert!(matches!(kinds[2], Token::As));
    assert!(matches!(kinds[3], Token::Ident(s) if s == "build"));
    assert!(matches!(kinds[4], Token::Unit));
    assert!(matches!(kinds[5], Token::Ident(s) if s == "x"));
    assert!(matches!(kinds[6], Token::OpenDelim(EncapsulatorType::Curly)));
    assert!(matches!(kinds[7], Token::CloseDelim(EncapsulatorType::Curly)));
    assert!(matches!(kinds[8], Token::DoubleColon));
    assert!(matches!(kinds[9], Token::DoubleArrow));
    assert!(matches!(kinds[10], Token::Attr));
    assert!(matches!(kinds[11], Token::Tilde));
    assert!(matches!(kinds[12], Token::Comma));
}

#[test]
fn keyword_needs_exact_text() {
    let toks = lex("united exposes ass");
    assert!(matches!(&toks[0].0, Token::Ident(s) if s == "united"));
    assert!(matches!(&toks[1].0, Token::Ident(s) if s == "exposes"));
    assert!(matches!(&toks[2].0, Token::Ident(s) if s == "ass"));
}

#[test]
fn lexes_string_escapes() {
    let toks = lex(r#""a\nb\t\"q\" \\ \/""#);
    assert_eq!(toks.len(), 1);
    match &toks[0].0 {
        Token::String(s) => assert_eq!(s, "a\nb\t\"q\" \\ /"),
        t => panic!("expected a string literal, got {t:?}"),
    }
}

#[test]
fn unterminated_string_is_reported_with_opening_quote_span() {
    let (toks, errs) = lexer("unit \"oops");
    assert!(matches!(&toks[0].0, Token::Unit));
    assert_eq!(errs, vec![LexError::UnterminatedString((5, 6))]);
}

#[test]
fn unrecognised_character_becomes_recovery_token() {
    let (toks, errs) = lexer("a ' b");
    assert!(errs.is_empty());
    assert!(matches!(&toks[0].0, Token::Ident(s) if s == "a"));
    assert!(matches!(&toks[1].0, Token::Unexpected('\'')));
    assert!(matches!(&toks[2].0, Token::Ident(s) if s == "b"));
}

#[test]
fn dollar_is_a_raw_identifier_not_a_recovery_token() {
    let (toks, errs) = lexer("$HOME");
    assert!(errs.is_empty());
    assert_eq!(toks.len(), 1);
    assert!(matches!(&toks[0].0, Token::RawIdent(s) if s == "$HOME"));
}

#[test]
fn keyword_extensions_lex_as_one_identifier() {
    let (toks, errs) = lexer("unite assert expose2");
    assert!(errs.is_empty());
    assert_eq!(toks.len(), 3);
    assert!(matches!(&toks[0].0, Token::Ident(s) if s == "unite"));
    assert!(matches!(&toks[1].0, Token::Ident(s) if s == "assert"));
    assert!(matches!(&toks[2].0, Token::Ident(s) if s == "expose2"));
}

#[test]
fn unicode_whitespace_is_skipped_between_tokens() {
    let (toks, errs) = lexer("a\u{a0}b\u{2003}c");
    assert!(errs.is_empty());
    assert_eq!(toks.len(), 3);
    assert!(matches!(&toks[0].0, Token::Ident(s) if s == "a"));
    assert!(matches!(&toks[1].0, Token::Ident(s) if s == "b"));
    assert!(matches!(&toks[2].0, Token::Ident(s) if s == "c"));
}

#[test]
fn unterminated_string_swallows_the_rest_of_the_source() {
    let (toks, errs) = lexer("a \"tail never ends");
    assert_eq!(toks.len(), 1);
    assert!(matches!(&toks[0].0, Token::Ident(s) if s == "a"));
    assert_eq!(errs, vec![LexError::UnterminatedString((2, 3))]);
}

#[test]
fn raw_idents_cover_exec_arguments() {
    let toks = lex("~(echo -n 1+1)");
    assert!(matches!(&toks[0].0, Token::Tilde));
    assert!(matches!(&toks[2].0, Token::Ident(s) if s == "echo"));
    assert!(matches!(&toks[3].0, Token::RawIdent(s) if s == "-n"));
    assert!(matches!(&toks[4].0, Token::RawIdent(s) if s == "1+1"));
}

#[test]
fn spans_are_ordered_and_in_bounds() {
    let src = "unit greet { IO::println(\"hello\") }";
    let toks = lex(src);
    let n = src.chars().count();
    let mut prev_end = 0;
    for (_, (s, e)) in &toks {
        assert!(s < e && *e <= n);
        assert!(prev_end <= *s);
        prev_end = *e;
    }
}

#[test]
fn parses_the_minimal_example() {
    let src = "expose greet as build\n\
               unit greet {\n  depends_on(prep)\n  IO::println(\"hello\")\n}\n\
               unit prep {\n  FS::create_dir(\"out\")\n  ~(echo hi)\n}\n";
    let toks = lex(src);
    let (ast, errs) = parser(&toks);
    assert!(errs.is_empty(), "{errs:?}");
    assert_eq!(ast.len(), 3);
    assert!(matches!(&ast[0], AST::Expose(Pragma::Build, n) if n.text == "greet"));
    match &ast[1] {
        AST::Unit(name, cmds) => {
            assert_eq!(name.text, "greet");
            assert_eq!(cmds.len(), 2);
            assert!(matches!(&cmds[0], Command::DependsOn(d) if d.len() == 1 && d[0].text == "prep"));
            assert!(
                matches!(&cmds[1], Command::Io(IoCommand::PrintLn(t)) if t.text == "hello")
            );
        },
        other => panic!("expected a unit, got {other:?}"),
    }
}

#[test]
fn module_prefix_is_case_insensitive_and_optional() {
    let src = "unit u { fs::create(\"a\") Io::println(\"x\") ENV::set_var(\"k\", \"v\") println(\"bare\") }";
    let toks = lex(src);
    let (ast, errs) = parser(&toks);
    assert!(errs.is_empty(), "{errs:?}");
    match &ast[0] {
        AST::Unit(_, cmds) => {
            assert!(matches!(&cmds[0], Command::Fs(_)));
            assert!(matches!(&cmds[1], Command::Io(_)));
            assert!(matches!(&cmds[2], Command::Env(_)));
            assert!(matches!(&cmds[3], Command::Io(IoCommand::PrintLn(t)) if t.text == "bare"));
        },
        other => panic!("expected a unit, got {other:?}"),
    }
}

#[test]
fn meta_and_exec_have_sigil_forms() {
    let src = "unit u { @( @author \"me\" ) ~(make all) }";
    let toks = lex(src);
    let (ast, errs) = parser(&toks);
    assert!(errs.is_empty(), "{errs:?}");
    match &ast[0] {
        AST::Unit(_, cmds) => {
            assert!(
                matches!(&cmds[0], Command::Meta(m) if m.len() == 1 && m[0].0.text == "author" && m[0].1 == "me")
            );
            assert!(matches!(&cmds[1], Command::Exec(a) if a.len() == 2 && a[0].text == "make"));
        },
        other => panic!("expected a unit, got {other:?}"),
    }
}

#[test]
fn parse_recovery_reports_each_error_once_and_goes_on() {
    let src = "expose as build unit ok { } expose also as nowhere";
    let toks = lex(src);
    let (ast, errs) = parser(&toks);
    assert_eq!(errs.len(), 2, "{errs:?}");
    assert!(matches!(&errs[0], ParserError::TokenMismatch { .. }));
    assert!(ast.iter().any(|a| matches!(a, AST::Error)));
    assert!(ast.iter().any(|a| matches!(a, AST::Unit(n, _) if n.text == "ok")));
}

#[test]
fn round_trip_units_and_pragmas() {
    let m = parse_module(
        "expose b as build\nexpose t as test\nunit b { }\nunit t { depends_on(b) }\n",
    )
    .expect("valid script");
    let names: Vec<&str> = m.units().iter().map(|(n, _)| n.text.as_str()).collect();
    assert_eq!(names, vec!["b", "t"]);
    assert_eq!(m.unit_by_pragma(Pragma::Build), Some("b".to_string()));
    assert_eq!(m.unit_by_pragma(Pragma::Test), Some("t".to_string()));
    assert!(m.unit_exists(&"b".to_string()));
    assert!(!m.unit_exists(&"ghost".to_string()));
}

#[test]
fn duplicate_unit_reported_once_and_name_still_defined() {
    let errs = parse_module("unit u { }\nunit u { depends_on(u) }\n").unwrap_err();
    assert_eq!(errs.len(), 1, "{errs:?}");
    assert!(matches!(&errs[0], LowerError::DuplicateUnit(_, second) if second.text == "u"));
}

#[test]
fn missing_expose_target_is_exactly_one_name_error() {
    let errs = parse_module("expose ghost as build\n").unwrap_err();
    assert_eq!(errs.len(), 1, "{errs:?}");
    assert!(matches!(&errs[0], LowerError::NameError(n) if n.text == "ghost"));
}

#[test]
fn independent_errors_all_reported() {
    // one duplicate dependency, one duplicate meta key, one duplicate
    // expose, one unresolved dependency: four independent errors
    let errs = parse_module(
        "expose a as build\nexpose b as build\n\
         unit a { depends_on(b, b) meta(@k \"1\" @k \"2\") }\n\
         unit b { depends_on(ghost) }\n",
    )
    .unwrap_err();
    assert_eq!(errs.len(), 4, "{errs:?}");
    assert!(errs.iter().any(|e| matches!(e, LowerError::DuplicateDependency(_, _))));
    assert!(errs.iter().any(|e| matches!(e, LowerError::DuplicateMetaItem(_, _))));
    assert!(errs.iter().any(|e| matches!(e, LowerError::DuplicateExpose(_, _))));
    assert!(errs.iter().any(|e| matches!(e, LowerError::NameError(n) if n.text == "ghost")));
}

#[test]
fn lowering_hoists_and_keeps_command_order() {
    let m = parse_module(
        "unit u { IO::println(\"1\") depends_on(v) meta(@k \"v\") IO::println(\"2\") }\nunit v { }\n",
    )
    .expect("valid script");
    let unit: &Unit = &m.units()[0].1;
    assert_eq!(unit.deps().len(), 1);
    assert_eq!(unit.deps()[0].text, "v");
    assert_eq!(unit.meta.len(), 1);
    assert_eq!(unit.meta[0].1, "v");
    assert_eq!(unit.commands.len(), 2);
    assert!(matches!(&unit.commands[0], Command::Io(IoCommand::PrintLn(t)) if t.text == "1"));
    assert!(matches!(&unit.commands[1], Command::Io(IoCommand::PrintLn(t)) if t.text == "2"));
}

#[test]
fn spanned_equality_ignores_span() {
    let a = Spanned::with_span("same".to_string(), (0, 4));
    let b = Spanned::with_span("same".to_string(), (10, 14));
    let c = Spanned::new("other".to_string());
    assert_eq!(a, b);
    assert_ne!(a, c);
}

#[test]
fn encapsulator_chars_round_trip() {
    for (open, close) in [('(', ')'), ('{', '}'), ('[', ']'), ('<', '>')] {
        let fam = EncapsulatorType::new(open);
        assert_eq!(fam, EncapsulatorType::new(close));
        assert_eq!(fam.opening_char(), open);
        assert_eq!(fam.closing_char(), close);
    }
}
