use lpl_lexer::indentation::{new_indentation_analyzer, normalize, NormalizeError};
use lpl_lexer::lexeme::Lexeme;
use lpl_lexer::lexer::{new_lexical_analyzer, tokenize, LexError};

fn chars(s: &str) -> Vec<char> {
    s.chars().collect()
}

fn name(s: &str) -> Lexeme {
    Lexeme::Name(chars(s))
}

fn text(s: &str) -> Lexeme {
    Lexeme::String(chars(s))
}

fn lex(s: &str) -> Vec<Lexeme> {
    tokenize(chars(s)).unwrap()
}

fn pipeline(s: &str) -> Vec<Lexeme> {
    normalize(lex(s)).unwrap()
}

#[test]
fn nested_block_lexes_and_normalizes() {
    let lexemes = lex("x:\n\ty:\n");
    assert_eq!(
        lexemes,
        vec![name("x"), Lexeme::Colon, Lexeme::Newline, Lexeme::Tab, name("y"), Lexeme::Colon, Lexeme::Newline]
    );
    assert_eq!(
        normalize(lexemes).unwrap(),
        vec![name("x"), Lexeme::Colon, Lexeme::Newline, Lexeme::Indent, name("y"), Lexeme::Colon, Lexeme::Newline]
    );
}

#[test]
fn quoted_string_lexes_to_its_text() {
    assert_eq!(lex("'ab'\n"), vec![text("ab"), Lexeme::Newline]);
}

#[test]
fn empty_string_literal() {
    assert_eq!(lex("''\n"), vec![text(""), Lexeme::Newline]);
}

#[test]
fn unclosed_string_runs_to_end_and_is_dropped() {
    let mut analyzer = new_lexical_analyzer(String::from("'ab\n"));
    assert_eq!(analyzer.init(), Ok(()));
    assert_eq!(analyzer.lexemes, vec![]);
    assert_eq!(analyzer.unclosed, Some(chars("ab\n")));
    assert_eq!(lex("a 'b"), vec![name("a"), Lexeme::Space]);
}

#[test]
fn two_spaces_fold_to_one_tab() {
    assert_eq!(lex("  "), vec![Lexeme::Tab]);
    assert_eq!(lex("   "), vec![Lexeme::Tab, Lexeme::Space]);
    assert_eq!(lex("    "), vec![Lexeme::Tab, Lexeme::Tab]);
    assert_eq!(lex(" "), vec![Lexeme::Space]);
}

#[test]
fn unknown_character_aborts() {
    assert_eq!(tokenize(chars("@")), Err(LexError::UnknownCharacter('@')));
    assert_eq!(tokenize(chars("a: @\n")), Err(LexError::UnknownCharacter('@')));
}

#[test]
fn missing_trailing_newline_aborts_normalizing() {
    let lexemes = lex("a");
    assert_eq!(lexemes, vec![name("a")]);
    assert_eq!(normalize(lexemes), Err(NormalizeError::MissingNewline));
    assert_eq!(normalize(lex("a\n\t")), Err(NormalizeError::MissingNewline));
}

#[test]
fn integers() {
    assert_eq!(lex("123\n"), vec![Lexeme::Int(123), Lexeme::Newline]);
    assert_eq!(lex("007"), vec![Lexeme::Int(7)]);
    assert_eq!(lex("2147483647"), vec![Lexeme::Int(2147483647)]);
    assert_eq!(lex("12ab"), vec![Lexeme::Int(12), name("ab")]);
}

#[test]
fn integer_overflow_aborts() {
    assert_eq!(tokenize(chars("2147483648")), Err(LexError::IntegerOverflow));
    assert_eq!(tokenize(chars("x 99999999999999999999\n")), Err(LexError::IntegerOverflow));
}

#[test]
fn names_and_punctuation() {
    assert_eq!(
        lex("_a1 b/c:\n"),
        vec![name("_a1"), Lexeme::Space, name("b"), Lexeme::Slash, name("c"), Lexeme::Colon, Lexeme::Newline]
    );
    assert_eq!(lex("été\n"), vec![name("été"), Lexeme::Newline]);
    assert_eq!(lex("a\tb"), vec![name("a"), Lexeme::Tab, name("b")]);
}

#[test]
fn empty_input() {
    assert_eq!(lex(""), vec![]);
    assert_eq!(normalize(vec![]), Ok(vec![]));
}

#[test]
fn multi_level_unindent_and_no_final_flush() {
    assert_eq!(
        pipeline("a\n\t\tb\nc\n"),
        vec![
            name("a"),
            Lexeme::Newline,
            Lexeme::Indent,
            Lexeme::Indent,
            name("b"),
            Lexeme::Newline,
            Lexeme::Unindent,
            Lexeme::Unindent,
            name("c"),
            Lexeme::Newline,
        ]
    );
    assert_eq!(
        pipeline("a\n\tb\n"),
        vec![name("a"), Lexeme::Newline, Lexeme::Indent, name("b"), Lexeme::Newline]
    );
}

#[test]
fn spaces_do_not_indent_and_inner_tabs_are_copied() {
    assert_eq!(pipeline(" a\n"), vec![Lexeme::Space, name("a"), Lexeme::Newline]);
    assert_eq!(
        pipeline("a\tb\n"),
        vec![name("a"), Lexeme::Tab, name("b"), Lexeme::Newline]
    );
    assert_eq!(pipeline("  a\n"), vec![Lexeme::Indent, name("a"), Lexeme::Newline]);
}

#[test]
fn newline_count_matches_source_lines() {
    let source = "a:\n\tb\n\n\t\tc 1\nd\n";
    let out = pipeline(source);
    let newlines = out.iter().filter(|l| **l == Lexeme::Newline).count();
    assert_eq!(newlines, source.chars().filter(|c| *c == '\n').count());
}

#[test]
fn indentation_depth_matches_leading_tabs() {
    let out = pipeline("a\n\t\tb\n\tc\nd\n\te\n");
    let mut depth: i64 = 0;
    let mut at_newlines = vec![];
    for l in &out {
        match l {
            Lexeme::Indent => depth += 1,
            Lexeme::Unindent => depth -= 1,
            Lexeme::Newline => at_newlines.push(depth),
            _ => {}
        }
        assert!(depth >= 0);
    }
    assert_eq!(at_newlines, vec![0, 2, 1, 0, 1]);
}

#[test]
fn analyzers_step_by_step() {
    let mut lexer = new_lexical_analyzer(String::from("ab 12"));
    assert_eq!(lexer.char_at(0), Some('a'));
    assert_eq!(lexer.char_at(5), None);
    lexer.generate_lexeme().unwrap();
    assert_eq!(lexer.i, 2);
    assert_eq!(lexer.lexemes, vec![name("ab")]);
    lexer.generate_lexeme().unwrap();
    lexer.generate_lexeme().unwrap();
    assert_eq!(lexer.lexemes, vec![name("ab"), Lexeme::Space, Lexeme::Int(12)]);
    assert_eq!(lexer.generate_lexeme(), Ok(()));
    assert_eq!(lexer.i, 5);

    let mut normalizer = new_indentation_analyzer(vec![Lexeme::Tab, name("x"), Lexeme::Newline]);
    assert_eq!(normalizer.init(), Ok(()));
    assert_eq!(normalizer.output, vec![Lexeme::Indent, name("x"), Lexeme::Newline]);
}

#[test]
fn duplicate_keeps_value() {
    let l = name("abc");
    assert_eq!(l.duplicate(), name("abc"));
    assert_ne!(l.duplicate(), name("abd"));
    assert_ne!(Lexeme::Int(1), Lexeme::Int(2));
    assert_ne!(Lexeme::Tab, Lexeme::Space);
}
