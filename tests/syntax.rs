use salt::lexer::{Error as LexError, Lexer, Token};
use salt::parser::{Error as ParseError, Parser};
use salt::utils::{Expr, Lifetime, Lval, Stmt};

fn tokens(src: &str) -> Vec<Result<Token, LexError>> {
    let mut lexer = Lexer::new(src);
    let mut out = Vec::new();
    while let Some(t) = lexer.next() {
        let stop = t.is_err();
        out.push(t);
        if stop {
            break;
        }
    }
    out
}

fn block_lifetimes(e: &Expr, out: &mut Vec<usize>) {
    match e {
        Expr::Block(stmts, fin, l) => {
            out.push(l.0);
            for s in stmts {
                match s {
                    Stmt::Assign(_, e) | Stmt::LetMut(_, e) | Stmt::Expr(e) => block_lifetimes(e, out),
                }
            }
            block_lifetimes(fin, out);
        }
        Expr::Box(x) => block_lifetimes(x, out),
        Expr::AssertEq(a, b) => {
            block_lifetimes(a, out);
            block_lifetimes(b, out);
        }
        _ => {}
    }
}

#[test]
fn scans_a_program() {
    let toks = tokens("fn main() {\n  let mut x = Box::new(12);\n  assert_eq!(*x, &mut y);\n}");
    let expected = vec![
        Token::Fn,
        Token::Var("main".to_string()),
        Token::Lparen,
        Token::Rparen,
        Token::Lbracket,
        Token::Let,
        Token::Mut,
        Token::Var("x".to_string()),
        Token::Eq,
        Token::Box,
        Token::Lparen,
        Token::Int(12),
        Token::Rparen,
        Token::Semicolon,
        Token::AssertEq,
        Token::Lparen,
        Token::Star,
        Token::Var("x".to_string()),
        Token::Comma,
        Token::Ampersand,
        Token::Mut,
        Token::Var("y".to_string()),
        Token::Rparen,
        Token::Semicolon,
        Token::Rbracket,
    ];
    assert_eq!(toks, expected.into_iter().map(Ok).collect::<Vec<_>>());
}

#[test]
fn keywords_match_as_prefixes() {
    assert_eq!(tokens("letter"), vec![Ok(Token::Let), Ok(Token::Var("ter".to_string()))]);
    assert_eq!(tokens("x1y 007"), vec![Ok(Token::Var("x1y".to_string())), Ok(Token::Int(7))]);
}

#[test]
fn unknown_character_reports_line_and_column() {
    let toks = tokens("fn main() {\n  let mut x = #; }");
    assert_eq!(toks.last(), Some(&Err(LexError::Unknown(2, 14))));
}

#[test]
fn too_large_integer_is_unknown() {
    assert_eq!(tokens("2147483647"), vec![Ok(Token::Int(2147483647))]);
    assert_eq!(tokens("  2147483648"), vec![Err(LexError::Unknown(1, 2))]);
}

#[test]
fn empty_source_has_no_tokens() {
    assert!(tokens("  \n\t ").is_empty());
}

#[test]
fn concatenated_lexemes_rebuild_source() {
    let src = "fn main ( ) {\n let mut abc = & mut d ; }";
    let text: String = tokens(src)
        .into_iter()
        .map(|t| match t.unwrap() {
            Token::Lparen => "(".to_string(),
            Token::Rparen => ")".to_string(),
            Token::Lbracket => "{".to_string(),
            Token::Rbracket => "}".to_string(),
            Token::Eq => "=".to_string(),
            Token::Ampersand => "&".to_string(),
            Token::Star => "*".to_string(),
            Token::Comma => ",".to_string(),
            Token::Semicolon => ";".to_string(),
            Token::Fn => "fn".to_string(),
            Token::Let => "let".to_string(),
            Token::Mut => "mut".to_string(),
            Token::Box => "Box::new".to_string(),
            Token::AssertEq => "assert_eq!".to_string(),
            Token::Int(n) => n.to_string(),
            Token::Var(s) => s,
        })
        .collect();
    let stripped: String = src.chars().filter(|c| !c.is_whitespace()).collect();
    assert_eq!(text, stripped);
}

#[test]
fn parses_statements() {
    let e = Parser::new("fn main() { let mut x = 1; *x = &y; assert_eq!(x, 2); }").parse().unwrap();
    let expected = Expr::Block(
        vec![
            Stmt::LetMut("x".to_string(), Expr::Int(1)),
            Stmt::Assign(Lval::new("x", 1), Expr::Borrow(Lval::var("y"), false)),
            Stmt::Expr(Expr::AssertEq(
                Box::new(Expr::Lval(Lval::var("x"), false)),
                Box::new(Expr::Int(2)),
            )),
        ],
        Box::new(Expr::Unit),
        Lifetime(1),
    );
    assert_eq!(e, expected);
}

#[test]
fn blocks_are_numbered_in_opening_order() {
    let e = Parser::new("fn main() { { }; { { }; }; let mut z = { }; }").parse().unwrap();
    let mut ls = Vec::new();
    block_lifetimes(&e, &mut ls);
    assert_eq!(ls, vec![1, 2, 3, 4, 5]);
}

#[test]
fn parsing_is_repeatable() {
    let src = "fn main() { let mut x = Box::new(1); { let mut y = &mut x; *y = Box::new(2); }; }";
    assert_eq!(Parser::new(src).parse().unwrap(), Parser::new(src).parse().unwrap());
}

#[test]
fn name_other_than_main_is_unexpected() {
    assert_eq!(Parser::new("fn foo() {}").parse(), Err(ParseError::Unexpected(Token::Var("foo".to_string()))));
}

#[test]
fn missing_semicolon_is_unexpected() {
    assert_eq!(Parser::new("fn main() { let mut x = 1 }").parse(), Err(ParseError::Unexpected(Token::Rbracket)));
}

#[test]
fn statement_starting_with_a_name_is_an_assignment() {
    assert_eq!(Parser::new("fn main() { x; }").parse(), Err(ParseError::Unexpected(Token::Semicolon)));
}

#[test]
fn premature_end_is_end_of_file() {
    assert_eq!(Parser::new("fn main() {").parse(), Err(ParseError::EndOfFile));
}

#[test]
fn scanner_error_surfaces_through_parser() {
    assert_eq!(Parser::new("fn main #").parse(), Err(ParseError::Lexer(LexError::Unknown(1, 8))));
}

#[test]
fn unicode_whitespace_is_skipped() {
    assert_eq!(tokens("\u{b}let\u{a0}\u{3000}mut"), vec![Ok(Token::Let), Ok(Token::Mut)]);
}

#[test]
fn empty_source_is_end_of_file() {
    assert_eq!(Parser::new("").parse(), Err(ParseError::EndOfFile));
    assert_eq!(Parser::new("let").parse(), Err(ParseError::Unexpected(Token::Let)));
}

#[test]
fn tokens_running_out_inside_the_program() {
    assert_eq!(Parser::new("fn main() { let mut x = Box::new(").parse(), Err(ParseError::EndOfFile));
    assert_eq!(Parser::new("fn main() { let mut x = 1;").parse(), Err(ParseError::EndOfFile));
    assert_eq!(Parser::new("fn main() { # }").parse(), Err(ParseError::Lexer(LexError::Unknown(1, 12))));
}
