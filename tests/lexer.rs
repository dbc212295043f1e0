use deci_parser::lexer::Lexer;
use deci_parser::token::Token;

fn lex(s: &str) -> Vec<Token> {
    Lexer::new_from_str(s).tokenize()
}

fn lit(s: &str) -> Token {
    Token::String(s.to_string())
}

fn keyword() -> String {
    ["inc", "lude"].concat()
}

#[test]
fn comment_line_yields_no_token() {
    assert_eq!(lex("# hi\nfoo"), vec![lit("foo"), Token::EOF]);
}

#[test]
fn comment_up_to_end_of_input() {
    assert_eq!(lex("a # rest; | >"), vec![lit("a"), Token::EOF]);
}

#[test]
fn comment_ends_at_carriage_return() {
    assert_eq!(lex("#x\rb"), vec![lit("b"), Token::EOF]);
}

#[test]
fn quoted_keeps_delimiters() {
    assert_eq!(lex("\"a;b\""), vec![lit("a;b"), Token::EOF]);
}

#[test]
fn quoted_keeps_white_space_and_other_quote() {
    assert_eq!(lex("'x = \"y\" | z'"), vec![lit("x = \"y\" | z"), Token::EOF]);
}

#[test]
fn unterminated_quote_runs_to_end() {
    assert_eq!(lex("\"abc def"), vec![lit("abc def"), Token::EOF]);
}

#[test]
fn empty_quotes_yield_no_token() {
    assert_eq!(lex("\"\" a ''"), vec![lit("a"), Token::EOF]);
    assert_eq!(lex("\""), vec![Token::EOF]);
}

#[test]
fn dollar_name_is_one_identifier() {
    assert_eq!(lex("$x"), vec![Token::Ident("x".to_string()), Token::EOF]);
    assert_eq!(lex("$HOME/bin;"), vec![Token::Ident("HOME/bin".to_string()), Token::Semicolon, Token::EOF]);
}

#[test]
fn dollar_alone_is_the_sign() {
    assert_eq!(lex("$ "), vec![Token::Dollar, Token::EOF]);
    assert_eq!(lex("$"), vec![Token::Dollar, Token::EOF]);
    assert_eq!(lex("$|"), vec![Token::Dollar, Token::Pipe, Token::EOF]);
}

#[test]
fn ampersand_number_is_descriptor() {
    assert_eq!(lex("&7 "), vec![Token::Fd(7), Token::EOF]);
    assert_eq!(lex("&12>"), vec![Token::Fd(12), Token::Gt, Token::EOF]);
}

#[test]
fn ampersand_without_number_falls_back() {
    assert_eq!(lex("&x"), vec![Token::Ampersand, lit("x"), Token::EOF]);
    assert_eq!(lex("& 3"), vec![Token::Ampersand, lit("3"), Token::EOF]);
    assert_eq!(lex("&"), vec![Token::Ampersand, Token::EOF]);
    assert_eq!(lex("&+5"), vec![Token::Ampersand, lit("+5"), Token::EOF]);
}

#[test]
fn ampersand_number_too_large_falls_back() {
    assert_eq!(
        lex("&99999999999999999999999"),
        vec![Token::Ampersand, lit("99999999999999999999999"), Token::EOF]
    );
    let max = format!("&{}", usize::MAX);
    assert_eq!(lex(&max), vec![Token::Fd(usize::MAX), Token::EOF]);
}

#[test]
fn structural_characters() {
    assert_eq!(
        lex("a|b=c>d<e;f\ng"),
        vec![
            lit("a"),
            Token::Pipe,
            lit("b"),
            Token::Assign,
            lit("c"),
            Token::Gt,
            lit("d"),
            Token::Lt,
            lit("e"),
            Token::Semicolon,
            lit("f"),
            Token::EOL,
            lit("g"),
            Token::EOF,
        ]
    );
}

#[test]
fn keyword_in_any_case() {
    let k = keyword();
    let mixed: String = k
        .chars()
        .enumerate()
        .map(|(i, c)| if i % 2 == 0 { c.to_ascii_uppercase() } else { c })
        .collect();
    let src = format!("{} x {} {}s {}", k, k.to_uppercase(), k, mixed);
    assert_eq!(
        lex(&src),
        vec![Token::Include, lit("x"), Token::Include, lit(&format!("{}s", k)), Token::Include, Token::EOF]
    );
    assert_eq!(lex("ink"), vec![lit("ink"), Token::EOF]);
}

#[test]
fn white_space_is_skipped_but_newline_is_not() {
    assert_eq!(lex("\t a \r b\u{3000}c\n"), vec![lit("a"), lit("b"), lit("c"), Token::EOL, Token::EOF]);
    assert_eq!(lex(""), vec![Token::EOF]);
    assert_eq!(lex("   "), vec![Token::EOF]);
}

#[test]
fn plain_words_round_trip() {
    let src = "alpha beta gamma";
    let toks = lex(src);
    let words: Vec<String> = toks
        .iter()
        .filter_map(|t| match t {
            Token::String(w) => Some(w.clone()),
            _ => None,
        })
        .collect();
    assert_eq!(toks.last(), Some(&Token::EOF));
    assert_eq!(words.join(" "), src);
}

#[test]
fn end_of_input_is_handed_out_once() {
    let mut l = Lexer::new_from_str("a");
    assert_eq!(l.next(), Some(lit("a")));
    assert_eq!(l.next(), Some(Token::EOF));
    assert_eq!(l.next(), None);
    assert_eq!(l.next(), None);
    assert_eq!(l.peek(), None);
    assert_eq!(l.tokenize(), vec![]);
}

#[test]
fn peek_does_not_advance() {
    let mut l = Lexer::new("x | y".to_string());
    assert_eq!(l.peek(), Some(lit("x")));
    assert_eq!(l.peek(), Some(lit("x")));
    assert_eq!(l.next(), Some(lit("x")));
    assert_eq!(l.peek(), Some(Token::Pipe));
    assert_eq!(l.tokenize(), vec![Token::Pipe, lit("y"), Token::EOF]);
    assert_eq!(l.next(), None);
}

#[test]
fn peek_at_end_of_input() {
    let mut l = Lexer::new_from_str("");
    assert_eq!(l.peek(), Some(Token::EOF));
    assert_eq!(l.next(), Some(Token::EOF));
    assert_eq!(l.peek(), None);
    assert_eq!(l.next(), None);
}

#[test]
fn token_copy_and_equality() {
    let t = Token::Ident("v".to_string());
    assert_eq!(t.duplicate(), t);
    assert_ne!(t, lit("v"));
    assert_ne!(Token::Fd(1), Token::Fd(2));
    assert!(Token::EOF.is_eof());
    assert!(!Token::EOL.is_eof());
}
