use vstd::prelude::*;

verus! {

/// The lexical units of the language.
#[derive(Debug, Clone)]
pub enum Token {
    EOF,
    EOL,
    Pipe,
    Assign,
    Gt,
    Lt,
    Semicolon,
    Dollar,
    Ampersand,
    Include,
    Ident(String),
    String(String),
    Fd(usize),
}

/// Mathematical model of a token: text payloads as sequences of chars.
pub enum TokenModel {
    EOF,
    EOL,
    Pipe,
    Assign,
    Gt,
    Lt,
    Semicolon,
    Dollar,
    Ampersand,
    Include,
    Ident(Seq<char>),
    String(Seq<char>),
    Fd(nat),
}

impl View for Token {
    type V = TokenModel;

    open spec fn view(&self) -> TokenModel {
        match self {
            Token::EOF => TokenModel::EOF,
            Token::EOL => TokenModel::EOL,
            Token::Pipe => TokenModel::Pipe,
            Token::Assign => TokenModel::Assign,
            Token::Gt => TokenModel::Gt,
            Token::Lt => TokenModel::Lt,
            Token::Semicolon => TokenModel::Semicolon,
            Token::Dollar => TokenModel::Dollar,
            Token::Ampersand => TokenModel::Ampersand,
            Token::Include => TokenModel::Include,
            Token::Ident(s) => TokenModel::Ident(s@),
            Token::String(s) => TokenModel::String(s@),
            Token::Fd(n) => TokenModel::Fd(*n as nat),
        }
    }
}

impl Token {
    /// A copy of the token, with the same model.
    pub fn duplicate(&self) -> (r: Token)
        ensures
            r@ == self@,
    {
        match self {
            Token::EOF => Token::EOF,
            Token::EOL => Token::EOL,
            Token::Pipe => Token::Pipe,
            Token::Assign => Token::Assign,
            Token::Gt => Token::Gt,
            Token::Lt => Token::Lt,
            Token::Semicolon => Token::Semicolon,
            Token::Dollar => Token::Dollar,
            Token::Ampersand => Token::Ampersand,
            Token::Include => Token::Include,
            Token::Ident(s) => Token::Ident(s.clone()),
            Token::String(s) => Token::String(s.clone()),
            Token::Fd(n) => Token::Fd(*n),
        }
    }

    /// Whether this is the end-of-input sentinel.
    pub fn is_eof(&self) -> (r: bool)
        ensures
            r == (self@ is EOF),
    {
        match self {
            Token::EOF => true,
            _ => false,
        }
    }
}

impl PartialEq for Token {
    fn eq(&self, other: &Token) -> (r: bool) {
        match (self, other) {
            (Token::EOF, Token::EOF) => true,
            (Token::EOL, Token::EOL) => true,
            (Token::Pipe, Token::Pipe) => true,
            (Token::Assign, Token::Assign) => true,
            (Token::Gt, Token::Gt) => true,
            (Token::Lt, Token::Lt) => true,
            (Token::Semicolon, Token::Semicolon) => true,
            (Token::Dollar, Token::Dollar) => true,
            (Token::Ampersand, Token::Ampersand) => true,
            (Token::Include, Token::Include) => true,
            (Token::Ident(a), Token::Ident(b)) => *a == *b,
            (Token::String(a), Token::String(b)) => *a == *b,
            (Token::Fd(a), Token::Fd(b)) => *a == *b,
            _ => false,
        }
    }
}

impl vstd::std_specs::cmp::PartialEqSpecImpl for Token {
    open spec fn obeys_eq_spec() -> bool {
        true
    }

    open spec fn eq_spec(&self, other: &Token) -> bool {
        self@ == other@
    }
}

} // verus!
