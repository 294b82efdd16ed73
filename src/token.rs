//! Lexical tokens of the JSON-like format.
use vstd::prelude::*;

verus! {

/// One lexical unit. A number keeps the literal text it was written with.
#[allow(non_camel_case_types)]
#[derive(Debug, Clone)]
pub enum JSON_Token {
    LBrace,
    RBrace,
    LBracket,
    RBracket,
    Colon,
    Comma,
    Number(String),
    String(String),
    Bool(bool),
    Null,
}

/// The mathematical value of a token.
pub enum TokenModel {
    LBrace,
    RBrace,
    LBracket,
    RBracket,
    Colon,
    Comma,
    Number(Seq<char>),
    Str(Seq<char>),
    Bool(bool),
    Null,
}

impl View for JSON_Token {
    type V = TokenModel;

    open spec fn view(&self) -> TokenModel {
        match self {
            JSON_Token::LBrace => TokenModel::LBrace,
            JSON_Token::RBrace => TokenModel::RBrace,
            JSON_Token::LBracket => TokenModel::LBracket,
            JSON_Token::RBracket => TokenModel::RBracket,
            JSON_Token::Colon => TokenModel::Colon,
            JSON_Token::Comma => TokenModel::Comma,
            JSON_Token::Number(n) => TokenModel::Number(n@),
            JSON_Token::String(s) => TokenModel::Str(s@),
            JSON_Token::Bool(b) => TokenModel::Bool(*b),
            JSON_Token::Null => TokenModel::Null,
        }
    }
}

/// The models of a sequence of tokens.
pub open spec fn tokens_view(ts: Seq<JSON_Token>) -> Seq<TokenModel> {
    ts.map_values(|t: JSON_Token| t@)
}


impl JSON_Token {
    pub fn is_lbrace(&self) -> (r: bool)
        ensures
            r == (self@ is LBrace),
    {
        match *self {
            JSON_Token::LBrace => true,
            _ => false,
        }
    }

    pub fn is_rbrace(&self) -> (r: bool)
        ensures
            r == (self@ is RBrace),
    {
        match *self {
            JSON_Token::RBrace => true,
            _ => false,
        }
    }

    pub fn is_lbracket(&self) -> (r: bool)
        ensures
            r == (self@ is LBracket),
    {
        match *self {
            JSON_Token::LBracket => true,
            _ => false,
        }
    }

    pub fn is_rbracket(&self) -> (r: bool)
        ensures
            r == (self@ is RBracket),
    {
        match *self {
            JSON_Token::RBracket => true,
            _ => false,
        }
    }

    pub fn is_colon(&self) -> (r: bool)
        ensures
            r == (self@ is Colon),
    {
        match *self {
            JSON_Token::Colon => true,
            _ => false,
        }
    }

    pub fn is_comma(&self) -> (r: bool)
        ensures
            r == (self@ is Comma),
    {
        match *self {
            JSON_Token::Comma => true,
            _ => false,
        }
    }

    pub fn is_number(&self) -> (r: bool)
        ensures
            r == (self@ is Number),
    {
        match *self {
            JSON_Token::Number(..) => true,
            _ => false,
        }
    }

    pub fn is_string(&self) -> (r: bool)
        ensures
            r == (self@ is Str),
    {
        match *self {
            JSON_Token::String(..) => true,
            _ => false,
        }
    }

    pub fn is_bool(&self) -> (r: bool)
        ensures
            r == (self@ is Bool),
    {
        match *self {
            JSON_Token::Bool(..) => true,
            _ => false,
        }
    }

    pub fn is_null(&self) -> (r: bool)
        ensures
            r == (self@ is Null),
    {
        match *self {
            JSON_Token::Null => true,
            _ => false,
        }
    }

    /// The literal text of a number token.
    pub fn unwrap_number(&self) -> (r: String)
        requires
            self@ is Number,
        ensures
            r@ == self@->Number_0,
    {
        match self {
            JSON_Token::Number(value) => value.clone(),
            _ => String::new(),
        }
    }

    /// The text of a string token, as it stood between the quotes.
    pub fn unwrap_string(&self) -> (r: String)
        requires
            self@ is Str,
        ensures
            r@ == self@->Str_0,
    {
        match self {
            JSON_Token::String(value) => value.clone(),
            _ => String::new(),
        }
    }

    pub fn unwrap_bool(&self) -> (r: bool)
        requires
            self@ is Bool,
        ensures
            r == self@->Bool_0,
    {
        match *self {
            JSON_Token::Bool(value) => value,
            _ => false,
        }
    }
}

} // verus!
