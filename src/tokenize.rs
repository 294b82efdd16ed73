//! Tokenization: text to a sequence of tokens, in one left-to-right pass.
use vstd::prelude::*;

use crate::number::{is_float_literal, is_float_literal_at};
use crate::token::{tokens_view, JSON_Token, TokenModel};

verus! {

pub open spec fn is_json_whitespace(c: char) -> bool {
    c == ' ' || c == '\t' || c == '\n' || c == '\r'
}

/// A character that ends a bare word.
pub open spec fn is_word_delimiter(c: char) -> bool {
    ||| is_json_whitespace(c)
    ||| c == ',' || c == ':' || c == '{' || c == '}' || c == '[' || c == ']'
    ||| c == '"' || c == '\''
}

pub open spec fn punctuation(c: char) -> Option<TokenModel> {
    if c == '{' {
        Some(TokenModel::LBrace)
    } else if c == '}' {
        Some(TokenModel::RBrace)
    } else if c == '[' {
        Some(TokenModel::LBracket)
    } else if c == ']' {
        Some(TokenModel::RBracket)
    } else if c == ':' {
        Some(TokenModel::Colon)
    } else if c == ',' {
        Some(TokenModel::Comma)
    } else {
        None
    }
}

/// The characters that may follow a backslash in a quoted string.
pub open spec fn is_escape_char(c: char) -> bool {
    c == '"' || c == '\\' || c == '/' || c == 'b' || c == 'f' || c == 'n' || c == 'r' || c == 't'
        || c == 'u'
}

pub open spec fn is_hex_digit(c: char) -> bool {
    ('0' <= c <= '9') || ('a' <= c <= 'f') || ('A' <= c <= 'F')
}

/// Where the scan of a quoted string stands: in plain text, just after a
/// backslash, or after `\u` and the given number of hex digits.
#[derive(Clone, Copy)]
pub enum QuoteState {
    Normal,
    Escape,
    UnicodeHex(u8),
}

/// The index of the quote that closes a string, scanning from `i` in state
/// `st`; `None` where the string is malformed or never closed.
pub open spec fn closing_quote(s: Seq<char>, i: int, st: QuoteState) -> Option<int>
    decreases s.len() - i,
{
    if i < 0 || i >= s.len() {
        None
    } else {
        let c = s[i];
        match st {
            QuoteState::Normal => if c == '"' {
                Some(i)
            } else if c == '\\' {
                closing_quote(s, i + 1, QuoteState::Escape)
            } else {
                closing_quote(s, i + 1, QuoteState::Normal)
            },
            QuoteState::Escape => if c == 'u' {
                closing_quote(s, i + 1, QuoteState::UnicodeHex(0))
            } else if is_escape_char(c) {
                closing_quote(s, i + 1, QuoteState::Normal)
            } else {
                None
            },
            QuoteState::UnicodeHex(n) => if !is_hex_digit(c) {
                None
            } else if n >= 3 {
                closing_quote(s, i + 1, QuoteState::Normal)
            } else {
                closing_quote(s, i + 1, QuoteState::UnicodeHex((n + 1) as u8))
            },
        }
    }
}

/// The end of the bare word that starts at `i`.
pub open spec fn word_end(s: Seq<char>, i: int) -> int
    decreases s.len() - i,
{
    if 0 <= i < s.len() && !is_word_delimiter(s[i]) {
        word_end(s, i + 1)
    } else {
        i
    }
}

/// The first index at or after `i` that holds no whitespace.
pub open spec fn skip_whitespace(s: Seq<char>, i: int) -> int
    decreases s.len() - i,
{
    if 0 <= i < s.len() && is_json_whitespace(s[i]) {
        skip_whitespace(s, i + 1)
    } else {
        i
    }
}

/// The token that a bare word stands for, if any.
pub open spec fn word_token(w: Seq<char>) -> Option<TokenModel> {
    if w == seq!['t', 'r', 'u', 'e'] {
        Some(TokenModel::Bool(true))
    } else if w == seq!['f', 'a', 'l', 's', 'e'] {
        Some(TokenModel::Bool(false))
    } else if w == seq!['n', 'u', 'l', 'l'] {
        Some(TokenModel::Null)
    } else if is_float_literal(w) {
        Some(TokenModel::Number(w))
    } else {
        None
    }
}

/// The outcome of reading one token from position `i`.
pub enum LexStep {
    /// Only whitespace is left.
    End,
    /// A token, and the position just after it.
    Token(TokenModel, int),
    /// The text at this point is no token.
    Invalid,
}

/// Reads one token after skipping whitespace from `i`. A string token holds
/// what stands between its quotes, escape sequences as written.
pub open spec fn lex_step(s: Seq<char>, i: int) -> LexStep {
    let j = skip_whitespace(s, i);
    if j >= s.len() {
        LexStep::End
    } else if punctuation(s[j]) is Some {
        LexStep::Token(punctuation(s[j])->Some_0, j + 1)
    } else if s[j] == '"' {
        match closing_quote(s, j + 1, QuoteState::Normal) {
            Some(e) => LexStep::Token(TokenModel::Str(s.subrange(j + 1, e)), e + 1),
            None => LexStep::Invalid,
        }
    } else {
        let e = word_end(s, j);
        match word_token(s.subrange(j, e)) {
            Some(t) => LexStep::Token(t, e),
            None => LexStep::Invalid,
        }
    }
}

/// The tokens of `s` from position `i` on, or `None` where the text holds
/// something that is no token.
pub open spec fn tokens_from(s: Seq<char>, i: int) -> Option<Seq<TokenModel>>
    decreases s.len() - i,
{
    match lex_step(s, i) {
        LexStep::End => Some(Seq::empty()),
        LexStep::Invalid => None,
        LexStep::Token(t, e) => {
            // every token takes up at least one character
            if i < e <= s.len() {
                match tokens_from(s, e) {
                    Some(rest) => Some(seq![t] + rest),
                    None => None,
                }
            } else {
                None
            }
        },
    }
}

/// The tokens of the whole text, or `None` where it cannot be tokenized.
pub open spec fn tokenize(s: Seq<char>) -> Option<Seq<TokenModel>> {
    tokens_from(s, 0)
}


/// `p` put in front of the tokens in `o`, or `None` where `o` is `None`.
pub open spec fn prepend_tokens(p: Seq<TokenModel>, o: Option<Seq<TokenModel>>) -> Option<
    Seq<TokenModel>,
> {
    match o {
        Some(rest) => Some(p + rest),
        None => None,
    }
}

/// Relies on `str::chars`, collected into a `Vec`: the characters of the
/// string, in order.
#[verifier::external_body]
fn chars_of(s: &str) -> (r: Vec<char>)
    ensures
        r@ == s@,
{
    s.chars().collect()
}

/// Relies on `String`'s `FromIterator<&char>`: a string of the given
/// characters, in order.
#[verifier::external_body]
fn string_of(cs: &[char]) -> (r: String)
    ensures
        r@ == cs@,
{
    cs.iter().collect()
}

fn is_whitespace_char(c: char) -> (r: bool)
    ensures
        r == is_json_whitespace(c),
{
    c == ' ' || c == '\t' || c == '\n' || c == '\r'
}

fn is_delimiter(c: char) -> (r: bool)
    ensures
        r == is_word_delimiter(c),
{
    is_whitespace_char(c) || c == ',' || c == ':' || c == '{' || c == '}' || c == '[' || c == ']'
        || c == '"' || c == '\''
}

fn is_hexadecimal(c: char) -> (r: bool)
    ensures
        r == is_hex_digit(c),
{
    ('0' <= c && c <= '9') || ('a' <= c && c <= 'f') || ('A' <= c && c <= 'F')
}

fn is_escape(c: char) -> (r: bool)
    ensures
        r == is_escape_char(c),
{
    c == '"' || c == '\\' || c == '/' || c == 'b' || c == 'f' || c == 'n' || c == 'r' || c == 't'
        || c == 'u'
}

fn punctuation_token(c: char) -> (r: Option<JSON_Token>)
    ensures
        match r {
            Some(t) => punctuation(c) == Some(t@),
            None => punctuation(c) is None,
        },
{
    if c == '{' {
        Some(JSON_Token::LBrace)
    } else if c == '}' {
        Some(JSON_Token::RBrace)
    } else if c == '[' {
        Some(JSON_Token::LBracket)
    } else if c == ']' {
        Some(JSON_Token::RBracket)
    } else if c == ':' {
        Some(JSON_Token::Colon)
    } else if c == ',' {
        Some(JSON_Token::Comma)
    } else {
        None
    }
}

fn skip_whitespace_from(s: &[char], i: usize) -> (r: usize)
    requires
        i <= s@.len(),
    ensures
        r == skip_whitespace(s@, i as int),
        i <= r <= s@.len(),
{
    let mut j = i;
    while j < s.len() && is_whitespace_char(s[j])
        invariant
            i <= j <= s@.len(),
            skip_whitespace(s@, i as int) == skip_whitespace(s@, j as int),
        decreases s@.len() - j,
    {
        j = j + 1;
    }
    j
}

/// Scans the quoted string whose opening quote stands at `open`, and returns
/// the index of its closing quote. Escape sequences are checked: a backslash
/// takes one of `" \ / b f n r t u`, and `\u` four hex digits.
fn peel_quoted_string(s: &[char], open: usize) -> (r: Option<usize>)
    requires
        open < s@.len(),
    ensures
        match r {
            Some(e) => closing_quote(s@, open + 1, QuoteState::Normal) == Some(e as int) && open
                < e < s@.len(),
            None => closing_quote(s@, open + 1, QuoteState::Normal) is None,
        },
{
    let mut st = QuoteState::Normal;
    let n: usize = s.len();
    let mut i = open + 1;
    while i < s.len()
        invariant
            open < i <= s@.len(),
            closing_quote(s@, open + 1, QuoteState::Normal) == closing_quote(s@, i as int, st),
        decreases s@.len() - i,
    {
        let c = s[i];
        match st {
            QuoteState::Normal => {
                if c == '"' {
                    return Some(i);
                } else if c == '\\' {
                    st = QuoteState::Escape;
                }
            },
            QuoteState::Escape => {
                if c == 'u' {
                    st = QuoteState::UnicodeHex(0);
                } else if is_escape(c) {
                    st = QuoteState::Normal;
                } else {
                    return None;
                }
            },
            QuoteState::UnicodeHex(n) => {
                if !is_hexadecimal(c) {
                    return None;
                } else if n >= 3 {
                    st = QuoteState::Normal;
                } else {
                    st = QuoteState::UnicodeHex(n + 1);
                }
            },
        }
        i = i + 1;
    }
    None
}

/// The end of the bare word that starts at `start`.
fn peel_one_word(s: &[char], start: usize) -> (r: usize)
    requires
        start <= s@.len(),
    ensures
        r == word_end(s@, start as int),
        start <= r <= s@.len(),
{
    let mut i = start;
    while i < s.len() && !is_delimiter(s[i])
        invariant
            start <= i <= s@.len(),
            word_end(s@, start as int) == word_end(s@, i as int),
        decreases s@.len() - i,
    {
        i = i + 1;
    }
    i
}

/// The token for the bare word `s[from..to]`, if it stands for one.
fn word_to_token(s: &[char], from: usize, to: usize) -> (r: Option<JSON_Token>)
    requires
        from <= to <= s@.len(),
    ensures
        match r {
            Some(t) => word_token(s@.subrange(from as int, to as int)) == Some(t@),
            None => word_token(s@.subrange(from as int, to as int)) is None,
        },
{
    let ghost w = s@.subrange(from as int, to as int);
    let n = to - from;
    if n == 4 && s[from] == 't' && s[from + 1] == 'r' && s[from + 2] == 'u' && s[from + 3] == 'e' {
        proof {
            assert(w =~= seq!['t', 'r', 'u', 'e']);
        }
        return Some(JSON_Token::Bool(true));
    }
    if n == 5 && s[from] == 'f' && s[from + 1] == 'a' && s[from + 2] == 'l' && s[from + 3] == 's'
        && s[from + 4] == 'e' {
        proof {
            assert(w =~= seq!['f', 'a', 'l', 's', 'e']);
        }
        return Some(JSON_Token::Bool(false));
    }
    if n == 4 && s[from] == 'n' && s[from + 1] == 'u' && s[from + 2] == 'l' && s[from + 3] == 'l' {
        proof {
            assert(w =~= seq!['n', 'u', 'l', 'l']);
        }
        return Some(JSON_Token::Null);
    }
    proof {
        let t = seq!['t', 'r', 'u', 'e'];
        let f = seq!['f', 'a', 'l', 's', 'e'];
        let z = seq!['n', 'u', 'l', 'l'];
        if w == t {
            assert(t.len() == 4 && t[0] == 't' && t[1] == 'r' && t[2] == 'u' && t[3] == 'e');
            assert(w[0] == s@[from as int] && w[1] == s@[from + 1] && w[2] == s@[from + 2] && w[3]
                == s@[from + 3]);
        }
        if w == f {
            assert(f.len() == 5 && f[0] == 'f' && f[1] == 'a' && f[2] == 'l' && f[3] == 's' && f[4]
                == 'e');
            assert(w[0] == s@[from as int] && w[1] == s@[from + 1] && w[2] == s@[from + 2] && w[3]
                == s@[from + 3] && w[4] == s@[from + 4]);
        }
        if w == z {
            assert(z.len() == 4 && z[0] == 'n' && z[1] == 'u' && z[2] == 'l' && z[3] == 'l');
            assert(w[0] == s@[from as int] && w[1] == s@[from + 1] && w[2] == s@[from + 2] && w[3]
                == s@[from + 3]);
        }
    }
    if is_float_literal_at(s, from, to) {
        let text = string_of(vstd::slice::slice_subrange(s, from, to));
        Some(JSON_Token::Number(text))
    } else {
        None
    }
}

/// Reads the token that follows position `pos`, after any whitespace:
/// `Ok(None)` where only whitespace is left, `Err(())` where the text there
/// is no token, else the token and the position just after it.
fn peel_json_token(s: &[char], pos: usize) -> (r: Result<Option<(JSON_Token, usize)>, ()>)
    requires
        pos <= s@.len(),
    ensures
        match r {
            Ok(None) => lex_step(s@, pos as int) is End,
            Ok(Some((t, e))) => lex_step(s@, pos as int) == LexStep::Token(t@, e as int) && pos < e
                <= s@.len(),
            Err(_) => lex_step(s@, pos as int) is Invalid,
        },
{
    let j = skip_whitespace_from(s, pos);
    if j >= s.len() {
        return Ok(None);
    }
    let c = s[j];
    if let Some(t) = punctuation_token(c) {
        return Ok(Some((t, j + 1)));
    }
    if c == '"' {
        match peel_quoted_string(s, j) {
            Some(e) => {
                let body = string_of(vstd::slice::slice_subrange(s, j + 1, e));
                Ok(Some((JSON_Token::String(body), e + 1)))
            },
            None => Err(()),
        }
    } else {
        let e = peel_one_word(s, j);
        match word_to_token(s, j, e) {
            Some(t) => {
                proof {
                    if e == j {
                        assert(s@.subrange(j as int, e as int).len() == 0);
                        assert(!is_float_literal(s@.subrange(j as int, e as int)));
                    }
                }
                Ok(Some((t, e)))
            },
            None => Err(()),
        }
    }
}

/// Splits `json` into tokens, or returns `None` where some part of it is no
/// token: an unterminated string, a bad escape, or a bare word that is neither
/// `true`, `false`, `null` nor a number.
pub fn tokenize_json_string(json: &str) -> (r: Option<Vec<JSON_Token>>)
    ensures
        match r {
            Some(ts) => tokenize(json@) == Some(tokens_view(ts@)),
            None => tokenize(json@) is None,
        },
{
    let s = chars_of(json);
    let mut tokens: Vec<JSON_Token> = Vec::new();
    let mut pos: usize = 0;
    proof {
        assert(tokens_view(tokens@) =~= Seq::<TokenModel>::empty());
        assert(prepend_tokens(tokens_view(tokens@), tokens_from(s@, 0)) =~= tokens_from(s@, 0));
    }
    loop
        invariant
            s@ == json@,
            pos <= s@.len(),
            tokenize(json@) == prepend_tokens(tokens_view(tokens@), tokens_from(s@, pos as int)),
        decreases s@.len() - pos,
    {
        match peel_json_token(s.as_slice(), pos) {
            Ok(None) => {
                proof {
                    assert(tokens_view(tokens@) + Seq::<TokenModel>::empty() =~= tokens_view(
                        tokens@,
                    ));
                }
                return Some(tokens);
            },
            Ok(Some((t, e))) => {
                let ghost prev = tokens_view(tokens@);
                proof {
                    assert(tokens_view(tokens@.push(t)) =~= prev.push(t@));
                    match tokens_from(s@, e as int) {
                        Some(rest) => {
                            assert(prev + (seq![t@] + rest) =~= prev.push(t@) + rest);
                        },
                        None => {},
                    }
                }
                tokens.push(t);
                pos = e;
            },
            Err(_) => {
                return None;
            },
        }
    }
}
} // verus!
