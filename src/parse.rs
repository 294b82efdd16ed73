//! Recursive-descent parsing of a token sequence into a document. The cursor
//! is a position in one token buffer that only moves forward.
use vstd::prelude::*;

use crate::token::{tokens_view, JSON_Token, TokenModel};
use crate::tokenize::{tokenize, tokenize_json_string};
use crate::value::{array_view, object_view, value_view, JSON_Object, JSON_Value, ValueModel};

verus! {

/// Why a text is not a document.
#[derive(Debug, Clone, Copy, PartialEq, Eq, Structural)]
pub enum JsonError {
    /// Some part of the text is no token.
    Tokenize,
    /// The tokens do not form one object.
    Parse,
}

/// The value that starts at position `i`, with the position just after it.
pub open spec fn value_at(ts: Seq<TokenModel>, i: int) -> Option<(ValueModel, int)>
    decreases ts.len() - i, 1int,
{
    if i < 0 || i >= ts.len() {
        None
    } else {
        match ts[i] {
            TokenModel::LBrace => match object_at(ts, i) {
                Some((m, e)) => Some((ValueModel::Object(m), e)),
                None => None,
            },
            TokenModel::LBracket => match array_at(ts, i) {
                Some((a, e)) => Some((ValueModel::Array(a), e)),
                None => None,
            },
            TokenModel::Number(n) => Some((ValueModel::Number(n), i + 1)),
            TokenModel::Str(s) => Some((ValueModel::Str(s), i + 1)),
            TokenModel::Bool(b) => Some((ValueModel::Bool(b), i + 1)),
            TokenModel::Null => Some((ValueModel::Null, i + 1)),
            _ => None,
        }
    }
}

/// The object that starts with the `{` at position `i`.
pub open spec fn object_at(ts: Seq<TokenModel>, i: int) -> Option<(Map<Seq<char>, ValueModel>, int)>
    decreases ts.len() - i, 0int,
{
    if 0 <= i < ts.len() && ts[i] is LBrace {
        members_from(ts, i + 1, true, Map::empty())
    } else {
        None
    }
}

/// The array that starts with the `[` at position `i`.
pub open spec fn array_at(ts: Seq<TokenModel>, i: int) -> Option<(Seq<ValueModel>, int)>
    decreases ts.len() - i, 0int,
{
    if 0 <= i < ts.len() && ts[i] is LBracket {
        elements_from(ts, i + 1, true, Seq::empty())
    } else {
        None
    }
}

/// A key, a `:` and a value from position `j`, with the position after them.
pub open spec fn pair_at(ts: Seq<TokenModel>, j: int) -> Option<(Seq<char>, ValueModel, int)>
    decreases ts.len() - j, 2int,
{
    if 0 <= j && j + 1 < ts.len() && ts[j] is Str && ts[j + 1] is Colon {
        match value_at(ts, j + 2) {
            Some((v, e)) => Some((ts[j]->Str_0, v, e)),
            None => None,
        }
    } else {
        None
    }
}

/// The rest of an object from position `i`, `acc` holding the members read
/// so far: a `}`, or a member (after a `,` unless it is the first) and the rest.
pub open spec fn members_from(
    ts: Seq<TokenModel>,
    i: int,
    first: bool,
    acc: Map<Seq<char>, ValueModel>,
) -> Option<(Map<Seq<char>, ValueModel>, int)>
    decreases ts.len() - i, 3int,
{
    if i < 0 || i >= ts.len() {
        None
    } else if ts[i] is RBrace {
        Some((acc, i + 1))
    } else if !first && !(ts[i] is Comma) {
        None
    } else {
        let j = if first {
            i
        } else {
            i + 1
        };
        match pair_at(ts, j) {
            Some((k, v, e)) => {
                // a member always takes up at least one token
                if i < e <= ts.len() {
                    members_from(ts, e, false, acc.insert(k, v))
                } else {
                    None
                }
            },
            None => None,
        }
    }
}

/// The rest of an array from position `i`, `acc` holding the elements read
/// so far: a `]`, or an element (after a `,` unless it is the first) and the rest.
pub open spec fn elements_from(ts: Seq<TokenModel>, i: int, first: bool, acc: Seq<ValueModel>) -> Option<
    (Seq<ValueModel>, int),
>
    decreases ts.len() - i, 3int,
{
    if i < 0 || i >= ts.len() {
        None
    } else if ts[i] is RBracket {
        Some((acc, i + 1))
    } else if !first && !(ts[i] is Comma) {
        None
    } else {
        let j = if first {
            i
        } else {
            i + 1
        };
        match value_at(ts, j) {
            Some((v, e)) => {
                // an element always takes up at least one token
                if i < e <= ts.len() {
                    elements_from(ts, e, false, acc.push(v))
                } else {
                    None
                }
            },
            None => None,
        }
    }
}

/// The object that the whole token sequence forms, if it forms one.
pub open spec fn parse_tokens(ts: Seq<TokenModel>) -> Option<Map<Seq<char>, ValueModel>> {
    match object_at(ts, 0) {
        Some((m, e)) => if e == ts.len() {
            Some(m)
        } else {
            None
        },
        None => None,
    }
}

/// The document that a text stands for.
pub open spec fn parse_document(s: Seq<char>) -> Result<Map<Seq<char>, ValueModel>, JsonError> {
    match tokenize(s) {
        None => Err(JsonError::Tokenize),
        Some(ts) => match parse_tokens(ts) {
            Some(m) => Ok(m),
            None => Err(JsonError::Parse),
        },
    }
}

proof fn lemma_view_index(tokens: Seq<JSON_Token>, i: int)
    requires
        0 <= i < tokens.len(),
    ensures
        tokens_view(tokens).len() == tokens.len(),
        tokens_view(tokens)[i] == tokens[i]@,
{
}

/// Reads the value that starts at `pos`.
fn peel_value(tokens: &[JSON_Token], pos: usize) -> (r: Option<(JSON_Value, usize)>)
    requires
        pos <= tokens@.len(),
    ensures
        match r {
            Some((v, e)) => value_at(tokens_view(tokens@), pos as int) == Some(
                (value_view(v), e as int),
            ) && pos < e <= tokens@.len(),
            None => value_at(tokens_view(tokens@), pos as int) is None,
        },
    decreases tokens@.len() - pos, 1int,
{
    if pos >= tokens.len() {
        return None;
    }
    proof {
        lemma_view_index(tokens@, pos as int);
    }
    match &tokens[pos] {
        JSON_Token::LBrace => match peel_object(tokens, pos) {
            Some((object, e)) => Some((JSON_Value::Object(object), e)),
            None => None,
        },
        JSON_Token::LBracket => match peel_array(tokens, pos) {
            Some((array, e)) => Some((JSON_Value::Array(array), e)),
            None => None,
        },
        JSON_Token::Number(n) => Some((JSON_Value::Number(n.clone()), pos + 1)),
        JSON_Token::String(s) => Some((JSON_Value::String(s.clone()), pos + 1)),
        JSON_Token::Bool(b) => Some((JSON_Value::Bool(*b), pos + 1)),
        JSON_Token::Null => Some((JSON_Value::Null, pos + 1)),
        _ => None,
    }
}

/// Reads a key, a `:` and a value from `pos`.
fn peel_key_value_pair(tokens: &[JSON_Token], pos: usize) -> (r: Option<(String, JSON_Value, usize)>)
    requires
        pos <= tokens@.len(),
    ensures
        match r {
            Some((k, v, e)) => pair_at(tokens_view(tokens@), pos as int) == Some(
                (k@, value_view(v), e as int),
            ) && pos < e <= tokens@.len(),
            None => pair_at(tokens_view(tokens@), pos as int) is None,
        },
    decreases tokens@.len() - pos, 2int,
{
    if tokens.len() < 3 || pos > tokens.len() - 3 {
        return None;
    }
    proof {
        lemma_view_index(tokens@, pos as int);
        lemma_view_index(tokens@, pos + 1);
    }
    if !tokens[pos].is_string() || !tokens[pos + 1].is_colon() {
        return None;
    }
    let key = tokens[pos].unwrap_string();
    match peel_value(tokens, pos + 2) {
        Some((value, e)) => Some((key, value, e)),
        None => None,
    }
}

/// Reads the object whose `{` stands at `pos`.
fn peel_object(tokens: &[JSON_Token], pos: usize) -> (r: Option<(JSON_Object, usize)>)
    requires
        pos <= tokens@.len(),
    ensures
        match r {
            Some((o, e)) => object_at(tokens_view(tokens@), pos as int) == Some(
                (object_view(o), e as int),
            ) && pos < e <= tokens@.len(),
            None => object_at(tokens_view(tokens@), pos as int) is None,
        },
    decreases tokens@.len() - pos, 0int,
{
    let ghost ts = tokens_view(tokens@);
    if pos >= tokens.len() {
        return None;
    }
    proof {
        lemma_view_index(tokens@, pos as int);
    }
    if !tokens[pos].is_lbrace() {
        return None;
    }
    let mut object = JSON_Object::new();
    let mut i = pos + 1;
    let mut first = true;
    while i < tokens.len()
        invariant
            ts == tokens_view(tokens@),
            pos < i <= tokens@.len(),
            0 <= pos < ts.len() && ts[pos as int] is LBrace,
            object_at(ts, pos as int) == members_from(ts, i as int, first, object_view(object)),
        decreases tokens@.len() - i,
    {
        proof {
            lemma_view_index(tokens@, i as int);
        }
        if tokens[i].is_rbrace() {
            return Some((object, i + 1));
        }
        let mut j = i;
        if !first {
            if !tokens[i].is_comma() {
                return None;
            }
            j = i + 1;
        }
        match peel_key_value_pair(tokens, j) {
            Some((key, value, e)) => {
                object.insert(key, value);
                i = e;
            },
            None => {
                return None;
            },
        }
        first = false;
    }
    None
}

/// Reads the array whose `[` stands at `pos`.
fn peel_array(tokens: &[JSON_Token], pos: usize) -> (r: Option<(Vec<JSON_Value>, usize)>)
    requires
        pos <= tokens@.len(),
    ensures
        match r {
            Some((a, e)) => array_at(tokens_view(tokens@), pos as int) == Some(
                (array_view(a@), e as int),
            ) && pos < e <= tokens@.len(),
            None => array_at(tokens_view(tokens@), pos as int) is None,
        },
    decreases tokens@.len() - pos, 0int,
{
    let ghost ts = tokens_view(tokens@);
    if pos >= tokens.len() {
        return None;
    }
    proof {
        lemma_view_index(tokens@, pos as int);
    }
    if !tokens[pos].is_lbracket() {
        return None;
    }
    let mut array: Vec<JSON_Value> = Vec::new();
    let mut i = pos + 1;
    let mut first = true;
    proof {
        assert(array_view(array@) =~= Seq::<ValueModel>::empty());
    }
    while i < tokens.len()
        invariant
            ts == tokens_view(tokens@),
            pos < i <= tokens@.len(),
            0 <= pos < ts.len() && ts[pos as int] is LBracket,
            array_at(ts, pos as int) == elements_from(ts, i as int, first, array_view(array@)),
        decreases tokens@.len() - i,
    {
        proof {
            lemma_view_index(tokens@, i as int);
        }
        if tokens[i].is_rbracket() {
            return Some((array, i + 1));
        }
        let mut j = i;
        if !first {
            if !tokens[i].is_comma() {
                return None;
            }
            j = i + 1;
        }
        match peel_value(tokens, j) {
            Some((value, e)) => {
                let ghost prev = array@;
                let ghost vv = value_view(value);
                array.push(value);
                proof {
                    assert(array@.drop_last() =~= prev);
                    assert(array_view(array@) == array_view(prev).push(vv));
                }
                i = e;
            },
            None => {
                return None;
            },
        }
        first = false;
    }
    None
}

/// The object that the whole token sequence forms: it must open with `{`
/// and leave no token after the matching `}`.
pub fn json_object_from_tokens(tokens: &[JSON_Token]) -> (r: Option<JSON_Object>)
    ensures
        match r {
            Some(o) => parse_tokens(tokens_view(tokens@)) == Some(object_view(o)),
            None => parse_tokens(tokens_view(tokens@)) is None,
        },
{
    match peel_object(tokens, 0) {
        Some((object, tail)) => {
            if tail == tokens.len() {
                Some(object)
            } else {
                None
            }
        },
        None => None,
    }
}

/// Parses a text whose top level is one object. A top level that is an
/// array or a scalar, a malformed structure or tokens left over give
/// `JsonError::Parse`; text that cannot be tokenized gives `JsonError::Tokenize`.
pub fn parse_json_string(json_str: &str) -> (r: Result<JSON_Object, JsonError>)
    ensures
        match r {
            Ok(o) => parse_document(json_str@) == Ok::<_, JsonError>(object_view(o)),
            Err(e) => parse_document(json_str@) == Err::<Map<Seq<char>, ValueModel>, _>(e),
        },
{
    match tokenize_json_string(json_str) {
        Some(tokens) => match json_object_from_tokens(tokens.as_slice()) {
            Some(object) => Ok(object),
            None => Err(JsonError::Parse),
        },
        None => Err(JsonError::Tokenize),
    }
}

} // verus!
