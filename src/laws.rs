//! Laws that relate the parser to the documents it reads.
use vstd::prelude::*;

use crate::parse::{
    elements_from, members_from, pair_at, parse_document, parse_tokens, value_at,
    JsonError,
};
use crate::number::{
    eq_ignore_case, is_digit, is_exponent_digits, is_exponent_mark, is_float_literal, is_mantissa,
    is_sign, is_special_float, unsigned_part,
};
use crate::token::TokenModel;
use crate::tokenize::{
    closing_quote, is_json_whitespace, is_word_delimiter, lex_step, punctuation, skip_whitespace,
    tokens_from, word_end, word_token, LexStep, QuoteState,
};
use crate::value::ValueModel;

verus! {

/// A document as written: objects list their members in order, and a key may
/// be written more than once.
pub enum Doc {
    Str(Seq<char>),
    Number(Seq<char>),
    Object(Seq<(Seq<char>, Doc)>),
    Array(Seq<Doc>),
    Bool(bool),
    Null,
}

/// The tokens in which a document is written.
pub open spec fn render(d: Doc) -> Seq<TokenModel>
    decreases d,
{
    match d {
        Doc::Str(s) => seq![TokenModel::Str(s)],
        Doc::Number(n) => seq![TokenModel::Number(n)],
        Doc::Bool(b) => seq![TokenModel::Bool(b)],
        Doc::Null => seq![TokenModel::Null],
        Doc::Array(items) => seq![TokenModel::LBracket] + render_items(items, true) + seq![
            TokenModel::RBracket,
        ],
        Doc::Object(members) => seq![TokenModel::LBrace] + render_members(members, true) + seq![
            TokenModel::RBrace,
        ],
    }
}

/// The tokens of a list of elements, each after a `,` but the first.
pub open spec fn render_items(items: Seq<Doc>, first: bool) -> Seq<TokenModel>
    decreases items,
{
    if items.len() == 0 {
        Seq::empty()
    } else {
        let sep = if first {
            Seq::empty()
        } else {
            seq![TokenModel::Comma]
        };
        sep + render(items[0]) + render_items(items.drop_first(), false)
    }
}

/// The tokens of a list of members `key : value`, each after a `,` but the first.
pub open spec fn render_members(members: Seq<(Seq<char>, Doc)>, first: bool) -> Seq<TokenModel>
    decreases members,
{
    if members.len() == 0 {
        Seq::empty()
    } else {
        let sep = if first {
            Seq::empty()
        } else {
            seq![TokenModel::Comma]
        };
        sep + seq![TokenModel::Str(members[0].0), TokenModel::Colon] + render(members[0].1)
            + render_members(members.drop_first(), false)
    }
}

/// What a document means: numbers and strings as written, an object as a
/// mapping in which a later member wins over an earlier one with its key.
pub open spec fn meaning(d: Doc) -> ValueModel
    decreases d,
{
    match d {
        Doc::Str(s) => ValueModel::Str(s),
        Doc::Number(n) => ValueModel::Number(n),
        Doc::Bool(b) => ValueModel::Bool(b),
        Doc::Null => ValueModel::Null,
        Doc::Array(items) => ValueModel::Array(meaning_items(items)),
        Doc::Object(members) => ValueModel::Object(meaning_members(members, Map::empty())),
    }
}

pub open spec fn meaning_items(items: Seq<Doc>) -> Seq<ValueModel>
    decreases items,
{
    if items.len() == 0 {
        Seq::empty()
    } else {
        seq![meaning(items[0])] + meaning_items(items.drop_first())
    }
}

/// `acc` with the members put in, first to last.
pub open spec fn meaning_members(
    members: Seq<(Seq<char>, Doc)>,
    acc: Map<Seq<char>, ValueModel>,
) -> Map<Seq<char>, ValueModel>
    decreases members,
{
    if members.len() == 0 {
        acc
    } else {
        meaning_members(members.drop_first(), acc.insert(members[0].0, meaning(members[0].1)))
    }
}

/// `ts` holds `part` from position `i` on.
pub open spec fn holds_at<A>(ts: Seq<A>, i: int, part: Seq<A>) -> bool {
    0 <= i && i + part.len() <= ts.len() && ts.subrange(i, i + part.len()) == part
}

proof fn lemma_holds_split<A>(ts: Seq<A>, i: int, a: Seq<A>, b: Seq<A>)
    requires
        holds_at(ts, i, a + b),
    ensures
        holds_at(ts, i, a),
        holds_at(ts, i + a.len(), b),
{
    let whole = ts.subrange(i, i + a.len() + b.len());
    assert(whole == a + b);
    assert(ts.subrange(i, i + a.len()) =~= whole.subrange(0, a.len() as int));
    assert(whole.subrange(0, a.len() as int) =~= a);
    assert(ts.subrange(i + a.len(), i + a.len() + b.len()) =~= whole.subrange(
        a.len() as int,
        whole.len() as int,
    ));
    assert(whole.subrange(a.len() as int, whole.len() as int) =~= b);
}

proof fn lemma_holds_index<A>(ts: Seq<A>, i: int, part: Seq<A>, k: int)
    requires
        holds_at(ts, i, part),
        0 <= k < part.len(),
    ensures
        ts[i + k] == part[k],
{
    assert(ts.subrange(i, i + part.len())[k] == ts[i + k]);
}

proof fn lemma_render_nonempty(d: Doc)
    ensures
        render(d).len() > 0,
{
    match d {
        Doc::Array(items) => {
            assert((seq![TokenModel::LBracket] + render_items(items, true) + seq![
                TokenModel::RBracket,
            ]).len() > 0);
        },
        Doc::Object(members) => {
            assert((seq![TokenModel::LBrace] + render_members(members, true) + seq![
                TokenModel::RBrace,
            ]).len() > 0);
        },
        _ => {},
    }
}

/// Where the tokens of a document stand at position `i`, the value read there
/// is what the document means, and reading stops just after those tokens.
pub proof fn lemma_value_of_render(d: Doc, ts: Seq<TokenModel>, i: int)
    requires
        holds_at(ts, i, render(d)),
    ensures
        value_at(ts, i) == Some((meaning(d), i + render(d).len())),
    decreases d, 1int,
{
    lemma_render_nonempty(d);
    lemma_holds_index(ts, i, render(d), 0);
    match d {
        Doc::Array(items) => {
            let body = render_items(items, true);
            lemma_holds_split(ts, i, seq![TokenModel::LBracket] + body, seq![TokenModel::RBracket]);
            lemma_holds_split(ts, i, seq![TokenModel::LBracket], body);
            lemma_holds_index(ts, i + 1 + body.len(), seq![TokenModel::RBracket], 0);
            lemma_elements_of_render(items, true, ts, i + 1, Seq::empty());
            assert(Seq::<ValueModel>::empty() + meaning_items(items) =~= meaning_items(items));
        },
        Doc::Object(members) => {
            let body = render_members(members, true);
            lemma_holds_split(ts, i, seq![TokenModel::LBrace] + body, seq![TokenModel::RBrace]);
            lemma_holds_split(ts, i, seq![TokenModel::LBrace], body);
            lemma_holds_index(ts, i + 1 + body.len(), seq![TokenModel::RBrace], 0);
            lemma_members_of_render(members, true, ts, i + 1, Map::empty());
        },
        _ => {},
    }
}

proof fn lemma_elements_of_render(
    items: Seq<Doc>,
    first: bool,
    ts: Seq<TokenModel>,
    i: int,
    acc: Seq<ValueModel>,
)
    requires
        holds_at(ts, i, render_items(items, first)),
        i + render_items(items, first).len() < ts.len(),
        ts[i + render_items(items, first).len()] is RBracket,
        first ==> acc.len() == 0,
    ensures
        elements_from(ts, i, first, acc) == Some(
            (acc + meaning_items(items), i + render_items(items, first).len() + 1),
        ),
    decreases items, 0int,
{
    if items.len() == 0 {
        assert(acc + meaning_items(items) =~= acc);
    } else {
        let d = items[0];
        let rest = items.drop_first();
        let sep: Seq<TokenModel> = if first {
            Seq::empty()
        } else {
            seq![TokenModel::Comma]
        };
        assert(render_items(items, first) == sep + render(d) + render_items(rest, false));
        lemma_holds_split(ts, i, sep + render(d), render_items(rest, false));
        lemma_holds_split(ts, i, sep, render(d));
        lemma_render_nonempty(d);
        lemma_holds_index(ts, i + sep.len(), render(d), 0);
        if !first {
            lemma_holds_index(ts, i, sep, 0);
        }
        lemma_value_of_render(d, ts, i + sep.len());
        let e = i + sep.len() + render(d).len();
        lemma_elements_of_render(rest, false, ts, e, acc.push(meaning(d)));
        assert(acc.push(meaning(d)) + meaning_items(rest) =~= acc + meaning_items(items));
    }
}

proof fn lemma_members_of_render(
    members: Seq<(Seq<char>, Doc)>,
    first: bool,
    ts: Seq<TokenModel>,
    i: int,
    acc: Map<Seq<char>, ValueModel>,
)
    requires
        holds_at(ts, i, render_members(members, first)),
        i + render_members(members, first).len() < ts.len(),
        ts[i + render_members(members, first).len()] is RBrace,
    ensures
        members_from(ts, i, first, acc) == Some(
            (meaning_members(members, acc), i + render_members(members, first).len() + 1),
        ),
    decreases members, 0int,
{
    if members.len() > 0 {
        let (k, d) = members[0];
        let rest = members.drop_first();
        let sep: Seq<TokenModel> = if first {
            Seq::empty()
        } else {
            seq![TokenModel::Comma]
        };
        let head = seq![TokenModel::Str(k), TokenModel::Colon];
        assert(render_members(members, first) == sep + head + render(d) + render_members(
            rest,
            false,
        ));
        lemma_holds_split(ts, i, sep + head + render(d), render_members(rest, false));
        lemma_holds_split(ts, i, sep + head, render(d));
        lemma_holds_split(ts, i, sep, head);
        lemma_render_nonempty(d);
        let j = i + sep.len();
        lemma_holds_index(ts, j, head, 0);
        lemma_holds_index(ts, j, head, 1);
        lemma_holds_index(ts, j + 2, render(d), 0);
        if !first {
            lemma_holds_index(ts, i, sep, 0);
        }
        lemma_value_of_render(d, ts, j + 2);
        assert(pair_at(ts, j) == Some((k, meaning(d), j + 2 + render(d).len())));
        let e = j + 2 + render(d).len();
        lemma_members_of_render(rest, false, ts, e, acc.insert(k, meaning(d)));
    }
}

/// Parsing the tokens of an object-rooted document gives exactly the mapping
/// that the document means: every key with its value, nothing else, and for
/// a key written twice the later value.
pub proof fn lemma_parse_render(members: Seq<(Seq<char>, Doc)>)
    ensures
        parse_tokens(render(Doc::Object(members))) == Some(
            meaning_members(members, Map::empty()),
        ),
{
    let ts = render(Doc::Object(members));
    assert(ts.subrange(0, ts.len() as int) =~= ts);
    lemma_value_of_render(Doc::Object(members), ts, 0);
    lemma_holds_index(ts, 0, ts, 0);
}

/// Parsing is a function of the text alone: the same text always gives the
/// same document or the same kind of failure.
pub proof fn lemma_parse_deterministic(s1: Seq<char>, s2: Seq<char>)
    requires
        s1 == s2,
    ensures
        parse_document(s1) == parse_document(s2),
{
}


/// The text of one token.
pub open spec fn token_text(t: TokenModel) -> Seq<char> {
    match t {
        TokenModel::LBrace => seq!['{'],
        TokenModel::RBrace => seq!['}'],
        TokenModel::LBracket => seq!['['],
        TokenModel::RBracket => seq![']'],
        TokenModel::Colon => seq![':'],
        TokenModel::Comma => seq![','],
        TokenModel::Number(n) => n,
        TokenModel::Str(s) => seq!['"'] + s + seq!['"'],
        TokenModel::Bool(b) => if b {
            seq!['t', 'r', 'u', 'e']
        } else {
            seq!['f', 'a', 'l', 's', 'e']
        },
        TokenModel::Null => seq!['n', 'u', 'l', 'l'],
    }
}

/// A text for a token sequence: each token after one space.
pub open spec fn text_of(ts: Seq<TokenModel>) -> Seq<char>
    decreases ts.len(),
{
    if ts.len() == 0 {
        Seq::empty()
    } else {
        seq![' '] + token_text(ts[0]) + text_of(ts.drop_first())
    }
}

/// `s` can stand between two quotes: its escapes are complete and valid, and
/// it holds no unescaped quote.
pub open spec fn is_string_body(s: Seq<char>) -> bool {
    closing_quote(s + seq!['"'], 0, QuoteState::Normal) == Some(s.len() as int)
}

/// A token that can be written as text: a number is a floating-point literal,
/// a string a valid body.
pub open spec fn is_writable(t: TokenModel) -> bool {
    match t {
        TokenModel::Number(n) => is_float_literal(n),
        TokenModel::Str(s) => is_string_body(s),
        _ => true,
    }
}

proof fn lemma_closing_quote_shift(a: Seq<char>, s: Seq<char>, off: int, k: int, st: QuoteState)
    requires
        0 <= off,
        off + a.len() <= s.len(),
        s.subrange(off, off + a.len()) == a,
        0 <= k,
        closing_quote(a, k, st) is Some,
    ensures
        closing_quote(s, off + k, st) == Some(off + closing_quote(a, k, st)->Some_0),
    decreases a.len() - k,
{
    assert(s.subrange(off, off + a.len())[k] == s[off + k]);
    let c = a[k];
    match st {
        QuoteState::Normal => {
            if c != '"' {
                if c == '\\' {
                    lemma_closing_quote_shift(a, s, off, k + 1, QuoteState::Escape);
                } else {
                    lemma_closing_quote_shift(a, s, off, k + 1, QuoteState::Normal);
                }
            }
        },
        QuoteState::Escape => {
            if c == 'u' {
                lemma_closing_quote_shift(a, s, off, k + 1, QuoteState::UnicodeHex(0));
            } else {
                lemma_closing_quote_shift(a, s, off, k + 1, QuoteState::Normal);
            }
        },
        QuoteState::UnicodeHex(n) => {
            if n >= 3 {
                lemma_closing_quote_shift(a, s, off, k + 1, QuoteState::Normal);
            } else {
                lemma_closing_quote_shift(a, s, off, k + 1, QuoteState::UnicodeHex((n + 1) as u8));
            }
        },
    }
}

proof fn lemma_word_end_at(s: Seq<char>, j: int, m: int)
    requires
        0 <= j <= m <= s.len(),
        forall|k: int| j <= k < m ==> !is_word_delimiter(#[trigger] s[k]),
        m == s.len() || is_word_delimiter(s[m]),
    ensures
        word_end(s, j) == m,
    decreases m - j,
{
    if j < m {
        lemma_word_end_at(s, j + 1, m);
    }
}

/// The characters of a floating-point literal end no word.
proof fn lemma_float_literal_chars(w: Seq<char>)
    requires
        is_float_literal(w),
    ensures
        w.len() > 0,
        forall|k: int| 0 <= k < w.len() ==> !is_word_delimiter(#[trigger] w[k]),
        w != seq!['t', 'r', 'u', 'e'],
        w != seq!['f', 'a', 'l', 's', 'e'],
        w != seq!['n', 'u', 'l', 'l'],
{
    let b = unsigned_part(w);
    let signed = w.len() > 0 && (w[0] == '+' || w[0] == '-');
    assert(b.len() > 0) by {
        if is_special_float(b) {
            assert(seq!['i', 'n', 'f'].len() == 3);
            assert(seq!['n', 'a', 'n'].len() == 3);
            assert(seq!['i', 'n', 'f', 'i', 'n', 'i', 't', 'y'].len() == 8);
        }
    }
    assert forall|k: int| 0 <= k < b.len() implies !is_word_delimiter(#[trigger] b[k]) by {
        if is_special_float(b) {
            if eq_ignore_case(b, seq!['i', 'n', 'f']) {
                let l = seq!['i', 'n', 'f'];
                assert(l[0] == 'i' && l[1] == 'n' && l[2] == 'f');
                assert(b[k] == l[k] || (b[k] as u32) == (l[k] as u32) - 32);
            } else if eq_ignore_case(b, seq!['n', 'a', 'n']) {
                let l = seq!['n', 'a', 'n'];
                assert(l[0] == 'n' && l[1] == 'a' && l[2] == 'n');
                assert(b[k] == l[k] || (b[k] as u32) == (l[k] as u32) - 32);
            } else {
                let l = seq!['i', 'n', 'f', 'i', 'n', 'i', 't', 'y'];
                assert(l[0] == 'i' && l[1] == 'n' && l[2] == 'f' && l[3] == 'i' && l[4] == 'n'
                    && l[5] == 'i' && l[6] == 't' && l[7] == 'y');
                assert(b[k] == l[k] || (b[k] as u32) == (l[k] as u32) - 32);
            }
        } else if is_mantissa(b) {
            assert(b[k] == '.' || ('0' <= b[k] <= '9'));
        } else {
            let p = choose|p: int|
                0 <= p < b.len() && is_exponent_mark(#[trigger] b[p])
                    && is_mantissa(b.take(p)) && is_exponent_digits(b.skip(p + 1));
            if k < p {
                assert(b.take(p)[k] == b[k]);
            } else if k > p {
                let x = b.skip(p + 1);
                assert(x[k - p - 1] == b[k]);
                if x.len() > 0 && is_sign(x[0]) {
                    if k - p - 1 > 0 {
                        assert(x.drop_first()[k - p - 2] == b[k]);
                    }
                }
            }
        }
    }
    assert forall|k: int| 0 <= k < w.len() implies !is_word_delimiter(#[trigger] w[k]) by {
        if signed && k > 0 {
            assert(b[k - 1] == w[k]);
        } else if !signed {
            assert(b[k] == w[k]);
        }
    }
    lemma_word_not_float(seq!['t', 'r', 'u', 'e']);
    lemma_word_not_float(seq!['f', 'a', 'l', 's', 'e']);
    lemma_word_not_float(seq!['n', 'u', 'l', 'l']);
}

/// A word of four or five characters that starts with a letter is no
/// floating-point literal.
proof fn lemma_word_not_float(w: Seq<char>)
    requires
        w.len() == 4 || w.len() == 5,
        'a' <= w[0] <= 'z',
    ensures
        !is_float_literal(w),
{
    let b = unsigned_part(w);
    assert(b == w);
    assert(!is_mantissa(b)) by {
        assert(!is_digit(b[0]) && b[0] != '.');
    }
    assert forall|p: int|
        0 <= p < b.len() && is_exponent_mark(#[trigger] b[p]) implies !is_mantissa(
        b.take(p),
    ) by {
        if p > 0 {
            assert(b.take(p)[0] == b[0]);
            assert(!is_digit(b.take(p)[0]) && b.take(p)[0] != '.');
        } else {
            assert(b.take(p).len() == 0);
        }
    }
    assert(!is_special_float(b)) by {
        assert(seq!['i', 'n', 'f'].len() == 3);
        assert(seq!['n', 'a', 'n'].len() == 3);
        assert(seq!['i', 'n', 'f', 'i', 'n', 'i', 't', 'y'].len() == 8);
    }
}


/// The text of writable tokens, standing at the end of `s` from position
/// `i`, tokenizes back to those tokens.
proof fn lemma_tokens_of_text(ts: Seq<TokenModel>, s: Seq<char>, i: int)
    requires
        forall|k: int| 0 <= k < ts.len() ==> is_writable(#[trigger] ts[k]),
        holds_at(s, i, text_of(ts)),
        i + text_of(ts).len() == s.len(),
    ensures
        tokens_from(s, i) == Some(ts),
    decreases ts.len(),
{
    if ts.len() == 0 {
        assert(skip_whitespace(s, i) == i);
    } else {
        let t = ts[0];
        let tt = token_text(t);
        let rest = ts.drop_first();
        let j = i + 1;
        let e = j + tt.len();
        assert(is_writable(t));
        lemma_holds_split(s, i, seq![' '] + tt, text_of(rest));
        lemma_holds_split(s, i, seq![' '], tt);
        lemma_holds_index(s, i, seq![' '], 0);
        assert forall|k: int| 0 <= k < rest.len() implies is_writable(#[trigger] rest[k]) by {
            assert(rest[k] == ts[k + 1]);
        }
        lemma_tokens_of_text(rest, s, e);
        // what follows the token ends any word
        assert(e == s.len() || is_word_delimiter(s[e])) by {
            if rest.len() > 0 {
                let nt = seq![' '] + token_text(rest[0]) + text_of(rest.drop_first());
                assert(text_of(rest) == nt);
                lemma_holds_index(s, e, text_of(rest), 0);
            }
        }
        let is_word = t is Number || t is Bool || t is Null;
        if is_word {
            if let TokenModel::Number(n) = t {
                lemma_float_literal_chars(n);
            } else if t == TokenModel::Bool(true) {
                assert(tt[0] == 't' && tt[1] == 'r' && tt[2] == 'u' && tt[3] == 'e');
            } else if t == TokenModel::Bool(false) {
                assert(tt[0] == 'f' && tt[1] == 'a' && tt[2] == 'l' && tt[3] == 's' && tt[4] == 'e');
            } else {
                assert(tt[0] == 'n' && tt[1] == 'u' && tt[2] == 'l' && tt[3] == 'l');
            }
            assert forall|k: int| j <= k < e implies !is_word_delimiter(#[trigger] s[k]) by {
                lemma_holds_index(s, j, tt, k - j);
            }
            lemma_word_end_at(s, j, e);
            assert(s.subrange(j, e) == tt);
            lemma_holds_index(s, j, tt, 0);
            assert(!is_json_whitespace(s[j]));
            assert(skip_whitespace(s, j) == j);
            assert(skip_whitespace(s, i) == j);
            assert(punctuation(s[j]) is None);
            assert(word_token(tt) == Some(t));
            assert(lex_step(s, i) == LexStep::Token(t, e));
        } else if let TokenModel::Str(body) = t {
            let a = body + seq!['"'];
            assert(tt == seq!['"'] + a);
            lemma_holds_split(s, j, seq!['"'], a);
            lemma_holds_index(s, j, seq!['"'], 0);
            lemma_closing_quote_shift(a, s, j + 1, 0, QuoteState::Normal);
            assert(closing_quote(s, j + 1, QuoteState::Normal) == Some(j + 1 + body.len()));
            assert(s.subrange(j + 1, j + 1 + body.len()) =~= body) by {
                assert forall|k: int| 0 <= k < body.len() implies s.subrange(
                    j + 1,
                    j + 1 + body.len(),
                )[k] == body[k] by {
                    lemma_holds_index(s, j + 1, a, k);
                }
            }
            assert(skip_whitespace(s, j) == j);
            assert(skip_whitespace(s, i) == j);
            assert(lex_step(s, i) == LexStep::Token(t, e));
        } else {
            lemma_holds_index(s, j, tt, 0);
            assert(skip_whitespace(s, j) == j);
            assert(skip_whitespace(s, i) == j);
            assert(lex_step(s, i) == LexStep::Token(t, e));
        }
        assert(ts =~= seq![t] + rest);
    }
}


/// Every leaf of the document can be written as text: each string and key is
/// a valid string body, each number a floating-point literal.
pub open spec fn is_supported(d: Doc) -> bool
    decreases d,
{
    match d {
        Doc::Str(s) => is_string_body(s),
        Doc::Number(n) => is_float_literal(n),
        Doc::Bool(_) => true,
        Doc::Null => true,
        Doc::Array(items) => items_supported(items),
        Doc::Object(members) => members_supported(members),
    }
}

pub open spec fn items_supported(items: Seq<Doc>) -> bool
    decreases items,
{
    items.len() == 0 || (is_supported(items[0]) && items_supported(items.drop_first()))
}

pub open spec fn members_supported(members: Seq<(Seq<char>, Doc)>) -> bool
    decreases members,
{
    members.len() == 0 || (is_string_body(members[0].0) && is_supported(members[0].1)
        && members_supported(members.drop_first()))
}

pub open spec fn all_writable(ts: Seq<TokenModel>) -> bool {
    forall|k: int| 0 <= k < ts.len() ==> is_writable(#[trigger] ts[k])
}

proof fn lemma_writable_concat(a: Seq<TokenModel>, b: Seq<TokenModel>)
    requires
        all_writable(a),
        all_writable(b),
    ensures
        all_writable(a + b),
{
    assert forall|k: int| 0 <= k < (a + b).len() implies is_writable(#[trigger] (a + b)[k]) by {
        if k < a.len() {
            assert((a + b)[k] == a[k]);
        } else {
            assert((a + b)[k] == b[k - a.len()]);
        }
    }
}

proof fn lemma_render_writable(d: Doc)
    requires
        is_supported(d),
    ensures
        all_writable(render(d)),
    decreases d, 1int,
{
    match d {
        Doc::Array(items) => {
            lemma_items_writable(items, true);
            lemma_writable_concat(seq![TokenModel::LBracket], render_items(items, true));
            lemma_writable_concat(
                seq![TokenModel::LBracket] + render_items(items, true),
                seq![TokenModel::RBracket],
            );
        },
        Doc::Object(members) => {
            lemma_members_writable(members, true);
            lemma_writable_concat(seq![TokenModel::LBrace], render_members(members, true));
            lemma_writable_concat(
                seq![TokenModel::LBrace] + render_members(members, true),
                seq![TokenModel::RBrace],
            );
        },
        _ => {},
    }
}

proof fn lemma_items_writable(items: Seq<Doc>, first: bool)
    requires
        items_supported(items),
    ensures
        all_writable(render_items(items, first)),
    decreases items, 0int,
{
    if items.len() > 0 {
        let sep: Seq<TokenModel> = if first {
            Seq::empty()
        } else {
            seq![TokenModel::Comma]
        };
        lemma_render_writable(items[0]);
        lemma_items_writable(items.drop_first(), false);
        lemma_writable_concat(sep, render(items[0]));
        lemma_writable_concat(sep + render(items[0]), render_items(items.drop_first(), false));
    }
}

proof fn lemma_members_writable(members: Seq<(Seq<char>, Doc)>, first: bool)
    requires
        members_supported(members),
    ensures
        all_writable(render_members(members, first)),
    decreases members, 0int,
{
    if members.len() > 0 {
        let sep: Seq<TokenModel> = if first {
            Seq::empty()
        } else {
            seq![TokenModel::Comma]
        };
        let head = seq![TokenModel::Str(members[0].0), TokenModel::Colon];
        lemma_render_writable(members[0].1);
        lemma_members_writable(members.drop_first(), false);
        lemma_writable_concat(sep, head);
        lemma_writable_concat(sep + head, render(members[0].1));
        lemma_writable_concat(
            sep + head + render(members[0].1),
            render_members(members.drop_first(), false),
        );
    }
}

/// Parsing the text of an object-rooted document whose leaves are all
/// supported gives exactly the mapping that the document means: every key
/// with its value, nothing else, numbers as written, and for a key written
/// twice the later value.
pub proof fn lemma_parse_document_text(members: Seq<(Seq<char>, Doc)>)
    requires
        members_supported(members),
    ensures
        parse_document(text_of(render(Doc::Object(members)))) == Ok::<_, JsonError>(
            meaning_members(members, Map::empty()),
        ),
{
    let d = Doc::Object(members);
    let ts = render(d);
    let s = text_of(ts);
    lemma_render_writable(d);
    assert(s.subrange(0, s.len() as int) =~= s);
    lemma_tokens_of_text(ts, s, 0);
    lemma_parse_render(members);
}

} // verus!
