//! The grammar of a FlatZinc model item over its tokens, and the pieces that read it.
//!
//! The spec functions here take the tokens of a line and the number `n` of tokens they look at;
//! the tokens from `n` on play no part.
use vstd::prelude::*;

use crate::text::{parse_i64, parse_i64_spec, parse_usize, parse_usize_spec, slice_chars, string_of};

use super::ast::{ElemV, Identifier, IdentifierOr, Int, ItemV};
use super::lexer::{token_view, Token, TokenKind, TokenV};

verus! {

/// The keywords of the grammar.
#[derive(PartialEq, Eq, Structural, Clone, Copy, Debug)]
pub enum Keyword {
    Int,
    Bool,
    Array,
    Of,
    Var,
    Constraint,
    IntLinNe,
    Solve,
    Satisfy,
    True,
    False,
    OutputArray,
}

/// The text of a keyword.
pub open spec fn keyword_text(k: Keyword) -> Seq<char> {
    match k {
        Keyword::Int => seq!['i', 'n', 't'],
        Keyword::Bool => seq!['b', 'o', 'o', 'l'],
        Keyword::Array => seq!['a', 'r', 'r', 'a', 'y'],
        Keyword::Of => seq!['o', 'f'],
        Keyword::Var => seq!['v', 'a', 'r'],
        Keyword::Constraint => seq!['c', 'o', 'n', 's', 't', 'r', 'a', 'i', 'n', 't'],
        Keyword::IntLinNe => seq!['i', 'n', 't', '_', 'l', 'i', 'n', '_', 'n', 'e'],
        Keyword::Solve => seq!['s', 'o', 'l', 'v', 'e'],
        Keyword::Satisfy => seq!['s', 'a', 't', 'i', 's', 'f', 'y'],
        Keyword::True => seq!['t', 'r', 'u', 'e'],
        Keyword::False => seq!['f', 'a', 'l', 's', 'e'],
        Keyword::OutputArray => seq!['o', 'u', 't', 'p', 'u', 't', '_', 'a', 'r', 'r', 'a', 'y'],
    }
}

/// The tokens of the line, as values.
pub open spec fn views(line: Seq<char>, toks: Seq<Token>) -> Seq<TokenV> {
    Seq::new(toks.len(), |k: int| token_view(line, toks[k]))
}

/// Every token lies within the line.
pub open spec fn tokens_in(line: Seq<char>, toks: Seq<Token>) -> bool {
    forall|k: int| 0 <= k < toks.len() ==> toks[k].start <= #[trigger] toks[k].end <= line.len()
}

/// The token is the keyword.
pub open spec fn kw(t: TokenV, k: Keyword) -> bool {
    t.kind == TokenKind::Ident && t.text == keyword_text(k)
}

/// The token is of the kind.
pub open spec fn is_kind(t: Seq<TokenV>, i: int, kind: TokenKind) -> bool {
    0 <= i < t.len() && t[i].kind == kind
}

/// The value of an integer literal that fits.
pub open spec fn int_of(t: TokenV) -> Option<Int> {
    if t.kind == TokenKind::Int {
        parse_i64_spec(t.text)
    } else {
        None
    }
}

/// The value of a boolean literal.
pub open spec fn bool_of(t: TokenV) -> Option<bool> {
    if kw(t, Keyword::True) {
        Some(true)
    } else if kw(t, Keyword::False) {
        Some(false)
    } else {
        None
    }
}

/// An identifier or an integer literal.
pub open spec fn int_elem(t: TokenV) -> Option<ElemV<Int>> {
    if t.kind == TokenKind::Int {
        match parse_i64_spec(t.text) {
            Some(v) => Some(ElemV::Value(v)),
            None => None,
        }
    } else if t.kind == TokenKind::Ident && bool_of(t) is None {
        Some(ElemV::Ident(t.text))
    } else {
        None
    }
}

/// An identifier or a boolean literal.
pub open spec fn bool_elem(t: TokenV) -> Option<ElemV<bool>> {
    match bool_of(t) {
        Some(b) => Some(ElemV::Value(b)),
        None => if t.kind == TokenKind::Ident {
            Some(ElemV::Ident(t.text))
        } else {
            None
        },
    }
}

/// The number of elements of a list held by the tokens `start..end`.
pub open spec fn list_len(start: int, end: int) -> int {
    if start >= end {
        0
    } else {
        (end - start + 1) / 2
    }
}

/// The tokens `start..end` are elements separated by commas: none, or an odd number with commas
/// at the odd offsets.
pub open spec fn list_shape(t: Seq<TokenV>, start: int, end: int) -> bool {
    &&& 0 <= start <= end <= t.len()
    &&& start == end || (end - start) % 2 == 1
    &&& forall|k: int| start <= k < end && (k - start) % 2 == 1 ==> #[trigger] t[k].kind == TokenKind::Comma
}

/// A list of integer literals.
pub open spec fn int_literal_list(t: Seq<TokenV>, start: int, end: int) -> Option<Seq<Int>> {
    if list_shape(t, start, end) && forall|j: int| 0 <= j < list_len(start, end) ==> #[trigger] int_of(t[start + 2 * j]) is Some {
        Some(Seq::new(list_len(start, end) as nat, |j: int| int_of(t[start + 2 * j]).unwrap()))
    } else {
        None
    }
}

/// A list of identifiers and integer literals.
pub open spec fn int_elem_list(t: Seq<TokenV>, start: int, end: int) -> Option<Seq<ElemV<Int>>> {
    if list_shape(t, start, end) && forall|j: int| 0 <= j < list_len(start, end) ==> #[trigger] int_elem(t[start + 2 * j]) is Some {
        Some(Seq::new(list_len(start, end) as nat, |j: int| int_elem(t[start + 2 * j]).unwrap()))
    } else {
        None
    }
}

/// A list of identifiers and boolean literals.
pub open spec fn bool_elem_list(t: Seq<TokenV>, start: int, end: int) -> Option<Seq<ElemV<bool>>> {
    if list_shape(t, start, end) && forall|j: int| 0 <= j < list_len(start, end) ==> #[trigger] bool_elem(t[start + 2 * j]) is Some {
        Some(Seq::new(list_len(start, end) as nat, |j: int| bool_elem(t[start + 2 * j]).unwrap()))
    } else {
        None
    }
}

/// The first token from `i` on, before `end`, of the kind; `end` when there is none.
pub open spec fn first_index(t: Seq<TokenV>, kind: TokenKind, i: int, end: int) -> int
    decreases end - i,
{
    if i >= end {
        end
    } else if is_kind(t, i, kind) {
        i
    } else {
        first_index(t, kind, i + 1, end)
    }
}

/// The closing parenthesis of an annotation's arguments, from `i` on: the first `)`, with no
/// `(`, `;` or `=` before it.
pub open spec fn close_paren(t: Seq<TokenV>, i: int, end: int) -> Option<int>
    decreases end - i,
{
    if i < 0 || i >= end || i >= t.len() {
        None
    } else if t[i].kind == TokenKind::RParen {
        Some(i)
    } else if t[i].kind == TokenKind::LParen || t[i].kind == TokenKind::Semicolon || t[i].kind == TokenKind::Equals {
        None
    } else {
        close_paren(t, i + 1, end)
    }
}

/// The tokens `i..end` are annotations: each `::` and an identifier, with its arguments in
/// parentheses or without.
pub open spec fn anns_ok(t: Seq<TokenV>, i: int, end: int) -> bool
    decreases end - i,
{
    if i >= end {
        i == end
    } else if i + 1 < end && is_kind(t, i, TokenKind::ColonColon) && is_kind(t, i + 1, TokenKind::Ident) {
        if i + 2 < end && is_kind(t, i + 2, TokenKind::LParen) {
            match close_paren(t, i + 3, end) {
                Some(j) => if i + 3 <= j < end {
                    anns_ok(t, j + 1, end)
                } else {
                    false
                },
                None => false,
            }
        } else {
            anns_ok(t, i + 2, end)
        }
    } else {
        false
    }
}

/// `int: ID = INT` and `bool: ID = BOOL`.
pub open spec fn parameter_spec(t: Seq<TokenV>, n: int) -> Option<ItemV> {
    if n == 5 && n <= t.len() && t[1].kind == TokenKind::Colon && t[2].kind == TokenKind::Ident && t[3].kind
        == TokenKind::Equals {
        if kw(t[0], Keyword::Int) {
            match int_of(t[4]) {
                Some(v) => Some(ItemV::IntParameter(t[2].text, v)),
                None => None,
            }
        } else if kw(t[0], Keyword::Bool) {
            match bool_of(t[4]) {
                Some(b) => Some(ItemV::BoolParameter(t[2].text, b)),
                None => None,
            }
        } else {
            None
        }
    } else {
        None
    }
}

/// `var int: ID ANNS`, `var bool: ID ANNS` and `var INT..INT: ID ANNS`.
pub open spec fn variable_spec(t: Seq<TokenV>, n: int) -> Option<ItemV> {
    if 4 <= n <= t.len() && (kw(t[1], Keyword::Int) || kw(t[1], Keyword::Bool)) && t[2].kind == TokenKind::Colon
        && t[3].kind == TokenKind::Ident && anns_ok(t, 4, n) {
        if kw(t[1], Keyword::Int) {
            Some(ItemV::IntVariable(t[3].text, super::ast::IntDomain::Unbounded))
        } else {
            Some(ItemV::BoolVariable(t[3].text))
        }
    } else if 6 <= n <= t.len() && int_of(t[1]) is Some && t[2].kind == TokenKind::DotDot && int_of(t[3]) is Some
        && t[4].kind == TokenKind::Colon && t[5].kind == TokenKind::Ident && anns_ok(t, 6, n) {
        Some(
            ItemV::IntVariable(
                t[5].text,
                super::ast::IntDomain::Interval { lower: int_of(t[1]).unwrap(), upper: int_of(t[3]).unwrap() },
            ),
        )
    } else {
        None
    }
}

/// `array [1..N] of`, with `N` an unsigned number.
pub open spec fn index_set_ok(t: Seq<TokenV>, n: int) -> bool {
    &&& 7 <= n <= t.len()
    &&& t[1].kind == TokenKind::LBracket
    &&& int_of(t[2]) == Some(1i64)
    &&& t[3].kind == TokenKind::DotDot
    &&& t[4].kind == TokenKind::Int
    &&& parse_usize_spec(t[4].text) is Some
    &&& t[5].kind == TokenKind::RBracket
    &&& kw(t[6], Keyword::Of)
}

/// `array [1..N] of int: ID = [INT, ...]`, with `N` elements.
pub open spec fn int_array_parameter_spec(t: Seq<TokenV>, n: int) -> Option<ItemV> {
    if index_set_ok(t, n) && 13 <= n && kw(t[7], Keyword::Int) && t[8].kind == TokenKind::Colon && t[9].kind
        == TokenKind::Ident && t[10].kind == TokenKind::Equals && t[11].kind == TokenKind::LBracket && t[n - 1].kind
        == TokenKind::RBracket {
        match int_literal_list(t, 12, n - 1) {
            Some(vs) => if vs.len() == parse_usize_spec(t[4].text).unwrap() {
                Some(ItemV::IntArrayParameter(t[9].text, vs))
            } else {
                None
            },
            None => None,
        }
    } else {
        None
    }
}

/// Where the element type of a variable array ends, and whether it is an integer type:
/// `int`, `bool` or `INT..INT` at position 8.
pub open spec fn array_type_spec(t: Seq<TokenV>, n: int) -> Option<(int, bool)> {
    if 9 <= n <= t.len() && kw(t[8], Keyword::Int) {
        Some((9, true))
    } else if 9 <= n <= t.len() && kw(t[8], Keyword::Bool) {
        Some((9, false))
    } else if 11 <= n <= t.len() && int_of(t[8]) is Some && t[9].kind == TokenKind::DotDot && int_of(t[10]) is Some {
        Some((11, true))
    } else {
        None
    }
}

/// `array [1..N] of var TYPE: ID ANNS = [ELEM, ...]`.
pub open spec fn variable_array_spec(t: Seq<TokenV>, n: int) -> Option<ItemV> {
    if index_set_ok(t, n) && 8 <= n && kw(t[7], Keyword::Var) {
        match array_type_spec(t, n) {
            Some((p, is_int)) => {
                let q = first_index(t, TokenKind::Equals, p + 2, n);
                if p + 1 < n && t[p].kind == TokenKind::Colon && t[p + 1].kind == TokenKind::Ident && q + 2 <= n - 1
                    && anns_ok(t, p + 2, q) && t[q + 1].kind == TokenKind::LBracket && t[n - 1].kind
                    == TokenKind::RBracket {
                    if is_int {
                        match int_elem_list(t, q + 2, n - 1) {
                            Some(es) => Some(ItemV::IntVariableArray(t[p + 1].text, es)),
                            None => None,
                        }
                    } else {
                        match bool_elem_list(t, q + 2, n - 1) {
                            Some(es) => Some(ItemV::BoolVariableArray(t[p + 1].text, es)),
                            None => None,
                        }
                    }
                } else {
                    None
                }
            },
            None => None,
        }
    } else {
        None
    }
}

/// An array argument from `i` on: an identifier, or a list in brackets; and where it ends.
pub open spec fn array_arg_spec(t: Seq<TokenV>, i: int, n: int) -> Option<(ElemV<Seq<ElemV<Int>>>, int)> {
    if 0 <= i < n <= t.len() && t[i].kind == TokenKind::Ident && bool_of(t[i]) is None {
        Some((ElemV::Ident(t[i].text), i + 1))
    } else if 0 <= i < n <= t.len() && t[i].kind == TokenKind::LBracket {
        let k = first_index(t, TokenKind::RBracket, i + 1, n);
        if k < n {
            match int_elem_list(t, i + 1, k) {
                Some(es) => Some((ElemV::Value(es), k + 1)),
                None => None,
            }
        } else {
            None
        }
    } else {
        None
    }
}

/// `constraint int_lin_ne(WEIGHTS, VARIABLES, RHS) ANNS`.
pub open spec fn constraint_spec(t: Seq<TokenV>, n: int) -> Option<ItemV> {
    if 3 <= n <= t.len() && kw(t[1], Keyword::IntLinNe) && t[2].kind == TokenKind::LParen {
        match array_arg_spec(t, 3, n) {
            Some((weights, i1)) => if i1 < n && t[i1].kind == TokenKind::Comma {
                match array_arg_spec(t, i1 + 1, n) {
                    Some((variables, i2)) => if i2 + 2 < n && t[i2].kind == TokenKind::Comma && int_elem(t[i2 + 1]) is Some
                        && t[i2 + 2].kind == TokenKind::RParen && anns_ok(t, i2 + 3, n) {
                        Some(ItemV::IntLinNe { weights, variables, rhs: int_elem(t[i2 + 1]).unwrap() })
                    } else {
                        None
                    },
                    None => None,
                }
            } else {
                None
            },
            None => None,
        }
    } else {
        None
    }
}

/// `solve ANNS satisfy`.
pub open spec fn goal_spec(t: Seq<TokenV>, n: int) -> Option<ItemV> {
    if 2 <= n <= t.len() && kw(t[n - 1], Keyword::Satisfy) && anns_ok(t, 1, n - 1) {
        Some(ItemV::SolveSatisfy)
    } else {
        None
    }
}

/// The model item the tokens denote: a declaration, constraint or goal, ended by `;`.
pub open spec fn item_spec(t: Seq<TokenV>) -> Option<ItemV> {
    if t.len() >= 2 && t[t.len() - 1].kind == TokenKind::Semicolon {
        let n = t.len() - 1;
        if kw(t[0], Keyword::Int) || kw(t[0], Keyword::Bool) {
            parameter_spec(t, n)
        } else if kw(t[0], Keyword::Var) {
            variable_spec(t, n)
        } else if kw(t[0], Keyword::Array) {
            if 8 <= n && kw(t[7], Keyword::Int) {
                int_array_parameter_spec(t, n)
            } else {
                variable_array_spec(t, n)
            }
        } else if kw(t[0], Keyword::Constraint) {
            constraint_spec(t, n)
        } else if kw(t[0], Keyword::Solve) {
            goal_spec(t, n)
        } else {
            None
        }
    } else {
        None
    }
}

/// Whether the token is the keyword.
pub fn is_keyword(line: &[char], tok: Token, k: Keyword) -> (res: bool)
    requires
        tok.start <= tok.end <= line@.len(),
    ensures
        res == kw(token_view(line@, tok), k),
{
    if tok.kind != TokenKind::Ident {
        return false;
    }
    let word: Vec<char> = match k {
        Keyword::Int => vec!['i', 'n', 't'],
        Keyword::Bool => vec!['b', 'o', 'o', 'l'],
        Keyword::Array => vec!['a', 'r', 'r', 'a', 'y'],
        Keyword::Of => vec!['o', 'f'],
        Keyword::Var => vec!['v', 'a', 'r'],
        Keyword::Constraint => vec!['c', 'o', 'n', 's', 't', 'r', 'a', 'i', 'n', 't'],
        Keyword::IntLinNe => vec!['i', 'n', 't', '_', 'l', 'i', 'n', '_', 'n', 'e'],
        Keyword::Solve => vec!['s', 'o', 'l', 'v', 'e'],
        Keyword::Satisfy => vec!['s', 'a', 't', 'i', 's', 'f', 'y'],
        Keyword::True => vec!['t', 'r', 'u', 'e'],
        Keyword::False => vec!['f', 'a', 'l', 's', 'e'],
        Keyword::OutputArray => vec!['o', 'u', 't', 'p', 'u', 't', '_', 'a', 'r', 'r', 'a', 'y'],
    };
    assert(word@ =~= keyword_text(k));
    let ghost text = token_view(line@, tok).text;
    if tok.end - tok.start != word.len() {
        return false;
    }
    let mut i: usize = 0;
    while i < word.len()
        invariant
            i <= word@.len(),
            tok.start <= tok.end <= line@.len(),
            tok.end - tok.start == word@.len(),
            text == line@.subrange(tok.start as int, tok.end as int),
            text == token_view(line@, tok).text,
            word@ == keyword_text(k),
            tok.kind == TokenKind::Ident,
            forall|j: int| 0 <= j < i ==> text[j] == word@[j],
        decreases word@.len() - i,
    {
        if line[tok.start + i] != word[i] {
            assert(text[i as int] != word@[i as int]);
            return false;
        }
        i = i + 1;
    }
    assert(text =~= word@);
    true
}

/// The value of the token as an integer literal.
pub fn tok_int(line: &[char], tok: Token) -> (res: Option<Int>)
    requires
        tok.start <= tok.end <= line@.len(),
    ensures
        res == int_of(token_view(line@, tok)),
{
    if tok.kind != TokenKind::Int {
        return None;
    }
    let text = slice_chars(line, tok.start, tok.end);
    parse_i64(text.as_slice())
}

/// The value of the token as an unsigned number.
pub fn tok_usize(line: &[char], tok: Token) -> (res: Option<usize>)
    requires
        tok.start <= tok.end <= line@.len(),
    ensures
        res == parse_usize_spec(token_view(line@, tok).text),
{
    let text = slice_chars(line, tok.start, tok.end);
    parse_usize(text.as_slice())
}

/// The value of the token as a boolean literal.
pub fn tok_bool(line: &[char], tok: Token) -> (res: Option<bool>)
    requires
        tok.start <= tok.end <= line@.len(),
    ensures
        res == bool_of(token_view(line@, tok)),
{
    if is_keyword(line, tok, Keyword::True) {
        Some(true)
    } else if is_keyword(line, tok, Keyword::False) {
        Some(false)
    } else {
        None
    }
}

/// The identifier with the text of the token.
pub fn tok_identifier(line: &[char], tok: Token) -> (id: Identifier)
    requires
        tok.start <= tok.end <= line@.len(),
    ensures
        id@ == token_view(line@, tok).text,
{
    let text = slice_chars(line, tok.start, tok.end);
    Identifier::new(string_of(text.as_slice()))
}

/// The token as an identifier or an integer literal.
pub fn tok_int_elem(line: &[char], tok: Token) -> (res: Option<IdentifierOr<Int>>)
    requires
        tok.start <= tok.end <= line@.len(),
    ensures
        match int_elem(token_view(line@, tok)) {
            Some(e) => res matches Some(x) && x.view_elem() == e,
            None => res is None,
        },
{
    if tok.kind == TokenKind::Int {
        match tok_int(line, tok) {
            Some(v) => Some(IdentifierOr::Value(v)),
            None => None,
        }
    } else if tok.kind == TokenKind::Ident && tok_bool(line, tok).is_none() {
        Some(IdentifierOr::Identifier(tok_identifier(line, tok)))
    } else {
        None
    }
}

/// The token as an identifier or a boolean literal.
pub fn tok_bool_elem(line: &[char], tok: Token) -> (res: Option<IdentifierOr<bool>>)
    requires
        tok.start <= tok.end <= line@.len(),
    ensures
        match bool_elem(token_view(line@, tok)) {
            Some(e) => res matches Some(x) && x.view_elem() == e,
            None => res is None,
        },
{
    match tok_bool(line, tok) {
        Some(b) => Some(IdentifierOr::Value(b)),
        None => if tok.kind == TokenKind::Ident {
            Some(IdentifierOr::Identifier(tok_identifier(line, tok)))
        } else {
            None
        },
    }
}

/// The first token of the kind from `i` on, before `end`; `end` when there is none.
pub fn find_kind(line: &[char], toks: &[Token], kind: TokenKind, i: usize, end: usize) -> (res: usize)
    requires
        i <= end <= toks@.len(),
    ensures
        res == first_index(views(line@, toks@), kind, i as int, end as int),
        i <= res <= end,
        res < end ==> toks@[res as int].kind == kind,
{
    let ghost t = views(line@, toks@);
    let mut k = i;
    while k < end && toks[k].kind != kind
        invariant
            i <= k <= end <= toks@.len(),
            t == views(line@, toks@),
            first_index(t, kind, i as int, end as int) == first_index(t, kind, k as int, end as int),
        decreases end - k,
    {
        k = k + 1;
    }
    k
}

/// Whether the tokens `i..end` are annotations.
pub fn check_annotations(line: &[char], toks: &[Token], i: usize, end: usize) -> (res: bool)
    requires
        i <= end <= toks@.len(),
    ensures
        res == anns_ok(views(line@, toks@), i as int, end as int),
{
    let ghost t = views(line@, toks@);
    let mut k = i;
    while k < end
        invariant
            i <= k <= end <= toks@.len(),
            t == views(line@, toks@),
            anns_ok(t, i as int, end as int) == anns_ok(t, k as int, end as int),
        decreases end - k,
    {
        if !(k + 1 < end && toks[k].kind == TokenKind::ColonColon && toks[k + 1].kind == TokenKind::Ident) {
            return false;
        }
        if k + 2 < end && toks[k + 2].kind == TokenKind::LParen {
            let mut j = k + 3;
            while j < end && toks[j].kind != TokenKind::RParen && toks[j].kind != TokenKind::LParen && toks[j].kind
                != TokenKind::Semicolon && toks[j].kind != TokenKind::Equals
                invariant
                    k + 3 <= j <= end <= toks@.len(),
                    t == views(line@, toks@),
                    close_paren(t, k + 3, end as int) == close_paren(t, j as int, end as int),
                decreases end - j,
            {
                j = j + 1;
            }
            if j >= end || toks[j].kind != TokenKind::RParen {
                return false;
            }
            k = j + 1;
        } else {
            k = k + 2;
        }
    }
    true
}

/// The integer literals of the list in tokens `start..end`.
pub fn parse_int_literals(line: &[char], toks: &[Token], start: usize, end: usize) -> (res: Option<Vec<Int>>)
    requires
        start <= end <= toks@.len(),
        tokens_in(line@, toks@),
    ensures
        match int_literal_list(views(line@, toks@), start as int, end as int) {
            Some(vs) => res matches Some(v) && v@ == vs,
            None => res is None,
        },
{
    let ghost t = views(line@, toks@);
    let mut values: Vec<Int> = Vec::new();
    let mut pos = start;
    if start == end {
        proof {
            assert(values@ =~= Seq::new(list_len(start as int, end as int) as nat, |j: int| int_of(t[start + 2 * j]).unwrap()));
        }
        return Some(values);
    }
    loop
        invariant
            start <= pos < end <= toks@.len(),
            (pos - start) % 2 == 0,
            t == views(line@, toks@),
            tokens_in(line@, toks@),
            values@.len() == (pos - start) / 2,
            forall|j: int| 0 <= j < values@.len() ==> int_of(t[start + 2 * j]) == Some(#[trigger] values@[j]),
            forall|k: int| start <= k < pos && (k - start) % 2 == 1 ==> #[trigger] t[k].kind == TokenKind::Comma,
        decreases end - pos,
    {
        let tok = toks[pos];
        assert(t[pos as int] == token_view(line@, tok));
        match tok_int(line, tok) {
            Some(v) => {
                values.push(v);
            },
            None => {
                proof {
                    let j = (pos - start) / 2;
                    assert(start + 2 * j == pos);
                    assert(0 <= j < list_len(start as int, end as int));
                    assert(int_of(t[start + 2 * j]) is None);
                }
                return None;
            },
        }
        if pos + 1 == end {
            proof {
                assert(list_len(start as int, end as int) == values@.len());
                assert forall|j: int| 0 <= j < list_len(start as int, end as int) implies #[trigger] int_of(t[start + 2 * j]) is Some by {
                    assert(int_of(t[start + 2 * j]) == Some(values@[j]));
                }
                assert(values@ =~= Seq::new(list_len(start as int, end as int) as nat, |j: int| int_of(t[start + 2 * j]).unwrap()));
            }
            return Some(values);
        }
        if toks[pos + 1].kind != TokenKind::Comma || pos + 2 >= end {
            proof {
                assert(t[pos + 1].kind == toks@[pos + 1].kind);
                if pos + 2 >= end {
                    assert((end - start) % 2 == 0);
                }
            }
            return None;
        }
        pos = pos + 2;
    }
}

/// The identifiers and integer literals of the list in tokens `start..end`.
pub fn parse_int_elems(line: &[char], toks: &[Token], start: usize, end: usize) -> (res: Option<Vec<IdentifierOr<Int>>>)
    requires
        start <= end <= toks@.len(),
        tokens_in(line@, toks@),
    ensures
        match int_elem_list(views(line@, toks@), start as int, end as int) {
            Some(es) => res matches Some(v) && super::ast::view_elems(v@) == es,
            None => res is None,
        },
{
    let ghost t = views(line@, toks@);
    let mut values: Vec<IdentifierOr<Int>> = Vec::new();
    let mut pos = start;
    if start == end {
        proof {
            assert(super::ast::view_elems(values@) =~= Seq::new(list_len(start as int, end as int) as nat, |j: int| int_elem(t[start + 2 * j]).unwrap()));
        }
        return Some(values);
    }
    loop
        invariant
            start <= pos < end <= toks@.len(),
            (pos - start) % 2 == 0,
            t == views(line@, toks@),
            tokens_in(line@, toks@),
            values@.len() == (pos - start) / 2,
            forall|j: int| 0 <= j < values@.len() ==> int_elem(t[start + 2 * j]) == Some((#[trigger] values@[j]).view_elem()),
            forall|k: int| start <= k < pos && (k - start) % 2 == 1 ==> #[trigger] t[k].kind == TokenKind::Comma,
        decreases end - pos,
    {
        let tok = toks[pos];
        assert(t[pos as int] == token_view(line@, tok));
        match tok_int_elem(line, tok) {
            Some(v) => {
                values.push(v);
            },
            None => {
                proof {
                    let j = (pos - start) / 2;
                    assert(start + 2 * j == pos);
                    assert(0 <= j < list_len(start as int, end as int));
                    assert(int_elem(t[start + 2 * j]) is None);
                }
                return None;
            },
        }
        if pos + 1 == end {
            proof {
                assert(list_len(start as int, end as int) == values@.len());
                assert forall|j: int| 0 <= j < list_len(start as int, end as int) implies #[trigger] int_elem(t[start + 2 * j]) is Some by {
                    assert(int_elem(t[start + 2 * j]) == Some(values@[j].view_elem()));
                }
                assert(super::ast::view_elems(values@) =~= Seq::new(list_len(start as int, end as int) as nat, |j: int| int_elem(t[start + 2 * j]).unwrap()));
            }
            return Some(values);
        }
        if toks[pos + 1].kind != TokenKind::Comma || pos + 2 >= end {
            proof {
                assert(t[pos + 1].kind == toks@[pos + 1].kind);
                if pos + 2 >= end {
                    assert((end - start) % 2 == 0);
                }
            }
            return None;
        }
        pos = pos + 2;
    }
}

/// The identifiers and boolean literals of the list in tokens `start..end`.
pub fn parse_bool_elems(line: &[char], toks: &[Token], start: usize, end: usize) -> (res: Option<Vec<IdentifierOr<bool>>>)
    requires
        start <= end <= toks@.len(),
        tokens_in(line@, toks@),
    ensures
        match bool_elem_list(views(line@, toks@), start as int, end as int) {
            Some(es) => res matches Some(v) && super::ast::view_elems(v@) == es,
            None => res is None,
        },
{
    let ghost t = views(line@, toks@);
    let mut values: Vec<IdentifierOr<bool>> = Vec::new();
    let mut pos = start;
    if start == end {
        proof {
            assert(super::ast::view_elems(values@) =~= Seq::new(list_len(start as int, end as int) as nat, |j: int| bool_elem(t[start + 2 * j]).unwrap()));
        }
        return Some(values);
    }
    loop
        invariant
            start <= pos < end <= toks@.len(),
            (pos - start) % 2 == 0,
            t == views(line@, toks@),
            tokens_in(line@, toks@),
            values@.len() == (pos - start) / 2,
            forall|j: int| 0 <= j < values@.len() ==> bool_elem(t[start + 2 * j]) == Some((#[trigger] values@[j]).view_elem()),
            forall|k: int| start <= k < pos && (k - start) % 2 == 1 ==> #[trigger] t[k].kind == TokenKind::Comma,
        decreases end - pos,
    {
        let tok = toks[pos];
        assert(t[pos as int] == token_view(line@, tok));
        match tok_bool_elem(line, tok) {
            Some(v) => {
                values.push(v);
            },
            None => {
                proof {
                    let j = (pos - start) / 2;
                    assert(start + 2 * j == pos);
                    assert(0 <= j < list_len(start as int, end as int));
                    assert(bool_elem(t[start + 2 * j]) is None);
                }
                return None;
            },
        }
        if pos + 1 == end {
            proof {
                assert(list_len(start as int, end as int) == values@.len());
                assert forall|j: int| 0 <= j < list_len(start as int, end as int) implies #[trigger] bool_elem(t[start + 2 * j]) is Some by {
                    assert(bool_elem(t[start + 2 * j]) == Some(values@[j].view_elem()));
                }
                assert(super::ast::view_elems(values@) =~= Seq::new(list_len(start as int, end as int) as nat, |j: int| bool_elem(t[start + 2 * j]).unwrap()));
            }
            return Some(values);
        }
        if toks[pos + 1].kind != TokenKind::Comma || pos + 2 >= end {
            proof {
                assert(t[pos + 1].kind == toks@[pos + 1].kind);
                if pos + 2 >= end {
                    assert((end - start) % 2 == 0);
                }
            }
            return None;
        }
        pos = pos + 2;
    }
}

} // verus!
