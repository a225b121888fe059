//! The constraints a FlatZinc model can hold.
use vstd::prelude::*;

use super::ast::{view_array_arg, Identifier, IdentifierOr, Int, ItemV};
use super::grammar::{
    array_arg_spec, bool_of, check_annotations, constraint_spec, find_kind, first_index, int_elem, is_keyword,
    parse_int_elems, tok_bool, tok_identifier, tok_int_elem, tokens_in, views, Keyword,
};
use super::lexer::{Token, TokenKind};

verus! {

/// Constrains `\sum variables_i * weights_i != rhs`.
#[derive(Debug, PartialEq, Eq)]
pub struct IntLinNe {
    pub variables: IdentifierOr<Vec<IdentifierOr<Int>>>,
    pub weights: IdentifierOr<Vec<IdentifierOr<Int>>>,
    pub rhs: IdentifierOr<Int>,
}

impl IntLinNe {
    /// The constraint as values.
    pub open spec fn view_constraint(&self) -> ItemV {
        ItemV::IntLinNe {
            weights: view_array_arg(self.weights),
            variables: view_array_arg(self.variables),
            rhs: self.rhs.view_elem(),
        }
    }

    /// Read `constraint int_lin_ne(WEIGHTS, VARIABLES, RHS) ANNS` from the first `n` tokens.
    pub fn parse(line: &[char], toks: &[Token], n: usize) -> (res: Option<IntLinNe>)
        requires
            3 <= n <= toks@.len(),
            tokens_in(line@, toks@),
        ensures
            match constraint_spec(views(line@, toks@), n as int) {
                Some(v) => res matches Some(c) && c.view_constraint() == v,
                None => res is None,
            },
    {
        let ghost t = views(line@, toks@);
        proof {
            assert(t[1] == super::lexer::token_view(line@, toks@[1]));
            assert(toks@[1].end <= line@.len());
        }
        if !(is_keyword(line, toks[1], Keyword::IntLinNe) && toks[2].kind == TokenKind::LParen) {
            return None;
        }
        let (weights, i1) = match compile_array_argument(line, toks, 3, n) {
            Some(arg) => arg,
            None => return None,
        };
        if !(i1 < n && toks[i1].kind == TokenKind::Comma) {
            return None;
        }
        let (variables, i2) = match compile_array_argument(line, toks, i1 + 1, n) {
            Some(arg) => arg,
            None => return None,
        };
        if !(i2 < n && n - i2 > 2 && toks[i2].kind == TokenKind::Comma) {
            return None;
        }
        proof {
            assert(t[i2 + 1] == super::lexer::token_view(line@, toks@[i2 + 1]));
            assert(toks@[i2 + 1].end <= line@.len());
        }
        let rhs = match compile_int_argument(line, toks[i2 + 1]) {
            Some(rhs) => rhs,
            None => return None,
        };
        if !(toks[i2 + 2].kind == TokenKind::RParen && check_annotations(line, toks, i2 + 3, n)) {
            return None;
        }
        Some(IntLinNe { variables, weights, rhs })
    }
}

/// An integer argument: an identifier or an integer literal.
fn compile_int_argument(line: &[char], tok: Token) -> (res: Option<IdentifierOr<Int>>)
    requires
        tok.start <= tok.end <= line@.len(),
    ensures
        match int_elem(super::lexer::token_view(line@, tok)) {
            Some(e) => res matches Some(x) && x.view_elem() == e,
            None => res is None,
        },
{
    tok_int_elem(line, tok)
}

/// An array argument from token `i` on: an identifier, or a list in brackets; and the position
/// after it.
fn compile_array_argument(line: &[char], toks: &[Token], i: usize, n: usize) -> (res: Option<
    (IdentifierOr<Vec<IdentifierOr<Int>>>, usize),
>)
    requires
        n <= toks@.len(),
        tokens_in(line@, toks@),
    ensures
        match array_arg_spec(views(line@, toks@), i as int, n as int) {
            Some((a, j)) => res matches Some((x, k)) && view_array_arg(x) == a && k == j && k <= n,
            None => res is None,
        },
{
    let ghost t = views(line@, toks@);
    if i >= n {
        return None;
    }
    proof {
        assert(t[i as int] == super::lexer::token_view(line@, toks@[i as int]));
        assert(toks@[i as int].end <= line@.len());
    }
    if toks[i].kind == TokenKind::Ident && tok_bool(line, toks[i]).is_none() {
        return Some((IdentifierOr::Identifier(tok_identifier(line, toks[i])), i + 1));
    }
    if toks[i].kind == TokenKind::LBracket {
        let k = find_kind(line, toks, TokenKind::RBracket, i + 1, n);
        if k < n {
            match parse_int_elems(line, toks, i + 1, k) {
                Some(elems) => {
                    return Some((IdentifierOr::Value(elems), k + 1));
                },
                None => {
                    return None;
                },
            }
        }
    }
    None
}

} // verus!
