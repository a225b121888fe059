//! Annotations of FlatZinc declarations.
use vstd::prelude::*;

use crate::text::parse_usize_spec;

use super::ast::Annotation;
use super::grammar::{int_of, is_keyword, kw, tok_int, tok_usize, tokens_in, views, Keyword};
use super::lexer::{token_view, Token, TokenKind, TokenV};

verus! {

/// `output_array([1..N])`, the annotation of an output array with `N` elements: its `N`.
pub open spec fn output_array_spec(t: Seq<TokenV>, i: int, end: int) -> Option<usize> {
    if 0 <= i && i + 8 == end && end <= t.len() && kw(t[i], Keyword::OutputArray) && t[i + 1].kind == TokenKind::LParen
        && t[i + 2].kind == TokenKind::LBracket && int_of(t[i + 3]) == Some(1i64) && t[i + 4].kind == TokenKind::DotDot
        && t[i + 5].kind == TokenKind::Int && parse_usize_spec(t[i + 5].text) is Some && t[i + 6].kind
        == TokenKind::RBracket && t[i + 7].kind == TokenKind::RParen {
        parse_usize_spec(t[i + 5].text)
    } else {
        None
    }
}

/// Read the annotation `output_array([1..N])` from the tokens `i..end`.
pub fn compile_output_array_annotation(line: &[char], toks: &[Token], i: usize, end: usize) -> (res: Option<
    Annotation,
>)
    requires
        i <= end <= toks@.len(),
        tokens_in(line@, toks@),
    ensures
        match output_array_spec(views(line@, toks@), i as int, end as int) {
            Some(size) => res matches Some(Annotation::Output(sizes)) && sizes@ == seq![size],
            None => res is None,
        },
{
    let ghost t = views(line@, toks@);
    if end - i != 8 {
        return None;
    }
    proof {
        assert(t[i as int] == token_view(line@, toks@[i as int]));
        assert(toks@[i as int].end <= line@.len());
        assert(t[i + 3] == token_view(line@, toks@[i + 3]));
        assert(toks@[i + 3].end <= line@.len());
        assert(t[i + 5] == token_view(line@, toks@[i + 5]));
        assert(toks@[i + 5].end <= line@.len());
    }
    if !is_keyword(line, toks[i], Keyword::OutputArray) || toks[i + 1].kind != TokenKind::LParen || toks[i
        + 2].kind != TokenKind::LBracket || toks[i + 4].kind != TokenKind::DotDot || toks[i + 5].kind
        != TokenKind::Int || toks[i + 6].kind != TokenKind::RBracket || toks[i + 7].kind != TokenKind::RParen {
        return None;
    }
    match tok_int(line, toks[i + 3]) {
        Some(1i64) => {},
        _ => return None,
    }
    match tok_usize(line, toks[i + 5]) {
        Some(size) => {
            let mut sizes: Vec<usize> = Vec::new();
            sizes.push(size);
            assert(sizes@ =~= seq![size]);
            Some(Annotation::Output(sizes))
        },
        None => None,
    }
}

} // verus!
