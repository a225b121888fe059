//! The tokens of a FlatZinc line: identifiers, integer literals and punctuation, separated by
//! optional whitespace.
use vstd::prelude::*;

use crate::text::{is_whitespace, is_whitespace_spec};

verus! {

/// The kind of a token.
#[derive(PartialEq, Eq, Structural, Clone, Copy, Debug)]
pub enum TokenKind {
    Ident,
    Int,
    LParen,
    RParen,
    LBracket,
    RBracket,
    Comma,
    Semicolon,
    Colon,
    ColonColon,
    Equals,
    DotDot,
}

/// A token: its kind and where its text lies in the line.
#[derive(Clone, Copy, Debug)]
pub struct Token {
    pub kind: TokenKind,
    pub start: usize,
    pub end: usize,
}

/// A token as values: its kind and its text.
pub struct TokenV {
    pub kind: TokenKind,
    pub text: Seq<char>,
}

/// The token as values, in the given line.
pub open spec fn token_view(line: Seq<char>, t: Token) -> TokenV {
    TokenV { kind: t.kind, text: line.subrange(t.start as int, t.end as int) }
}

/// The tokens, as values, are `ts`.
pub open spec fn tokens_are(line: Seq<char>, toks: Seq<Token>, ts: Seq<TokenV>) -> bool {
    &&& toks.len() == ts.len()
    &&& forall|k: int| 0 <= k < toks.len() ==> #[trigger] token_view(line, toks[k]) == ts[k]
    &&& forall|k: int| 0 <= k < toks.len() ==> toks[k].start <= #[trigger] toks[k].end <= line.len()
}

/// A letter, which begins an identifier.
pub open spec fn is_letter(c: char) -> bool {
    ('a' <= c && c <= 'z') || ('A' <= c && c <= 'Z')
}

/// A decimal digit.
pub open spec fn is_digit_char(c: char) -> bool {
    '0' <= c && c <= '9'
}

/// A character that may continue an identifier.
pub open spec fn is_ident_char(c: char) -> bool {
    is_letter(c) || is_digit_char(c) || c == '_'
}

/// Where the identifier characters from `i` on end.
pub open spec fn ident_end(s: Seq<char>, i: int) -> int
    decreases s.len() - i,
{
    if 0 <= i < s.len() && is_ident_char(s[i]) {
        ident_end(s, i + 1)
    } else {
        i
    }
}

/// Where the digits from `i` on end.
pub open spec fn digits_end(s: Seq<char>, i: int) -> int
    decreases s.len() - i,
{
    if 0 <= i < s.len() && is_digit_char(s[i]) {
        digits_end(s, i + 1)
    } else {
        i
    }
}

/// The token that begins at `i`, which is no whitespace: its kind and where it ends.
pub open spec fn token_at(s: Seq<char>, i: int) -> Option<(TokenKind, int)> {
    let c = s[i];
    let next = if i + 1 < s.len() { Some(s[i + 1]) } else { None };
    if is_letter(c) {
        Some((TokenKind::Ident, ident_end(s, i + 1)))
    } else if is_digit_char(c) {
        Some((TokenKind::Int, digits_end(s, i + 1)))
    } else if c == '-' && i + 1 < s.len() && is_digit_char(s[i + 1]) {
        Some((TokenKind::Int, digits_end(s, i + 2)))
    } else if c == '.' && next == Some('.') {
        Some((TokenKind::DotDot, i + 2))
    } else if c == ':' && next == Some(':') {
        Some((TokenKind::ColonColon, i + 2))
    } else if c == ':' {
        Some((TokenKind::Colon, i + 1))
    } else if c == '(' {
        Some((TokenKind::LParen, i + 1))
    } else if c == ')' {
        Some((TokenKind::RParen, i + 1))
    } else if c == '[' {
        Some((TokenKind::LBracket, i + 1))
    } else if c == ']' {
        Some((TokenKind::RBracket, i + 1))
    } else if c == ',' {
        Some((TokenKind::Comma, i + 1))
    } else if c == ';' {
        Some((TokenKind::Semicolon, i + 1))
    } else if c == '=' {
        Some((TokenKind::Equals, i + 1))
    } else {
        None
    }
}

/// The sequence with the items in front, if there is one.
pub open spec fn prepend<A>(front: Seq<A>, rest: Option<Seq<A>>) -> Option<Seq<A>> {
    match rest {
        Some(r) => Some(front + r),
        None => None,
    }
}

/// The tokens of the line from `i` on, or `None` where a character begins no token.
pub open spec fn lex_from(s: Seq<char>, i: int) -> Option<Seq<TokenV>>
    decreases s.len() - i,
{
    if i < 0 || i >= s.len() {
        Some(Seq::empty())
    } else if is_whitespace_spec(s[i]) {
        lex_from(s, i + 1)
    } else {
        match token_at(s, i) {
            None => None,
            Some((kind, j)) => if i < j <= s.len() {
                prepend(seq![TokenV { kind, text: s.subrange(i, j) }], lex_from(s, j))
            } else {
                None
            },
        }
    }
}

/// The tokens of the line.
pub open spec fn lex(s: Seq<char>) -> Option<Seq<TokenV>> {
    lex_from(s, 0)
}

/// The digits from `k` on end at `j` when every character from `k` to `j` is a digit and the one
/// at `j`, if any, is not.
proof fn lemma_digits_end_at(s: Seq<char>, k: int, j: int)
    requires
        0 <= k <= j <= s.len(),
        forall|m: int| k <= m < j ==> is_digit_char(#[trigger] s[m]),
        j == s.len() || !is_digit_char(s[j]),
    ensures
        digits_end(s, k) == j,
    decreases j - k,
{
    if k < j {
        lemma_digits_end_at(s, k + 1, j);
    }
}

/// An integer literal is one token over all of its digits: a token that begins with a digit, or
/// with a minus sign followed by a digit, ends exactly where the run of digits after it ends.
pub proof fn lemma_int_literal_token(s: Seq<char>, i: int, j: int)
    requires
        0 <= i < j <= s.len(),
        (s[i] == '-' && i + 2 <= j) || is_digit_char(s[i]),
        forall|k: int| i < k < j ==> is_digit_char(#[trigger] s[k]),
        j == s.len() || !is_digit_char(s[j]),
    ensures
        token_at(s, i) == Some((TokenKind::Int, j)),
{
    if is_digit_char(s[i]) {
        lemma_digits_end_at(s, i + 1, j);
    } else {
        assert(is_digit_char(s[i + 1]));
        lemma_digits_end_at(s, i + 2, j);
    }
}

/// The identifier characters from `k` on end at `j` when every character from `k` to `j` may
/// continue an identifier and the one at `j`, if any, may not.
proof fn lemma_ident_end_at(s: Seq<char>, k: int, j: int)
    requires
        0 <= k <= j <= s.len(),
        forall|m: int| k <= m < j ==> is_ident_char(#[trigger] s[m]),
        j == s.len() || !is_ident_char(s[j]),
    ensures
        ident_end(s, k) == j,
    decreases j - k,
{
    if k < j {
        lemma_ident_end_at(s, k + 1, j);
    }
}

/// An identifier is one token over all of its characters: a token that begins with a letter
/// ends exactly where the run of letters, digits and underscores after it ends.
pub proof fn lemma_identifier_token(s: Seq<char>, i: int, j: int)
    requires
        0 <= i < j <= s.len(),
        is_letter(s[i]),
        forall|k: int| i < k < j ==> is_ident_char(#[trigger] s[k]),
        j == s.len() || !is_ident_char(s[j]),
    ensures
        token_at(s, i) == Some((TokenKind::Ident, j)),
{
    lemma_ident_end_at(s, i + 1, j);
}

/// A line holding a minus sign and then digits, and nothing else, is one integer token whose
/// text is the whole line.
pub proof fn lemma_negative_literal_lexes(s: Seq<char>)
    requires
        s.len() >= 2,
        s[0] == '-',
        forall|k: int| 1 <= k < s.len() ==> is_digit_char(#[trigger] s[k]),
    ensures
        lex(s) == Some(seq![TokenV { kind: TokenKind::Int, text: s }]),
{
    lemma_int_literal_token(s, 0, s.len() as int);
    assert(!is_whitespace_spec(s[0]));
    assert(lex_from(s, s.len() as int) == Some(Seq::<TokenV>::empty()));
    assert(s.subrange(0, s.len() as int) =~= s);
    assert(seq![TokenV { kind: TokenKind::Int, text: s }] + Seq::<TokenV>::empty() =~= seq![TokenV { kind: TokenKind::Int, text: s }]);
}

proof fn lemma_prepend_assoc<A>(a: Seq<A>, b: Seq<A>, o: Option<Seq<A>>)
    ensures
        prepend(a, prepend(b, o)) == prepend(a + b, o),
{
    if let Some(r) = o {
        assert(a + (b + r) =~= (a + b) + r);
    }
}

/// Whether the character is a letter.
fn is_letter_exec(c: char) -> (res: bool)
    ensures
        res == is_letter(c),
{
    ('a' <= c && c <= 'z') || ('A' <= c && c <= 'Z')
}

/// Whether the character is a digit.
fn is_digit_exec(c: char) -> (res: bool)
    ensures
        res == is_digit_char(c),
{
    '0' <= c && c <= '9'
}

/// Where the identifier characters from `i` on end.
fn scan_ident(s: &[char], i: usize) -> (end: usize)
    requires
        i <= s@.len(),
    ensures
        end == ident_end(s@, i as int),
        i <= end <= s@.len(),
{
    let mut j = i;
    while j < s.len() && (is_letter_exec(s[j]) || is_digit_exec(s[j]) || s[j] == '_')
        invariant
            i <= j <= s@.len(),
            ident_end(s@, i as int) == ident_end(s@, j as int),
        decreases s@.len() - j,
    {
        j = j + 1;
    }
    j
}

/// Where the digits from `i` on end.
fn scan_digits(s: &[char], i: usize) -> (end: usize)
    requires
        i <= s@.len(),
    ensures
        end == digits_end(s@, i as int),
        i <= end <= s@.len(),
{
    let mut j = i;
    while j < s.len() && is_digit_exec(s[j])
        invariant
            i <= j <= s@.len(),
            digits_end(s@, i as int) == digits_end(s@, j as int),
        decreases s@.len() - j,
    {
        j = j + 1;
    }
    j
}

/// The token that begins at `i`.
fn next_token(s: &[char], i: usize) -> (res: Option<(TokenKind, usize)>)
    requires
        i < s@.len(),
    ensures
        match token_at(s@, i as int) {
            Some((kind, j)) => res == Some((kind, j as usize)) && i < j <= s@.len(),
            None => res is None,
        },
{
    let c = s[i];
    let next: Option<char> = if i + 1 < s.len() { Some(s[i + 1]) } else { None };
    if is_letter_exec(c) {
        Some((TokenKind::Ident, scan_ident(s, i + 1)))
    } else if is_digit_exec(c) {
        Some((TokenKind::Int, scan_digits(s, i + 1)))
    } else if c == '-' && i + 1 < s.len() && is_digit_exec(s[i + 1]) {
        Some((TokenKind::Int, scan_digits(s, i + 2)))
    } else if c == '.' && next == Some('.') {
        Some((TokenKind::DotDot, i + 2))
    } else if c == ':' && next == Some(':') {
        Some((TokenKind::ColonColon, i + 2))
    } else if c == ':' {
        Some((TokenKind::Colon, i + 1))
    } else if c == '(' {
        Some((TokenKind::LParen, i + 1))
    } else if c == ')' {
        Some((TokenKind::RParen, i + 1))
    } else if c == '[' {
        Some((TokenKind::LBracket, i + 1))
    } else if c == ']' {
        Some((TokenKind::RBracket, i + 1))
    } else if c == ',' {
        Some((TokenKind::Comma, i + 1))
    } else if c == ';' {
        Some((TokenKind::Semicolon, i + 1))
    } else if c == '=' {
        Some((TokenKind::Equals, i + 1))
    } else {
        None
    }
}

/// Split the line into tokens, or give `None` where a character begins no token.
pub fn tokenize(s: &[char]) -> (res: Option<Vec<Token>>)
    ensures
        match lex(s@) {
            Some(ts) => res matches Some(toks) && tokens_are(s@, toks@, ts),
            None => res is None,
        },
{
    let mut toks: Vec<Token> = Vec::new();
    let ghost mut ts: Seq<TokenV> = Seq::empty();
    let mut i: usize = 0;
    while i < s.len()
        invariant
            i <= s@.len(),
            tokens_are(s@, toks@, ts),
            lex(s@) == prepend(ts, lex_from(s@, i as int)),
        decreases s@.len() - i,
    {
        if is_whitespace(s[i]) {
            i = i + 1;
        } else {
            match next_token(s, i) {
                None => {
                    return None;
                },
                Some((kind, j)) => {
                    let ghost tv = TokenV { kind, text: s@.subrange(i as int, j as int) };
                    proof {
                        lemma_prepend_assoc(ts, seq![tv], lex_from(s@, j as int));
                        ts = ts.push(tv);
                    }
                    toks.push(Token { kind, start: i, end: j });
                    proof {
                        assert(token_view(s@, toks@[toks@.len() - 1]) == tv);
                    }
                    i = j;
                },
            }
        }
    }
    proof {
        assert(ts + Seq::<TokenV>::empty() =~= ts);
    }
    Some(toks)
}

} // verus!
