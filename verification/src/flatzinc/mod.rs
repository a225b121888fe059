//! A reader for FlatZinc models. Each model item is on a line of its own, which matches how the
//! MiniZinc toolchain produces FlatZinc. A line is split into tokens ([`lexer`]) and the tokens
//! are read by the grammar of [`grammar`].
pub mod annotations;
pub mod ast;
pub mod constraints;
pub mod grammar;
pub mod lexer;

use vstd::prelude::*;

use crate::text::split;

use self::ast::{
    BoolDomain, Constraint, Goal, IntDomain, ItemV, ModelItem, Parameter, SingleVariable, Value, Variable,
    VariableArray,
};
use self::constraints::IntLinNe;
use self::grammar::{
    check_annotations, find_kind, first_index, goal_spec, index_set_ok, int_array_parameter_spec, item_spec, kw,
    parameter_spec, parse_bool_elems, parse_int_elems, parse_int_literals, tok_bool, tok_identifier, tok_int,
    tok_usize, tokens_in, variable_array_spec, variable_spec, views, Keyword, array_type_spec, constraint_spec,
    is_keyword,
};
use self::lexer::{lex, token_view, tokenize, tokens_are, Token, TokenKind};

verus! {

/// Why a line of a FlatZinc source was rejected.
#[derive(Debug, PartialEq, Eq, Clone, Copy)]
pub enum FznError {
    /// The line with the given number, counting from 1, is no model item.
    Syntax(usize),
}

/// The result matches what the spec gives: the item it denotes, or none.
pub open spec fn yields(res: Option<ModelItem>, spec: Option<ItemV>) -> bool {
    match spec {
        Some(v) => res matches Some(item) && item.view_item() == v,
        None => res is None,
    }
}

/// The model item the line denotes.
pub open spec fn line_item_spec(line: Seq<char>) -> Option<ItemV> {
    match lex(line) {
        Some(ts) => item_spec(ts),
        None => None,
    }
}

/// What reading the line with the given number gives.
pub open spec fn line_result_ok(line: Seq<char>, number: nat, res: Result<ModelItem, FznError>) -> bool {
    match line_item_spec(line) {
        Some(v) => res matches Ok(item) && item.view_item() == v,
        None => res == Err::<ModelItem, FznError>(FznError::Syntax(number as usize)),
    }
}

/// The bytes as characters with the same codes.
pub open spec fn bytes_as_chars(bytes: Seq<u8>) -> Seq<char> {
    bytes.map_values(|b: u8| b as char)
}

/// The line without a trailing carriage return.
pub open spec fn strip_cr(line: Seq<char>) -> Seq<char> {
    if line.len() > 0 && line.last() == '\r' {
        line.drop_last()
    } else {
        line
    }
}

/// The lines of the source, as `BufRead::lines` gives them: split at line feeds, without a
/// trailing carriage return, and without the empty piece after a final line feed.
pub open spec fn lines_spec(source: Seq<u8>) -> Seq<Seq<char>> {
    let pieces = split(bytes_as_chars(source), '\n');
    let kept = if pieces.last().len() == 0 { pieces.drop_last() } else { pieces };
    kept.map_values(|l: Seq<char>| strip_cr(l))
}

/// `int: ID = INT` and `bool: ID = BOOL`.
fn compile_parameter_declaration(line: &[char], toks: &[Token], n: usize) -> (res: Option<ModelItem>)
    requires
        1 <= n <= toks@.len(),
        tokens_in(line@, toks@),
    ensures
        yields(res, parameter_spec(views(line@, toks@), n as int)),
{
    let ghost t = views(line@, toks@);
    if !(n == 5 && toks[1].kind == TokenKind::Colon && toks[2].kind == TokenKind::Ident && toks[3].kind
        == TokenKind::Equals) {
        return None;
    }
    proof {
        assert forall|k: int| 0 <= k < 5 implies t[k] == token_view(line@, toks@[k]) && toks@[k].end <= line@.len() by {
            assert(toks@[k].end <= line@.len());
        }
    }
    let identifier = tok_identifier(line, toks[2]);
    if is_keyword(line, toks[0], Keyword::Int) {
        match tok_int(line, toks[4]) {
            Some(v) => Some(ModelItem::Parameter(Parameter { identifier, value: Value::Int(v) })),
            None => None,
        }
    } else if is_keyword(line, toks[0], Keyword::Bool) {
        match tok_bool(line, toks[4]) {
            Some(b) => Some(ModelItem::Parameter(Parameter { identifier, value: Value::Bool(b) })),
            None => None,
        }
    } else {
        None
    }
}

/// `var int: ID ANNS`, `var bool: ID ANNS` and `var INT..INT: ID ANNS`.
fn compile_single_variable(line: &[char], toks: &[Token], n: usize) -> (res: Option<ModelItem>)
    requires
        1 <= n <= toks@.len(),
        tokens_in(line@, toks@),
    ensures
        yields(res, variable_spec(views(line@, toks@), n as int)),
{
    let ghost t = views(line@, toks@);
    if n < 4 {
        return None;
    }
    proof {
        assert forall|k: int| 0 <= k < n implies t[k] == token_view(line@, toks@[k]) && toks@[k].end <= line@.len() by {
            assert(toks@[k].end <= line@.len());
        }
    }
    let is_int = is_keyword(line, toks[1], Keyword::Int);
    let is_bool = is_keyword(line, toks[1], Keyword::Bool);
    if (is_int || is_bool) && toks[2].kind == TokenKind::Colon && toks[3].kind == TokenKind::Ident
        && check_annotations(line, toks, 4, n) {
        let identifier = tok_identifier(line, toks[3]);
        if is_int {
            return Some(
                ModelItem::Variable(Variable::IntVariable(SingleVariable { identifier, domain: IntDomain::Unbounded })),
            );
        } else {
            return Some(ModelItem::Variable(Variable::BoolVariable(SingleVariable { identifier, domain: () })));
        }
    }
    if n < 6 {
        return None;
    }
    let lower = tok_int(line, toks[1]);
    let upper = tok_int(line, toks[3]);
    match (lower, upper) {
        (Some(lower), Some(upper)) => {
            if toks[2].kind == TokenKind::DotDot && toks[4].kind == TokenKind::Colon && toks[5].kind
                == TokenKind::Ident && check_annotations(line, toks, 6, n) {
                let identifier = tok_identifier(line, toks[5]);
                Some(
                    ModelItem::Variable(
                        Variable::IntVariable(SingleVariable { identifier, domain: IntDomain::Interval { lower, upper } }),
                    ),
                )
            } else {
                None
            }
        },
        _ => None,
    }
}

/// The size `N` of the index set of `array [1..N] of`.
fn compile_index_set(line: &[char], toks: &[Token], n: usize) -> (res: Option<usize>)
    requires
        n <= toks@.len(),
        tokens_in(line@, toks@),
    ensures
        res is Some == index_set_ok(views(line@, toks@), n as int),
        res is Some ==> res == crate::text::parse_usize_spec(views(line@, toks@)[4].text),
{
    let ghost t = views(line@, toks@);
    if n < 7 {
        return None;
    }
    proof {
        assert forall|k: int| 0 <= k < n implies t[k] == token_view(line@, toks@[k]) && toks@[k].end <= line@.len() by {
            assert(toks@[k].end <= line@.len());
        }
    }
    if !(toks[1].kind == TokenKind::LBracket && toks[3].kind == TokenKind::DotDot && toks[4].kind == TokenKind::Int
        && toks[5].kind == TokenKind::RBracket && is_keyword(line, toks[6], Keyword::Of)) {
        return None;
    }
    match tok_int(line, toks[2]) {
        Some(1i64) => {},
        _ => return None,
    }
    tok_usize(line, toks[4])
}

/// `array [1..N] of int: ID = [INT, ...]`, with `N` elements.
fn compile_array_parameter(line: &[char], toks: &[Token], n: usize) -> (res: Option<ModelItem>)
    requires
        1 <= n <= toks@.len(),
        tokens_in(line@, toks@),
    ensures
        yields(res, int_array_parameter_spec(views(line@, toks@), n as int)),
{
    let ghost t = views(line@, toks@);
    let num_elements = match compile_index_set(line, toks, n) {
        Some(num_elements) => num_elements,
        None => return None,
    };
    if n < 13 {
        return None;
    }
    proof {
        assert forall|k: int| 0 <= k < n implies t[k] == token_view(line@, toks@[k]) && toks@[k].end <= line@.len() by {
            assert(toks@[k].end <= line@.len());
        }
    }
    if !(is_keyword(line, toks[7], Keyword::Int) && toks[8].kind == TokenKind::Colon && toks[9].kind
        == TokenKind::Ident && toks[10].kind == TokenKind::Equals && toks[11].kind == TokenKind::LBracket
        && toks[n - 1].kind == TokenKind::RBracket) {
        return None;
    }
    match compile_parameter_value(line, toks, 12, n - 1, num_elements) {
        Some(values) => {
            let identifier = tok_identifier(line, toks[9]);
            Some(ModelItem::Parameter(Parameter { identifier, value: Value::ArrayOfInt(values) }))
        },
        None => None,
    }
}

/// The integer literals of an array parameter in tokens `start..end`, which must number
/// `num_elements`.
fn compile_parameter_value(line: &[char], toks: &[Token], start: usize, end: usize, num_elements: usize) -> (res:
    Option<Vec<ast::Int>>)
    requires
        start <= end <= toks@.len(),
        tokens_in(line@, toks@),
    ensures
        match grammar::int_literal_list(views(line@, toks@), start as int, end as int) {
            Some(vs) => if vs.len() == num_elements {
                res matches Some(v) && v@ == vs
            } else {
                res is None
            },
            None => res is None,
        },
{
    match parse_int_literals(line, toks, start, end) {
        Some(values) => if values.len() == num_elements {
            Some(values)
        } else {
            None
        },
        None => None,
    }
}

/// `array [1..N] of var TYPE: ID ANNS = [ELEM, ...]`.
fn compile_variable_array(line: &[char], toks: &[Token], n: usize) -> (res: Option<ModelItem>)
    requires
        1 <= n <= toks@.len(),
        tokens_in(line@, toks@),
    ensures
        yields(res, variable_array_spec(views(line@, toks@), n as int)),
{
    let ghost t = views(line@, toks@);
    if compile_index_set(line, toks, n).is_none() {
        return None;
    }
    if n < 9 {
        return None;
    }
    proof {
        assert forall|k: int| 0 <= k < n implies t[k] == token_view(line@, toks@[k]) && toks@[k].end <= line@.len() by {
            assert(toks@[k].end <= line@.len());
        }
    }
    if !is_keyword(line, toks[7], Keyword::Var) {
        return None;
    }
    let (p, is_int): (usize, bool) = if is_keyword(line, toks[8], Keyword::Int) {
        (9, true)
    } else if is_keyword(line, toks[8], Keyword::Bool) {
        (9, false)
    } else if n >= 11 && tok_int(line, toks[8]).is_some() && toks[9].kind == TokenKind::DotDot && tok_int(
        line,
        toks[10],
    ).is_some() {
        (11, true)
    } else {
        return None;
    };
    assert(array_type_spec(t, n as int) == Some((p as int, is_int)));
    if !(p + 1 < n && toks[p].kind == TokenKind::Colon && toks[p + 1].kind == TokenKind::Ident) {
        return None;
    }
    let q = find_kind(line, toks, TokenKind::Equals, p + 2, n);
    if !(q < n && n - q >= 3 && check_annotations(line, toks, p + 2, q) && toks[q + 1].kind == TokenKind::LBracket
        && toks[n - 1].kind == TokenKind::RBracket) {
        return None;
    }
    let identifier = tok_identifier(line, toks[p + 1]);
    if is_int {
        match parse_int_elems(line, toks, q + 2, n - 1) {
            Some(variables) => Some(
                ModelItem::Variable(
                    Variable::ArrayOfIntVariable(VariableArray::<IntDomain> { identifier, variables }),
                ),
            ),
            None => None,
        }
    } else {
        match parse_bool_elems(line, toks, q + 2, n - 1) {
            Some(variables) => Some(
                ModelItem::Variable(
                    Variable::ArrayOfBoolVariable(VariableArray::<BoolDomain> { identifier, variables }),
                ),
            ),
            None => None,
        }
    }
}

/// `solve ANNS satisfy`.
fn compile_goal(line: &[char], toks: &[Token], n: usize) -> (res: Option<ModelItem>)
    requires
        1 <= n <= toks@.len(),
        tokens_in(line@, toks@),
    ensures
        yields(res, goal_spec(views(line@, toks@), n as int)),
{
    let ghost t = views(line@, toks@);
    if n < 2 {
        return None;
    }
    proof {
        assert(t[n - 1] == token_view(line@, toks@[n - 1]));
        assert(toks@[n - 1].end <= line@.len());
    }
    if is_keyword(line, toks[n - 1], Keyword::Satisfy) && check_annotations(line, toks, 1, n - 1) {
        Some(ModelItem::Goal(Goal::Satisfy))
    } else {
        None
    }
}

/// The model item the tokens denote.
fn compile_model_item(line: &[char], toks: &[Token]) -> (res: Option<ModelItem>)
    requires
        tokens_in(line@, toks@),
    ensures
        yields(res, item_spec(views(line@, toks@))),
{
    let ghost t = views(line@, toks@);
    if !(toks.len() >= 2 && toks[toks.len() - 1].kind == TokenKind::Semicolon) {
        return None;
    }
    let n = toks.len() - 1;
    proof {
        assert(t[0] == token_view(line@, toks@[0]));
        assert(toks@[0].end <= line@.len());
    }
    if is_keyword(line, toks[0], Keyword::Int) || is_keyword(line, toks[0], Keyword::Bool) {
        compile_parameter_declaration(line, toks, n)
    } else if is_keyword(line, toks[0], Keyword::Var) {
        compile_single_variable(line, toks, n)
    } else if is_keyword(line, toks[0], Keyword::Array) {
        if n >= 8 {
            proof {
                assert(t[7] == token_view(line@, toks@[7]));
                assert(toks@[7].end <= line@.len());
            }
            if is_keyword(line, toks[7], Keyword::Int) {
                return compile_array_parameter(line, toks, n);
            }
        }
        compile_variable_array(line, toks, n)
    } else if is_keyword(line, toks[0], Keyword::Constraint) {
        if n < 3 {
            return None;
        }
        match IntLinNe::parse(line, toks, n) {
            Some(c) => Some(ModelItem::Constraint(Constraint::IntLinNe(c))),
            None => None,
        }
    } else if is_keyword(line, toks[0], Keyword::Solve) {
        compile_goal(line, toks, n)
    } else {
        None
    }
}

/// Read the model item on the line with the given number.
pub fn parse_line(line: &[char], number: usize) -> (res: Result<ModelItem, FznError>)
    ensures
        line_result_ok(line@, number as nat, res),
{
    match tokenize(line) {
        None => Err(FznError::Syntax(number)),
        Some(toks) => {
            proof {
                let ts = lex(line@).unwrap();
                assert(views(line@, toks@) =~= ts);
                assert forall|k: int| 0 <= k < toks@.len() implies toks@[k].start <= #[trigger] toks@[k].end <= line@.len() by {
                }
            }
            match compile_model_item(line, toks.as_slice()) {
                Some(item) => Ok(item),
                None => Err(FznError::Syntax(number)),
            }
        },
    }
}

/// Read every line of the source as a model item, the bytes standing for the characters with the
/// same codes.
pub fn parse_source(source: &[u8]) -> (items: Vec<Result<ModelItem, FznError>>)
    ensures
        items@.len() == lines_spec(source@).len(),
        forall|k: int| 0 <= k < items@.len() ==> line_result_ok(lines_spec(source@)[k], (k + 1) as nat, #[trigger] items@[k]),
{
    let ghost chars = bytes_as_chars(source@);
    let ghost mut done: Seq<Seq<char>> = Seq::empty();
    let mut items: Vec<Result<ModelItem, FznError>> = Vec::new();
    let mut current: Vec<char> = Vec::new();
    let mut i: usize = 0;
    proof {
        assert(chars.subrange(0, 0) =~= Seq::<char>::empty());
    }
    while i < source.len()
        invariant
            i <= source@.len(),
            chars == bytes_as_chars(source@),
            chars.len() == source@.len(),
            split(chars.subrange(0, i as int), '\n') == done.push(current@),
            items@.len() == done.len(),
            done.len() + current@.len() <= i,
            forall|k: int| 0 <= k < items@.len() ==> line_result_ok(strip_cr(done[k]), (k + 1) as nat, #[trigger] items@[k]),
        decreases source@.len() - i,
    {
        let c = source[i] as char;
        proof {
            assert(chars.subrange(0, i + 1).drop_last() =~= chars.subrange(0, i as int));
            assert(chars.subrange(0, i + 1).last() == c);
        }
        if c == '\n' {
            let item = parse_stripped(current.as_slice(), items.len() + 1);
            proof {
                done = done.push(current@);
            }
            items.push(item);
            current = Vec::new();
        } else {
            current.push(c);
        }
        i = i + 1;
    }
    proof {
        assert(chars.subrange(0, i as int) =~= chars);
    }
    let ghost pieces = done.push(current@);
    if current.len() > 0 {
        let item = parse_stripped(current.as_slice(), items.len() + 1);
        items.push(item);
        proof {
            assert(lines_spec(source@) =~= pieces.map_values(|l: Seq<char>| strip_cr(l)));
        }
    } else {
        proof {
            assert(pieces.drop_last() =~= done);
            assert(lines_spec(source@) =~= done.map_values(|l: Seq<char>| strip_cr(l)));
        }
    }
    items
}

/// Read the line, without a trailing carriage return, as the model item with the given number.
fn parse_stripped(line: &[char], number: usize) -> (res: Result<ModelItem, FznError>)
    ensures
        line_result_ok(strip_cr(line@), number as nat, res),
{
    if line.len() > 0 && line[line.len() - 1] == '\r' {
        let stripped = crate::text::slice_chars(line, 0, line.len() - 1);
        assert(stripped@ =~= line@.drop_last());
        parse_line(stripped.as_slice(), number)
    } else {
        parse_line(line, number)
    }
}

/// Parse a FlatZinc source into model items, one for each line.
pub fn parse(source: &[u8]) -> (items: std::vec::IntoIter<Result<ModelItem, FznError>>)
    ensures
        vstd::std_specs::iter::IteratorSpec::remaining(&items).len() == lines_spec(source@).len(),
        forall|k: int| 0 <= k < lines_spec(source@).len() ==> line_result_ok(lines_spec(source@)[k], (k + 1) as nat, #[trigger] vstd::std_specs::iter::IteratorSpec::remaining(&items)[k]),
{
    broadcast use vstd::std_specs::vec::axiom_spec_into_iter;
    let items = parse_source(source);
    items.into_iter()
}

} // verus!
