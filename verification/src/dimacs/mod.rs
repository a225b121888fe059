//! This module provides parsers for the DIMACS CNF file format. Given that DIMACS files
//! can be very large, the implementation is designed to read the file in chunks. The parser also
//! will not allocate for every encountered clause, but rather re-use its buffers.
//!
//! It should be noted that the parser should not be used as a DIMACS validator. Even though it
//! should only accept valid DIMACS files, the errors are not extremely detailed.
//!
//! What the parser does is stated over [`ParserModel`]: [`step`] says what one byte does, [`run`]
//! what a sequence of bytes does, and [`complete_spec`] what the end of the input does.
use vstd::prelude::*;
use vstd::string::StrSliceExecFns;

use crate::text::{
    all_digits, chars_of, is_ascii_whitespace, is_ascii_whitespace_spec, parse_i32, parse_i32_spec,
    parse_usize, parse_usize_spec, split, starts_with, string_of, trim, trim_bounds,
};

verus! {

/// A dimacs sink stores a set of clauses.
pub trait DimacsSink {
    /// The clauses added so far, in order.
    spec fn clauses(&self) -> Seq<Seq<i32>>;

    /// Add a new clause to the formula. Its literals are nonzero.
    fn add_clause(&mut self, clause: &[i32])
        requires
            forall|i: int| 0 <= i < clause@.len() ==> clause@[i] != 0,
        ensures
            final(self).clauses() == old(self).clauses().push(clause@),
    ;
}

impl DimacsSink for Vec<Vec<i32>> {
    open spec fn clauses(&self) -> Seq<Seq<i32>> {
        self@.map_values(|c: Vec<i32>| c@)
    }

    fn add_clause(&mut self, clause: &[i32]) {
        let mut lits: Vec<i32> = Vec::new();
        let mut i: usize = 0;
        while i < clause.len()
            invariant
                i <= clause@.len(),
                lits@ == clause@.subrange(0, i as int),
            decreases clause@.len() - i,
        {
            lits.push(clause[i]);
            i = i + 1;
        }
        assert(lits@ =~= clause@);
        self.push(lits);
        assert(self@.map_values(|c: Vec<i32>| c@) =~= old(self)@.map_values(|c: Vec<i32>| c@).push(
            clause@,
        ));
    }
}

/// Why a DIMACS source was rejected.
#[derive(Debug)]
pub enum DimacsParseError {
    MissingHeader,
    InvalidHeader(String),
    DuplicateHeader,
    UnexpectedCharacter(char),
    InvalidLiteral(String),
    UnterminatedClause,
    IncorrectClauseCount { expected: usize, parsed: usize },
}

/// What [`DimacsParseError`] says, with its text as characters.
pub enum ParseFailure {
    MissingHeader,
    InvalidHeader(Seq<char>),
    DuplicateHeader,
    UnexpectedCharacter(char),
    InvalidLiteral(Seq<char>),
    UnterminatedClause,
    IncorrectClauseCount(nat, nat),
}

impl DimacsParseError {
    /// What the error says.
    pub open spec fn failure(&self) -> ParseFailure {
        match self {
            DimacsParseError::MissingHeader => ParseFailure::MissingHeader,
            DimacsParseError::InvalidHeader(s) => ParseFailure::InvalidHeader(s@),
            DimacsParseError::DuplicateHeader => ParseFailure::DuplicateHeader,
            DimacsParseError::UnexpectedCharacter(c) => ParseFailure::UnexpectedCharacter(*c),
            DimacsParseError::InvalidLiteral(s) => ParseFailure::InvalidLiteral(s@),
            DimacsParseError::UnterminatedClause => ParseFailure::UnterminatedClause,
            DimacsParseError::IncorrectClauseCount { expected, parsed } => ParseFailure::IncorrectClauseCount(
                *expected as nat,
                *parsed as nat,
            ),
        }
    }
}

/// The header line of a DIMACS CNF source.
#[derive(PartialEq, Eq, Structural, Clone, Copy, Debug)]
pub struct CNFHeader {
    pub num_variables: usize,
    pub num_clauses: usize,
}

/// The text every header begins with.
pub open spec fn header_prefix() -> Seq<char> {
    seq!['p', ' ', 'c', 'n', 'f', ' ']
}

/// The header the text denotes, as `CNFHeader::from_str` reads it: the text begins with
/// `p cnf `, and split at single spaces after trimming it has exactly four pieces, of which the
/// last two are unsigned numbers. Anything else is an invalid header, reported with the text.
pub open spec fn header_spec(s: Seq<char>) -> Result<CNFHeader, ParseFailure> {
    let pieces = split(trim(s), ' ');
    if starts_with(s, header_prefix()) && pieces.len() == 4 && parse_usize_spec(pieces[2]) is Some
        && parse_usize_spec(pieces[3]) is Some {
        Ok(
            CNFHeader {
                num_variables: parse_usize_spec(pieces[2]).unwrap(),
                num_clauses: parse_usize_spec(pieces[3]).unwrap(),
            },
        )
    } else {
        Err(ParseFailure::InvalidHeader(s))
    }
}

impl CNFHeader {
    /// Read a header from its characters.
    pub fn from_chars(s: &[char]) -> (res: Result<CNFHeader, DimacsParseError>)
        ensures
            match header_spec(s@) {
                Ok(h) => res == Ok::<CNFHeader, DimacsParseError>(h),
                Err(f) => res matches Err(e) && e.failure() == f,
            },
    {
        if !has_header_prefix(s) {
            return Err(DimacsParseError::InvalidHeader(string_of(s)));
        }
        let (start, end) = trim_bounds(s);
        let pieces = split_spaces(s, start, end);
        if pieces.len() != 4 {
            return Err(DimacsParseError::InvalidHeader(string_of(s)));
        }
        let num_variables = parse_usize(pieces[2].as_slice());
        let num_clauses = parse_usize(pieces[3].as_slice());
        match (num_variables, num_clauses) {
            (Some(num_variables), Some(num_clauses)) => Ok(CNFHeader { num_variables, num_clauses }),
            _ => Err(DimacsParseError::InvalidHeader(string_of(s))),
        }
    }
}

/// Whether the text begins with `p cnf `.
fn has_header_prefix(s: &[char]) -> (res: bool)
    ensures
        res == starts_with(s@, header_prefix()),
{
    let prefix: [char; 6] = ['p', ' ', 'c', 'n', 'f', ' '];
    if s.len() < 6 {
        return false;
    }
    let mut i: usize = 0;
    while i < 6
        invariant
            i <= 6,
            s@.len() >= 6,
            prefix@ == header_prefix(),
            s@.subrange(0, i as int) == header_prefix().subrange(0, i as int),
        decreases 6 - i,
    {
        if s[i] != prefix[i] {
            proof {
                if starts_with(s@, header_prefix()) {
                    assert(s@.subrange(0, 6)[i as int] == s@[i as int]);
                }
            }
            return false;
        }
        proof {
            assert(s@.subrange(0, i + 1) =~= s@.subrange(0, i as int).push(s@[i as int]));
            assert(header_prefix().subrange(0, i + 1) =~= header_prefix().subrange(0, i as int).push(prefix@[i as int]));
        }
        i = i + 1;
    }
    assert(header_prefix().subrange(0, 6) =~= header_prefix());
    true
}

impl std::str::FromStr for CNFHeader {
    type Err = DimacsParseError;

    /// Read a header from the text, as [`CNFHeader::from_chars`] does.
    fn from_str(s: &str) -> (res: Result<CNFHeader, DimacsParseError>)
        ensures
            match header_spec(s@) {
                Ok(h) => res == Ok::<CNFHeader, DimacsParseError>(h),
                Err(f) => res matches Err(e) && e.failure() == f,
            },
    {
        let chars = chars_of(s);
        CNFHeader::from_chars(chars.as_slice())
    }
}

/// The pieces of `s[start..end]` between single spaces.
fn split_spaces(s: &[char], start: usize, end: usize) -> (pieces: Vec<Vec<char>>)
    requires
        start <= end <= s@.len(),
    ensures
        pieces@.len() == split(s@.subrange(start as int, end as int), ' ').len(),
        forall|k: int| 0 <= k < pieces@.len() ==> (#[trigger] pieces@[k])@ == split(s@.subrange(start as int, end as int), ' ')[k],
{
    let mut pieces: Vec<Vec<char>> = Vec::new();
    let mut current: Vec<char> = Vec::new();
    let mut i: usize = start;
    proof {
        assert(s@.subrange(start as int, start as int) =~= Seq::<char>::empty());
    }
    while i < end
        invariant
            start <= i <= end <= s@.len(),
            split(s@.subrange(start as int, i as int), ' ').len() == pieces@.len() + 1,
            forall|k: int| 0 <= k < pieces@.len() ==> (#[trigger] pieces@[k])@ == split(s@.subrange(start as int, i as int), ' ')[k],
            current@ == split(s@.subrange(start as int, i as int), ' ')[pieces@.len() as int],
        decreases end - i,
    {
        let c = s[i];
        proof {
            assert(s@.subrange(start as int, i + 1).drop_last() =~= s@.subrange(start as int, i as int));
            assert(s@.subrange(start as int, i + 1).last() == c);
        }
        if c == ' ' {
            pieces.push(current);
            current = Vec::new();
        } else {
            current.push(c);
        }
        i = i + 1;
    }
    pieces.push(current);
    pieces
}

/// Splitting always gives at least one piece.
proof fn lemma_split_nonempty(s: Seq<char>, sep: char)
    ensures
        split(s, sep).len() > 0,
    decreases s.len(),
{
    if s.len() > 0 {
        lemma_split_nonempty(s.drop_last(), sep);
    }
}

/// What the parser is doing at the current byte.
#[derive(PartialEq, Eq, Structural, Clone, Copy, Debug)]
pub enum ParseState {
    StartLine,
    Header,
    Comment,
    Literal,
    NegativeLiteral,
    Clause,
}

/// What a parser holds, as values: the state, the text of the header or literal being read, the
/// literals of the clause being read, the header once read, and the clauses handed to the sink.
pub struct ParserModel {
    pub state: ParseState,
    pub buffer: Seq<char>,
    pub clause: Seq<i32>,
    pub header: Option<CNFHeader>,
    pub clauses: Seq<Seq<i32>>,
}

/// The parser before any byte.
pub open spec fn initial_model() -> ParserModel {
    ParserModel {
        state: ParseState::StartLine,
        buffer: Seq::empty(),
        clause: Seq::empty(),
        header: None,
        clauses: Seq::empty(),
    }
}

/// Begin a literal with its first character.
pub open spec fn start_literal_spec(m: ParserModel, c: char, state: ParseState) -> ParserModel {
    ParserModel { state, buffer: seq![c], clause: m.clause, header: m.header, clauses: m.clauses }
}

/// Hand the clause read so far to the sink, which needs the header to exist.
pub open spec fn finish_clause_spec(m: ParserModel) -> Result<ParserModel, ParseFailure> {
    if m.header is None {
        Err(ParseFailure::MissingHeader)
    } else {
        Ok(
            ParserModel {
                state: m.state,
                buffer: m.buffer,
                clause: Seq::empty(),
                header: m.header,
                clauses: m.clauses.push(m.clause),
            },
        )
    }
}

/// Add the literal whose text is in the buffer to the clause.
pub open spec fn finish_literal_spec(m: ParserModel) -> Result<ParserModel, ParseFailure> {
    match parse_i32_spec(m.buffer) {
        Some(v) => if v != 0 {
            Ok(
                ParserModel {
                    state: ParseState::Clause,
                    buffer: m.buffer,
                    clause: m.clause.push(v),
                    header: m.header,
                    clauses: m.clauses,
                },
            )
        } else {
            Err(ParseFailure::InvalidLiteral(m.buffer))
        },
        None => Err(ParseFailure::InvalidLiteral(m.buffer)),
    }
}

/// Read the header line in the buffer; a second header is refused.
pub open spec fn init_formula_spec(m: ParserModel) -> Result<ParserModel, ParseFailure> {
    match header_spec(trim(m.buffer)) {
        Err(f) => Err(f),
        Ok(h) => if m.header is Some {
            Err(ParseFailure::DuplicateHeader)
        } else {
            Ok(
                ParserModel {
                    state: ParseState::StartLine,
                    buffer: m.buffer,
                    clause: m.clause,
                    header: Some(h),
                    clauses: m.clauses,
                },
            )
        },
    }
}

/// Whether the byte is a digit from `1` to `9`.
pub open spec fn is_nonzero_digit(b: u8) -> bool {
    0x31u8 <= b && b <= 0x39u8
}

/// Whether the byte is a digit.
pub open spec fn is_digit(b: u8) -> bool {
    0x30u8 <= b && b <= 0x39u8
}

/// The parser with the state changed.
pub open spec fn with_state(m: ParserModel, state: ParseState) -> ParserModel {
    ParserModel { state, buffer: m.buffer, clause: m.clause, header: m.header, clauses: m.clauses }
}

/// The parser with the character appended to the buffer.
pub open spec fn with_char(m: ParserModel, c: char) -> ParserModel {
    ParserModel {
        state: m.state,
        buffer: m.buffer.push(c),
        clause: m.clause,
        header: m.header,
        clauses: m.clauses,
    }
}

/// What one byte does to the parser. Bytes stand for the characters with the same code.
pub open spec fn step(m: ParserModel, b: u8) -> Result<ParserModel, ParseFailure> {
    let c = b as char;
    match m.state {
        ParseState::StartLine => if is_ascii_whitespace_spec(b) {
            Ok(m)
        } else if b == 0x70u8 {
            Ok(
                ParserModel {
                    state: ParseState::Header,
                    buffer: seq!['p'],
                    clause: m.clause,
                    header: m.header,
                    clauses: m.clauses,
                },
            )
        } else if b == 0x63u8 {
            Ok(with_state(m, ParseState::Comment))
        } else if is_nonzero_digit(b) {
            Ok(start_literal_spec(m, c, ParseState::Literal))
        } else if b == 0x30u8 {
            finish_clause_spec(m)
        } else if b == 0x2Du8 {
            Ok(start_literal_spec(m, '-', ParseState::NegativeLiteral))
        } else {
            Err(ParseFailure::UnexpectedCharacter(c))
        },
        ParseState::Header => if b == 0x0Au8 {
            init_formula_spec(m)
        } else {
            Ok(with_char(m, c))
        },
        ParseState::Comment => if b == 0x0Au8 {
            Ok(with_state(m, ParseState::StartLine))
        } else {
            Ok(m)
        },
        ParseState::Literal => if is_ascii_whitespace_spec(b) {
            finish_literal_spec(m)
        } else if is_digit(b) {
            Ok(with_char(m, c))
        } else {
            Err(ParseFailure::UnexpectedCharacter(c))
        },
        ParseState::NegativeLiteral => if is_nonzero_digit(b) {
            Ok(with_state(with_char(m, c), ParseState::Literal))
        } else {
            Err(ParseFailure::UnexpectedCharacter(c))
        },
        ParseState::Clause => if b == 0x30u8 {
            finish_clause_spec(m)
        } else if b == 0x0Au8 {
            Ok(with_state(m, ParseState::StartLine))
        } else if is_ascii_whitespace_spec(b) {
            Ok(m)
        } else if is_nonzero_digit(b) {
            Ok(start_literal_spec(m, c, ParseState::Literal))
        } else if b == 0x2Du8 {
            Ok(start_literal_spec(m, '-', ParseState::NegativeLiteral))
        } else {
            Err(ParseFailure::UnexpectedCharacter(c))
        },
    }
}

/// What a sequence of bytes does to the parser: the bytes one after the other, stopping at the
/// first failure.
pub open spec fn run(m: ParserModel, bytes: Seq<u8>) -> Result<ParserModel, ParseFailure>
    decreases bytes.len(),
{
    if bytes.len() == 0 {
        Ok(m)
    } else {
        match run(m, bytes.drop_last()) {
            Ok(m1) => step(m1, bytes.last()),
            Err(f) => Err(f),
        }
    }
}

/// What the end of the input does: the header must have been read, the last clause terminated
/// (no literal still being read),
/// and as many clauses read as the header announced.
pub open spec fn complete_spec(m: ParserModel) -> Result<(), ParseFailure> {
    if m.header is None {
        Err(ParseFailure::MissingHeader)
    } else if m.clause.len() != 0 || m.state is Literal || m.state is NegativeLiteral {
        Err(ParseFailure::UnterminatedClause)
    } else if m.header.unwrap().num_clauses != m.clauses.len() {
        Err(ParseFailure::IncorrectClauseCount(m.header.unwrap().num_clauses as nat, m.clauses.len()))
    } else {
        Ok(())
    }
}

/// Separators are interchangeable: between the literals of a clause, on an empty line, in a
/// comment and after a literal, a tab, a form feed or a carriage return does what a space does.
/// In particular a clause line ending in a carriage return and a line feed reads as one ending in
/// a line feed.
pub proof fn lemma_separators_alike(m: ParserModel, b: u8)
    requires
        b == 0x09u8 || b == 0x0Cu8 || b == 0x0Du8,
        !(m.state is Header),
        !(m.state is NegativeLiteral),
    ensures
        run(m, seq![b]) == run(m, seq![0x20u8]),
{
    lemma_run_one(m, b);
    lemma_run_one(m, 0x20u8);
}

/// Reading one byte is one step.
pub proof fn lemma_run_one(m: ParserModel, b: u8)
    ensures
        run(m, seq![b]) == step(m, b),
{
    assert(seq![b].drop_last() =~= Seq::<u8>::empty());
    assert(run(m, Seq::<u8>::empty()) == Ok::<ParserModel, ParseFailure>(m));
    assert(seq![b].last() == b);
}

/// A header line ending in a carriage return and a line feed reads as one ending in a line feed:
/// both are accepted or refused alike, and give the same header.
pub proof fn lemma_header_crlf(m: ParserModel)
    requires
        m.state is Header,
    ensures
        match (run(m, seq![0x0Du8, 0x0Au8]), run(m, seq![0x0Au8])) {
            (Ok(a), Ok(b)) => a.state == b.state && a.header == b.header && a.clause == b.clause && a.clauses == b.clauses,
            (Err(f), Err(g)) => f == g,
            _ => false,
        },
{
    lemma_run_one(m, 0x0Au8);
    lemma_run_one(m, 0x0Du8);
    let two = seq![0x0Du8, 0x0Au8];
    assert(two.drop_last() =~= seq![0x0Du8]);
    assert(two.last() == 0x0Au8);
    let m1 = with_char(m, '\r');
    assert(run(m, two) == step(m1, 0x0Au8));
    crate::text::lemma_trim_push_whitespace(m.buffer, '\r');
    assert(trim(m1.buffer) == trim(m.buffer));
}

/// Between the literals of a clause, a space, a tab, a form feed or a carriage return leaves the
/// parser as it is: only a line feed, a digit or a minus sign changes it.
pub proof fn lemma_clause_separator(m: ParserModel, b: u8)
    requires
        m.state is Clause,
        b == 0x20u8 || b == 0x09u8 || b == 0x0Cu8 || b == 0x0Du8,
    ensures
        run(m, seq![b]) == Ok::<ParserModel, ParseFailure>(m),
{
    lemma_run_one(m, b);
}

/// Reading the input in two chunks is reading it at once: the parser may stop between any two
/// bytes and go on from where it stopped.
pub proof fn lemma_run_chunks(m: ParserModel, a: Seq<u8>, b: Seq<u8>)
    ensures
        run(m, a + b) == match run(m, a) {
            Ok(m1) => run(m1, b),
            Err(f) => Err(f),
        },
    decreases b.len(),
{
    if b.len() == 0 {
        assert(a + b =~= a);
    } else {
        lemma_run_chunks(m, a, b.drop_last());
        assert((a + b).drop_last() =~= a + b.drop_last());
        assert((a + b).last() == b.last());
    }
}

/// A step hands at most one clause to the sink and keeps those it already has.
proof fn lemma_step_clauses(m: ParserModel, b: u8)
    ensures
        step(m, b) matches Ok(m1) ==> m1.clauses.len() <= m.clauses.len() + 1 && m1.clauses.subrange(
            0,
            m.clauses.len() as int,
        ) == m.clauses && m1.header is Some == (m.header is Some || m1.header is Some) && (m.header is Some
            ==> m1.header == m.header),
{
    if let Ok(m1) = step(m, b) {
        assert(m1.clauses.subrange(0, m.clauses.len() as int) =~= m.clauses);
    }
}

/// Reads DIMACS CNF text in chunks and hands the clauses to a sink, which it makes with the
/// given constructor once the header has been read.
pub struct DimacsParser<Sink, SinkConstructor> {
    sink_constructor: Option<SinkConstructor>,
    sink: Option<Sink>,
    header: Option<CNFHeader>,
    buffer: Vec<char>,
    clause: Vec<i32>,
    state: ParseState,
    parsed_clauses: usize,
    clauses: Ghost<Seq<Seq<i32>>>,
    constructor: Ghost<SinkConstructor>,
    made: Ghost<Option<Sink>>,
}

impl<Sink: DimacsSink, SinkConstructor: FnOnce(&CNFHeader) -> Sink> DimacsParser<Sink, SinkConstructor> {
    /// The parser as values.
    pub closed spec fn model(&self) -> ParserModel {
        ParserModel {
            state: self.state,
            buffer: self.buffer@,
            clause: self.clause@,
            header: self.header,
            clauses: self.clauses@,
        }
    }

    /// The constructor the parser was made with.
    pub closed spec fn constructor(&self) -> SinkConstructor {
        self.constructor@
    }

    /// The sink as the constructor made it.
    pub closed spec fn made_sink(&self) -> Sink {
        self.made@.unwrap()
    }

    /// The parser's fields agree with its model.
    pub closed spec fn wf(&self) -> bool {
        &&& forall|h: CNFHeader| call_requires(self.constructor@, (&h,))
        &&& self.sink_constructor is Some <==> self.header is None
        &&& self.sink is Some <==> self.header is Some
        &&& self.sink_constructor is Some ==> self.sink_constructor.unwrap() == self.constructor@
        &&& self.header is None ==> self.clauses@.len() == 0
        &&& self.header is Some ==> {
            &&& self.made@ is Some
            &&& call_ensures(self.constructor@, (&self.header.unwrap(),), self.made@.unwrap())
            &&& self.sink.unwrap().clauses() == self.made@.unwrap().clauses() + self.clauses@
        }
        &&& self.parsed_clauses == self.clauses@.len()
        &&& forall|i: int| 0 <= i < self.clause@.len() ==> self.clause@[i] != 0
    }

    /// Construct a new DIMACS parser that makes its sink with the given constructor.
    pub fn new(sink_constructor: SinkConstructor) -> (parser: Self)
        requires
            forall|h: CNFHeader| call_requires(sink_constructor, (&h,)),
        ensures
            parser.wf(),
            parser.model() == initial_model(),
            parser.constructor() == sink_constructor,
    {
        let ghost constructor = sink_constructor;
        DimacsParser {
            sink_constructor: Some(sink_constructor),
            sink: None,
            header: None,
            buffer: Vec::new(),
            clause: Vec::new(),
            state: ParseState::StartLine,
            parsed_clauses: 0,
            clauses: Ghost(Seq::empty()),
            constructor: Ghost(constructor),
            made: Ghost(None),
        }
    }

    /// The number of clauses handed to the sink so far.
    pub fn parsed_clauses(&self) -> (n: usize)
        requires
            self.wf(),
        ensures
            n == self.model().clauses.len(),
    {
        self.parsed_clauses
    }

    /// Parse the next chunk of bytes. This may start in the middle of parsing a clause or file
    /// header, and may end in such a state as well.
    pub fn parse_chunk(&mut self, chunk: &[u8]) -> (res: Result<(), DimacsParseError>)
        requires
            old(self).wf(),
            old(self).model().clauses.len() + chunk@.len() <= usize::MAX,
        ensures
            final(self).constructor() == old(self).constructor(),
            match run(old(self).model(), chunk@) {
                Ok(m) => res is Ok && final(self).wf() && final(self).model() == m,
                Err(f) => res matches Err(e) && e.failure() == f,
            },
            res is Ok ==> final(self).model().clauses.len() <= old(self).model().clauses.len() + chunk@.len(),
    {
        let ghost m0 = self.model();
        let mut i: usize = 0;
        while i < chunk.len()
            invariant
                i <= chunk@.len(),
                self.wf(),
                self.constructor() == old(self).constructor(),
                m0 == old(self).model(),
                m0.clauses.len() + chunk@.len() <= usize::MAX,
                run(m0, chunk@.subrange(0, i as int)) == Ok::<ParserModel, ParseFailure>(self.model()),
                self.model().clauses.len() <= m0.clauses.len() + i,
            decreases chunk@.len() - i,
        {
            let b = chunk[i];
            let ghost before = self.model();
            proof {
                let p = chunk@.subrange(0, i + 1);
                assert(p.drop_last() =~= chunk@.subrange(0, i as int));
                assert(p.last() == b);
                lemma_step_clauses(before, b);
            }
            let r = self.consume(b);
            match r {
                Ok(()) => {},
                Err(e) => {
                    proof {
                        lemma_run_fails(m0, chunk@, i as int + 1);
                    }
                    return Err(e);
                },
            }
            i = i + 1;
        }
        assert(chunk@.subrange(0, i as int) =~= chunk@);
        Ok(())
    }

    /// Do what one byte asks.
    fn consume(&mut self, b: u8) -> (res: Result<(), DimacsParseError>)
        requires
            old(self).wf(),
            old(self).model().clauses.len() < usize::MAX,
        ensures
            final(self).constructor() == old(self).constructor(),
            match step(old(self).model(), b) {
                Ok(m) => res is Ok && final(self).wf() && final(self).model() == m,
                Err(f) => res matches Err(e) && e.failure() == f,
            },
    {
        let c = b as char;
        match self.state {
            ParseState::StartLine => {
                if is_ascii_whitespace(b) {
                } else if b == 0x70u8 {
                    self.state = ParseState::Header;
                    self.buffer.clear();
                    self.buffer.push('p');
                    assert(self.buffer@ =~= seq!['p']);
                } else if b == 0x63u8 {
                    self.state = ParseState::Comment;
                } else if 0x31u8 <= b && b <= 0x39u8 {
                    self.start_literal(c, ParseState::Literal);
                } else if b == 0x30u8 {
                    return self.finish_clause();
                } else if b == 0x2Du8 {
                    self.start_literal('-', ParseState::NegativeLiteral);
                } else {
                    return Err(DimacsParseError::UnexpectedCharacter(c));
                }
            },
            ParseState::Header => {
                if b == 0x0Au8 {
                    return self.init_formula();
                } else {
                    self.buffer.push(c);
                }
            },
            ParseState::Comment => {
                if b == 0x0Au8 {
                    self.state = ParseState::StartLine;
                }
            },
            ParseState::Literal => {
                if is_ascii_whitespace(b) {
                    return self.finish_literal();
                } else if 0x30u8 <= b && b <= 0x39u8 {
                    self.buffer.push(c);
                } else {
                    return Err(DimacsParseError::UnexpectedCharacter(c));
                }
            },
            ParseState::NegativeLiteral => {
                if 0x31u8 <= b && b <= 0x39u8 {
                    self.buffer.push(c);
                    self.state = ParseState::Literal;
                } else {
                    return Err(DimacsParseError::UnexpectedCharacter(c));
                }
            },
            ParseState::Clause => {
                if b == 0x30u8 {
                    return self.finish_clause();
                } else if b == 0x0Au8 {
                    self.state = ParseState::StartLine;
                } else if is_ascii_whitespace(b) {
                } else if 0x31u8 <= b && b <= 0x39u8 {
                    self.start_literal(c, ParseState::Literal);
                } else if b == 0x2Du8 {
                    self.start_literal('-', ParseState::NegativeLiteral);
                } else {
                    return Err(DimacsParseError::UnexpectedCharacter(c));
                }
            },
        }
        Ok(())
    }

    /// Begin a literal with its first character.
    fn start_literal(&mut self, c: char, state: ParseState)
        requires
            old(self).wf(),
        ensures
            final(self).wf(),
            final(self).constructor() == old(self).constructor(),
            final(self).model() == start_literal_spec(old(self).model(), c, state),
    {
        self.state = state;
        self.buffer.clear();
        self.buffer.push(c);
        assert(self.buffer@ =~= seq![c]);
    }

    /// Read the header line in the buffer and make the sink.
    fn init_formula(&mut self) -> (res: Result<(), DimacsParseError>)
        requires
            old(self).wf(),
        ensures
            final(self).constructor() == old(self).constructor(),
            res is Err ==> *final(self) == *old(self),
            res is Ok ==> old(self).model().header is None && final(self).model().header is Some
                && call_ensures(final(self).constructor(), (&final(self).model().header.unwrap(),), final(self).made_sink()),
            match init_formula_spec(old(self).model()) {
                Ok(m) => res is Ok && final(self).wf() && final(self).model() == m,
                Err(f) => res matches Err(e) && e.failure() == f,
            },
    {
        let (start, end) = trim_bounds(self.buffer.as_slice());
        let mut trimmed: Vec<char> = Vec::new();
        let mut k: usize = start;
        while k < end
            invariant
                start <= k <= end <= self.buffer@.len(),
                trimmed@ == self.buffer@.subrange(start as int, k as int),
            decreases end - k,
        {
            trimmed.push(self.buffer[k]);
            proof {
                assert(self.buffer@.subrange(start as int, k + 1) =~= self.buffer@.subrange(start as int, k as int).push(self.buffer@[k as int]));
            }
            k = k + 1;
        }
        let header = match CNFHeader::from_chars(trimmed.as_slice()) {
            Ok(header) => header,
            Err(e) => return Err(e),
        };
        match self.sink_constructor.take() {
            Some(sink_constructor) => {
                let sink = sink_constructor(&header);
                proof {
                    self.made = Ghost(Some(sink));
                    assert(self.clauses@ + Seq::<Seq<i32>>::empty() =~= self.clauses@);
                    assert(sink.clauses() + self.clauses@ =~= sink.clauses());
                }
                self.sink = Some(sink);
                self.header = Some(header);
                self.state = ParseState::StartLine;
                Ok(())
            },
            None => Err(DimacsParseError::DuplicateHeader),
        }
    }

    /// Add the literal whose text is in the buffer to the clause.
    fn finish_literal(&mut self) -> (res: Result<(), DimacsParseError>)
        requires
            old(self).wf(),
        ensures
            final(self).constructor() == old(self).constructor(),
            match finish_literal_spec(old(self).model()) {
                Ok(m) => res is Ok && final(self).wf() && final(self).model() == m,
                Err(f) => res matches Err(e) && e.failure() == f,
            },
    {
        match parse_i32(self.buffer.as_slice()) {
            Some(v) => {
                if v == 0 {
                    return Err(DimacsParseError::InvalidLiteral(string_of(self.buffer.as_slice())));
                }
                self.clause.push(v);
                self.state = ParseState::Clause;
                Ok(())
            },
            None => Err(DimacsParseError::InvalidLiteral(string_of(self.buffer.as_slice()))),
        }
    }

    /// Hand the clause read so far to the sink.
    fn finish_clause(&mut self) -> (res: Result<(), DimacsParseError>)
        requires
            old(self).wf(),
            old(self).model().clauses.len() < usize::MAX,
            forall|i: int| 0 <= i < old(self).model().clause.len() ==> old(self).model().clause[i] != 0,
        ensures
            final(self).constructor() == old(self).constructor(),
            match finish_clause_spec(old(self).model()) {
                Ok(m) => res is Ok && final(self).wf() && final(self).model() == m,
                Err(f) => res matches Err(e) && e.failure() == f,
            },
    {
        match self.sink.as_mut() {
            Some(sink) => {
                sink.add_clause(self.clause.as_slice());
                self.parsed_clauses = self.parsed_clauses + 1;
                proof {
                    let old_clauses = self.clauses@;
                    self.clauses = Ghost(old_clauses.push(self.clause@));
                    assert(self.made@.unwrap().clauses() + self.clauses@ =~= (self.made@.unwrap().clauses() + old_clauses).push(self.clause@));
                }
                self.clause.clear();
                Ok(())
            },
            None => Err(DimacsParseError::MissingHeader),
        }
    }

    /// End the input, giving the sink back.
    pub fn complete(self) -> (res: Result<Sink, DimacsParseError>)
        requires
            self.wf(),
        ensures
            match complete_spec(self.model()) {
                Ok(()) => res matches Ok(sink) && sink.clauses() == self.made_sink().clauses() + self.model().clauses
                    && call_ensures(self.constructor(), (&self.model().header.unwrap(),), self.made_sink()),
                Err(f) => res matches Err(e) && e.failure() == f,
            },
    {
        let sink = match self.sink {
            Some(sink) => sink,
            None => return Err(DimacsParseError::MissingHeader),
        };
        let header = match self.header {
            Some(header) => header,
            None => return Err(DimacsParseError::MissingHeader),
        };
        let in_literal = match self.state {
            ParseState::Literal | ParseState::NegativeLiteral => true,
            _ => false,
        };
        if self.clause.len() != 0 || in_literal {
            Err(DimacsParseError::UnterminatedClause)
        } else if header.num_clauses != self.parsed_clauses {
            Err(DimacsParseError::IncorrectClauseCount { expected: header.num_clauses, parsed: self.parsed_clauses })
        } else {
            Ok(sink)
        }
    }
}

/// A failure at some byte is the failure of the whole chunk.
proof fn lemma_run_fails(m: ParserModel, bytes: Seq<u8>, k: int)
    requires
        0 <= k <= bytes.len(),
        run(m, bytes.subrange(0, k)) is Err,
    ensures
        run(m, bytes) == run(m, bytes.subrange(0, k)),
    decreases bytes.len() - k,
{
    if k < bytes.len() {
        let p = bytes.subrange(0, k + 1);
        assert(p.drop_last() =~= bytes.subrange(0, k));
        lemma_run_fails(m, bytes, k + 1);
    } else {
        assert(bytes.subrange(0, k) =~= bytes);
    }
}

/// Parse a whole DIMACS CNF source held in memory, making the sink with the given constructor
/// once the header has been read.
pub fn parse_cnf<Sink: DimacsSink>(
    source: &[u8],
    sink_factory: impl FnOnce(&CNFHeader) -> Sink,
) -> (res: Result<Sink, DimacsParseError>)
    requires
        forall|h: CNFHeader| call_requires(sink_factory, (&h,)),
    ensures
        match run(initial_model(), source@) {
            Err(f) => res matches Err(e) && e.failure() == f,
            Ok(m) => match complete_spec(m) {
                Err(f) => res matches Err(e) && e.failure() == f,
                Ok(()) => res matches Ok(sink) && exists|made: Sink|
                    call_ensures(sink_factory, (&m.header.unwrap(),), made) && sink.clauses() == made.clauses()
                        + m.clauses,
            },
        },
{
    let mut parser = DimacsParser::new(sink_factory);
    let _length = source.len();
    match parser.parse_chunk(source) {
        Ok(()) => {},
        Err(e) => return Err(e),
    }
    let ghost made = parser.made_sink();
    parser.complete()
}

} // verus!
