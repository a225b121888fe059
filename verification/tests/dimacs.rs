use limiga::dimacs::{parse_cnf, CNFHeader, DimacsParseError, DimacsParser};

fn parse_cnf_source(source: &str) -> Vec<Vec<i32>> {
    parse_cnf::<Vec<Vec<i32>>>(source.as_bytes(), |_| vec![]).expect("valid dimacs")
}

fn get_cnf_parse_error(source: &str) -> DimacsParseError {
    parse_cnf::<Vec<Vec<i32>>>(source.as_bytes(), |_| vec![]).expect_err("invalid dimacs")
}

#[test]
fn basic_instance_is_read() {
    let source = "p cnf 2 2\n1 -2 0\n-1 2 0";
    let formula = parse_cnf_source(source);

    assert_eq!(vec![vec![1, -2], vec![-1, 2]], formula);
}

#[test]
fn instance_with_two_character_codes_is_accepted() {
    let source = "p cnf 11 2\n1 -2 10 0\n-1 2 -11 0";
    let formula = parse_cnf_source(source);

    assert_eq!(vec![vec![1, -2, 10], vec![-1, 2, -11]], formula);
}

#[test]
fn trailing_whitespace_is_ignored() {
    let source = "p cnf 2 2\n1 -2 0\n-1 2 0\n";
    let formula = parse_cnf_source(source);

    assert_eq!(vec![vec![1, -2], vec![-1, 2]], formula);
}

#[test]
fn comments_are_ignored() {
    let source = "c this is\nc a comment\np cnf 2 2\n1 -2 0\nc within the file\n-1 2 0\n";
    let formula = parse_cnf_source(source);

    assert_eq!(vec![vec![1, -2], vec![-1, 2]], formula);
}

#[test]
fn whitespace_is_ignored() {
    let source = r#"
            p cnf 2 2
             1 -2 0
            -1  2 0
        "#;

    let formula = parse_cnf_source(source);

    assert_eq!(vec![vec![1, -2], vec![-1, 2]], formula);
}

#[test]
fn empty_lines_are_ignored() {
    let source = r#"

            p cnf 2 2


             1 -2 0

            -1  2 0
        "#;

    let formula = parse_cnf_source(source);

    assert_eq!(vec![vec![1, -2], vec![-1, 2]], formula);
}

#[test]
fn clauses_on_same_line_are_separated() {
    let source = "p cnf 2 2\n1 -2 0 -1 2 0";
    let formula = parse_cnf_source(source);

    assert_eq!(vec![vec![1, -2], vec![-1, 2]], formula);
}

#[test]
fn new_lines_do_not_terminate_clause() {
    let source = "p cnf 2 2\n1\n-2 0 -1 2\n 0";
    let formula = parse_cnf_source(source);

    assert_eq!(vec![vec![1, -2], vec![-1, 2]], formula);
}

#[test]
fn negative_zero_is_an_unexpected_sequence() {
    let source = "p cnf 2 1\n1 -2 -0";
    let err = get_cnf_parse_error(source);

    assert!(matches!(err, DimacsParseError::UnexpectedCharacter('0')));
}

#[test]
fn incomplete_clause_causes_error() {
    let source = "p cnf 2 1\n1 -2";
    let err = get_cnf_parse_error(source);

    assert!(matches!(err, DimacsParseError::UnterminatedClause));
}

#[test]
fn incorrect_reported_clause_count() {
    let source = "p cnf 2 2\n1 -2 0";
    let err = get_cnf_parse_error(source);

    assert!(matches!(
        err,
        DimacsParseError::IncorrectClauseCount {
            expected: 2,
            parsed: 1
        }
    ));
}

#[test]
fn chunks_split_anywhere_give_the_same_formula() {
    let source = "c comment\np cnf 11 3\n1 -2 10 0\n-1 2 -11 0 3\n 0\n";
    let whole = parse_cnf_source(source);
    for split in 0..=source.len() {
        let (a, b) = source.as_bytes().split_at(split);
        let mut parser = DimacsParser::new(|_: &CNFHeader| -> Vec<Vec<i32>> { vec![] });
        parser.parse_chunk(a).expect("valid first chunk");
        parser.parse_chunk(b).expect("valid second chunk");
        let formula = parser.complete().expect("valid dimacs");
        assert_eq!(whole, formula);
    }
    assert_eq!(vec![vec![1, -2, 10], vec![-1, 2, -11], vec![3]], whole);
}

#[test]
fn the_sink_is_made_from_the_header() {
    let formula = parse_cnf::<Vec<Vec<i32>>>("p cnf 3 1\n1 2 3 0".as_bytes(), |header| {
        vec![vec![header.num_variables as i32, header.num_clauses as i32]]
    })
    .expect("valid dimacs");
    assert_eq!(vec![vec![3, 1], vec![1, 2, 3]], formula);
}

#[test]
fn missing_header_is_reported() {
    assert!(matches!(
        get_cnf_parse_error("1 2 0\n"),
        DimacsParseError::MissingHeader
    ));
    assert!(matches!(get_cnf_parse_error(""), DimacsParseError::MissingHeader));
    assert!(matches!(
        get_cnf_parse_error("c only a comment\n"),
        DimacsParseError::MissingHeader
    ));
}

#[test]
fn a_second_header_is_reported() {
    let err = get_cnf_parse_error("p cnf 1 1\np cnf 1 1\n1 0");
    assert!(matches!(err, DimacsParseError::DuplicateHeader));
}

#[test]
fn malformed_headers_are_reported_with_their_text() {
    for header in [
        "p cnf 2\n",
        "p cnf 2 2 2\n",
        "p dnf 2 2\n",
        "p cnf  2 2\n",
        "p cnf -2 2\n",
        "p cnf 2 x\n",
    ] {
        match get_cnf_parse_error(header) {
            DimacsParseError::InvalidHeader(text) => assert_eq!(header.trim(), text),
            other => panic!("unexpected error {other:?}"),
        }
    }
}

#[test]
fn a_header_with_surrounding_whitespace_and_plus_signs_is_accepted() {
    let formula = parse_cnf_source("p cnf +2 +1  \t\n1 -2 0");
    assert_eq!(vec![vec![1, -2]], formula);
}

#[test]
fn literals_out_of_range_are_invalid() {
    match get_cnf_parse_error("p cnf 1 1\n2147483648 0") {
        DimacsParseError::InvalidLiteral(text) => assert_eq!("2147483648", text),
        other => panic!("unexpected error {other:?}"),
    }
    let formula = parse_cnf_source("p cnf 1 2\n2147483647 0\n-2147483648 0\n");
    assert_eq!(vec![vec![2147483647], vec![-2147483648]], formula);
}

#[test]
fn unexpected_characters_are_reported() {
    assert!(matches!(
        get_cnf_parse_error("p cnf 1 1\n1 x 0"),
        DimacsParseError::UnexpectedCharacter('x')
    ));
    assert!(matches!(
        get_cnf_parse_error("p cnf 1 1\n12a 0"),
        DimacsParseError::UnexpectedCharacter('a')
    ));
    assert!(matches!(
        get_cnf_parse_error("p cnf 1 1\n--1 0"),
        DimacsParseError::UnexpectedCharacter('-')
    ));
}

#[test]
fn empty_clauses_are_read() {
    let formula = parse_cnf_source("p cnf 1 2\n0\n1 0");
    assert_eq!(vec![vec![], vec![1]], formula);
}

#[test]
fn header_from_str() {
    let header: CNFHeader = "p cnf 5 7".parse().expect("valid header");
    assert_eq!(5, header.num_variables);
    assert_eq!(7, header.num_clauses);
    let header: CNFHeader = "p cnf 5 7\u{A0}".parse().expect("valid header");
    assert_eq!(7, header.num_clauses);
    assert!(matches!(
        "  p cnf 5 7".parse::<CNFHeader>(),
        Err(DimacsParseError::InvalidHeader(_))
    ));
}

#[test]
fn a_literal_after_the_last_clause_is_an_unterminated_clause() {
    let err = get_cnf_parse_error("p cnf 1 1\n1 0\n5");
    assert!(matches!(err, DimacsParseError::UnterminatedClause));

    let err = get_cnf_parse_error("p cnf 1 1\n1 0\n-");
    assert!(matches!(err, DimacsParseError::UnterminatedClause));
}
