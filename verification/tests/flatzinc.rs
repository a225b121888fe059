use limiga::flatzinc::annotations::compile_output_array_annotation;
use limiga::flatzinc::lexer::tokenize;
use limiga::flatzinc::{ast, constraints, parse, FznError};

#[test]
fn int_lin_ne_declaration() {
    let source = "constraint int_lin_ne([param, -1], x, 0);";

    let model_item = parse(source.as_bytes())
        .next()
        .expect("empty source")
        .expect("invalid constraint declaration");

    let expected = ast::ModelItem::Constraint(ast::Constraint::IntLinNe(constraints::IntLinNe {
        variables: ast::IdentifierOr::Identifier("x".into()),
        weights: ast::IdentifierOr::Value(
            [
                ast::IdentifierOr::Identifier("param".into()),
                ast::IdentifierOr::Value(-1),
            ]
            .into(),
        ),
        rhs: ast::IdentifierOr::Value(0),
    }));

    assert_eq!(expected, model_item);
}

#[test]
fn solve_satisfy() {
    let source = "solve satisfy;";

    let model_item = parse(source.as_bytes())
        .next()
        .expect("empty source")
        .expect("invalid model item");

    let expected = ast::ModelItem::Goal(ast::Goal::Satisfy);

    assert_eq!(expected, model_item);
}

#[test]
fn integer_parameter_declaration() {
    let source = "int: SomeParam = 5;";

    let ast = parse(source.as_bytes())
        .next()
        .expect("empty source")
        .expect("invalid parameter declaration");

    let expected = ast::ModelItem::Parameter(ast::Parameter {
        identifier: "SomeParam".into(),
        value: ast::Value::Int(5),
    });

    assert_eq!(expected, ast);
}

#[test]
fn boolean_parameter_declaration() {
    let source = "bool: SomeParam = false;";

    let ast = parse(source.as_bytes())
        .next()
        .expect("empty source")
        .expect("invalid parameter declaration");

    let expected = ast::ModelItem::Parameter(ast::Parameter {
        identifier: "SomeParam".into(),
        value: ast::Value::Bool(false),
    });

    assert_eq!(expected, ast);
}

#[test]
fn array_of_integer_parameter_declaration() {
    let source = "array [1..5] of int: SomeParam = [1, 2, 3, 4, 5];";

    let ast = parse(source.as_bytes())
        .next()
        .expect("empty source")
        .expect("invalid parameter declaration");

    let expected = ast::ModelItem::Parameter(ast::Parameter {
        identifier: "SomeParam".into(),
        value: ast::Value::ArrayOfInt([1, 2, 3, 4, 5].into()),
    });

    assert_eq!(expected, ast);
}

#[test]
fn integer_variable_declaration() {
    let source = "var int: SomeVar;";

    let ast = parse(source.as_bytes())
        .next()
        .expect("empty source")
        .expect("invalid variable declaration");

    let expected = ast::ModelItem::Variable(ast::Variable::IntVariable(ast::SingleVariable {
        identifier: "SomeVar".into(),
        domain: ast::IntDomain::Unbounded,
    }));

    assert_eq!(expected, ast);
}

#[test]
fn interval_integer_variable_declaration() {
    let source = "var 1..10: SomeVar;";

    let ast = parse(source.as_bytes())
        .next()
        .expect("empty source")
        .expect("invalid variable declaration");

    let expected = ast::ModelItem::Variable(ast::Variable::IntVariable(ast::SingleVariable {
        identifier: "SomeVar".into(),
        domain: ast::IntDomain::Interval {
            lower: 1,
            upper: 10,
        },
    }));

    assert_eq!(expected, ast);
}

#[test]
fn array_of_integer_variable_declaration() {
    let source = "array [1..3] of var int: SomeArray = [SomeVar1, SomeVar2, 2];";

    let ast = parse(source.as_bytes())
        .next()
        .expect("empty source")
        .expect("invalid variable declaration");

    let expected =
        ast::ModelItem::Variable(ast::Variable::ArrayOfIntVariable(ast::VariableArray {
            identifier: "SomeArray".into(),
            variables: [
                ast::IdentifierOr::Identifier("SomeVar1".into()),
                ast::IdentifierOr::Identifier("SomeVar2".into()),
                ast::IdentifierOr::Value(2),
            ]
            .into(),
        }));

    assert_eq!(expected, ast);
}

#[test]
fn boolean_variable_declaration() {
    let source = "var bool: SomeVar;";

    let ast = parse(source.as_bytes())
        .next()
        .expect("empty source")
        .expect("invalid variable declaration");

    let expected = ast::ModelItem::Variable(ast::Variable::BoolVariable(ast::SingleVariable {
        identifier: "SomeVar".into(),
        domain: (),
    }));

    assert_eq!(expected, ast);
}

#[test]
fn array_of_boolean_variable_declaration() {
    let source = "array [1..3] of var bool: SomeArray = [SomeVar1, SomeVar2, false];";

    let ast = parse(source.as_bytes())
        .next()
        .expect("empty source")
        .expect("invalid variable declaration");

    let expected =
        ast::ModelItem::Variable(ast::Variable::ArrayOfBoolVariable(ast::VariableArray {
            identifier: "SomeArray".into(),
            variables: [
                ast::IdentifierOr::Identifier("SomeVar1".into()),
                ast::IdentifierOr::Identifier("SomeVar2".into()),
                ast::IdentifierOr::Value(false),
            ]
            .into(),
        }));

    assert_eq!(expected, ast);
}

#[test]
fn every_line_is_one_item_numbered_from_one() {
    let source = "var bool: a;\r\nfoo bar;\nsolve satisfy;\n";
    let items: Vec<_> = parse(source.as_bytes()).collect();
    assert_eq!(3, items.len());
    assert_eq!(
        Ok(ast::ModelItem::Variable(ast::Variable::BoolVariable(
            ast::SingleVariable {
                identifier: "a".into(),
                domain: ()
            }
        ))),
        items[0]
    );
    assert_eq!(Err(FznError::Syntax(2)), items[1]);
    assert_eq!(Ok(ast::ModelItem::Goal(ast::Goal::Satisfy)), items[2]);
}

#[test]
fn annotations_are_accepted_and_dropped() {
    let source = "array [1..2] of var 1..9: xs :: output_array([1..2]) = [a, 3];\nvar int: a :: output_var :: is_defined_var;\nsolve :: int_search(xs, input_order, indomain_min, complete) satisfy;";
    let items: Vec<_> = parse(source.as_bytes()).collect();
    assert_eq!(
        Ok(ast::ModelItem::Variable(ast::Variable::ArrayOfIntVariable(
            ast::VariableArray {
                identifier: "xs".into(),
                variables: vec![
                    ast::IdentifierOr::Identifier("a".into()),
                    ast::IdentifierOr::Value(3)
                ],
            }
        ))),
        items[0]
    );
    assert!(items[1].is_ok());
    assert_eq!(Ok(ast::ModelItem::Goal(ast::Goal::Satisfy)), items[2]);
}

#[test]
fn malformed_items_are_syntax_errors() {
    for source in [
        "",
        "int: x = 5",
        "array [1..3] of int: p = [1, 2];",
        "array [2..3] of int: p = [1, 2];",
        "array [1..2] of int: p = [1, 2,];",
        "int: x = 99999999999999999999;",
        "constraint int_lin_le([1], [x], 0);",
        "var int: x :: ;",
        "var int: x @;",
    ] {
        let items: Vec<_> = parse(source.as_bytes()).collect();
        if source.is_empty() {
            assert!(items.is_empty());
        } else {
            assert_eq!(vec![Err(FznError::Syntax(1))], items, "{source}");
        }
    }
}

#[test]
fn array_arguments_may_be_identifiers() {
    let source = "constraint int_lin_ne(ws, [y, z], n) :: domain;";
    let item = parse(source.as_bytes()).next().unwrap().unwrap();
    let expected = ast::ModelItem::Constraint(ast::Constraint::IntLinNe(constraints::IntLinNe {
        variables: ast::IdentifierOr::Value(vec![
            ast::IdentifierOr::Identifier("y".into()),
            ast::IdentifierOr::Identifier("z".into()),
        ]),
        weights: ast::IdentifierOr::Identifier("ws".into()),
        rhs: ast::IdentifierOr::Identifier("n".into()),
    }));
    assert_eq!(expected, item);
}

#[test]
fn output_array_annotation_gives_the_size() {
    let line: Vec<char> = "output_array([1..4])".chars().collect();
    let toks = tokenize(&line).expect("valid tokens");
    assert_eq!(8, toks.len());
    assert_eq!(
        Some(ast::Annotation::Output(vec![4])),
        compile_output_array_annotation(&line, &toks, 0, 8)
    );
    let line: Vec<char> = "output_array([0..4])".chars().collect();
    let toks = tokenize(&line).expect("valid tokens");
    assert_eq!(None, compile_output_array_annotation(&line, &toks, 0, 8));
}
