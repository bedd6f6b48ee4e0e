use rslint_parser::SyntaxKind;
use type_rs::resolver::{find_right_hand_side, get_type_from_expression, resolve_node};
use type_rs::syntax::{
    find_first_child, find_next_child, find_next_sibling, find_parent, find_subtree_end,
    is_wanted, SyntaxRow, Want,
};
use type_rs::type_definition::{create_type_definition, TypeDef, TypeDefinition};
use type_rs::usage::define_type_based_on_usage;

fn row(kind: u16, depth: usize, start: usize, end: usize, text: &str) -> SyntaxRow {
    let expr = [
        type_rs::syntax::NAME_REF,
        type_rs::syntax::LITERAL,
        type_rs::syntax::ARRAY_EXPR,
        type_rs::syntax::OBJECT_EXPR,
        type_rs::syntax::DOT_EXPR,
        type_rs::syntax::CALL_EXPR,
        type_rs::syntax::ASSIGN_EXPR,
        type_rs::syntax::THIS_EXPR,
    ];
    SyntaxRow {
        kind,
        depth,
        start,
        end,
        text: String::from(text),
        token: None,
        is_expr: expr.contains(&kind),
        is_pattern: kind == type_rs::syntax::SINGLE_PATTERN,
        is_type: false,
        is_property_name: kind == type_rs::syntax::NAME || kind == type_rs::syntax::LITERAL,
    }
}

fn literal(depth: usize, token: u16, text: &str) -> SyntaxRow {
    let mut r = row(type_rs::syntax::LITERAL, depth, 0, text.len(), text);
    r.token = Some(token);
    r
}

#[test]
fn kind_numbers_are_the_parsers() {
    let pairs = [
        (type_rs::syntax::FALSE_KW, SyntaxKind::FALSE_KW),
        (type_rs::syntax::NULL_KW, SyntaxKind::NULL_KW),
        (type_rs::syntax::TRUE_KW, SyntaxKind::TRUE_KW),
        (type_rs::syntax::NUMBER, SyntaxKind::NUMBER),
        (type_rs::syntax::STRING, SyntaxKind::STRING),
        (type_rs::syntax::REGEX, SyntaxKind::REGEX),
        (type_rs::syntax::DECLARATOR, SyntaxKind::DECLARATOR),
        (type_rs::syntax::EXPR_STMT, SyntaxKind::EXPR_STMT),
        (type_rs::syntax::CATCH_CLAUSE, SyntaxKind::CATCH_CLAUSE),
        (type_rs::syntax::FN_DECL, SyntaxKind::FN_DECL),
        (type_rs::syntax::NAME, SyntaxKind::NAME),
        (type_rs::syntax::NAME_REF, SyntaxKind::NAME_REF),
        (type_rs::syntax::PARAMETER_LIST, SyntaxKind::PARAMETER_LIST),
        (type_rs::syntax::THIS_EXPR, SyntaxKind::THIS_EXPR),
        (type_rs::syntax::ARRAY_EXPR, SyntaxKind::ARRAY_EXPR),
        (type_rs::syntax::OBJECT_EXPR, SyntaxKind::OBJECT_EXPR),
        (type_rs::syntax::FN_EXPR, SyntaxKind::FN_EXPR),
        (type_rs::syntax::DOT_EXPR, SyntaxKind::DOT_EXPR),
        (type_rs::syntax::CALL_EXPR, SyntaxKind::CALL_EXPR),
        (type_rs::syntax::ASSIGN_EXPR, SyntaxKind::ASSIGN_EXPR),
        (type_rs::syntax::ARG_LIST, SyntaxKind::ARG_LIST),
        (type_rs::syntax::LITERAL, SyntaxKind::LITERAL),
        (type_rs::syntax::SPREAD_ELEMENT, SyntaxKind::SPREAD_ELEMENT),
        (type_rs::syntax::OBJECT_PATTERN, SyntaxKind::OBJECT_PATTERN),
        (type_rs::syntax::ASSIGN_PATTERN, SyntaxKind::ASSIGN_PATTERN),
        (type_rs::syntax::REST_PATTERN, SyntaxKind::REST_PATTERN),
        (type_rs::syntax::KEY_VALUE_PATTERN, SyntaxKind::KEY_VALUE_PATTERN),
        (type_rs::syntax::SINGLE_PATTERN, SyntaxKind::SINGLE_PATTERN),
        (type_rs::syntax::ARROW_EXPR, SyntaxKind::ARROW_EXPR),
        (type_rs::syntax::CLASS_DECL, SyntaxKind::CLASS_DECL),
        (type_rs::syntax::METHOD, SyntaxKind::METHOD),
        (type_rs::syntax::FOR_STMT_INIT, SyntaxKind::FOR_STMT_INIT),
        (type_rs::syntax::CONSTRUCTOR, SyntaxKind::CONSTRUCTOR),
        (type_rs::syntax::TS_TYPE_ARGS, SyntaxKind::TS_TYPE_ARGS),
    ];
    for (ours, theirs) in pairs {
        assert_eq!(ours, u16::from(theirs), "{:?}", theirs);
    }
}

// a.b.c as rows: DOT(DOT(NAME_REF a, NAME b), NAME c)
fn chain_rows() -> Vec<SyntaxRow> {
    vec![
        row(type_rs::syntax::EXPR_STMT, 1, 0, 5, "a.b.c"),
        row(type_rs::syntax::DOT_EXPR, 2, 0, 5, "a.b.c"),
        row(type_rs::syntax::DOT_EXPR, 3, 0, 3, "a.b"),
        row(type_rs::syntax::NAME_REF, 4, 0, 1, "a"),
        row(type_rs::syntax::NAME, 4, 2, 3, "b"),
        row(type_rs::syntax::NAME, 3, 4, 5, "c"),
    ]
}

#[test]
fn navigation_reads_the_tree_off_the_depths() {
    let rows = chain_rows();
    assert_eq!(find_subtree_end(&rows, 0), 6);
    assert_eq!(find_subtree_end(&rows, 2), 5);
    assert_eq!(find_subtree_end(&rows, 3), 4);
    assert_eq!(find_parent(&rows, 0), None);
    assert_eq!(find_parent(&rows, 5), Some(1));
    assert_eq!(find_parent(&rows, 4), Some(2));
    assert_eq!(find_first_child(&rows, 1, Want::Kind(type_rs::syntax::NAME)), Some(5));
    assert_eq!(find_first_child(&rows, 1, Want::Expr), Some(2));
    assert_eq!(find_first_child(&rows, 1, Want::Any), Some(2));
    assert_eq!(find_first_child(&rows, 3, Want::Any), None);
    assert_eq!(find_first_child(&rows, 2, Want::Pattern), None);
    assert_eq!(find_next_child(&rows, 2, 3, Want::Any), Some(5));
    assert_eq!(find_next_sibling(&rows, 2), Some(5));
    assert_eq!(find_next_sibling(&rows, 3), Some(4));
    assert_eq!(find_next_sibling(&rows, 5), None);
    assert!(is_wanted(&rows[4], Want::PropertyName));
    assert!(!is_wanted(&rows[3], Want::PropertyName));
    assert!(!is_wanted(&rows[3], Want::Type));
}

#[test]
fn usage_nests_one_field_per_hop() {
    let rows = chain_rows();
    let found = define_type_based_on_usage(&rows, 0, "a").unwrap();
    assert_eq!(found.name, "a");
    let text = create_type_definition(&found, "A", &rows);
    assert_eq!(text, "\ninterface A {\n    b: {\n        c: any,\n    },\n}\n");
    assert!(define_type_based_on_usage(&rows, 0, "b").is_none());
    assert!(define_type_based_on_usage(&rows, 3, "a").is_none());
    assert!(define_type_based_on_usage(&rows, 99, "a").is_none());
}

#[test]
fn resolver_reads_literals() {
    let rows = vec![
        literal(1, type_rs::syntax::NUMBER, "5"),
        literal(1, type_rs::syntax::NUMBER, "5n"),
        literal(1, type_rs::syntax::STRING, "\"n\""),
        literal(1, type_rs::syntax::NULL_KW, "null"),
        literal(1, type_rs::syntax::TRUE_KW, "true"),
        literal(1, type_rs::syntax::FALSE_KW, "false"),
        literal(1, type_rs::syntax::REGEX, "/n/"),
        row(type_rs::syntax::LITERAL, 1, 0, 1, "?"),
        row(type_rs::syntax::OBJECT_EXPR, 1, 0, 2, "{}"),
        row(type_rs::syntax::NAME_REF, 1, 0, 9, "undefined"),
        row(type_rs::syntax::NAME_REF, 1, 0, 1, "x"),
        row(type_rs::syntax::THIS_EXPR, 1, 0, 4, "this"),
    ];
    let expected = [
        Some("number"),
        Some("BigInt"),
        Some("string"),
        Some("any"),
        Some("boolean"),
        Some("boolean"),
        Some("RegExp"),
        None,
        Some("any"),
        Some("any"),
        None,
        None,
    ];
    for (at, want) in expected.iter().enumerate() {
        assert_eq!(resolve_node(&rows, at).as_deref(), *want, "row {}", at);
    }
    assert_eq!(resolve_node(&rows, 50), None);
}

#[test]
fn resolver_prefers_the_given_type() {
    let rows = vec![literal(1, type_rs::syntax::NUMBER, "5")];
    let given = Some(String::from("Props"));
    assert_eq!(get_type_from_expression(&rows, Some(0), &given).as_deref(), Some("Props"));
    assert_eq!(get_type_from_expression(&rows, None, &given).as_deref(), Some("Props"));
    assert_eq!(get_type_from_expression(&rows, Some(0), &None).as_deref(), Some("number"));
    assert_eq!(get_type_from_expression(&rows, None, &None).as_deref(), Some("any"));
}

fn array(elements: Vec<SyntaxRow>) -> Vec<SyntaxRow> {
    let mut rows = vec![row(type_rs::syntax::ARRAY_EXPR, 1, 0, 2, "[]")];
    rows.extend(elements);
    rows
}

#[test]
fn array_of_one_type_has_that_type() {
    let one = array(vec![literal(2, type_rs::syntax::NUMBER, "1")]);
    assert_eq!(resolve_node(&one, 0).as_deref(), Some("number[]"));
    let three = array(vec![
        literal(2, type_rs::syntax::STRING, "'a'"),
        literal(2, type_rs::syntax::STRING, "'b'"),
        literal(2, type_rs::syntax::STRING, "'c'"),
    ]);
    assert_eq!(resolve_node(&three, 0).as_deref(), Some("string[]"));
    let nested = vec![
        row(type_rs::syntax::ARRAY_EXPR, 1, 0, 2, "[[1],[2]]"),
        row(type_rs::syntax::ARRAY_EXPR, 2, 0, 2, "[1]"),
        literal(3, type_rs::syntax::NUMBER, "1"),
        row(type_rs::syntax::ARRAY_EXPR, 2, 0, 2, "[2]"),
        literal(3, type_rs::syntax::NUMBER, "2"),
    ];
    assert_eq!(resolve_node(&nested, 0).as_deref(), Some("number[][]"));
}

#[test]
fn empty_or_mixed_array_is_any() {
    assert_eq!(resolve_node(&array(vec![]), 0).as_deref(), Some("any[]"));
    let mixed = array(vec![
        literal(2, type_rs::syntax::STRING, "'a'"),
        literal(2, type_rs::syntax::NUMBER, "1"),
    ]);
    assert_eq!(resolve_node(&mixed, 0).as_deref(), Some("any[]"));
    let unresolved = array(vec![
        literal(2, type_rs::syntax::NUMBER, "1"),
        row(type_rs::syntax::THIS_EXPR, 2, 0, 4, "this"),
    ]);
    assert_eq!(resolve_node(&unresolved, 0).as_deref(), Some("any[]"));
    let spread_only = array(vec![row(type_rs::syntax::SPREAD_ELEMENT, 2, 0, 4, "...x")]);
    assert_eq!(resolve_node(&spread_only, 0).as_deref(), Some("any[]"));
}

#[test]
fn assignment_has_the_type_of_its_right_hand_side() {
    let rows = vec![
        row(type_rs::syntax::ASSIGN_EXPR, 1, 0, 5, "x = 5"),
        row(type_rs::syntax::NAME_REF, 2, 0, 1, "x"),
        literal(2, type_rs::syntax::NUMBER, "5"),
    ];
    assert_eq!(find_right_hand_side(&rows, 0), Some(2));
    assert_eq!(resolve_node(&rows, 0).as_deref(), Some("number"));
    let half = vec![
        row(type_rs::syntax::ASSIGN_EXPR, 1, 0, 3, "x ="),
        row(type_rs::syntax::NAME_REF, 2, 0, 1, "x"),
    ];
    assert_eq!(find_right_hand_side(&half, 0), None);
    assert_eq!(resolve_node(&half, 0).as_deref(), Some("any"));
}

#[test]
fn call_is_a_function_unless_it_makes_a_big_integer() {
    let call = vec![
        row(type_rs::syntax::CALL_EXPR, 1, 0, 3, "f()"),
        row(type_rs::syntax::NAME_REF, 2, 0, 1, "f"),
        row(type_rs::syntax::ARG_LIST, 2, 1, 3, "()"),
    ];
    assert_eq!(resolve_node(&call, 0).as_deref(), Some("Function"));
    let big = vec![
        row(type_rs::syntax::CALL_EXPR, 1, 0, 9, "BigInt(1)"),
        row(type_rs::syntax::NAME_REF, 2, 0, 6, "BigInt"),
        row(type_rs::syntax::ARG_LIST, 2, 6, 9, "(1)"),
    ];
    assert_eq!(resolve_node(&big, 0).as_deref(), Some("BigInt"));
    let bare = vec![row(type_rs::syntax::CALL_EXPR, 1, 0, 2, "()")];
    assert_eq!(resolve_node(&bare, 0), None);
}

#[test]
fn render_orders_fields_by_name() {
    let rows: Vec<SyntaxRow> = Vec::new();
    let mut root = TypeDefinition::new("root".into(), None);
    for name in ["zeta", "alpha", "Beta", "alphabet", "al"] {
        root.add_field(TypeDefinition::new(name.into(), None));
    }
    assert_eq!(
        create_type_definition(&root, "Root", &rows),
        "\ninterface Root {\n    Beta: any,\n    al: any,\n    alpha: any,\n    alphabet: any,\n    zeta: any,\n}\n"
    );
}

#[test]
fn render_of_a_leaf_is_one_line() {
    let rows = vec![literal(1, type_rs::syntax::STRING, "'x'")];
    let leaf = TypeDefinition::new("title".into(), Some(0));
    assert_eq!(
        create_type_definition(&leaf, "T", &rows),
        "\ninterface T {\ntitle: string,\n}\n"
    );
}

#[test]
fn nested_shape_wins_over_simple_shape() {
    let rows: Vec<SyntaxRow> = Vec::new();
    let branch = || TypeDefinition {
        name: "a".into(),
        ts_type: TypeDef::NestedType(vec![TypeDefinition::new("b".into(), None)]),
    };
    let expected = "\ninterface X {\n    a: {\n        b: any,\n    },\n}\n";

    let mut leaf_first = TypeDefinition::new("x".into(), None);
    leaf_first.add_field(TypeDefinition::new("a".into(), None));
    leaf_first.add_field(branch());
    assert_eq!(create_type_definition(&leaf_first, "X", &rows), expected);

    let mut branch_first = TypeDefinition::new("x".into(), None);
    branch_first.add_field(branch());
    branch_first.add_field(TypeDefinition::new("a".into(), None));
    assert_eq!(create_type_definition(&branch_first, "X", &rows), expected);
}

#[test]
fn merged_branches_unite_their_fields() {
    let rows: Vec<SyntaxRow> = Vec::new();
    let branch = |inner: &str| TypeDefinition {
        name: "a".into(),
        ts_type: TypeDef::NestedType(vec![TypeDefinition::new(inner.into(), None)]),
    };
    let mut root = TypeDefinition::new("x".into(), None);
    root.add_field(branch("c"));
    root.add_field(branch("b"));
    root.add_field(branch("c"));
    assert_eq!(
        create_type_definition(&root, "X", &rows),
        "\ninterface X {\n    a: {\n        b: any,\n        c: any,\n    },\n}\n"
    );
}

// `x.a;` and `x.a.b;` below one root, in either order.
fn two_statements(short_first: bool) -> Vec<SyntaxRow> {
    let short = vec![
        row(type_rs::syntax::EXPR_STMT, 2, 0, 4, "x.a;"),
        row(type_rs::syntax::DOT_EXPR, 3, 0, 3, "x.a"),
        row(type_rs::syntax::NAME_REF, 4, 0, 1, "x"),
        row(type_rs::syntax::NAME, 4, 2, 3, "a"),
    ];
    let long = vec![
        row(type_rs::syntax::EXPR_STMT, 2, 0, 6, "x.a.b;"),
        row(type_rs::syntax::DOT_EXPR, 3, 0, 5, "x.a.b"),
        row(type_rs::syntax::DOT_EXPR, 4, 0, 3, "x.a"),
        row(type_rs::syntax::NAME_REF, 5, 0, 1, "x"),
        row(type_rs::syntax::NAME, 5, 2, 3, "a"),
        row(type_rs::syntax::NAME, 4, 4, 5, "b"),
    ];
    let mut rows = vec![row(type_rs::syntax::FN_DECL, 1, 0, 10, "")];
    if short_first {
        rows.extend(short);
        rows.extend(long);
    } else {
        rows.extend(long);
        rows.extend(short);
    }
    rows
}

#[test]
fn field_of_field_nests_in_either_order() {
    for short_first in [true, false] {
        let rows = two_statements(short_first);
        let found = define_type_based_on_usage(&rows, 0, "x").unwrap();
        assert_eq!(found.name, "x");
        let fields = match &found.ts_type {
            TypeDef::NestedType(fields) => fields,
            TypeDef::SimpleType(_) => panic!("x is a leaf"),
        };
        assert_eq!(fields.len(), 1);
        assert_eq!(fields[0].name, "a");
        let inner = match &fields[0].ts_type {
            TypeDef::NestedType(inner) => inner,
            TypeDef::SimpleType(_) => panic!("a is a leaf"),
        };
        assert_eq!(inner.len(), 1);
        assert_eq!(inner[0].name, "b");
        assert!(matches!(inner[0].ts_type, TypeDef::SimpleType(_)));
        assert_eq!(
            create_type_definition(&found, "X", &rows),
            "\ninterface X {\n    a: {\n        b: any,\n    },\n}\n"
        );
    }
}
