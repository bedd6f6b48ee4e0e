use rslint_parser::ast::{Expr, Pattern, PropName, TsType};
use rslint_parser::{parse_with_syntax, AstNode, Syntax, SyntaxNodeExt};
use type_rs::parser::{annotate, find_misfit, AnnotationError};
use type_rs::syntax::SyntaxRow;

fn parse_rows(source: &str) -> Vec<SyntaxRow> {
    let root = parse_with_syntax(source, 0, Syntax::default().typescript()).syntax();
    root.descendants()
        .map(|node| SyntaxRow {
            kind: node.kind().into(),
            depth: node.ancestors().count(),
            start: node.trimmed_range().start().into(),
            end: node.trimmed_range().end().into(),
            text: node.trimmed_text().to_string(),
            token: node.first_lossy_token().map(|token| token.kind().into()),
            is_expr: Expr::can_cast(node.kind()),
            is_pattern: Pattern::can_cast(node.kind()),
            is_type: TsType::can_cast(node.kind()),
            is_property_name: PropName::can_cast(node.kind()),
        })
        .collect()
}

fn add_types(contents: String) -> String {
    let rows = parse_rows(&contents);
    type_rs::parser::add_types(contents, &rows).unwrap()
}

fn compare(input: &str, expected_output: &str) {
    let output = add_types(String::from(input));
    assert_eq!(output, expected_output);
}

fn twice(input: &str) {
    let once = add_types(String::from(input));
    let again = add_types(once.clone());
    assert_eq!(again, once);
}

#[test]
fn annotating_again_changes_nothing() {
    twice("function foo(a) {}");
    twice("function foo(a = 5) {}");
    twice("let test;");
    twice("let test = [];");
    twice("class MyComponent extends Component { }");
    twice("\nfunction Welcome(props) {\n    console.log(props.name);\n    return undefined;\n}");
    twice("\nclass MyComponent extends Component { \n    function test() {\n        console.log(this.state.wowee);\n    }\n}");
    twice("\nfn foo() {\n try {\n } catch (err) {\n }\n}");
}

#[test]
fn one_line_function_gets_an_interface() {
    compare(
        "function Welcome(props) { console.log(props.name); return undefined; }",
        "\ninterface Props {\n    name: any,\n}\nfunction Welcome(props: Props) { console.log(props.name); return undefined; }",
    );
}

#[test]
fn non_empty_array_initializer_is_left_alone() {
    compare("let test = [1, null];", "let test = [1, null];");
}

#[test]
fn array_default_of_one_type_is_typed() {
    compare(
        "function foo(a = [1, 2, 3]) {}",
        "function foo(a: number[] = [1, 2, 3]) {}",
    );
    compare(
        "function foo(a = [\"s1\", \"s2\"]) {}",
        "function foo(a: string[] = [\"s1\", \"s2\"]) {}",
    );
}

#[test]
fn field_and_field_of_field_nest() {
    compare(
        "function foo(x) { f(x.a); g(x.a.b); }",
        "\ninterface X {\n    a: {\n        b: any,\n    },\n}\nfunction foo(x: X) { f(x.a); g(x.a.b); }",
    );
    compare(
        "function foo(x) { g(x.a.b); f(x.a); }",
        "\ninterface X {\n    a: {\n        b: any,\n    },\n}\nfunction foo(x: X) { g(x.a.b); f(x.a); }",
    );
}

#[test]
fn repeated_field_is_written_once() {
    compare(
        "function foo(b) { f(b.field); g(b.field); }",
        "\ninterface B {\n    field: any,\n}\nfunction foo(b: B) { f(b.field); g(b.field); }",
    );
    compare(
        "function foo(b) { b.a.x = 1; b.a.x = 2; }",
        "\ninterface B {\n    a: {\n        x: number,\n    },\n}\nfunction foo(b: B) { b.a.x = 1; b.a.x = 2; }",
    );
}

#[test]
fn colliding_parameter_names_get_distinct_interfaces() {
    compare(
        "function f(data) { g(data.a); }\nfunction h(Data) { g(Data.b); }",
        "\ninterface Data {\n    a: any,\n}\n\ninterface Data2 {\n    b: any,\n}\nfunction f(data: Data) { g(data.a); }\nfunction h(Data: Data2) { g(Data.b); }",
    );
}

#[test]
fn parameter_name_is_written_in_pascal_case() {
    compare(
        "function f(user_data) { g(user_data.id); }",
        "\ninterface UserData {\n    id: any,\n}\nfunction f(user_data: UserData) { g(user_data.id); }",
    );
}

#[test]
fn destructured_parameter_usage() {
    compare(
        "function f(props) { const { a, b: { c } } = props; }",
        "\ninterface Props {\n    a: any,\n    b: {\n        c: any,\n    },\n}\nfunction f(props: Props) { const { a, b: { c } } = props; }",
    );
}

#[test]
fn rest_parameter_is_left_alone() {
    compare("function f(...rest) {}", "function f(...rest) {}");
}

#[test]
fn state_alone_declares_empty_props() {
    compare(
        "class A extends React.PureComponent { m() { this.state.n = 1; } }",
        "\ninterface Props {\n}\n\ninterface State {\n    n: number,\n}\nclass A extends React.PureComponent<Props, State> { m() { this.state.n = 1; } }",
    );
}

#[test]
fn annotate_without_rows_returns_the_source() {
    let rows: Vec<SyntaxRow> = Vec::new();
    assert_eq!(annotate("let a;", &rows), "let a;");
    assert_eq!(type_rs::parser::add_types(String::from("let a;"), &rows).unwrap(), "let a;");
}

fn plain_row(kind: u16, depth: usize, end: usize, text: &str) -> SyntaxRow {
    SyntaxRow {
        kind,
        depth,
        start: 0,
        end,
        text: String::from(text),
        token: None,
        is_expr: false,
        is_pattern: kind == type_rs::syntax::SINGLE_PATTERN,
        is_type: false,
        is_property_name: kind == type_rs::syntax::NAME,
    }
}

fn catch_rows(name_end: usize) -> Vec<SyntaxRow> {
    vec![
        plain_row(type_rs::syntax::CATCH_CLAUSE, 1, 3, "catch (e)"),
        plain_row(type_rs::syntax::SINGLE_PATTERN, 2, 1, "e"),
        plain_row(type_rs::syntax::NAME, 3, name_end, "e"),
    ]
}

#[test]
fn offset_outside_the_source_is_an_error() {
    let rows = catch_rows(100);
    assert_eq!(find_misfit("abc", &rows), Some(2));
    let refused = type_rs::parser::add_types(String::from("abc"), &rows);
    assert!(matches!(refused, Err(AnnotationError::OffsetOutOfRange(2))));
    let first = vec![plain_row(type_rs::syntax::NAME, 1, 4, "e")];
    assert!(matches!(
        type_rs::parser::add_types(String::from("abc"), &first),
        Err(AnnotationError::OffsetOutOfRange(0))
    ));
}

#[test]
fn offset_inside_a_character_is_an_error() {
    let rows = catch_rows(1);
    assert_eq!(find_misfit("\u{e9}bc", &rows), Some(1));
    assert!(matches!(
        type_rs::parser::add_types(String::from("\u{e9}bc"), &rows),
        Err(AnnotationError::OffsetOutOfRange(1))
    ));
}

#[test]
fn rows_that_fit_are_annotated() {
    let rows = catch_rows(2);
    assert_eq!(find_misfit("abc", &rows), None);
    assert_eq!(
        type_rs::parser::add_types(String::from("abc"), &rows).unwrap(),
        "ab: anyc"
    );
    assert_eq!(annotate("abc", &rows), "ab: anyc");
}

#[test]
fn parameter_with_default_is_scanned_by_its_name() {
    compare(
        "function f(a = 5) { a.b; }",
        "\ninterface A {\n    b: any,\n}\nfunction f(a: A = 5) { a.b; }",
    );
    compare(
        "function f(opts = {}) { g(opts.depth); opts.name = \"x\"; }",
        "\ninterface Opts {\n    depth: any,\n    name: string,\n}\nfunction f(opts: Opts = {}) { g(opts.depth); opts.name = \"x\"; }",
    );
}

#[test]
fn typed_parameter_with_usage_is_left_alone() {
    compare("function f(a: Foo) { a.b; }", "function f(a: Foo) { a.b; }");
    compare(
        "function f(a: Foo = {}) { a.b; }",
        "function f(a: Foo = {}) { a.b; }",
    );
    twice("function f(a = 5) { a.b; }");
    twice("function f(data) { g(data.a); }\nfunction h(Data) { g(Data.b); }");
}

#[test]
fn destructured_parameter_is_not_scanned() {
    compare(
        "function f({ a }) { a.b; }",
        "function f({ a }: any) { a.b; }",
    );
}
