use rslint_parser::ast::{Expr, Pattern, PropName, TsType};
use rslint_parser::{parse_with_syntax, AstNode, Syntax, SyntaxNodeExt};
use type_rs::syntax::SyntaxRow;

fn parse_rows(source: &str) -> Vec<SyntaxRow> {
    let root = parse_with_syntax(source, 0, Syntax::default().typescript()).syntax();
    root.descendants()
        .map(|node| SyntaxRow {
            kind: node.kind().into(),
            depth: node.ancestors().count(),
            start: node.trimmed_range().start().into(),
            end: node.trimmed_range().end().into(),
            text: node.trimmed_text().to_string(),
            token: node.first_lossy_token().map(|token| token.kind().into()),
            is_expr: Expr::can_cast(node.kind()),
            is_pattern: Pattern::can_cast(node.kind()),
            is_type: TsType::can_cast(node.kind()),
            is_property_name: PropName::can_cast(node.kind()),
        })
        .collect()
}

fn add_types(contents: String) -> String {
    let rows = parse_rows(&contents);
    type_rs::parser::add_types(contents, &rows).unwrap()
}


    fn compare(input: &str, expected_output: &str) {
        let output = add_types(String::from(input));
        assert_eq!(output, expected_output);
    }

    #[test]
    fn parser_react_class_tests_add_types_adds_component_props() {
        compare(
            "class MyComponent extends Component { }",
            "class MyComponent extends Component<any, any> { }",
        )
    }

    #[test]
    fn parser_react_class_tests_add_types_adds_component_props_namespace() {
        compare(
            "class MyComponent extends React.Component { }",
            "class MyComponent extends React.Component<any, any> { }",
        )
    }

    #[test]
    fn parser_react_class_tests_add_types_adds_component_props_pre_existing() {
        compare(
            "class MyComponent extends Component<{}> { }",
            "class MyComponent extends Component<{}> { }",
        )
    }

    #[test]
    fn parser_react_class_tests_add_types_adds_purecomponent_props() {
        compare(
            "class MyComponent extends PureComponent { }",
            "class MyComponent extends PureComponent<any, any> { }",
        )
    }

    #[test]
    fn parser_react_class_tests_add_types_adds_purecomponent_props_namespace() {
        compare(
            "class MyComponent extends React.PureComponent { }",
            "class MyComponent extends React.PureComponent<any, any> { }",
        )
    }

    #[test]
    fn parser_react_class_tests_add_types_different_class() {
        compare(
            "class MyComponent extends OtherType { }",
            "class MyComponent extends OtherType { }",
        )
    }

    #[test]
    fn parser_react_class_tests_add_types_generate_props_class_this_dot_props_single() {
        compare(
            "
class MyComponent extends Component { 
    function test() {
        console.log(this.props.wowee);
    }
}",
            "
interface Props {
    wowee: any,
}

class MyComponent extends Component<Props> { 
    function test() {
        console.log(this.props.wowee);
    }
}",
        )
    }

    #[test]
    fn parser_react_class_tests_add_types_generate_props_class_this_dot_props_multi() {
        compare(
            "
class MyComponent extends Component { 
    function test() {
        console.log(this.props.wowee);
        this.props.callback();
        this.props.callback();
    }

    render() {
        if (this.props.otherone === 5) {
            return null;
        }
    }
}",
            "
interface Props {
    callback: Function,
    otherone: any,
    wowee: any,
}

class MyComponent extends Component<Props> { 
    function test() {
        console.log(this.props.wowee);
        this.props.callback();
        this.props.callback();
    }

    render() {
        if (this.props.otherone === 5) {
            return null;
        }
    }
}",
        )
    }
