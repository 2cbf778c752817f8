use yul_parser::ast::{Identifier, Statement, Type};
use yul_parser::builder::{builtin_type, parse_typed_identifier, parse_typed_parameter_list};
use yul_parser::ast::{Block, FunctionDefinition};
use yul_parser::grammar::parse_tree;
use yul_parser::tree::{Node, ParseError, Rule};

fn leaf(rule: Rule, text: &str) -> Node {
    Node { rule, text: text.to_string(), children: vec![] }
}

fn node(rule: Rule, text: &str, children: Vec<Node>) -> Node {
    Node { rule, text: text.to_string(), children }
}

fn type_node(rule: Rule, text: &str) -> Node {
    node(Rule::TypeName, text, vec![leaf(rule, text)])
}

#[test]
fn type_from_builtin_and_custom() {
    assert_eq!(Type::from(&type_node(Rule::BuiltinTypename, "s64")), Ok(Type::Int64));
    assert_eq!(
        Type::from(&type_node(Rule::Identifier, "Point")),
        Ok(Type::Custom("Point".to_string()))
    );
}

#[test]
fn unmapped_builtin_lexeme_is_unsupported_type() {
    assert_eq!(
        Type::from(&type_node(Rule::BuiltinTypename, "u16")),
        Err(ParseError::UnsupportedType)
    );
}

#[test]
fn type_with_other_child_is_unexpected_rule() {
    assert_eq!(
        Type::from(&type_node(Rule::Block, "{ }")),
        Err(ParseError::UnexpectedRule(Rule::Block))
    );
}

#[test]
fn builtin_table_lookup() {
    assert_eq!(builtin_type(&"u128".to_string()), Some(Type::Uint128));
    assert_eq!(builtin_type(&"bool".to_string()), Some(Type::Bool));
    assert_eq!(builtin_type(&"u7".to_string()), None);
}

#[test]
fn identifier_from_keeps_text() {
    assert_eq!(Identifier::from(&leaf(Rule::Identifier, "abc")), "abc");
}

#[test]
fn typed_identifier_with_and_without_type() {
    let plain = node(Rule::TypedIdentifier, "x", vec![leaf(Rule::Identifier, "x")]);
    assert_eq!(
        parse_typed_identifier(&plain),
        Ok(Identifier { identifier: "x".to_string(), yultype: None })
    );
    let typed = node(
        Rule::TypedIdentifier,
        "x:u8",
        vec![leaf(Rule::Identifier, "x"), type_node(Rule::BuiltinTypename, "u8")],
    );
    assert_eq!(
        parse_typed_identifier(&typed),
        Ok(Identifier { identifier: "x".to_string(), yultype: Some(Type::Uint8) })
    );
    let wrong = node(
        Rule::TypedIdentifier,
        "x y",
        vec![leaf(Rule::Identifier, "x"), leaf(Rule::Identifier, "y")],
    );
    assert_eq!(parse_typed_identifier(&wrong), Err(ParseError::UnexpectedRule(Rule::Identifier)));
}

#[test]
fn parameter_list_rejects_other_children() {
    let list = node(
        Rule::TypedParameterList,
        "a, b",
        vec![
            node(Rule::TypedIdentifier, "a", vec![leaf(Rule::Identifier, "a")]),
            leaf(Rule::Identifier, "b"),
        ],
    );
    assert_eq!(parse_typed_parameter_list(&list), Err(ParseError::UnexpectedRule(Rule::Identifier)));
}

#[test]
fn block_with_non_statement_child_is_unexpected_rule() {
    let block = node(Rule::Block, "{ x }", vec![leaf(Rule::Identifier, "x")]);
    assert_eq!(Block::from(&block), Err(ParseError::UnexpectedRule(Rule::Identifier)));
}

#[test]
fn statement_of_unknown_kind_is_unsupported() {
    let stmt = node(Rule::Statement, "x", vec![leaf(Rule::TypedIdentifier, "x")]);
    assert_eq!(
        Statement::from(&stmt),
        Err(ParseError::UnsupportedStatement(Rule::TypedIdentifier))
    );
    let block = node(
        Rule::Block,
        "{ break x }",
        vec![
            node(Rule::Statement, "break", vec![leaf(Rule::BreakContinue, "break")]),
            stmt,
        ],
    );
    assert_eq!(
        Block::from(&block),
        Err(ParseError::UnsupportedStatement(Rule::TypedIdentifier))
    );
}

#[test]
fn function_sections_are_found_by_rule() {
    let returns = node(
        Rule::TypedIdentifierList,
        "r",
        vec![node(Rule::TypedIdentifier, "r", vec![leaf(Rule::Identifier, "r")])],
    );
    let f = node(
        Rule::FunctionDefinition,
        "function f() -> r { }",
        vec![leaf(Rule::Identifier, "f"), returns, node(Rule::Block, "{ }", vec![])],
    );
    let built = FunctionDefinition::from(&f).unwrap();
    assert!(built.parameters.is_empty());
    assert_eq!(built.returns.len(), 1);
    assert_eq!(built.to_string(), "function f() -> r { }");
    let no_body = node(Rule::FunctionDefinition, "function f()", vec![leaf(Rule::Identifier, "f")]);
    assert_eq!(
        FunctionDefinition::from(&no_body),
        Err(ParseError::UnexpectedRule(Rule::FunctionDefinition))
    );
}

#[test]
fn grammar_tags_nodes_with_rules() {
    let tree = parse_tree("{ function f(a:u8) -> b:Point { } }").unwrap();
    assert_eq!(tree.rule, Rule::Block);
    let f = &tree.children[0].children[0];
    assert_eq!(f.rule, Rule::FunctionDefinition);
    assert_eq!(f.children.len(), 4);
    assert_eq!(f.children[1].rule, Rule::TypedParameterList);
    assert_eq!(f.children[2].rule, Rule::TypedIdentifierList);
    let param_type = &f.children[1].children[0].children[1];
    assert_eq!(param_type.children[0].rule, Rule::BuiltinTypename);
    let return_type = &f.children[2].children[0].children[1];
    assert_eq!(return_type.children[0].rule, Rule::Identifier);
    assert_eq!(f.text, "function f(a:u8) -> b:Point { }");
}
