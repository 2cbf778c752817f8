use yul_parser::ast::{Block, FunctionDefinition, Identifier, Statement, Type};
use yul_parser::parser::parse_block;
use yul_parser::tree::ParseError;
use yul_parser::tree::Rule;

fn round_trips(source: &str) -> Block {
    let block = parse_block(source).unwrap();
    assert_eq!(source, block.to_string());
    block
}

#[test]
fn empty_function() {
    let source = "{ function power(base:u256, exponent:u256) -> result:u256 { } }".to_string();
    let block = parse_block(&source).unwrap();
    assert_eq!(source, block.to_string());
}

#[test]
fn empty_block() {
    let source = "{ }".to_string();
    let block = parse_block(&source).unwrap();
    assert_eq!(source, block.to_string());
}

#[test]
fn empty_block_has_no_statements() {
    let block = round_trips("{ }");
    assert!(block.statements.is_empty());
    assert_eq!(Block { statements: vec![] }.to_string(), "{ }");
}

fn typed(name: &str, t: Type) -> Identifier {
    Identifier { identifier: name.to_string(), yultype: Some(t) }
}

#[test]
fn power_function_builds_and_prints() {
    let block = round_trips("{ function power(base:u256, exponent:u256) -> result:u256 { } }");
    assert_eq!(block.statements.len(), 1);
    let expected = FunctionDefinition {
        name: Identifier { identifier: "power".to_string(), yultype: None },
        parameters: vec![typed("base", Type::Uint256), typed("exponent", Type::Uint256)],
        returns: vec![typed("result", Type::Uint256)],
        block: Block { statements: vec![] },
    };
    match &block.statements[0] {
        Statement::FunctionDefinition(f) => {
            assert_eq!(*f, expected);
            assert_eq!(
                f.to_string(),
                "function power(base:u256, exponent:u256) -> result:u256 { }"
            );
        }
        Statement::Break => panic!("expected a function definition"),
    }
}

#[test]
fn function_with_parameters_only() {
    let block = round_trips("{ function f(a:u8, b) { } }");
    match &block.statements[0] {
        Statement::FunctionDefinition(f) => {
            assert_eq!(f.parameters.len(), 2);
            assert_eq!(f.parameters[1].yultype, None);
            assert!(f.returns.is_empty());
        }
        Statement::Break => panic!("expected a function definition"),
    }
}

#[test]
fn function_with_returns_only() {
    let block = round_trips("{ function f() -> r:bool { } }");
    match &block.statements[0] {
        Statement::FunctionDefinition(f) => {
            assert!(f.parameters.is_empty());
            assert_eq!(f.returns, vec![typed("r", Type::Bool)]);
        }
        Statement::Break => panic!("expected a function definition"),
    }
}

#[test]
fn function_with_both_sections() {
    round_trips("{ function g(x:s128, y:MyType) -> a, b:u32 { break } }");
}

#[test]
fn function_with_neither_section() {
    let block = round_trips("{ function h() { } }");
    match &block.statements[0] {
        Statement::FunctionDefinition(f) => {
            assert!(f.parameters.is_empty());
            assert!(f.returns.is_empty());
        }
        Statement::Break => panic!("expected a function definition"),
    }
}

#[test]
fn statements_keep_their_order() {
    let block = round_trips("{ function a() { } break function c() { break } }");
    assert_eq!(block.statements.len(), 3);
    match (&block.statements[0], &block.statements[1], &block.statements[2]) {
        (Statement::FunctionDefinition(a), Statement::Break, Statement::FunctionDefinition(c)) => {
            assert_eq!(a.name.identifier, "a");
            assert_eq!(c.name.identifier, "c");
        }
        _ => panic!("statements out of order"),
    }
}

#[test]
fn every_builtin_lexeme_round_trips() {
    for lexeme in ["bool", "u8", "u32", "u64", "u128", "u256", "s8", "s32", "s64", "s128", "s256"] {
        let source = format!("{{ function f(x:{}) {{ }} }}", lexeme);
        let block = round_trips(&source);
        match &block.statements[0] {
            Statement::FunctionDefinition(f) => {
                let t = f.parameters[0].yultype.as_ref().unwrap();
                assert!(!matches!(t, Type::Custom(_)));
                assert_eq!(t.to_string(), lexeme);
            }
            Statement::Break => panic!("expected a function definition"),
        }
    }
}

#[test]
fn custom_type_round_trips() {
    let block = round_trips("{ function f(x:u16) { } }");
    match &block.statements[0] {
        Statement::FunctionDefinition(f) => {
            assert_eq!(f.parameters[0].yultype, Some(Type::Custom("u16".to_string())));
        }
        Statement::Break => panic!("expected a function definition"),
    }
    assert_eq!(Type::Custom("Point".to_string()).to_string(), "Point");
}

#[test]
fn nested_block_statement_is_unsupported() {
    assert_eq!(parse_block("{ { } }"), Err(ParseError::UnsupportedStatement(Rule::Block)));
}

#[test]
fn continue_is_unsupported() {
    assert_eq!(
        parse_block("{ break continue }"),
        Err(ParseError::UnsupportedStatement(Rule::BreakContinue))
    );
}

#[test]
fn text_outside_the_grammar_is_a_mismatch() {
    assert_eq!(parse_block("{}"), Err(ParseError::GrammarMismatch(1)));
    assert_eq!(parse_block("{ } x"), Err(ParseError::GrammarMismatch(3)));
    assert_eq!(parse_block(""), Err(ParseError::GrammarMismatch(0)));
    assert_eq!(parse_block("{  }"), Err(ParseError::GrammarMismatch(2)));
    assert_eq!(parse_block("{ function f(a:) { } }"), Err(ParseError::GrammarMismatch(15)));
}

#[test]
fn printed_tree_parses_back_to_the_same_tree() {
    let inner = FunctionDefinition {
        name: Identifier { identifier: "inner".to_string(), yultype: None },
        parameters: vec![],
        returns: vec![Identifier { identifier: "out".to_string(), yultype: None }],
        block: Block { statements: vec![Statement::Break] },
    };
    let outer = FunctionDefinition {
        name: Identifier { identifier: "outer".to_string(), yultype: None },
        parameters: vec![typed("p", Type::Custom("Point".to_string())), typed("q", Type::Int8)],
        returns: vec![],
        block: Block { statements: vec![Statement::FunctionDefinition(inner), Statement::Break] },
    };
    let block = Block { statements: vec![Statement::FunctionDefinition(outer)] };
    let text = block.to_string();
    assert_eq!(
        text,
        "{ function outer(p:Point, q:s8) { function inner() -> out { break } break } }"
    );
    assert_eq!(parse_block(&text), Ok(block));
}

#[test]
fn identifiers_may_hold_digits_dots_and_dollars() {
    let block = round_trips("{ function $f.1(a_2:u64) -> r.x:T$ { } }");
    match &block.statements[0] {
        Statement::FunctionDefinition(f) => {
            assert_eq!(f.name.identifier, "$f.1");
            assert_eq!(f.returns[0].yultype, Some(Type::Custom("T$".to_string())));
        }
        Statement::Break => panic!("expected a function definition"),
    }
}
