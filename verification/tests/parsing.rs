use tinyscript::error::ParseError;
use tinyscript::node::{Node, Operator, Statement};
use tinyscript::parser::Parser;

fn parse_program(text: &str) -> Result<Node, ParseError> {
    let mut parser = Parser::new(text.to_string());
    parser.parse()
}

fn only_statement(node: Node) -> Node {
    match node {
        Node::Block(block) => {
            let mut statements = block.statements;
            assert_eq!(statements.len(), 1);
            statements.pop().unwrap()
        }
        _ => panic!("top level must be a block"),
    }
}

#[test]
fn addition_yields_after_multiplication() {
    // multiplication is resolved before addition, regardless of order
    let node = only_statement(parse_program("1 + 2 * 3").unwrap());
    match node {
        Node::BinaryOp(add) => {
            assert_eq!(add.op, Operator::Add);
            assert!(matches!(add.a, Node::Integer(1)));
            match add.b {
                Node::BinaryOp(mul) => {
                    assert_eq!(mul.op, Operator::Mul);
                    assert!(matches!(mul.a, Node::Integer(2)));
                    assert!(matches!(mul.b, Node::Integer(3)));
                }
                other => panic!("expected multiplication, got {:?}", other),
            }
        }
        other => panic!("expected addition at the root, got {:?}", other),
    }
}

#[test]
fn parentheses_group_before_multiplication() {
    let node = only_statement(parse_program("(1 + 2) * 3").unwrap());
    match node {
        Node::BinaryOp(mul) => {
            assert_eq!(mul.op, Operator::Mul);
            match mul.a {
                Node::BinaryOp(add) => {
                    assert_eq!(add.op, Operator::Add);
                    assert!(matches!(add.a, Node::Integer(1)));
                    assert!(matches!(add.b, Node::Integer(2)));
                }
                other => panic!("expected addition inside, got {:?}", other),
            }
            assert!(matches!(mul.b, Node::Integer(3)));
        }
        other => panic!("expected multiplication at the root, got {:?}", other),
    }
}

#[test]
fn assignment_contracts_tightest() {
    // `y = 2 + 3` resolves as `(y = 2) + 3`: assignment sits in the
    // tightest-contracted level of the canonical order
    let node = only_statement(parse_program("y = 2 + 3").unwrap());
    match node {
        Node::BinaryOp(add) => {
            assert_eq!(add.op, Operator::Add);
            match add.a {
                Node::BinaryOp(set) => {
                    assert_eq!(set.op, Operator::SetValue);
                    assert!(matches!(set.a, Node::Identifier(ref n) if n == "y"));
                    assert!(matches!(set.b, Node::Integer(2)));
                }
                other => panic!("expected assignment inside, got {:?}", other),
            }
            assert!(matches!(add.b, Node::Integer(3)));
        }
        other => panic!("expected addition at the root, got {:?}", other),
    }
}

#[test]
fn string_literals_take_either_quote() {
    let node = only_statement(parse_program("\"ab\"").unwrap());
    assert!(matches!(node, Node::String(ref s) if s == "ab"));
    let node = only_statement(parse_program("'cd'").unwrap());
    assert!(matches!(node, Node::String(ref s) if s == "cd"));
}

#[test]
fn unterminated_string_is_expected_token() {
    match parse_program("\"ab") {
        Err(ParseError::ExpectedToken(t)) => assert_eq!(t, "\""),
        other => panic!("expected the missing terminator, got {:?}", other),
    }
}

#[test]
fn integer_literal_reads_maximal_digit_run() {
    let node = only_statement(parse_program("1234").unwrap());
    assert!(matches!(node, Node::Integer(1234)));
}

#[test]
fn oversized_integer_literal_is_fatal() {
    match parse_program("99999999999") {
        Err(ParseError::IntegerOverflow) => {}
        other => panic!("expected the overflow fault, got {:?}", other),
    }
}

#[test]
fn let_statement_parses_to_definition() {
    let node = only_statement(parse_program("let x = 5").unwrap());
    match node {
        Node::Statement(Statement::SetVariable(name, value)) => {
            assert_eq!(name, "x");
            assert!(matches!(*value, Node::Integer(5)));
        }
        other => panic!("expected a definition, got {:?}", other),
    }
}

#[test]
fn if_takes_block_and_optional_else() {
    let node = only_statement(parse_program("if 1 == 1 {\n2;\n}").unwrap());
    match node {
        Node::Statement(Statement::If(cond, block, ext)) => {
            assert!(matches!(*cond, Node::BinaryOp(_)));
            assert!(matches!(*block, Node::Block(_)));
            assert!(ext.is_none());
        }
        other => panic!("expected an if, got {:?}", other),
    }
    let node = only_statement(parse_program("if 1 == 1 {\n2;\n}else {\n3;\n}").unwrap());
    match node {
        Node::Statement(Statement::If(_, _, ext)) => {
            assert!(matches!(*ext.unwrap(), Node::Block(_)));
        }
        other => panic!("expected an if, got {:?}", other),
    }
}

#[test]
fn elif_chains_into_nested_if() {
    let node = only_statement(parse_program("if 1 == 2 {\n2;\n}elif 1 == 1 {\n3;\n}").unwrap());
    match node {
        Node::Statement(Statement::If(_, _, ext)) => match *ext.unwrap() {
            Node::Statement(Statement::If(_, _, inner_ext)) => assert!(inner_ext.is_none()),
            other => panic!("expected a chained if, got {:?}", other),
        },
        other => panic!("expected an if, got {:?}", other),
    }
}

#[test]
fn keyword_needs_following_whitespace() {
    // `letx` is an identifier, not the keyword `let`
    let node = only_statement(parse_program("letx").unwrap());
    assert!(matches!(node, Node::Identifier(ref n) if n == "letx"));
}

#[test]
fn else_cannot_start_a_statement() {
    match parse_program("else 1") {
        Err(ParseError::UnexpectedKeyword(_)) => {}
        other => panic!("expected the keyword rejection, got {:?}", other),
    }
}

#[test]
fn call_arguments_are_comma_separated() {
    let node = only_statement(parse_program("f(1, 2)").unwrap());
    match node {
        Node::ParenArgs(root, args) => {
            assert!(matches!(*root, Node::Identifier(ref n) if n == "f"));
            assert_eq!(args.len(), 2);
            assert!(matches!(args[0], Node::Integer(1)));
            assert!(matches!(args[1], Node::Integer(2)));
        }
        other => panic!("expected a call, got {:?}", other),
    }
}

#[test]
fn trailing_comma_in_arguments_is_rejected() {
    match parse_program("f(1,)") {
        Err(ParseError::UnexpectedCharacter(')')) => {}
        other => panic!("expected the rejection, got {:?}", other),
    }
}

#[test]
fn argument_list_needs_comma_or_close() {
    match parse_program("f(1 2)") {
        Err(ParseError::ExpectedTokens(expected)) => {
            assert_eq!(expected, vec![",".to_string(), ")".to_string()])
        }
        other => panic!("expected the separator demand, got {:?}", other),
    }
}

#[test]
fn marker_operator_is_invalid_in_expressions() {
    match parse_program("a . b") {
        Err(ParseError::InvalidOperator(t)) => assert_eq!(t, "."),
        other => panic!("expected the invalid operator, got {:?}", other),
    }
}

#[test]
fn unknown_operator_run_is_invalid() {
    match parse_program("1 =! 2") {
        Err(ParseError::InvalidOperator(t)) => assert_eq!(t, "=!"),
        other => panic!("expected the invalid operator, got {:?}", other),
    }
}

#[test]
fn value_position_rejects_stray_character() {
    match parse_program("let x = ;") {
        Err(ParseError::UnexpectedCharacter(';')) => {}
        other => panic!("expected the rejection, got {:?}", other),
    }
}

#[test]
fn statements_need_separators() {
    match parse_program("1 2") {
        Err(ParseError::UnexpectedCharacter('2')) => {}
        other => panic!("expected the separator demand, got {:?}", other),
    }
    assert!(parse_program("1; 2").is_ok());
    assert!(parse_program("1\n2").is_ok());
}

#[test]
fn empty_input_is_an_empty_block() {
    match parse_program("").unwrap() {
        Node::Block(block) => assert!(block.statements.is_empty()),
        other => panic!("expected a block, got {:?}", other),
    }
    match parse_program("  \n  ").unwrap() {
        Node::Block(block) => assert!(block.statements.is_empty()),
        other => panic!("expected a block, got {:?}", other),
    }
}

#[test]
fn row_and_column_follow_line_breaks() {
    let mut parser = Parser::new("1;\n2;\n@".to_string());
    let result = parser.parse();
    assert!(result.is_err());
    assert_eq!(parser.row(), 3);
    assert_eq!(parser.col(), 0);
}
