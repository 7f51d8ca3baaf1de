use tinyscript::node::{BinaryOp, Block, Node, Operator, Statement};
use tinyscript::runtime::{EvalError, Fault, Function, Object, Runtime, RuntimeError, Type};
use tinyscript::stdlib::BufferHost;

fn fresh() -> (Runtime, BufferHost) {
    (Runtime::new(), BufferHost::new())
}

fn eval_node(node: &Node) -> Result<Object, EvalError> {
    let (mut rt, mut host) = fresh();
    node.eval(&mut rt, 0, &mut host, 100)
}

fn binop(op: Operator, a: Node, b: Node) -> Node {
    Node::BinaryOp(Box::new(BinaryOp { op, a, b }))
}

fn whole(i: i32) -> Node {
    Node::Integer(i)
}

fn text(s: &str) -> Node {
    Node::String(s.to_string())
}

#[test]
fn strings_concatenate_under_add() {
    match eval_node(&binop(Operator::Add, text("ab"), text("cd"))) {
        Ok(Object::String(s)) => assert_eq!(s, "abcd"),
        other => panic!("expected the concatenation, got {:?}", other),
    }
}

#[test]
fn string_plus_integer_is_a_type_mismatch() {
    match eval_node(&binop(Operator::Add, text("ab"), whole(3))) {
        Err(EvalError::Condition(RuntimeError::ExpectedType(Type::String))) => {}
        other => panic!("expected the string mismatch, got {:?}", other),
    }
}

#[test]
fn division_truncates_toward_zero() {
    match eval_node(&binop(Operator::Div, whole(7), whole(2))) {
        Ok(Object::Integer(3)) => {}
        other => panic!("expected 3, got {:?}", other),
    }
    match eval_node(&binop(Operator::Div, whole(-7), whole(2))) {
        Ok(Object::Integer(-3)) => {}
        other => panic!("expected -3, got {:?}", other),
    }
    match eval_node(&binop(Operator::Div, whole(7), whole(-2))) {
        Ok(Object::Integer(-3)) => {}
        other => panic!("expected -3, got {:?}", other),
    }
    match eval_node(&binop(Operator::Div, whole(-7), whole(-2))) {
        Ok(Object::Integer(3)) => {}
        other => panic!("expected 3, got {:?}", other),
    }
}

#[test]
fn remainder_keeps_the_dividend_sign() {
    match eval_node(&binop(Operator::Mod, whole(7), whole(2))) {
        Ok(Object::Integer(1)) => {}
        other => panic!("expected 1, got {:?}", other),
    }
    match eval_node(&binop(Operator::Mod, whole(-7), whole(2))) {
        Ok(Object::Integer(-1)) => {}
        other => panic!("expected -1, got {:?}", other),
    }
    match eval_node(&binop(Operator::Mod, whole(7), whole(-2))) {
        Ok(Object::Integer(1)) => {}
        other => panic!("expected 1, got {:?}", other),
    }
}

#[test]
fn division_by_zero_is_fatal() {
    match eval_node(&binop(Operator::Div, whole(7), whole(0))) {
        Err(EvalError::Fault(Fault::DivideByZero)) => {}
        other => panic!("expected the fault, got {:?}", other),
    }
    match eval_node(&binop(Operator::Mod, whole(7), whole(0))) {
        Err(EvalError::Fault(Fault::DivideByZero)) => {}
        other => panic!("expected the fault, got {:?}", other),
    }
}

#[test]
fn arithmetic_overflow_is_fatal() {
    match eval_node(&binop(Operator::Add, whole(i32::MAX), whole(1))) {
        Err(EvalError::Fault(Fault::Overflow)) => {}
        other => panic!("expected the fault, got {:?}", other),
    }
    match eval_node(&binop(Operator::Div, whole(i32::MIN), whole(-1))) {
        Err(EvalError::Fault(Fault::Overflow)) => {}
        other => panic!("expected the fault, got {:?}", other),
    }
}

#[test]
fn power_takes_non_negative_exponents() {
    match eval_node(&binop(Operator::Pow, whole(2), whole(10))) {
        Ok(Object::Integer(1024)) => {}
        other => panic!("expected 1024, got {:?}", other),
    }
    match eval_node(&binop(Operator::Pow, whole(5), whole(0))) {
        Ok(Object::Integer(1)) => {}
        other => panic!("expected 1, got {:?}", other),
    }
    match eval_node(&binop(Operator::Pow, whole(2), whole(-1))) {
        Err(EvalError::Fault(Fault::InvalidExponent)) => {}
        other => panic!("expected the fault, got {:?}", other),
    }
    match eval_node(&binop(Operator::Pow, whole(2), whole(40))) {
        Err(EvalError::Fault(Fault::Overflow)) => {}
        other => panic!("expected the fault, got {:?}", other),
    }
}

#[test]
fn comparisons_yield_booleans() {
    match eval_node(&binop(Operator::Less, whole(1), whole(2))) {
        Ok(Object::Boolean(true)) => {}
        other => panic!("expected true, got {:?}", other),
    }
    match eval_node(&binop(Operator::GreaterEqual, whole(1), whole(2))) {
        Ok(Object::Boolean(false)) => {}
        other => panic!("expected false, got {:?}", other),
    }
    match eval_node(&binop(Operator::Greater, whole(2), whole(2))) {
        Ok(Object::Boolean(false)) => {}
        other => panic!("expected false, got {:?}", other),
    }
    match eval_node(&binop(Operator::LessEqual, whole(2), whole(2))) {
        Ok(Object::Boolean(true)) => {}
        other => panic!("expected true, got {:?}", other),
    }
    match eval_node(&binop(Operator::Equal, whole(2), whole(2))) {
        Ok(Object::Boolean(true)) => {}
        other => panic!("expected true, got {:?}", other),
    }
    match eval_node(&binop(Operator::Inequal, whole(2), whole(2))) {
        Ok(Object::Boolean(false)) => {}
        other => panic!("expected false, got {:?}", other),
    }
}

#[test]
fn logic_evaluates_both_sides() {
    // no short-circuiting: the fault on the right fires though the left
    // already settles the disjunction
    let both = binop(
        Operator::Or,
        binop(Operator::Equal, whole(1), whole(1)),
        binop(
            Operator::Equal,
            binop(Operator::Div, whole(1), whole(0)),
            whole(0),
        ),
    );
    match eval_node(&both) {
        Err(EvalError::Fault(Fault::DivideByZero)) => {}
        other => panic!("expected the fault, got {:?}", other),
    }
}

#[test]
fn logic_forces_booleans() {
    match eval_node(&binop(Operator::And, whole(1), whole(2))) {
        Err(EvalError::Condition(RuntimeError::ExpectedType(Type::Boolean))) => {}
        other => panic!("expected the boolean mismatch, got {:?}", other),
    }
}

#[test]
fn unknown_identifier_is_a_name_error() {
    // never a silent Null
    match eval_node(&Node::Identifier("nope".to_string())) {
        Err(EvalError::Condition(RuntimeError::NameError(n))) => assert_eq!(n, "nope"),
        other => panic!("expected the name error, got {:?}", other),
    }
}

#[test]
fn pure_expressions_evaluate_identically_twice() {
    let (mut rt, mut host) = fresh();
    assert!(rt.scopes[0].define("a", Object::Integer(20)));
    let expr = binop(Operator::Mul, Node::Identifier("a".to_string()), whole(2));
    let first = expr.eval(&mut rt, 0, &mut host, 100);
    let second = expr.eval(&mut rt, 0, &mut host, 100);
    match (first, second) {
        (Ok(Object::Integer(x)), Ok(Object::Integer(y))) => {
            assert_eq!(x, 40);
            assert_eq!(y, 40);
        }
        other => panic!("expected equal integers, got {:?}", other),
    }
}

#[test]
fn wrong_arity_is_rejected_before_binding() {
    let (mut rt, mut host) = fresh();
    let body = Block::new(vec![]);
    let two_params = Object::Function {
        func: Box::new(Function::Script(body)),
        args: vec!["a".to_string(), "b".to_string()],
    };
    assert!(rt.scopes[0].define("f", two_params));
    let call = Node::ParenArgs(Box::new(Node::Identifier("f".to_string())), vec![whole(1)]);
    match call.eval(&mut rt, 0, &mut host, 100) {
        Err(EvalError::Condition(RuntimeError::ExpectedArgs(2))) => {}
        other => panic!("expected the arity mismatch, got {:?}", other),
    }
}

#[test]
fn calling_a_non_function_is_a_type_mismatch() {
    let (mut rt, mut host) = fresh();
    assert!(rt.scopes[0].define("x", Object::Integer(1)));
    let call = Node::ParenArgs(Box::new(Node::Identifier("x".to_string())), vec![whole(1)]);
    match call.eval(&mut rt, 0, &mut host, 100) {
        Err(EvalError::Condition(RuntimeError::ExpectedType(Type::Function))) => {}
        other => panic!("expected the type mismatch, got {:?}", other),
    }
}

#[test]
fn script_call_runs_against_a_fresh_scope() {
    let (mut rt, mut host) = fresh();
    // f(v) { let y = v }: the call succeeds, and neither y nor v leaks
    let body = Block::new(vec![Node::Statement(Statement::SetVariable(
        "y".to_string(),
        Box::new(Node::Identifier("v".to_string())),
    ))]);
    let f = Object::Function {
        func: Box::new(Function::Script(body)),
        args: vec!["v".to_string()],
    };
    assert!(rt.scopes[0].define("f", f));
    let call = Node::ParenArgs(Box::new(Node::Identifier("f".to_string())), vec![whole(9)]);
    match call.eval(&mut rt, 0, &mut host, 100) {
        Ok(Object::Null) => {}
        other => panic!("expected Null, got {:?}", other),
    }
    assert!(rt.get(0, "y").is_err());
    assert!(rt.get(0, "v").is_err());
    assert_eq!(rt.scopes.len(), 1);
}

#[test]
fn unbounded_recursion_exhausts_the_budget() {
    let (mut rt, mut host) = fresh();
    // f() { f() }
    let body = Block::new(vec![Node::ParenArgs(
        Box::new(Node::Identifier("f".to_string())),
        vec![],
    )]);
    let f = Object::Function {
        func: Box::new(Function::Script(body)),
        args: vec![],
    };
    assert!(rt.scopes[0].define("f", f));
    let call = Node::ParenArgs(Box::new(Node::Identifier("f".to_string())), vec![]);
    match call.eval(&mut rt, 0, &mut host, 25) {
        Err(EvalError::Fault(Fault::RecursionLimit)) => {}
        other => panic!("expected the budget fault, got {:?}", other),
    }
}

#[test]
fn block_nodes_leave_the_scope_untouched() {
    let (mut rt, mut host) = fresh();
    assert!(rt.scopes[0].define("x", Object::Integer(1)));
    let block = Node::Block(Block::new(vec![Node::Statement(Statement::SetVariable(
        "inner".to_string(),
        Box::new(whole(5)),
    ))]));
    match block.eval(&mut rt, 0, &mut host, 100) {
        Ok(Object::Null) => {}
        other => panic!("expected Null, got {:?}", other),
    }
    assert!(rt.get(0, "inner").is_err());
    match rt.get(0, "x") {
        Ok(Object::Integer(1)) => {}
        other => panic!("expected the old binding, got {:?}", other),
    }
}

#[test]
fn redefining_a_name_in_one_scope_is_fatal() {
    let (mut rt, mut host) = fresh();
    assert!(rt.scopes[0].define("x", Object::Integer(1)));
    let again = Node::Statement(Statement::SetVariable(
        "x".to_string(),
        Box::new(whole(2)),
    ));
    match again.eval(&mut rt, 0, &mut host, 100) {
        Err(EvalError::Fault(Fault::Redefinition)) => {}
        other => panic!("expected the fault, got {:?}", other),
    }
}

#[test]
fn assignment_reads_its_left_side_as_a_value() {
    let (mut rt, mut host) = fresh();
    assert!(rt.scopes[0].define("z", Object::Integer(0)));
    assert!(rt.scopes[0].define("y", Object::String("z".to_string())));
    // y = 5 stores 5 under the *contents* of y, the name z
    let assign = binop(Operator::SetValue, Node::Identifier("y".to_string()), whole(5));
    match assign.eval(&mut rt, 0, &mut host, 100) {
        Ok(Object::Null) => {}
        other => panic!("expected Null, got {:?}", other),
    }
    match rt.get(0, "z") {
        Ok(Object::Integer(5)) => {}
        other => panic!("expected the update, got {:?}", other),
    }
    match rt.get(0, "y") {
        Ok(Object::String(s)) => assert_eq!(s, "z"),
        other => panic!("expected the name string, got {:?}", other),
    }
}

#[test]
fn assignment_to_an_unbound_name_is_a_name_error() {
    let (mut rt, mut host) = fresh();
    let assign = binop(Operator::SetValue, text("ghostly"), whole(5));
    match assign.eval(&mut rt, 0, &mut host, 100) {
        Err(EvalError::Condition(RuntimeError::NameError(n))) => assert_eq!(n, "ghostly"),
        other => panic!("expected the name error, got {:?}", other),
    }
}
