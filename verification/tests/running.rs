use tinyscript::execute;
use tinyscript::node::{Block, Node};
use tinyscript::runtime::{EvalError, Fault, Function, Object, Runtime, RuntimeError};
use tinyscript::stdlib::{init, strip_trailing_newline, BufferHost};
use tinyscript::ExecError;

fn run(script: &str) -> (Runtime, BufferHost, Result<(), ExecError>) {
    let mut rt = Runtime::new();
    let mut host = BufferHost::new();
    assert!(init(&mut rt, 0));
    let result = execute(&mut rt, 0, script.to_string(), &mut host);
    (rt, host, result)
}

#[test]
fn definitions_land_in_the_top_scope() {
    let (rt, _, result) = run("let x = 2 + 3");
    assert!(result.is_ok());
    match rt.get(0, "x") {
        Ok(Object::Integer(5)) => {}
        other => panic!("expected 5, got {:?}", other),
    }
}

#[test]
fn println_appends_a_line() {
    let (_, host, result) = run("println(\"hi\")");
    assert!(result.is_ok());
    assert_eq!(host.out.len(), 1);
    assert_eq!(host.out[0], "hi\n");
}

#[test]
fn print_appends_without_a_break() {
    let (_, host, result) = run("print(\"hi\")");
    assert!(result.is_ok());
    assert_eq!(host.out.len(), 1);
    assert_eq!(host.out[0], "hi");
}

#[test]
fn tostring_renders_integers_in_decimal() {
    let (_, host, result) = run("println(tostring(41 + 1))");
    assert!(result.is_ok());
    assert_eq!(host.out[0], "42\n");
    let (_, host, result) = run("println(tostring(0 - 17))");
    assert!(result.is_ok());
    assert_eq!(host.out[0], "-17\n");
}

#[test]
fn tostring_passes_strings_through() {
    let (_, host, result) = run("println(tostring(\"already\"))");
    assert!(result.is_ok());
    assert_eq!(host.out[0], "already\n");
}

#[test]
fn tostring_refuses_other_types() {
    let (_, _, result) = run("tostring(1 == 1)");
    match result {
        Err(ExecError::Runtime(EvalError::Fault(Fault::Unsupported))) => {}
        other => panic!("expected the fault, got {:?}", other),
    }
}

#[test]
fn native_call_with_wrong_arity_names_the_count() {
    let (_, _, result) = run("println(\"a\", \"b\")");
    match result {
        Err(ExecError::Runtime(EvalError::Condition(RuntimeError::ExpectedArgs(1)))) => {}
        other => panic!("expected the arity mismatch, got {:?}", other),
    }
}

#[test]
fn block_bindings_are_invisible_afterwards() {
    // a `let` inside the braces is discarded with the duplicate scope,
    // however deep the nesting
    let (rt, _, result) = run("let x = 1\nif 1 == 1 {\nlet y = 2;\nlet z = x + 1;\n}");
    assert!(result.is_ok());
    assert!(rt.get(0, "y").is_err());
    assert!(rt.get(0, "z").is_err());
    match rt.get(0, "x") {
        Ok(Object::Integer(1)) => {}
        other => panic!("expected the outer binding, got {:?}", other),
    }
}

#[test]
fn else_follows_a_taken_branch() {
    // the continuation runs exactly when the condition held
    let (_, host, result) = run("if 1 == 1 {\nprintln(\"a\");\n}else {\nprintln(\"b\");\n}");
    assert!(result.is_ok());
    assert_eq!(host.out.len(), 2);
    assert_eq!(host.out[0], "a\n");
    assert_eq!(host.out[1], "b\n");
    let (_, host, result) = run("if 1 == 2 {\nprintln(\"a\");\n}else {\nprintln(\"b\");\n}");
    assert!(result.is_ok());
    assert_eq!(host.out.len(), 0);
}

#[test]
fn if_condition_must_be_boolean() {
    let (_, _, result) = run("if 1 {\n2;\n}");
    match result {
        Err(ExecError::Runtime(EvalError::Condition(RuntimeError::ExpectedType(_)))) => {}
        other => panic!("expected the type mismatch, got {:?}", other),
    }
}

#[test]
fn assignment_through_a_name_string() {
    // `y = 2 + 3` resolves as `(y = 2) + 3`: the assignment stores 2 under
    // the name y holds, and the addition then fails on the Null
    let (rt, _, result) = run("let z = 0\nlet y = \"z\"\ny = 2 + 3");
    match result {
        Err(ExecError::Runtime(EvalError::Condition(RuntimeError::ExpectedType(_)))) => {}
        other => panic!("expected the type mismatch, got {:?}", other),
    }
    match rt.get(0, "z") {
        Ok(Object::Integer(2)) => {}
        other => panic!("expected the stored 2, got {:?}", other),
    }
}

#[test]
fn source_injects_into_the_including_scope() {
    let mut rt = Runtime::new();
    let mut host = BufferHost::new();
    assert!(init(&mut rt, 0));
    host.add_file("lib", "let z = 9");
    let result = execute(&mut rt, 0, "source(\"lib\")".to_string(), &mut host);
    assert!(result.is_ok());
    match rt.get(0, "z") {
        Ok(Object::Integer(9)) => {}
        other => panic!("expected the injected binding, got {:?}", other),
    }
}

#[test]
fn sourced_syntax_errors_are_counted_and_swallowed() {
    let mut rt = Runtime::new();
    let mut host = BufferHost::new();
    assert!(init(&mut rt, 0));
    host.add_file("broken", "let = @");
    let result = execute(&mut rt, 0, "source(\"broken\")\nlet x = 1".to_string(), &mut host);
    assert!(result.is_ok());
    assert_eq!(host.syntax_errors, 1);
    assert!(rt.get(0, "x").is_ok());
}

#[test]
fn sourced_conditions_are_noted_and_swallowed() {
    let mut rt = Runtime::new();
    let mut host = BufferHost::new();
    assert!(init(&mut rt, 0));
    host.add_file("failing", "missing_name");
    let result = execute(&mut rt, 0, "source(\"failing\")\nlet x = 1".to_string(), &mut host);
    assert!(result.is_ok());
    assert_eq!(host.noted.len(), 1);
    assert!(rt.get(0, "x").is_ok());
}

#[test]
fn sourced_faults_abort_the_run() {
    let mut rt = Runtime::new();
    let mut host = BufferHost::new();
    assert!(init(&mut rt, 0));
    host.add_file("fatal", "1 / 0");
    let result = execute(&mut rt, 0, "source(\"fatal\")".to_string(), &mut host);
    match result {
        Err(ExecError::Runtime(EvalError::Fault(Fault::DivideByZero))) => {}
        other => panic!("expected the fault, got {:?}", other),
    }
}

#[test]
fn shelling_out_has_no_pure_backing() {
    let (_, _, result) = run("call(\"true\")");
    match result {
        Err(ExecError::Runtime(EvalError::Fault(Fault::Unsupported))) => {}
        other => panic!("expected the fault, got {:?}", other),
    }
}

#[test]
fn syntax_errors_carry_the_position() {
    let (_, _, result) = run("let x = 1\n@");
    match result {
        Err(ExecError::Syntax { row, col, .. }) => {
            assert_eq!(row, 2);
            assert_eq!(col, 0);
        }
        other => panic!("expected the syntax error, got {:?}", other),
    }
}

#[test]
fn division_by_zero_aborts_a_run() {
    let (_, _, result) = run("let x = 1 / 0");
    match result {
        Err(ExecError::Runtime(EvalError::Fault(Fault::DivideByZero))) => {}
        other => panic!("expected the fault, got {:?}", other),
    }
}

#[test]
fn script_functions_see_their_callers_top_scope() {
    // dynamic scoping: the call frame hangs off the chain root, so the
    // body resolves names the top level bound
    let mut rt = Runtime::new();
    let mut host = BufferHost::new();
    assert!(init(&mut rt, 0));
    let body = Block::new(vec![Node::ParenArgs(
        Box::new(Node::Identifier("println".to_string())),
        vec![Node::ParenArgs(
            Box::new(Node::Identifier("tostring".to_string())),
            vec![Node::Identifier("x".to_string())],
        )],
    )]);
    let show = Object::Function {
        func: Box::new(Function::Script(body)),
        args: vec!["unused".to_string()],
    };
    assert!(rt.scopes[0].define("show", show));
    let result = execute(&mut rt, 0, "let x = 7\nshow(0)".to_string(), &mut host);
    assert!(result.is_ok());
    assert_eq!(host.out, vec!["7\n".to_string()]);
}

#[test]
fn reserved_words_read_as_identifiers() {
    // `true` has no literal form yet; a bare use resolves like any name
    let (_, _, result) = run("let t = true");
    match result {
        Err(ExecError::Runtime(EvalError::Condition(RuntimeError::NameError(n)))) => {
            assert_eq!(n, "true")
        }
        other => panic!("expected the name error, got {:?}", other),
    }
}

#[test]
fn identifiers_may_hold_digits_and_underscores() {
    let (rt, _, result) = run("let a_1 = 2");
    assert!(result.is_ok());
    match rt.get(0, "a_1") {
        Ok(Object::Integer(2)) => {}
        other => panic!("expected the binding, got {:?}", other),
    }
}

#[test]
fn string_literals_may_span_lines() {
    let (rt, _, result) = run("let s = \"a\nb\"");
    assert!(result.is_ok());
    match rt.get(0, "s") {
        Ok(Object::String(s)) => assert_eq!(s, "a\nb"),
        other => panic!("expected the string, got {:?}", other),
    }
}

#[test]
fn elif_follows_a_taken_branch_like_else() {
    // the chained `if` is continuation of a taken branch: it runs, with
    // its own condition checked, only when the first condition held
    let (_, host, result) =
        run("if 2 == 2 {\nprintln(\"a\");\n}elif 1 == 1 {\nprintln(\"b\");\n}");
    assert!(result.is_ok());
    assert_eq!(host.out, vec!["a\n".to_string(), "b\n".to_string()]);
    let (_, host, result) =
        run("if 1 == 2 {\nprintln(\"a\");\n}elif 1 == 1 {\nprintln(\"b\");\n}");
    assert!(result.is_ok());
    assert_eq!(host.out.len(), 0);
}

#[test]
fn else_blocks_run_against_the_scope_itself() {
    // the taken branch runs against a discarded duplicate, but its `else`
    // continuation runs against the current scope, so its bindings stay
    let (rt, _, result) = run("if 1 == 1 {\nlet v = 2;\n}else {\nlet w = 3;\n}");
    assert!(result.is_ok());
    assert!(rt.get(0, "v").is_err());
    match rt.get(0, "w") {
        Ok(Object::Integer(3)) => {}
        other => panic!("expected the else binding, got {:?}", other),
    }
}

#[test]
fn sourcing_inside_a_block_lands_in_the_duplicate() {
    // a top-level block's duplicate is its own chain root, so an inclusion
    // inside it injects into the duplicate and vanishes with it
    let mut rt = Runtime::new();
    let mut host = BufferHost::new();
    assert!(init(&mut rt, 0));
    host.add_file("defs", "let q = 4");
    let result = execute(
        &mut rt,
        0,
        "if 1 == 1 {\nsource(\"defs\");\n}".to_string(),
        &mut host,
    );
    assert!(result.is_ok());
    assert!(rt.get(0, "q").is_err());
}

#[test]
fn trailing_newline_is_stripped_once() {
    assert_eq!(strip_trailing_newline("out\n"), "out");
    assert_eq!(strip_trailing_newline("out"), "out");
    assert_eq!(strip_trailing_newline("a\nb\n"), "a\nb");
    assert_eq!(strip_trailing_newline(""), "");
}
