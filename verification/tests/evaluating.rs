use alc_lisp::ast::AST;
use alc_lisp::interpreter::{add_generic_builtins, Env, EvalError, Program};
use alc_lisp::lexer::Lexer;
use alc_lisp::node::Node;
use alc_lisp::objects::Object;

fn parse(src: &str) -> Node {
    let mut lexer = Lexer::from_string(src.to_string());
    lexer.parse().expect("lexing failed");
    let mut ast = AST::with_tokens(lexer.tokens());
    ast.parse().expect("parsing failed")
}

fn program() -> Program {
    let mut globals = Env::new();
    add_generic_builtins(&mut globals);
    Program::new(globals)
}

fn run(src: &str) -> Object {
    let root = parse(src);
    program().eval(&root).expect("evaluation failed")
}

fn expect_int(src: &str, value: isize) {
    match run(src) {
        Object::Integer(v) => assert_eq!(v, value, "program: {}", src),
        other => panic!("{} should yield an integer, got {:?}", src, other),
    }
}

fn expect_error_value(src: &str, message: &str) {
    match run(src) {
        Object::Error(m) => assert_eq!(m, message, "program: {}", src),
        other => panic!("{} should yield an error value, got {:?}", src, other),
    }
}

fn expect_ints(src: &str, values: &[isize]) {
    match run(src) {
        Object::List(items) => {
            assert_eq!(items.len(), values.len(), "program: {}", src);
            for (item, expected) in items.iter().zip(values.iter()) {
                match item {
                    Object::Integer(v) => assert_eq!(v, expected, "program: {}", src),
                    other => panic!("{} should yield integers, got {:?}", src, other),
                }
            }
        }
        other => panic!("{} should yield a list, got {:?}", src, other),
    }
}

#[test]
fn addition_evaluates() {
    expect_int("(+ 1 2)", 3);
}

#[test]
fn division_by_zero_is_an_error_value_alone() {
    expect_error_value("(/ 1 0)", "division by zero");
}

#[test]
fn division_by_zero_escalates_in_a_sequence() {
    let root = parse("(define x 1) (/ 1 0)");
    let mut p = program();
    match p.eval(&root) {
        Err(EvalError::ErrorValue { .. }) => {}
        other => panic!("expected an escalated error value, got {:?}", other),
    }
}

#[test]
fn define_binds_and_reads_back() {
    expect_int("(define x 5) (+ x 1)", 6);
}

#[test]
fn inner_define_does_not_leak_outward() {
    expect_int("(define x 5) ((fn [y] (do ((define x 10) x))) 1) x", 5);
    expect_int("(define x 5) ((fn [y] (do ((define x 10) x))) 1)", 10);
}

#[test]
fn closures_capture_their_defining_environment() {
    expect_int(
        "(define make-adder (fn [n] (fn [x] (+ x n)))) (define add5 (make-adder 5)) (add5 10)",
        15,
    );
}

#[test]
fn recursive_fibonacci_terminates() {
    expect_int(
        "(define fib (fn [n] (if (< n 2) n (+ (fib (- n 1)) (fib (- n 2)))))) (fib 10)",
        55,
    );
}

#[test]
fn sort_is_idempotent_on_integers() {
    expect_ints("(sort [3 1 2])", &[1, 2, 3]);
    expect_ints("(sort (sort [3 1 2]))", &[1, 2, 3]);
    expect_ints("(sort [1 2 3])", &[1, 2, 3]);
}

#[test]
fn arity_error_carries_name_and_counts() {
    expect_error_value(
        "(nth 1)",
        "Invalid amount of argument to function 'nth': expected: 2 got: 1",
    );
}

#[test]
fn type_error_carries_expected_and_got() {
    expect_error_value(
        "(+ \"a\" 1)",
        "Invalid argument type for function '+': expected int got string",
    );
}

#[test]
fn error_messages_name_their_own_function() {
    expect_error_value(
        "(parse_int)",
        "Invalid amount of argument to function 'parse_int': expected: 1 got: 0",
    );
    expect_error_value(
        "(abs)",
        "Invalid amount of argument to function 'abs': expected: 1 got: 0",
    );
    expect_error_value(
        "(abs \"x\")",
        "Invalid argument type for function 'abs' at position 0 expected int got string",
    );
    expect_error_value(
        "(sort)",
        "Invalid amount of argument to function 'sort': expected: 1 got: 0",
    );
    expect_error_value(
        "(reduce [1])",
        "Invalid amount of argument to function 'reduce': expected: 2 got: 1",
    );
    expect_error_value(
        "(reduce 1 2)",
        "Invalid argument type for function 'reduce': expected list at position 0",
    );
}

#[test]
fn mapping_a_builtin_keeps_the_inner_error_message() {
    expect_ints("(map [[1 2] [3]] head)", &[1, 3]);
    expect_error_value(
        "(map [1] head)",
        "map error: Invalid argument type for function 'head': expected list at position 1",
    );
}

#[test]
fn modulo_computes_directly() {
    // the lexer has no word symbol for the modulo operator, so the
    // builtin is reached as a function value
    let args = vec![Object::Integer(7), Object::Integer(3)];
    match alc_lisp::builtins::modulo(&args) {
        Object::Integer(v) => assert_eq!(v, 1),
        other => panic!("expected an integer, got {:?}", other),
    }
    let args2 = vec![Object::Integer(-7), Object::Integer(3)];
    match alc_lisp::builtins::modulo(&args2) {
        Object::Integer(v) => assert_eq!(v, -1),
        other => panic!("expected an integer, got {:?}", other),
    }
    let args3 = vec![Object::Integer(7), Object::Integer(0)];
    match alc_lisp::builtins::modulo(&args3) {
        Object::Error(m) => assert_eq!(m, "division by zero"),
        other => panic!("expected an error value, got {:?}", other),
    }
}

#[test]
fn arithmetic_builtins_compute() {
    expect_int("(- 10 3 2)", 5);
    expect_int("(* 2 3 4)", 24);
    expect_int("(/ 20 2 2)", 5);
    expect_int("(/ -7 2)", -3);
    expect_int("(abs -4)", 4);
    expect_int("(abs 4)", 4);
}

#[test]
fn comparisons_and_equality() {
    match run("(== 1 1 1)") {
        Object::Bool(b) => assert!(b),
        other => panic!("expected a boolean, got {:?}", other),
    }
    match run("(== 1 2)") {
        Object::Bool(b) => assert!(!b),
        other => panic!("expected a boolean, got {:?}", other),
    }
    match run("(!= 1 2)") {
        Object::Bool(b) => assert!(b),
        other => panic!("expected a boolean, got {:?}", other),
    }
    match run("(< 1 2 3)") {
        Object::Bool(b) => assert!(b),
        other => panic!("expected a boolean, got {:?}", other),
    }
    match run("(> 3 2 1)") {
        Object::Bool(b) => assert!(b),
        other => panic!("expected a boolean, got {:?}", other),
    }
    match run("(== [1 2] [1 2])") {
        Object::Bool(b) => assert!(b),
        other => panic!("expected a boolean, got {:?}", other),
    }
}

#[test]
fn list_builtins_compute() {
    expect_int("(nth 1 [4 5 6])", 5);
    match run("(nth 9 [4 5 6])") {
        Object::Null => {}
        other => panic!("out-of-range nth should be null, got {:?}", other),
    }
    expect_int("(head [7 8])", 7);
    expect_ints("(tail [7 8 9])", &[8, 9]);
    expect_ints("(slice [1 2 3 4] 1 3)", &[2, 3]);
    expect_ints("(slice [1 2 3 4] 2)", &[3, 4]);
    expect_ints("(concat [1] [2 3])", &[1, 2, 3]);
    expect_ints("(flat [1 [2 [3 4]] 5])", &[1, 2, 3, 4, 5]);
}

#[test]
fn map_and_reduce_recurse_through_the_evaluator() {
    expect_ints("(map [1 2 3] (fn [x] (* x x)))", &[1, 4, 9]);
    expect_int("(reduce [1 2 3 4] (fn [acc x] (+ acc x)) 0)", 10);
    // without an initial value the accumulator starts as null
    expect_error_value(
        "(reduce [5] (fn [acc x] (+ acc x)))",
        "Invalid argument type for function '+': expected int got null",
    );
}

#[test]
fn string_builtins_compute() {
    match run("(str \"ab\" \"cd\")") {
        Object::String(s) => assert_eq!(s, "abcd"),
        other => panic!("expected a string, got {:?}", other),
    }
    expect_int("(len \"abc\")", 3);
    expect_int("(len [1 2])", 2);
    match run("(type 5)") {
        Object::String(s) => assert_eq!(s, "int"),
        other => panic!("expected a string, got {:?}", other),
    }
    expect_int("(parse_int \"42\")", 42);
    expect_int("(parse_int \"-42\")", -42);
    expect_error_value("(parse_int \"4x\")", "Could not parse int");
}

fn expect_strings(src: &str, values: &[&str]) {
    match run(src) {
        Object::List(items) => {
            assert_eq!(items.len(), values.len(), "program: {}", src);
            for (item, expected) in items.iter().zip(values.iter()) {
                match item {
                    Object::String(s) => assert_eq!(s, expected, "program: {}", src),
                    other => panic!("{} should yield strings, got {:?}", src, other),
                }
            }
        }
        other => panic!("{} should yield a list, got {:?}", src, other),
    }
}

#[test]
fn split_cuts_around_the_delimiter() {
    expect_strings("(split \"a,b,c\" \",\")", &["a", "b", "c"]);
    expect_strings("(split \"a--b\" \"--\")", &["a", "b"]);
    expect_strings("(split \",a,\" \",\")", &["", "a", ""]);
    expect_strings("(split \"abc\" \"x\")", &["abc"]);
    expect_strings("(split \"ab\" \"\")", &["", "a", "b", ""]);
}

#[test]
fn lines_keep_a_bare_trailing_carriage_return() {
    // a carriage return counts as part of a line ending only before a
    // line feed
    expect_strings("(lines \"a\r\")", &["a\r"]);
    expect_strings("(lines \"a\r\nb\")", &["a", "b"]);
}

#[test]
fn lines_cut_at_line_feeds() {
    expect_strings("(lines \"a\nb\")", &["a", "b"]);
    expect_strings("(lines \"a\nb\n\")", &["a", "b"]);
    expect_strings("(lines \"\")", &[]);
    expect_strings("(lines \"a\rb\")", &["a\rb"]);
}

#[test]
fn string_literals_strip_their_quotes() {
    match run("\"hi\"") {
        Object::String(s) => assert_eq!(s, "hi"),
        other => panic!("expected a string, got {:?}", other),
    }
}

#[test]
fn truthiness_follows_the_value_rules() {
    expect_int("(if 0 1 2)", 2);
    expect_int("(if 7 1 2)", 1);
    expect_int("(if \"\" 1 2)", 2);
    expect_int("(if \"x\" 1 2)", 1);
    expect_int("(if [] 1 2)", 2);
    expect_int("(if [0] 1 2)", 1);
    expect_int("(if true 1 2)", 1);
    expect_int("(if false 1 2)", 2);
    match run("(if false 1)") {
        Object::Null => {}
        other => panic!("missing else should yield null, got {:?}", other),
    }
}

#[test]
fn unbound_names_read_as_null() {
    match run("missing") {
        Object::Null => {}
        other => panic!("unbound name should be null, got {:?}", other),
    }
}

#[test]
fn calling_null_passes_through() {
    match run("(missing 1 2)") {
        Object::Null => {}
        other => panic!("calling null should be null, got {:?}", other),
    }
}

#[test]
fn calling_a_non_callable_fails_hard() {
    let root = parse("(1 2)");
    let mut p = program();
    match p.eval(&root) {
        Err(EvalError::CannotCall { callee_type }) => assert_eq!(callee_type, "int"),
        other => panic!("expected the cannot-call failure, got {:?}", other),
    }
}

#[test]
fn special_form_shape_errors() {
    expect_error_value(
        "(define x)",
        "Invalid amount of arguments to define got:2 expected: 3",
    );
    expect_error_value(
        "(define 1 2)",
        "Invalid token for define: number should be a word",
    );
    expect_error_value("(if 1)", "Invalid amount of arguments to 'if' got: 2");
    expect_error_value("(do 1 2)", "Invalid amount of arguments to 'do' got: 3");
    expect_int("(do (+ 1 2))", 3);
}

#[test]
fn function_arity_must_match_exactly() {
    expect_error_value(
        "((fn [x] x) 1 2)",
        "Invalid number of arguments passed into function got 2 expected 1",
    );
}

#[test]
fn runaway_recursion_is_a_reported_error() {
    let root = parse("(define f (fn [] (f))) (f)");
    let mut p = program();
    match p.eval(&root) {
        Err(EvalError::StackDepthExceeded) => {}
        other => panic!("expected the stack depth error, got {:?}", other),
    }
}

#[test]
fn globals_survive_evaluation_and_can_be_read_back() {
    let root = parse("(define x 41) (define y (+ x 1)) y");
    let mut p = program();
    match p.eval(&root) {
        Ok(Object::Integer(v)) => assert_eq!(v, 42),
        other => panic!("expected 42, got {:?}", other),
    }
    match p.get_value("y") {
        Object::Integer(v) => assert_eq!(v, 42),
        other => panic!("expected the stored value, got {:?}", other),
    }
    let stack = p.get_env();
    assert_eq!(stack.depth(), 1);
    match stack.env_at(0).get("x") {
        Some(Object::Integer(v)) => assert_eq!(*v, 41),
        other => panic!("expected the global binding, got {:?}", other),
    }
}

#[test]
fn number_literals_are_interned_per_lexeme() {
    expect_int("(+ 7 7 7)", 21);
    expect_int("(- -9223372036854775808 0)", isize::MIN);
    let root = parse("99999999999999999999999999");
    let mut p = program();
    match p.eval(&root) {
        Err(EvalError::NumberParse { lexeme }) => {
            assert_eq!(lexeme, "99999999999999999999999999");
        }
        other => panic!("expected a number parse failure, got {:?}", other),
    }
}

#[test]
fn sort_orders_mixed_kinds_by_rank() {
    let result = run("(sort [\"b\" 2 true [] 1 \"a\" false])");
    match result {
        Object::List(items) => {
            let kinds: Vec<&str> = items.iter().map(|o| o.type_of()).collect();
            assert_eq!(
                kinds,
                vec!["bool", "bool", "int", "int", "string", "string", "list"]
            );
            match (&items[0], &items[1], &items[2], &items[3]) {
                (
                    Object::Bool(false),
                    Object::Bool(true),
                    Object::Integer(1),
                    Object::Integer(2),
                ) => {}
                other => panic!("unexpected order {:?}", other),
            }
            match (&items[4], &items[5]) {
                (Object::String(a), Object::String(b)) => {
                    assert_eq!(a, "a");
                    assert_eq!(b, "b");
                }
                other => panic!("unexpected order {:?}", other),
            }
        }
        other => panic!("expected a list, got {:?}", other),
    }
}

#[test]
fn equality_is_identity_for_closures() {
    match run("(define f (fn [x] x)) (define g (fn [x] x)) (== f g)") {
        Object::Bool(b) => assert!(!b),
        other => panic!("expected a boolean, got {:?}", other),
    }
    match run("(define f (fn [x] x)) (define g f) (== f g)") {
        Object::Bool(b) => assert!(b),
        other => panic!("expected a boolean, got {:?}", other),
    }
}

#[test]
fn rendering_matches_the_host_format() {
    assert_eq!(run("(sort [3 1 2])").render(), "[1 2 3]");
    assert_eq!(run("\"hi\"").render(), "\"hi\"");
    assert_eq!(run("(- 0 5)").render(), "-5");
    assert_eq!(run("missing").render(), "null");
    assert_eq!(run("true").render(), "true");
    assert_eq!(run("(/ 1 0)").render(), "Error:division by zero");
    assert_eq!(run("(head [+])").render(), "BUILTIN[Add]");
}

#[test]
fn duplicated_programs_evolve_independently() {
    let mut p = program();
    p.eval(&parse("(define x 1)")).expect("define failed");
    let mut q = p.duplicate();
    q.eval(&parse("(define x 2)")).expect("redefine failed");
    match p.get_value("x") {
        Object::Integer(v) => assert_eq!(v, 1),
        other => panic!("expected the original binding, got {:?}", other),
    }
    match q.get_value("x") {
        Object::Integer(v) => assert_eq!(v, 2),
        other => panic!("expected the copy's binding, got {:?}", other),
    }
}

#[test]
fn empty_forms_evaluate_to_null_and_empty_list() {
    match run("()") {
        Object::Null => {}
        other => panic!("empty call should be null, got {:?}", other),
    }
    match run("[]") {
        Object::List(items) => assert_eq!(items.len(), 0),
        other => panic!("expected an empty list, got {:?}", other),
    }
}
