use mal::env::MalEnv;
use mal::reader::TokenState;
use mal::reader::tokenize;
use mal::eval::eval;
use mal::eval::rep;
use mal::printer::pr_str;
use mal::reader::read_str;
use mal::types::MalError;
use mal::types::MalType;

fn rep_ok(line: &str, env: &mut MalEnv) -> String {
    match rep(line, env) {
        Ok(s) => s,
        Err(e) => panic!("expected success for {:?}, got {:?}", line, e),
    }
}

fn rep_runtime_err(line: &str, env: &mut MalEnv) {
    match rep(line, env) {
        Err(MalError::RuntimeError(_)) => (),
        other => panic!("expected a runtime error for {:?}, got {:?}", line, other),
    }
}

#[test]
fn let_star_sees_earlier_bindings() {
    let mut env = MalEnv::default();
    assert_eq!(rep_ok("(let* (a 1 b (+ a 1)) b)", &mut env), "2");
}

#[test]
fn let_star_shadows_and_outer_survives() {
    let mut env = MalEnv::default();
    assert_eq!(rep_ok("(def! x 1)", &mut env), "1");
    assert_eq!(rep_ok("(let* (x 2) x)", &mut env), "2");
    match env.get(&String::from("x")) {
        Some(MalType::Int(1)) => (),
        other => panic!("outer x should still be 1, got {:?}", other),
    }
    assert_eq!(rep_ok("x", &mut env), "1");
}

#[test]
fn let_star_accepts_vector_bindings() {
    let mut env = MalEnv::default();
    assert_eq!(rep_ok("(let* [c 3] c)", &mut env), "3");
}

#[test]
fn subtraction_arity_failures() {
    let mut env = MalEnv::default();
    rep_runtime_err("(- 1 2 3)", &mut env);
    rep_runtime_err("(- 1)", &mut env);
    assert_eq!(rep_ok("(- 5 2)", &mut env), "3");
}

#[test]
fn division_truncates_and_rejects_zero() {
    let mut env = MalEnv::default();
    rep_runtime_err("(/ 1 0)", &mut env);
    assert_eq!(rep_ok("(/ 7 2)", &mut env), "3");
    assert_eq!(rep_ok("(/ -7 2)", &mut env), "-3");
    assert_eq!(rep_ok("(/ 7 -2)", &mut env), "-3");
}

#[test]
fn addition_and_multiplication_fold() {
    let mut env = MalEnv::default();
    assert_eq!(rep_ok("(+ 1 2 3)", &mut env), "6");
    assert_eq!(rep_ok("(+)", &mut env), "0");
    assert_eq!(rep_ok("(* 2 3 4)", &mut env), "24");
    assert_eq!(rep_ok("(*)", &mut env), "1");
}

#[test]
fn arithmetic_overflow_is_an_error() {
    let mut env = MalEnv::default();
    rep_runtime_err("(+ 2147483647 1)", &mut env);
    rep_runtime_err("(* 65536 65536)", &mut env);
    rep_runtime_err("(- -2147483648 1)", &mut env);
    assert_eq!(rep_ok("(+ 2147483647 0)", &mut env), "2147483647");
}

#[test]
fn empty_input_is_the_empty_sentinel() {
    for line in ["", "   ", "\t , ,", "; a comment", "   ; trailing only"] {
        match read_str(line) {
            Err(MalError::Empty) => (),
            other => panic!("expected Empty for {:?}, got {:?}", line, other),
        }
    }
}

#[test]
fn unbalanced_input_is_a_parse_error() {
    for line in ["(1 2", "\"abc", "[1", "{\"a\" 1", "(1 ]"] {
        match read_str(line) {
            Err(MalError::ParseError(_)) => (),
            other => panic!("expected a parse error for {:?}, got {:?}", line, other),
        }
    }
}

#[test]
fn bad_escapes_are_parse_errors() {
    for line in ["\"a\\qb\"", "\"ab\\"] {
        match read_str(line) {
            Err(MalError::ParseError(_)) => (),
            other => panic!("expected a parse error for {:?}, got {:?}", line, other),
        }
    }
}

#[test]
fn map_literals_demand_even_textual_pairs() {
    match read_str("{\"a\"}") {
        Err(MalError::ParseError(_)) => (),
        other => panic!("odd map form should fail, got {:?}", other),
    }
    match read_str("{1 2}") {
        Err(MalError::ParseError(_)) => (),
        other => panic!("non-textual key should fail, got {:?}", other),
    }
}

#[test]
fn literal_round_trip_is_exact() {
    // canonical renderings read back and print identically, at any nesting
    for line in [
        "nil",
        "true",
        "false",
        "0",
        "-42",
        "2147483647",
        "-2147483648",
        ":kw",
        "sym",
        "\"plain\"",
        "\"a\\nb\\\\c\\\"d\"",
        "(1 2 (3 [4 5]) \"a\" :kw sym nil)",
        "[[] () [nil [true]]]",
    ] {
        let t = read_str(line).expect("should parse");
        let printed = pr_str(t, true);
        assert_eq!(printed, line);
        let again = read_str(&printed).expect("should re-parse");
        assert_eq!(pr_str(again, true), printed);
    }
}

#[test]
fn string_escaping_inverts() {
    let t = read_str("\"a\\\\b\\nc\\\"d\"").expect("should parse");
    match &t {
        MalType::Str(s) => assert_eq!(s, "a\\b\nc\"d"),
        other => panic!("expected a string, got {:?}", other),
    }
    assert_eq!(pr_str(t, true), "\"a\\\\b\\nc\\\"d\"");
}

#[test]
fn unreadable_printing_leaves_strings_raw() {
    let t = read_str("\"a\\nb\"").expect("should parse");
    assert_eq!(pr_str(t, false), "\"a\nb\"");
}

#[test]
fn integer_tokens_beyond_range_are_symbols() {
    match read_str("2147483648") {
        Ok(MalType::Symbol(s)) => assert_eq!(s, "2147483648"),
        other => panic!("expected a symbol, got {:?}", other),
    }
    match read_str("+5") {
        Ok(MalType::Int(5)) => (),
        other => panic!("expected 5, got {:?}", other),
    }
}

#[test]
fn empty_list_and_data_lists_self_evaluate() {
    let mut env = MalEnv::default();
    assert_eq!(rep_ok("()", &mut env), "()");
    assert_eq!(rep_ok("(1 2 3)", &mut env), "(1 2 3)");
}

#[test]
fn containers_evaluate_their_elements() {
    let mut env = MalEnv::default();
    assert_eq!(rep_ok("[(+ 1 2) 4]", &mut env), "[3 4]");
    assert_eq!(rep_ok("{\"k\" (+ 1 2)}", &mut env), "{k 3}");
    assert_eq!(rep_ok("((+ 1 2) 4)", &mut env), "(3 4)");
}

#[test]
fn def_binds_and_persists() {
    let mut env = MalEnv::default();
    assert_eq!(rep_ok("(def! y (+ 3 4))", &mut env), "7");
    assert_eq!(rep_ok("(+ y 1)", &mut env), "8");
    rep_runtime_err("(def! 1 2)", &mut env);
    rep_runtime_err("(def! z)", &mut env);
}

#[test]
fn unresolved_symbols_are_runtime_errors() {
    let mut env = MalEnv::default();
    rep_runtime_err("zz", &mut env);
    rep_runtime_err("(zz 1)", &mut env);
}

#[test]
fn environment_chains_and_shadows() {
    let mut outer = MalEnv::default();
    outer.set(String::from("a"), MalType::Int(1));
    let mut inner = MalEnv::new(Some(&outer));
    assert!(inner.find("a"));
    assert!(!inner.find("b"));
    match inner.get(&String::from("a")) {
        Some(MalType::Int(1)) => (),
        other => panic!("expected 1 through the chain, got {:?}", other),
    }
    inner.set(String::from("a"), MalType::Int(2));
    match inner.get(&String::from("a")) {
        Some(MalType::Int(2)) => (),
        other => panic!("expected the shadowing 2, got {:?}", other),
    }
    match outer.get(&String::from("a")) {
        Some(MalType::Int(1)) => (),
        other => panic!("outer should be untouched, got {:?}", other),
    }
}

#[test]
fn map_lookup_ignores_pair_order() {
    let one = read_str("{\"a\" 1 \"b\" 2}").expect("should parse");
    let two = read_str("{\"b\" 2 \"a\" 1}").expect("should parse");
    for t in [&one, &two] {
        match t {
            MalType::HashMap(m) => {
                match m.lookup("a") {
                    Some(MalType::Int(1)) => (),
                    other => panic!("expected 1 at key a, got {:?}", other),
                }
                match m.lookup("b") {
                    Some(MalType::Int(2)) => (),
                    other => panic!("expected 2 at key b, got {:?}", other),
                }
                assert!(m.lookup("c").is_none());
            },
            other => panic!("expected a map, got {:?}", other),
        }
    }
}

#[test]
fn rendering_is_deterministic_per_value() {
    let t = read_str("{\"a\" 1 \"b\" [2 3]}").expect("should parse");
    let copy = t.deep_copy();
    assert_eq!(pr_str(t, true), pr_str(copy, true));
}

#[test]
fn later_map_pair_shadows_earlier() {
    let t = read_str("{\"a\" 1 \"a\" 2}").expect("should parse");
    match t {
        MalType::HashMap(m) => match m.lookup("a") {
            Some(MalType::Int(2)) => (),
            other => panic!("the later pair should win, got {:?}", other),
        },
        other => panic!("expected a map, got {:?}", other),
    }
}

#[test]
fn keyword_keys_store_their_name() {
    let t = read_str("{:kw 9}").expect("should parse");
    match t {
        MalType::HashMap(m) => match m.lookup("kw") {
            Some(MalType::Int(9)) => (),
            other => panic!("expected 9 at key kw, got {:?}", other),
        },
        other => panic!("expected a map, got {:?}", other),
    }
}

#[test]
fn functions_print_as_a_placeholder() {
    let mut env = MalEnv::default();
    assert_eq!(rep_ok("+", &mut env), "#<function>");
}

#[test]
fn is_list_and_get_string() {
    let t = read_str("(1)").expect("should parse");
    assert!(t.is_list());
    let v = read_str("[1]").expect("should parse");
    assert!(!v.is_list());
    let s = read_str("\"txt\"").expect("should parse");
    assert_eq!(s.get_string(), Some(String::from("txt")));
    let k = read_str(":txt").expect("should parse");
    assert_eq!(k.get_string(), Some(String::from("txt")));
    assert_eq!(read_str("7").expect("should parse").get_string(), None);
}

#[test]
fn token_state_walks_tokens() {
    let chars: Vec<char> = "(+ 1)".chars().collect();
    let tokens = tokenize(&chars);
    let mut ts = TokenState { tokens, idx: 0 };
    assert_eq!(ts.peek().unwrap(), vec!['(']);
    assert_eq!(ts.next().unwrap(), vec!['(']);
    assert_eq!(ts.next().unwrap(), vec!['+']);
    assert_eq!(ts.next().unwrap(), vec!['1']);
    assert_eq!(ts.next().unwrap(), vec![')']);
    assert!(matches!(ts.next(), Err(MalError::ParseError(_))));
    assert!(matches!(ts.peek(), Err(MalError::ParseError(_))));
}

#[test]
fn comments_inside_a_form_surface_the_empty_sentinel() {
    // a comment token anywhere reads as "nothing to evaluate", and inside an
    // open form that sentinel propagates out
    assert!(matches!(read_str("(+ 1 ; ignored\n2)"), Err(MalError::Empty)));
    // a comment after a complete form is never reached
    let mut env = MalEnv::default();
    assert_eq!(rep_ok("(+ 1 2) ; ignored", &mut env), "3");
}

#[test]
fn def_inside_argument_position_mutates_in_order() {
    let mut env = MalEnv::default();
    assert_eq!(rep_ok("(+ (def! w 3) w)", &mut env), "6");
    assert_eq!(rep_ok("w", &mut env), "3");
}

#[test]
fn eval_on_non_list_scalars_is_identity() {
    let mut env = MalEnv::default();
    for line in ["nil", "true", "false", "7", ":kw", "\"s\""] {
        let t = read_str(line).expect("should parse");
        let v = eval(&t, &mut env).expect("should evaluate");
        assert_eq!(pr_str(v, true), line);
    }
}
