use ast_grep::env::MetaVarEnv;
use ast_grep::meta_var::{extract_meta_var, MetaVariable};
use ast_grep::replacer::{get_meta_var_replacement, Replacer};
use ast_grep::tree::Root;

fn test_str_replace(replacer: &str, vars: &[(&str, &str)], expected: &str) {
    let roots: Vec<(&str, Root)> = vars.iter().map(|(v, p)| (*v, Root::new(p))).collect();
    let mut env = MetaVarEnv::new();
    for (var, root) in &roots {
        env.insert(var.to_string(), root.root());
    }
    let replaced = String::from(replacer).generate_replacement(&env);
    assert_eq!(replaced, expected, "wrong replacement {replaced} {expected}");
}

#[test]
fn test_no_env() {
    test_str_replace("let a = 123", &[], "let a = 123");
    test_str_replace(
        "console.log('hello world'); let b = 123;",
        &[],
        "console.log('hello world'); let b = 123;",
    );
}

#[test]
fn test_single_env() {
    test_str_replace("let a = $A", &[("A", "123")], "let a = 123");
    test_str_replace(
        "console.log($HW); let b = 123;",
        &[("HW", "'hello world'")],
        "console.log('hello world'); let b = 123;",
    );
}

#[test]
fn test_multiple_env() {
    test_str_replace("let $V = $A", &[("A", "123"), ("V", "a")], "let a = 123");
    test_str_replace(
        "console.log($HW); let $B = 123;",
        &[("HW", "'hello world'"), ("B", "b")],
        "console.log('hello world'); let b = 123;",
    );
}

#[test]
fn test_multiple_occurrences() {
    test_str_replace("let $A = $A", &[("A", "a")], "let a = a");
    test_str_replace("var $A = () => $A", &[("A", "a")], "var a = () => a");
    test_str_replace(
        "const $A = () => { console.log($B); $A(); };",
        &[("B", "'hello world'"), ("A", "a")],
        "const a = () => { console.log('hello world'); a(); };",
    );
}

fn test_ellipsis_replace(replacer: &str, vars: &[(&str, &str)], expected: &str) {
    let roots: Vec<(&str, Root)> = vars.iter().map(|(v, p)| (*v, Root::new(p))).collect();
    let mut env = MetaVarEnv::new();
    for (var, root) in &roots {
        env.insert_multi(var.to_string(), root.root().children());
    }
    let replaced = String::from(replacer).generate_replacement(&env);
    assert_eq!(replaced, expected, "wrong replacement {replaced} {expected}");
}

#[test]
fn test_ellipsis_meta_var() {
    test_ellipsis_replace(
        "let a = () => { $$$B }",
        &[("B", "alert('works!')")],
        "let a = () => { alert('works!') }",
    );
    test_ellipsis_replace(
        "let a = () => { $$$B }",
        &[("B", "alert('works!');console.log(123)")],
        "let a = () => { alert('works!');console.log(123) }",
    );
}

#[test]
fn test_order_preservation() {
    // Replacements of different lengths at both ends: applying the two
    // edits out of document order would shift the later span and corrupt
    // the output.
    test_str_replace(
        "$FIRST = compute($SECOND)",
        &[("FIRST", "total_count"), ("SECOND", "x")],
        "total_count = compute(x)",
    );
    test_str_replace(
        "$A($B, $C)",
        &[("A", "f"), ("B", "longer_argument"), ("C", "y")],
        "f(longer_argument, y)",
    );
}

#[test]
fn test_round_trip_unused_bindings() {
    // A template with zero placeholders round-trips under an empty
    // environment and under unrelated, unused bindings.
    test_str_replace("if (x < 2) { return; }", &[], "if (x < 2) { return; }");
    test_str_replace(
        "if (x < 2) { return; }",
        &[("UNUSED", "999"), ("OTHER", "'zzz'")],
        "if (x < 2) { return; }",
    );
}

#[test]
fn test_unresolved_placeholder_kept() {
    // A recognized placeholder with no binding is left untouched rather
    // than dropped.
    test_str_replace("let a = $MISSING", &[], "let a = $MISSING");
    test_str_replace("let a = $MISSING", &[("OTHER", "1")], "let a = $MISSING");
}

#[test]
fn test_empty_template() {
    test_str_replace("", &[], "");
    test_str_replace("", &[("A", "1")], "");
}

#[test]
fn test_extract_meta_var_shapes() {
    match extract_meta_var("$A") {
        Some(MetaVariable::Single(name)) => assert_eq!(name, "A"),
        _ => panic!("expected a single capture"),
    }
    match extract_meta_var("$$$REST") {
        Some(MetaVariable::Multi(name)) => assert_eq!(name, "REST"),
        _ => panic!("expected a multi capture"),
    }
    assert!(extract_meta_var("plain").is_none());
    assert!(extract_meta_var("$").is_none());
    assert!(extract_meta_var("$$$").is_none());
    assert!(extract_meta_var("$$X").is_none());
    assert!(extract_meta_var("$foo_bar9").is_some());
    assert!(extract_meta_var("$a-b").is_none());
}

#[test]
fn test_leaf_replacement_lookup() {
    let captured = Root::new("123");
    let mut env = MetaVarEnv::new();
    env.insert("A".to_string(), captured.root());
    let template = Root::new("$A");
    let root_node = template.root();
    let stmts = root_node.children();
    assert_eq!(stmts.len(), 1);
    let leaves = stmts[0].children();
    assert_eq!(leaves.len(), 1);
    // the placeholder leaf resolves to the captured text
    assert_eq!(get_meta_var_replacement(&leaves[0], &env), Some("123".to_string()));
    // an internal node never resolves
    assert_eq!(get_meta_var_replacement(&root_node, &env), None);
}

#[test]
fn test_node_as_replacer() {
    // A fragment used verbatim as its own replacement template: the
    // output is its literal text, independent of the environment.
    let root = Root::new("foo(bar)");
    let env = MetaVarEnv::new();
    let out = root.root().generate_replacement(&env);
    assert_eq!(out, "foo(bar)");
    let other = Root::new("9");
    let mut bound = MetaVarEnv::new();
    bound.insert("A".to_string(), other.root());
    assert_eq!(root.root().generate_replacement(&bound), "foo(bar)");
}

#[test]
fn test_rebinding_overwrites() {
    let first = Root::new("1");
    let second = Root::new("2");
    let mut env = MetaVarEnv::new();
    env.insert("A".to_string(), first.root());
    env.insert("A".to_string(), second.root());
    let replaced = String::from("let a = $A").generate_replacement(&env);
    assert_eq!(replaced, "let a = 2");
}
