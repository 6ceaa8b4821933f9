use ast_grep::env::MetaVarEnv;
use ast_grep::lang::{
    extension_of, generate_replacement_with, CustomLang, LangRegistry, RegistryError, SgLang,
    SupportLang,
};
use ast_grep::tree::Root;

fn custom(name: &str, exts: &[&str]) -> CustomLang {
    CustomLang::new(
        name.to_string(),
        exts.iter().map(|e| e.to_string()).collect(),
    )
}

#[test]
fn test_default_char_equivalence() {
    // a builtin handle and a custom handle registered with the defaults
    // expose identical marker and expando characters
    let b = SgLang::Builtin(SupportLang::JavaScript);
    let c = SgLang::Custom(custom("mylang", &["my"]));
    assert_eq!(b.meta_var_char(), c.meta_var_char());
    assert_eq!(b.expando_char(), c.expando_char());
    assert_eq!(b.meta_var_char(), '$');
}

#[test]
fn test_serialization_transparency() {
    // a handle serializes to exactly its variant's own representation
    let b = SupportLang::TypeScript;
    assert_eq!(SgLang::Builtin(b).name(), b.name());
    assert_eq!(SgLang::Builtin(b).name(), "typescript");
    let c = custom("graphql", &["graphql"]);
    assert_eq!(SgLang::Custom(c).name(), "graphql");
}

#[test]
fn test_registry_duplicate_name() {
    let mut reg = LangRegistry::new();
    assert_eq!(reg.register(custom("graphql", &["graphql"])), Ok(()));
    assert_eq!(
        reg.register(custom("graphql", &["gql"])),
        Err(RegistryError::DuplicateName)
    );
    // the failed registration leaves the earlier one usable
    assert!(reg.find_by_extension("graphql").is_some());
    assert!(reg.find_by_extension("gql").is_none());
}

#[test]
fn test_registry_unusable_chars() {
    let mut reg = LangRegistry::new();
    let mut bad_marker = custom("a", &["a"]);
    bad_marker.meta_var_char = 'x';
    assert_eq!(
        reg.register(bad_marker),
        Err(RegistryError::UnusableMetaVarChar)
    );
    let mut bad_expando = custom("b", &["b"]);
    bad_expando.expando_char = ' ';
    assert_eq!(
        reg.register(bad_expando),
        Err(RegistryError::UnusableExpandoChar)
    );
    assert_eq!(reg.langs.len(), 0);
}

#[test]
fn test_extension_of() {
    assert_eq!(extension_of("src/app.ts"), Some("ts".to_string()));
    assert_eq!(extension_of("a/b/c.spec.tsx"), Some("tsx".to_string()));
    assert_eq!(extension_of("noext"), None);
    assert_eq!(extension_of("dir.d/file"), None);
    assert_eq!(extension_of("trailing."), Some("".to_string()));
}

#[test]
fn test_resolve_for_path() {
    let mut reg = LangRegistry::new();
    reg.register(custom("graphql", &["graphql", "gql"])).unwrap();
    // builtin resolution wins first
    match SgLang::resolve_for_path("web/index.js", &reg) {
        Some(SgLang::Builtin(b)) => assert_eq!(b, SupportLang::JavaScript),
        _ => panic!("expected the builtin grammar"),
    }
    // then custom resolution
    match SgLang::resolve_for_path("api/schema.gql", &reg) {
        Some(SgLang::Custom(c)) => assert_eq!(c.name, "graphql"),
        _ => panic!("expected the registered grammar"),
    }
    // no grammar claims the path
    assert!(SgLang::resolve_for_path("notes.txt", &reg).is_none());
    assert!(SgLang::resolve_for_path("Makefile", &reg).is_none());
}

#[test]
fn test_pre_process_pattern() {
    // the default grammar keeps the marker as its own expando
    let js = SgLang::Builtin(SupportLang::JavaScript);
    assert_eq!(js.pre_process_pattern("let a = $A"), "let a = $A");
    // a grammar with a distinct expando rewrites every marker
    let docker = SgLang::Builtin(SupportLang::Dockerfile);
    let mu = '\u{00B5}';
    assert_eq!(
        docker.pre_process_pattern("FROM $A:1.0"),
        format!("FROM {mu}A:1.0")
    );
}

#[test]
fn test_replacement_through_custom_grammar() {
    // the same template and bindings give the same output whether the
    // grammar is compiled in or registered at runtime
    let captured = Root::new("hoge/mysql");
    let mut env = MetaVarEnv::new();
    env.insert("A".to_string(), captured.root());
    let builtin = SgLang::Builtin(SupportLang::Dockerfile);
    let out_builtin = generate_replacement_with(&builtin, "FROM $A:1.0", &env);
    assert_eq!(out_builtin, "FROM hoge/mysql:1.0");
    let mut registered = custom("dockerclone", &["dockerclone"]);
    registered.expando_char = '\u{00B5}';
    let runtime = SgLang::Custom(registered);
    let out_custom = generate_replacement_with(&runtime, "FROM $A:1.0", &env);
    assert_eq!(out_custom, out_builtin);
}

#[test]
fn test_builtin_from_extension() {
    assert_eq!(
        SupportLang::from_extension("js"),
        Some(SupportLang::JavaScript)
    );
    assert_eq!(
        SupportLang::from_extension("mjs"),
        Some(SupportLang::JavaScript)
    );
    assert_eq!(
        SupportLang::from_extension("ts"),
        Some(SupportLang::TypeScript)
    );
    assert_eq!(SupportLang::from_extension("tsx"), Some(SupportLang::Tsx));
    assert_eq!(
        SupportLang::from_extension("dockerfile"),
        Some(SupportLang::Dockerfile)
    );
    assert_eq!(SupportLang::from_extension("txt"), None);
}
