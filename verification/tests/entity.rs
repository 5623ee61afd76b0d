use axil_core::entity::{camel_to_snake, extract_entities, provisional_canonical_id, EntityType};

#[test]
fn extract_backtick_entities() {
    let text = "Fixed bug in `AuthModule` by updating `auth_config`";
    let entities = extract_entities(text);
    let names: Vec<&str> = entities.iter().map(|e| e.name.as_str()).collect();
    assert!(names.contains(&"AuthModule"));
    assert!(names.contains(&"auth_config"));
}

#[test]
fn extract_file_path() {
    let text = "Modified /src/auth/login.rs for the fix";
    let entities = extract_entities(text);
    assert!(entities
        .iter()
        .any(|e| e.entity_type == EntityType::File && e.name.contains("auth/login.rs")));
}

#[test]
fn extract_relative_path() {
    let text = "Updated ./src/main.rs with new config";
    let entities = extract_entities(text);
    assert!(entities.iter().any(|e| e.entity_type == EntityType::File));
}

#[test]
fn extract_camel_case_identifier() {
    let text = "The AuthModule handles authentication";
    let entities = extract_entities(text);
    assert!(entities
        .iter()
        .any(|e| e.entity_type == EntityType::Code && e.name == "auth_module"));
}

#[test]
fn extract_snake_case_identifier() {
    let text = "Updated auth_module for the fix";
    let entities = extract_entities(text);
    assert!(entities
        .iter()
        .any(|e| e.entity_type == EntityType::Code && e.name == "auth_module"));
}

#[test]
fn extract_quoted_string() {
    let text = "Error message was \"connection timed out unexpectedly\"";
    let entities = extract_entities(text);
    assert!(entities
        .iter()
        .any(|e| e.entity_type == EntityType::Reference));
}

#[test]
fn no_short_quoted_strings() {
    let text = "Set \"active\" flag";
    let entities = extract_entities(text);
    // "active" is only 1 word, should not be extracted
    assert!(!entities
        .iter()
        .any(|e| e.entity_type == EntityType::Reference));
}

#[test]
fn deduplication() {
    let text = "`AuthModule` is the AuthModule class";
    let entities = extract_entities(text);
    // Should only appear once (backtick version wins)
    let auth_count = entities
        .iter()
        .filter(|e| {
            e.name.to_lowercase().contains("authmodule") || e.name.contains("auth_module")
        })
        .count();
    assert_eq!(auth_count, 1);
}

#[test]
fn camel_to_snake_basic() {
    assert_eq!(camel_to_snake("AuthModule"), "auth_module");
    assert_eq!(camel_to_snake("HTTPClient"), "http_client");
}

#[test]
fn empty_text_no_entities() {
    let entities = extract_entities("");
    assert!(entities.is_empty());
}

fn code_syms(text: &str) -> Vec<(String, Option<String>)> {
    extract_entities(text)
        .into_iter()
        .filter_map(|e| match e.entity_type {
            EntityType::CodeSymbol { lang_hint } => Some((e.name, lang_hint)),
            _ => None,
        })
        .collect()
}

#[test]
fn extract_rust_qualified_symbol() {
    let syms = code_syms("Fixed the timeout in auth::login after refactor");
    assert!(syms
        .iter()
        .any(|(n, l)| n == "auth::login" && l.as_deref() == Some("rust")));
}

#[test]
fn extract_rust_fn_struct() {
    let syms = code_syms("fn parse_token builds struct TokenRing via impl Decoder");
    assert!(syms.iter().any(|(n, _)| n == "parse_token"));
    assert!(syms.iter().any(|(n, _)| n == "TokenRing"));
    assert!(syms.iter().any(|(n, _)| n == "Decoder"));
}

#[test]
fn extract_python_def_class() {
    let syms = code_syms("def login(user): pass\nclass UserManager: pass");
    assert!(syms
        .iter()
        .any(|(n, l)| n == "login" && l.as_deref() == Some("python")));
    assert!(syms
        .iter()
        .any(|(n, l)| n == "UserManager" && l.as_deref() == Some("python")));
}

#[test]
fn extract_ts_function_class() {
    let syms = code_syms("function createSession() {}\nclass Router {}");
    assert!(syms
        .iter()
        .any(|(n, l)| n == "createSession" && l.as_deref() == Some("ts")));
    assert!(syms
        .iter()
        .any(|(n, l)| n == "Router" && l.as_deref() == Some("ts")));
}

#[test]
fn extract_go_func_and_method() {
    let syms = code_syms("func Login(u string) error {}\nfunc (s *Server) Serve() {}");
    assert!(syms
        .iter()
        .any(|(n, l)| n == "Login" && l.as_deref() == Some("go")));
    assert!(syms
        .iter()
        .any(|(n, l)| n == "Serve" && l.as_deref() == Some("go")));
}

#[test]
fn cross_language_login_distinct_keys() {
    // Same display name 'login' appearing via different language
    // patterns must both be captured (lang_hint disambiguates).
    let syms = code_syms("In Python: def login(u)\nIn Rust: auth::login");
    let py = syms
        .iter()
        .find(|(n, l)| n == "login" && l.as_deref() == Some("python"));
    let rs = syms
        .iter()
        .find(|(n, l)| n == "auth::login" && l.as_deref() == Some("rust"));
    assert!(py.is_some(), "python login missing");
    assert!(rs.is_some(), "rust auth::login missing");
}

#[test]
fn provisional_canonical_id_is_stable_and_scoped() {
    let a = provisional_canonical_id("login", Some("rust"), Some("src/auth.rs"));
    let b = provisional_canonical_id("login", Some("rust"), Some("src/auth.rs"));
    let c = provisional_canonical_id("login", Some("python"), Some("src/auth.rs"));
    let d = provisional_canonical_id("login", Some("rust"), Some("src/other.rs"));
    assert_eq!(a, b, "same tuple must produce same id");
    assert_ne!(a, c, "language scope must disambiguate");
    assert_ne!(a, d, "file scope must disambiguate");
    assert!(a.starts_with("provisional:"));
}

#[test]
fn relative_paths_lose_their_dot() {
    let found = extract_entities("Updated ./src/main.rs with new config");
    assert!(found.iter().any(|e| e.entity_type == EntityType::File && e.name == "src/main.rs"));
    let found = extract_entities("Updated (./src/main), see ../lib/util.rs.");
    let files: Vec<&str> = found
        .iter()
        .filter(|e| e.entity_type == EntityType::File)
        .map(|e| e.name.as_str())
        .collect();
    assert_eq!(files, vec!["src/main", "../lib/util.rs"]);
}

#[test]
fn blocks_of_code_give_nothing() {
    assert!(extract_entities("```let x```").is_empty());
    let found = extract_entities("``a `b` c`` and `foo` and ``` open `bar`");
    let names: Vec<&str> = found.iter().map(|e| e.name.as_str()).collect();
    assert_eq!(names, vec!["foo", "bar"]);
}
