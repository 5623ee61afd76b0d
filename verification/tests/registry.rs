use axil_core::db::info::{EngineFacts, COMPANIONS};
use axil_core::db::registry::{
    companion_path, drop_engine_companion, is_valid_space_name, prefix_overlaps,
    resolve_engine_suffix, ExtensionRegistry, RegisteredExtension,
};
use axil_core::db::Axil;
use axil_core::error::AxilError;

fn ext(id: &str, prefixes: &[&str]) -> RegisteredExtension {
    RegisteredExtension {
        id: id.to_string(),
        prefixes: prefixes.iter().map(|p| p.to_string()).collect(),
    }
}

#[test]
fn extensions_empty_by_default() {
    assert!(ExtensionRegistry::new().extensions.is_empty());
}

#[test]
fn register_extension_post_build() {
    let mut db = ExtensionRegistry::new();
    assert!(db.extensions.is_empty());

    db.register_extension(ext("rt", &["_rt_"])).unwrap();
    assert_eq!(db.extensions.len(), 1);
    assert_eq!(db.extensions[0].id, "rt");

    let dup = db.register_extension(ext("rt", &["_other_"]));
    assert!(dup.is_err());

    let overlap = db.register_extension(ext("rt2", &["_rt_sub"]));
    assert!(overlap.is_err());
    assert_eq!(db.extensions.len(), 1);
}

#[test]
fn refusals_say_what_stands_in_the_way() {
    let mut db = ExtensionRegistry::new();
    db.register_extension(ext("a", &["_a_"])).unwrap();
    let text = |r: Result<(), AxilError>| r.unwrap_err().message();
    assert!(text(db.register_extension(ext("a", &[]))).contains("`a` is already registered"));
    assert!(text(db.register_extension(ext("b", &["_a_x"]))).contains(
        "extension `b` table prefix `_a_x` overlaps with existing extension `a` prefix `_a_`"
    ));
    assert!(text(db.register_extension(ext("c", &["_scip_more"]))).contains(
        "is reserved by Axil core/engines (overlaps `_scip_`) — choose a distinct, more specific prefix"
    ));
}

#[test]
fn with_extension_registers() {
    let mut db = ExtensionRegistry::new();
    db.with_extension(ext("stub", &["_stub_"]));
    assert_eq!(db.extensions.len(), 1);
    assert_eq!(db.extensions[0].id, "stub");
    assert_eq!(db.extensions[0].prefixes, vec!["_stub_"]);
}

#[test]
fn with_extension_two_disjoint() {
    let mut db = ExtensionRegistry::new();
    db.with_extension(ext("alpha", &["_alpha_"]));
    db.with_extension(ext("beta", &["_beta_"]));
    assert_eq!(db.extensions.len(), 2);
}

#[test]
fn prefix_overlaps_helper() {
    assert!(prefix_overlaps("_dep_", "_dep_"));
    assert!(prefix_overlaps("_dep_", "_dep_docs"));
    assert!(prefix_overlaps("_dep_docs", "_dep_"));
    assert!(prefix_overlaps("_dep_", "_d"));
    assert!(prefix_overlaps("_d", "_dep_"));
    assert!(!prefix_overlaps("_dep_", "_scip_"));
    assert!(!prefix_overlaps("_dep_", "_idx_"));
}

#[test]
fn engines_are_known_by_role_and_suffix() {
    assert_eq!(resolve_engine_suffix("graph"), Some(("graph", ".graph")));
    assert_eq!(resolve_engine_suffix(".ts"), Some(("timeseries", ".ts")));
    assert_eq!(resolve_engine_suffix("vec"), resolve_engine_suffix("vector"));
    assert_eq!(resolve_engine_suffix(".vec"), Some(("vector", ".vec")));
    assert_eq!(resolve_engine_suffix("fts"), Some(("fts", ".fts")));
    assert_eq!(resolve_engine_suffix("bogus"), None);
    assert_eq!(resolve_engine_suffix("..vec"), None);
    assert_eq!(resolve_engine_suffix(".vector"), None);
    let report = drop_engine_companion("/tmp/m.axil", ".graph").unwrap();
    assert_eq!(report.engine, "graph");
    assert_eq!(report.suffix, ".graph");
    assert_eq!(report.path, companion_path("/tmp/m.axil", ".graph"));
    assert!(drop_engine_companion("/tmp/m.axil", "bogus").is_err());
}

#[test]
fn space_names_are_plain() {
    assert!(is_valid_space_name("a-z_09"));
    assert!(!is_valid_space_name(""));
    assert!(!is_valid_space_name("A"));
    assert!(!is_valid_space_name(&"a".repeat(33)));
}

#[test]
fn files_are_listed_with_their_roles() {
    let files = Axil::files_with_roles("m.axil", 10, &vec![Some(5), None, None, Some(7)]);
    assert_eq!(COMPANIONS, 4);
    let shown: Vec<(&str, &str, u64)> =
        files.iter().map(|f| (f.path.as_str(), f.role.as_str(), f.size)).collect();
    assert_eq!(
        shown,
        vec![("m.axil", "core", 10), ("m.axil.vec", "vector", 5), ("m.axil.fts", "fts", 7)]
    );
    let facts = EngineFacts { vector: Some((3, 4)), graph: true, timeseries: None, fts: true };
    let info = Axil::info("m.axil", files, 9, vec![("notes".to_string(), 9)], facts);
    assert_eq!(info.total_size, 22);
    assert_eq!(info.plugins.get("vector").unwrap().get_u64("dimensions"), Some(4));
    assert!(info.plugins.get("graph").unwrap().flag("enabled"));
    assert!(info.plugins.get("timeseries").is_none());
}

#[test]
fn opening_migrates_once() {
    assert!(Axil::migrates_on_open(false, true, false));
    assert!(!Axil::migrates_on_open(true, true, false));
    assert!(!Axil::migrates_on_open(false, false, false));
    assert!(!Axil::migrates_on_open(false, true, true));
}
