use axil_core::extension::{
    CliArg, CliInvocation, CliSubcommand, CliSurface, Dispatch, Extension, Hit, McpCall, McpSurface,
    McpTool, RefreshOpts, RefreshReport,
};
use axil_core::db::Axil;
use axil_core::json::Value;

/// A minimal Extension impl to verify the trait surface compiles
/// with only `id()` overridden.
struct Minimal;

impl Extension for Minimal {
    fn id(&self) -> &str {
        "minimal"
    }
}

#[test]
fn minimal_extension_defaults() {
    let ext = Minimal;
    assert_eq!(ext.id(), "minimal");
    assert_eq!(ext.display_name(), "minimal");
    assert!(ext.table_prefixes().is_empty());
    assert!(ext.cli_commands().is_none());
    assert!(ext.mcp_tools().is_none());
}

/// An extension with a name of its own.
struct Named;

impl Extension for Named {
    fn id(&self) -> &str {
        "named"
    }

    fn display_name(&self) -> &str {
        "A Name"
    }
}

#[test]
fn shown_names_are_ids_unless_given() {
    assert_eq!(Minimal.display_name(), Minimal.id());
    assert_eq!(Named.display_name(), "A Name");
}

#[test]
fn refresh_report_default() {
    let r = RefreshReport::default();
    assert_eq!(r.inspected, 0);
    assert_eq!(r.stale, 0);
    assert_eq!(r.refreshed, 0);
    assert!(r.details.is_empty());
}

#[test]
fn surface_builders_compose() {
    // The #[non_exhaustive] constructors must reproduce the same
    // shape an external Extension would build by hand.
    let surface = CliSurface::new("deps", "dependency docs").subcommand(
        CliSubcommand::new("sync", "sync deps").arg(
            CliArg::new("path", "project path")
                .required(false)
                .takes_value(true),
        ),
    );
    assert_eq!(surface.command, "deps");
    assert_eq!(surface.subcommands.len(), 1);
    assert_eq!(surface.subcommands[0].name, "sync");
    assert_eq!(surface.subcommands[0].args.len(), 1);
    assert!(surface.subcommands[0].args[0].takes_value);
    assert!(!surface.subcommands[0].args[0].required);

    let mut schema = Value::object();
    schema.set("type", Value::text("object"));
    let mcp = McpSurface::new(vec![McpTool::new(
        "dep_docs",
        "search dep docs",
        schema,
    )]);
    assert_eq!(mcp.tools.len(), 1);
    assert_eq!(mcp.tools[0].name, "dep_docs");

    let hit = Hit::new("_dep_docs", "01ABC", 0.9f32.to_bits()).with_summary("serde derive");
    assert_eq!(hit.table, "_dep_docs");
    assert_eq!(hit.summary.as_deref(), Some("serde derive"));

    let opts = RefreshOpts::new().if_stale(true);
    assert!(opts.if_stale);

    let report = RefreshReport::default()
        .with_counts(3, 1, 1)
        .detail("refreshed serde");
    assert_eq!(report.inspected, 3);
    assert_eq!(report.details.len(), 1);
}

// ---- dispatch contract ----

#[test]
fn dispatch_helpers() {
    let h: Dispatch<i32> = Dispatch::Handled(42);
    let n: Dispatch<i32> = Dispatch::NotHandled;
    assert!(h.is_handled());
    assert!(!n.is_handled());
    assert_eq!(h.handled(), Some(42));
    assert_eq!(n.handled(), None);
}

#[test]
fn dispatch_equality() {
    assert_eq!(Dispatch::<i32>::NotHandled, Dispatch::<i32>::NotHandled);
    assert_eq!(Dispatch::Handled(1), Dispatch::Handled(1));
    assert_ne!(Dispatch::Handled(1), Dispatch::Handled(2));
    assert_ne!(Dispatch::Handled(1), Dispatch::NotHandled);
}

#[test]
fn default_handle_methods_decline() {
    let ext = Minimal;
    let inv = CliInvocation::new(vec!["x".to_string()], vec![], None);
    let call = McpCall::new("x", Value::Null);
    let db = Axil {
        vector_index: false,
        embedder: false,
        graph_index: false,
        timeseries_index: false,
        fts_index: false,
        audit_enabled: false,
    };
    match ext.handle_cli(&db, &inv).unwrap() {
        Dispatch::NotHandled => (),
        Dispatch::Handled(_) => panic!("default impl should decline"),
    }
    match ext.handle_mcp(&db, &call).unwrap() {
        Dispatch::NotHandled => (),
        Dispatch::Handled(_) => panic!("default impl should decline"),
    }
}
