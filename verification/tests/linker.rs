use rolldown::ast_scanner::scan_module;
use rolldown::link_graph::link_modules;
use rolldown::linker::exports::{is_default, resolve_exports};
use rolldown::types::match_import_kind::MatchImportKind;
use rolldown::types::module_table::ModuleRecord;
use rolldown::types::namespace_alias::{namespace_for, NamespaceAlias};
use rolldown::types::linking_metadata::ResolvedExport;
use rolldown::types::symbols::SymbolRef;
use rolldown::{BuildError, ImportKind, ModuleId, Specifier, SyntaxNode, SyntaxTree};

fn declare(name: &str) -> SyntaxNode {
    SyntaxNode::Declare { name: name.to_string(), mutable: false }
}

fn export_as(local: &str, exported: &str) -> SyntaxNode {
    SyntaxNode::Export { local: local.to_string(), exported: exported.to_string() }
}

fn star(specifier: &str) -> SyntaxNode {
    SyntaxNode::ExportStar { specifier: specifier.to_string() }
}

fn record(path: &str, nodes: Vec<SyntaxNode>, targets: Vec<Option<usize>>) -> ModuleRecord {
    let analysis = scan_module(&SyntaxTree { nodes });
    assert_eq!(analysis.import_records.len(), targets.len());
    ModuleRecord {
        path: path.to_string(),
        is_external: false,
        scopes: analysis.scopes,
        symbols: analysis.symbols,
        references: analysis.references,
        bindings: analysis.bindings,
        import_records: analysis.import_records,
        resolved: targets.into_iter().map(|t| t.map(|raw| ModuleId { raw })).collect(),
        named_imports: analysis.named_imports,
        named_exports: analysis.named_exports,
        star_exports: analysis.star_exports,
    }
}

fn surface(modules: &Vec<ModuleRecord>, module: usize) -> Vec<(String, usize, usize, bool)> {
    resolve_exports(modules, module)
        .into_iter()
        .map(|e| (e.name, e.origin.owner.raw, e.origin.symbol, e.ambiguous))
        .collect()
}

fn entry(name: &str, owner: usize, symbol: usize, ambiguous: bool) -> (String, usize, usize, bool) {
    (name.to_string(), owner, symbol, ambiguous)
}

#[test]
fn an_own_export_hides_a_wildcard() {
    let modules = vec![
        record("top", vec![declare("x"), export_as("x", "x"), star("low")], vec![Some(1)]),
        record(
            "low",
            vec![declare("x"), export_as("x", "x"), declare("y"), export_as("y", "y")],
            vec![],
        ),
    ];
    assert_eq!(surface(&modules, 0), vec![entry("x", 0, 0, false), entry("y", 1, 1, false)]);
    assert_eq!(surface(&modules, 1), vec![entry("x", 1, 0, false), entry("y", 1, 1, false)]);
}

#[test]
fn a_wildcard_does_not_carry_the_default_export() {
    let modules = vec![
        record("top", vec![star("low")], vec![Some(1)]),
        record(
            "low",
            vec![declare("main"), export_as("main", "default"), export_as("main", "named")],
            vec![],
        ),
    ];
    assert_eq!(surface(&modules, 0), vec![entry("named", 1, 0, false)]);
    assert_eq!(
        surface(&modules, 1),
        vec![entry("default", 1, 0, false), entry("named", 1, 0, false)]
    );
    assert!(is_default(&"default".to_string()));
    assert!(!is_default(&"Default".to_string()));
}

#[test]
fn wildcards_in_a_circle_end() {
    let modules = vec![
        record("a", vec![declare("x"), export_as("x", "x"), star("b")], vec![Some(1)]),
        record("b", vec![declare("y"), export_as("y", "y"), star("a")], vec![Some(0)]),
    ];
    assert_eq!(surface(&modules, 0), vec![entry("x", 0, 0, false), entry("y", 1, 0, false)]);
    assert_eq!(surface(&modules, 1), vec![entry("y", 1, 0, false), entry("x", 0, 0, false)]);
}

#[test]
fn one_declaration_reached_twice_is_not_ambiguous() {
    let modules = vec![
        record("top", vec![star("left"), star("right")], vec![Some(1), Some(2)]),
        record("left", vec![star("base")], vec![Some(3)]),
        record("right", vec![star("base")], vec![Some(3)]),
        record("base", vec![declare("v"), export_as("v", "v")], vec![]),
    ];
    assert_eq!(surface(&modules, 0), vec![entry("v", 3, 0, false)]);
}

#[test]
fn a_wildcard_that_did_not_resolve_adds_nothing() {
    let modules = vec![
        record("top", vec![star("missing"), declare("x"), export_as("x", "x")], vec![None]),
    ];
    assert_eq!(surface(&modules, 0), vec![entry("x", 0, 0, false)]);
}

#[test]
fn two_declarations_under_one_name_are_ambiguous() {
    let modules = vec![
        record("top", vec![star("left"), star("right")], vec![Some(1), Some(2)]),
        record("left", vec![declare("v"), export_as("v", "v")], vec![]),
        record("right", vec![declare("w"), declare("v"), export_as("v", "v")], vec![]),
    ];
    assert_eq!(surface(&modules, 0), vec![entry("v", 1, 0, true)]);
}

#[test]
fn names_come_in_the_order_of_the_walk() {
    let modules = vec![
        record(
            "top",
            vec![star("left"), declare("t"), export_as("t", "t"), star("right")],
            vec![Some(1), Some(2)],
        ),
        record(
            "left",
            vec![declare("l"), export_as("l", "l"), star("base"), export_as("l", "t")],
            vec![Some(3)],
        ),
        record("right", vec![declare("r"), export_as("r", "r"), star("base")], vec![Some(3)]),
        record("base", vec![declare("b"), export_as("b", "b"), export_as("b", "r")], vec![]),
    ];
    assert_eq!(
        surface(&modules, 0),
        vec![
            entry("t", 0, 0, false),
            entry("l", 1, 0, false),
            entry("b", 3, 0, false),
            entry("r", 3, 0, true),
        ]
    );
    assert_eq!(
        surface(&modules, 2),
        vec![entry("r", 2, 0, false), entry("b", 3, 0, false)]
    );
}

fn import(specifier: &str, kind: ImportKind, imported: Specifier, local: &str) -> SyntaxNode {
    SyntaxNode::Import {
        specifier: specifier.to_string(),
        kind,
        imported,
        local: local.to_string(),
    }
}

#[test]
fn imports_are_matched_by_kind() {
    let modules = vec![
        record(
            "main",
            vec![
                import("lib", ImportKind::Import, Specifier::Default, "d"),
                import("lib", ImportKind::Import, Specifier::Named("n".to_string()), "n"),
                import("lib", ImportKind::Import, Specifier::Namespace, "all"),
                import("lib", ImportKind::Require, Specifier::Named("n".to_string()), "object"),
                import("lib", ImportKind::Import, Specifier::Named("none".to_string()), "none"),
                import("other", ImportKind::DynamicImport, Specifier::Default, "lazy"),
            ],
            vec![Some(1), Some(1), Some(1), Some(1), Some(1), Some(2)],
        ),
        record(
            "lib",
            vec![declare("a"), export_as("a", "default"), declare("b"), export_as("b", "n")],
            vec![],
        ),
        record("other", vec![], vec![]),
    ];
    let output = link_modules(modules);
    let linking = &output.module_table.linking[0];
    assert_eq!(linking.resolutions.len(), 6);
    assert!(matches!(linking.resolutions[0], MatchImportKind::Found(SymbolRef { owner, symbol: 0 }) if owner.raw == 1));
    assert!(matches!(linking.resolutions[1], MatchImportKind::Found(SymbolRef { owner, symbol: 1 }) if owner.raw == 1));
    assert!(matches!(linking.resolutions[2], MatchImportKind::Namespace(0)));
    assert!(matches!(linking.resolutions[3], MatchImportKind::Namespace(0)));
    assert!(matches!(linking.resolutions[4], MatchImportKind::NotFound));
    assert!(matches!(linking.resolutions[5], MatchImportKind::Namespace(1)));
    let targets: Vec<usize> = linking.namespaces.iter().map(|n| n.target.raw).collect();
    assert_eq!(targets, vec![1, 2]);
    let members: Vec<&str> = linking.namespaces[0].members.iter().map(|m| m.name.as_str()).collect();
    assert_eq!(members, vec!["default", "n"]);
    assert!(linking.namespaces[1].members.is_empty());
    assert_eq!(output.warnings.len(), 1);
    assert!(matches!(
        &output.warnings[0],
        BuildError::UnresolvedImport { importer, specifier, name }
            if importer == "main" && specifier == "lib" && name == "none"
    ));
    let handle = |module: usize, symbol: usize| {
        output.symbols.handle(SymbolRef { owner: ModuleId { raw: module }, symbol }).unwrap()
    };
    assert_eq!(output.symbols.canonical(handle(1, 0)), handle(0, 0));
    assert_eq!(output.symbols.canonical(handle(1, 1)), handle(0, 1));
    assert_eq!(output.symbols.canonical(handle(0, 4)), handle(0, 4));
    assert_eq!(output.symbols.final_name(handle(1, 0)), "d");
}

#[test]
fn a_namespace_object_is_made_once() {
    let surface = vec![
        ResolvedExport {
            name: "a".to_string(),
            origin: SymbolRef { owner: ModuleId { raw: 4 }, symbol: 2 },
            ambiguous: false,
        },
        ResolvedExport {
            name: "b".to_string(),
            origin: SymbolRef { owner: ModuleId { raw: 5 }, symbol: 0 },
            ambiguous: true,
        },
    ];
    let mut namespaces: Vec<NamespaceAlias> = Vec::new();
    assert_eq!(namespace_for(&mut namespaces, ModuleId { raw: 4 }, &surface), 0);
    assert_eq!(namespace_for(&mut namespaces, ModuleId { raw: 7 }, &Vec::new()), 1);
    assert_eq!(namespace_for(&mut namespaces, ModuleId { raw: 4 }, &Vec::new()), 0);
    assert_eq!(namespace_for(&mut namespaces, ModuleId { raw: 7 }, &surface), 1);
    assert_eq!(namespaces.len(), 2);
    assert_eq!(namespaces[0].members.len(), 1);
    assert_eq!(namespaces[0].members[0].name, "a");
    assert_eq!(namespaces[0].members[0].symbol.symbol, 2);
    assert!(namespaces[1].members.is_empty());
}

#[test]
fn dependencies_are_listed_once() {
    let module = record(
        "main",
        vec![
            import("a", ImportKind::Import, Specifier::Default, "a"),
            import("b", ImportKind::Import, Specifier::Default, "b"),
            import("a", ImportKind::Import, Specifier::Namespace, "again"),
            import("c", ImportKind::Import, Specifier::Default, "c"),
        ],
        vec![Some(3), Some(1), Some(3), None],
    );
    let raw: Vec<usize> = module.dependencies().iter().map(|d| d.raw).collect();
    assert_eq!(raw, vec![3, 1]);
}
