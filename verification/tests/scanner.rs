use rolldown::ast_scanner::scan_module;
use rolldown::types::ast_scope::resolve_reference;
use rolldown::{ImportKind, Specifier, SyntaxNode, SyntaxTree};

fn declare(name: &str) -> SyntaxNode {
    SyntaxNode::Declare { name: name.to_string(), mutable: true }
}

fn reference(name: &str) -> SyntaxNode {
    SyntaxNode::Reference { name: name.to_string() }
}

fn tree(nodes: Vec<SyntaxNode>) -> SyntaxTree {
    SyntaxTree { nodes }
}

#[test]
fn blocks_make_a_tree_of_scopes() {
    let analysis = scan_module(&tree(vec![
        SyntaxNode::EnterBlock,
        SyntaxNode::EnterBlock,
        SyntaxNode::ExitBlock,
        SyntaxNode::EnterBlock,
        SyntaxNode::ExitBlock,
        SyntaxNode::ExitBlock,
        SyntaxNode::ExitBlock,
        SyntaxNode::EnterBlock,
        declare("inner"),
    ]));
    let parents: Vec<Option<usize>> = analysis.scopes.iter().map(|s| s.parent).collect();
    assert_eq!(parents, vec![None, Some(0), Some(1), Some(1), Some(0)]);
    assert_eq!(analysis.symbols.len(), 1);
    assert_eq!(analysis.symbols[0].scope, 4);
}

#[test]
fn a_name_is_declared_once_in_a_scope() {
    let analysis = scan_module(&tree(vec![
        declare("x"),
        declare("x"),
        SyntaxNode::EnterBlock,
        declare("x"),
        declare("y"),
        declare("x"),
    ]));
    let declared: Vec<(String, usize)> =
        analysis.symbols.iter().map(|s| (s.name.clone(), s.scope)).collect();
    assert_eq!(
        declared,
        vec![("x".to_string(), 0), ("x".to_string(), 1), ("y".to_string(), 1)]
    );
    assert!(analysis.symbols.iter().all(|s| s.mutable && !s.import_binding && !s.exported));
}

#[test]
fn references_resolve_to_the_nearest_declaration() {
    let analysis = scan_module(&tree(vec![
        declare("x"),
        declare("y"),
        reference("late"),
        SyntaxNode::EnterBlock,
        reference("x"),
        declare("x"),
        reference("x"),
        reference("y"),
        reference("nowhere"),
        SyntaxNode::ExitBlock,
        reference("x"),
        declare("late"),
    ]));
    let scopes: Vec<usize> = analysis.references.iter().map(|r| r.scope).collect();
    assert_eq!(scopes, vec![0, 1, 1, 1, 1, 0]);
    assert_eq!(analysis.bindings, vec![Some(3), Some(2), Some(2), Some(1), None, Some(0)]);
    let name = "y".to_string();
    assert_eq!(resolve_reference(&analysis.scopes, &analysis.symbols, 1, &name), Some(1));
    assert_eq!(resolve_reference(&analysis.scopes, &analysis.symbols, 0, &"q".to_string()), None);
}

#[test]
fn imports_bind_symbols_and_add_records() {
    let analysis = scan_module(&tree(vec![
        SyntaxNode::Import {
            specifier: "./a".to_string(),
            kind: ImportKind::Import,
            imported: Specifier::Default,
            local: "a".to_string(),
        },
        SyntaxNode::Import {
            specifier: "./a".to_string(),
            kind: ImportKind::Import,
            imported: Specifier::Named("v".to_string()),
            local: "w".to_string(),
        },
        SyntaxNode::EnterBlock,
        SyntaxNode::Import {
            specifier: "fs".to_string(),
            kind: ImportKind::Require,
            imported: Specifier::Namespace,
            local: "fs".to_string(),
        },
    ]));
    let records: Vec<(&str, ImportKind)> =
        analysis.import_records.iter().map(|r| (r.specifier.as_str(), r.kind)).collect();
    assert_eq!(
        records,
        vec![("./a", ImportKind::Import), ("./a", ImportKind::Import), ("fs", ImportKind::Require)]
    );
    let imports: Vec<(usize, usize)> =
        analysis.named_imports.iter().map(|i| (i.record, i.local)).collect();
    assert_eq!(imports, vec![(0, 0), (1, 1), (2, 2)]);
    assert!(matches!(analysis.named_imports[0].imported, Specifier::Default));
    assert!(matches!(&analysis.named_imports[1].imported, Specifier::Named(n) if n == "v"));
    assert!(analysis.symbols.iter().all(|s| s.import_binding && !s.placeholder));
    assert_eq!(analysis.symbols[2].scope, 1);
    assert_eq!(analysis.symbols[1].name, "w");
}

#[test]
fn exports_mark_symbols_or_make_placeholders() {
    let analysis = scan_module(&tree(vec![
        declare("x"),
        SyntaxNode::Export { local: "x".to_string(), exported: "default".to_string() },
        SyntaxNode::Export { local: "gone".to_string(), exported: "g".to_string() },
        SyntaxNode::ReExport {
            specifier: "./b".to_string(),
            imported: Specifier::Named("inner".to_string()),
            exported: "outer".to_string(),
        },
        SyntaxNode::ExportStar { specifier: "./c".to_string() },
        reference("outer"),
        reference("gone"),
    ]));
    assert!(analysis.symbols[0].exported && !analysis.symbols[0].placeholder);
    assert_eq!(analysis.symbols[1].name, "gone");
    assert!(analysis.symbols[1].exported && analysis.symbols[1].placeholder);
    assert!(!analysis.symbols[1].import_binding);
    assert_eq!(analysis.symbols[2].name, "outer");
    assert!(analysis.symbols[2].placeholder && analysis.symbols[2].import_binding);
    let exports: Vec<(&str, usize)> =
        analysis.named_exports.iter().map(|e| (e.name.as_str(), e.symbol)).collect();
    assert_eq!(exports, vec![("default", 0), ("g", 1), ("outer", 2)]);
    assert_eq!(analysis.named_imports.len(), 1);
    assert_eq!((analysis.named_imports[0].record, analysis.named_imports[0].local), (0, 2));
    assert_eq!(analysis.star_exports, vec![1]);
    assert_eq!(analysis.import_records.len(), 2);
    assert_eq!(analysis.bindings, vec![None, None]);
}

#[test]
fn static_imports_bind_in_the_outermost_scope() {
    let analysis = scan_module(&tree(vec![
        SyntaxNode::EnterBlock,
        SyntaxNode::Import {
            specifier: "./a".to_string(),
            kind: ImportKind::Import,
            imported: Specifier::Named("v".to_string()),
            local: "v".to_string(),
        },
        SyntaxNode::Import {
            specifier: "./b".to_string(),
            kind: ImportKind::DynamicImport,
            imported: Specifier::Namespace,
            local: "lazy".to_string(),
        },
        reference("v"),
        SyntaxNode::ExitBlock,
        reference("lazy"),
        declare("v"),
    ]));
    let bound: Vec<(&str, usize)> =
        analysis.symbols.iter().map(|s| (s.name.as_str(), s.scope)).collect();
    assert_eq!(bound, vec![("v", 0), ("lazy", 1)]);
    assert_eq!(analysis.bindings, vec![Some(0), None]);
}
