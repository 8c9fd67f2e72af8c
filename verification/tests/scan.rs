use rolldown::types::match_import_kind::MatchImportKind;
use rolldown::types::symbols::SymbolRef;
use rolldown::{
    BuildError, Completion, ImportKind, InputItem, InputOptions, ModuleId, Request,
    ResolvedRequestInfo, ScanEvent, ScanStage, ScanStageOutput, ScanStep, Specifier, SyntaxNode,
    SyntaxTree,
};

struct World {
    modules: Vec<(&'static str, Vec<SyntaxNode>)>,
    externals: Vec<&'static str>,
    loads: Vec<String>,
}

fn world(modules: Vec<(&'static str, Vec<SyntaxNode>)>) -> World {
    World { modules, externals: Vec::new(), loads: Vec::new() }
}

fn resolve(world: &World, specifier: &str) -> Result<ResolvedRequestInfo, BuildError> {
    if world.externals.iter().any(|e| *e == specifier) {
        return Ok(ResolvedRequestInfo {
            path: specifier.to_string(),
            is_external: true,
            side_data: Vec::new(),
        });
    }
    if world.modules.iter().any(|(path, _)| *path == specifier) {
        return Ok(ResolvedRequestInfo {
            path: specifier.to_string(),
            is_external: false,
            side_data: Vec::new(),
        });
    }
    Err(BuildError::ResolveFailed {
        specifier: specifier.to_string(),
        importer: None,
        reason: "not found".to_string(),
    })
}

fn copy_specifier(specifier: &Specifier) -> Specifier {
    match specifier {
        Specifier::Default => Specifier::Default,
        Specifier::Named(name) => Specifier::Named(name.clone()),
        Specifier::Namespace => Specifier::Namespace,
    }
}

fn copy_node(node: &SyntaxNode) -> SyntaxNode {
    match node {
        SyntaxNode::EnterBlock => SyntaxNode::EnterBlock,
        SyntaxNode::ExitBlock => SyntaxNode::ExitBlock,
        SyntaxNode::Declare { name, mutable } => {
            SyntaxNode::Declare { name: name.clone(), mutable: *mutable }
        }
        SyntaxNode::Reference { name } => SyntaxNode::Reference { name: name.clone() },
        SyntaxNode::Import { specifier, kind, imported, local } => SyntaxNode::Import {
            specifier: specifier.clone(),
            kind: *kind,
            imported: copy_specifier(imported),
            local: local.clone(),
        },
        SyntaxNode::Export { local, exported } => {
            SyntaxNode::Export { local: local.clone(), exported: exported.clone() }
        }
        SyntaxNode::ReExport { specifier, imported, exported } => SyntaxNode::ReExport {
            specifier: specifier.clone(),
            imported: copy_specifier(imported),
            exported: exported.clone(),
        },
        SyntaxNode::ExportStar { specifier } => {
            SyntaxNode::ExportStar { specifier: specifier.clone() }
        }
    }
}

fn load(world: &mut World, path: &str) -> Result<SyntaxTree, BuildError> {
    world.loads.push(path.to_string());
    if path == "rolldown:runtime" {
        return Ok(SyntaxTree { nodes: Vec::new() });
    }
    match world.modules.iter().find(|(p, _)| *p == path) {
        Some((_, nodes)) => Ok(SyntaxTree { nodes: nodes.iter().map(copy_node).collect() }),
        None => Err(BuildError::ParseFailed {
            path: path.to_string(),
            reason: "no source".to_string(),
        }),
    }
}

fn carry_out(world: &mut World, request: &Request) -> (usize, Completion) {
    match request {
        Request::Resolve { ticket, specifier, .. } => {
            (*ticket, Completion::Resolved(resolve(world, specifier)))
        }
        Request::Load { ticket, path } => (*ticket, Completion::Loaded(load(world, path))),
    }
}

fn run(world: &mut World, entries: &[&str], newest_first: bool) -> ScanStep {
    let input = entries
        .iter()
        .map(|e| InputItem { name: Some(e.to_string()), import: e.to_string() })
        .collect();
    let mut stage = ScanStage::new(InputOptions { input });
    let requests = match stage.scan(ScanEvent::Start) {
        ScanStep::ResolveEntries(requests) => requests,
        _ => panic!("the scan did not ask for the entries"),
    };
    let resolved = requests
        .iter()
        .map(|request| match request {
            Request::Resolve { specifier, .. } => resolve(world, specifier),
            Request::Load { .. } => panic!("an entry is resolved, not loaded"),
        })
        .collect();
    let mut pending: Vec<Request> = match stage.scan(ScanEvent::EntriesResolved(resolved)) {
        ScanStep::Tasks(requests) => requests,
        other => return other,
    };
    loop {
        assert!(!pending.is_empty());
        let request = if newest_first { pending.pop().unwrap() } else { pending.remove(0) };
        let (ticket, completion) = carry_out(world, &request);
        match stage.scan(ScanEvent::Completed { ticket, completion }) {
            ScanStep::Tasks(mut requests) => pending.append(&mut requests),
            other => return other,
        }
    }
}

fn finished(step: ScanStep) -> ScanStageOutput {
    match step {
        ScanStep::Finished(output) => output,
        ScanStep::Failed(errors) => panic!("the scan failed: {:?}", errors),
        _ => panic!("the scan did not finish"),
    }
}

fn import(specifier: &str, name: &str, local: &str) -> SyntaxNode {
    SyntaxNode::Import {
        specifier: specifier.to_string(),
        kind: ImportKind::Import,
        imported: Specifier::Named(name.to_string()),
        local: local.to_string(),
    }
}

fn declare(name: &str) -> SyntaxNode {
    SyntaxNode::Declare { name: name.to_string(), mutable: false }
}

fn export(name: &str) -> SyntaxNode {
    SyntaxNode::Export { local: name.to_string(), exported: name.to_string() }
}

fn paths(output: &ScanStageOutput) -> Vec<String> {
    output.module_table.modules.iter().map(|m| m.path.clone()).collect()
}

#[test]
fn cycle_terminates_with_one_edge_each_way() {
    let mut w = world(vec![
        ("a", vec![declare("x"), export("x"), import("b", "y", "y")]),
        ("b", vec![declare("y"), export("y"), import("a", "x", "x")]),
    ]);
    let output = finished(run(&mut w, &["a"], false));
    assert_eq!(paths(&output), vec!["rolldown:runtime", "a", "b"]);
    let a = &output.module_table.modules[1];
    let b = &output.module_table.modules[2];
    assert_eq!(a.dependencies().iter().map(|d| d.raw).collect::<Vec<_>>(), vec![2]);
    assert_eq!(b.dependencies().iter().map(|d| d.raw).collect::<Vec<_>>(), vec![1]);
    assert_eq!(w.loads, vec!["rolldown:runtime", "a", "b"]);
    assert!(output.warnings.is_empty());
}

fn export_star(specifier: &str) -> SyntaxNode {
    SyntaxNode::ExportStar { specifier: specifier.to_string() }
}

fn import_namespace(specifier: &str, local: &str) -> SyntaxNode {
    SyntaxNode::Import {
        specifier: specifier.to_string(),
        kind: ImportKind::Import,
        imported: Specifier::Namespace,
        local: local.to_string(),
    }
}

fn module_of(output: &ScanStageOutput, path: &str) -> usize {
    paths(output).iter().position(|p| p == path).unwrap()
}

fn symbol_named(output: &ScanStageOutput, module: usize, name: &str) -> SymbolRef {
    let symbol = output.module_table.modules[module]
        .symbols
        .iter()
        .position(|s| s.name == name)
        .unwrap();
    SymbolRef { owner: ModuleId { raw: module }, symbol }
}

fn canonical(output: &ScanStageOutput, symbol: SymbolRef) -> usize {
    let handle = output.symbols.handle(symbol).unwrap();
    output.symbols.canonical(handle)
}

fn final_name(output: &ScanStageOutput, symbol: SymbolRef) -> String {
    let handle = output.symbols.handle(symbol).unwrap();
    output.symbols.final_name(handle).clone()
}

fn diamond() -> World {
    world(vec![
        ("a", vec![import("b", "v", "b_v"), import("c", "v", "c_v")]),
        ("b", vec![import("d", "v", "v"), export("v")]),
        ("c", vec![import("d", "v", "v"), export("v")]),
        ("d", vec![declare("v"), export("v")]),
    ])
}

#[test]
fn module_ids_do_not_depend_on_completion_order() {
    let mut first = diamond();
    let mut second = diamond();
    let oldest = finished(run(&mut first, &["a"], false));
    let newest = finished(run(&mut second, &["a"], true));
    assert_eq!(paths(&oldest), vec!["rolldown:runtime", "a", "b", "c", "d"]);
    assert_eq!(paths(&oldest), paths(&newest));
    assert_ne!(first.loads, second.loads);
    for (m, record) in oldest.module_table.modules.iter().enumerate() {
        for s in 0..record.symbols.len() {
            let symbol = SymbolRef { owner: ModuleId { raw: m }, symbol: s };
            assert_eq!(canonical(&oldest, symbol), canonical(&newest, symbol));
            assert_eq!(final_name(&oldest, symbol), final_name(&newest, symbol));
        }
    }
}

#[test]
fn a_path_reached_twice_is_loaded_once() {
    let mut w = diamond();
    let output = finished(run(&mut w, &["a"], true));
    assert_eq!(w.loads.iter().filter(|p| *p == "d").count(), 1);
    assert_eq!(paths(&output).iter().filter(|p| *p == "d").count(), 1);
    let d = module_of(&output, "d");
    let b = &output.module_table.modules[module_of(&output, "b")];
    let c = &output.module_table.modules[module_of(&output, "c")];
    assert_eq!(b.resolved[0].map(|id| id.raw), Some(d));
    assert_eq!(c.resolved[0].map(|id| id.raw), Some(d));
}

#[test]
fn imports_share_the_identity_of_the_declaration() {
    let mut w = diamond();
    let output = finished(run(&mut w, &["a"], false));
    let d = module_of(&output, "d");
    let a = module_of(&output, "a");
    let declared = canonical(&output, symbol_named(&output, d, "v"));
    assert_eq!(canonical(&output, symbol_named(&output, a, "b_v")), declared);
    assert_eq!(canonical(&output, symbol_named(&output, a, "c_v")), declared);
    assert_eq!(final_name(&output, symbol_named(&output, a, "b_v")), "b_v");
    assert_eq!(final_name(&output, symbol_named(&output, d, "v")), "b_v");
}

fn star_world(second_exports_x: bool) -> World {
    let mut b = vec![declare("y"), export("y")];
    if second_exports_x {
        b.push(declare("x"));
        b.push(export("x"));
    }
    world(vec![
        (
            "main",
            vec![import("c", "x", "x"), import("c", "y", "y"), import_namespace("c", "ns")],
        ),
        ("c", vec![export_star("a"), export_star("b")]),
        ("a", vec![declare("x"), export("x")]),
        ("b", b),
    ])
}

#[test]
fn wildcard_re_exports_are_flattened() {
    let mut w = star_world(false);
    let output = finished(run(&mut w, &["main"], false));
    let main = module_of(&output, "main");
    let a = module_of(&output, "a");
    let b = module_of(&output, "b");
    let resolutions = &output.module_table.linking[main].resolutions;
    let x = symbol_named(&output, a, "x");
    let y = symbol_named(&output, b, "y");
    assert!(matches!(resolutions[0], MatchImportKind::Found(o) if o.owner.raw == a && o.symbol == x.symbol));
    assert!(matches!(resolutions[1], MatchImportKind::Found(o) if o.owner.raw == b && o.symbol == y.symbol));
    assert_eq!(canonical(&output, symbol_named(&output, main, "x")), canonical(&output, x));
    assert_eq!(canonical(&output, symbol_named(&output, main, "y")), canonical(&output, y));
    assert!(output.warnings.is_empty());
}

#[test]
fn colliding_wildcard_re_exports_are_ambiguous() {
    let mut w = star_world(true);
    let output = finished(run(&mut w, &["main"], false));
    let main = module_of(&output, "main");
    let c = module_of(&output, "c");
    let b = module_of(&output, "b");
    let linking = &output.module_table.linking[main];
    assert!(matches!(linking.resolutions[0], MatchImportKind::Ambiguous));
    assert!(matches!(linking.resolutions[1], MatchImportKind::Found(o) if o.owner.raw == b));
    assert!(matches!(linking.resolutions[2], MatchImportKind::Namespace(0)));
    assert_eq!(output.warnings.len(), 1);
    assert!(matches!(
        &output.warnings[0],
        BuildError::AmbiguousExport { importer, specifier, name }
            if importer == "main" && specifier == "c" && name == "x"
    ));
    let namespace = &linking.namespaces[0];
    assert_eq!(namespace.target.raw, c);
    let members: Vec<&str> = namespace.members.iter().map(|m| m.name.as_str()).collect();
    assert_eq!(members, vec!["y"]);
    let surface = &output.module_table.linking[c].resolved_exports;
    assert!(surface.iter().any(|e| e.name == "x" && e.ambiguous));
    assert!(surface.iter().any(|e| e.name == "y" && !e.ambiguous));
}

#[test]
fn an_external_entry_is_fatal_before_any_load() {
    let mut w = world(vec![("a", vec![])]);
    w.externals.push("lodash");
    let step = run(&mut w, &["a", "lodash"], false);
    match step {
        ScanStep::Failed(errors) => {
            assert_eq!(errors.len(), 1);
            assert!(matches!(
                &errors[0],
                BuildError::EntryCannotBeExternal { path } if path == "lodash"
            ));
        }
        _ => panic!("the scan should have failed"),
    }
    assert!(w.loads.is_empty());
}

#[test]
fn every_failing_entry_is_reported() {
    let mut w = world(vec![("a", vec![])]);
    w.externals.push("lodash");
    match run(&mut w, &["missing", "a", "lodash"], false) {
        ScanStep::Failed(errors) => {
            assert_eq!(errors.len(), 2);
            assert!(matches!(&errors[0], BuildError::ResolveFailed { specifier, .. } if specifier == "missing"));
            assert!(matches!(&errors[1], BuildError::EntryCannotBeExternal { path } if path == "lodash"));
        }
        _ => panic!("the scan should have failed"),
    }
}

#[test]
fn two_namespace_imports_share_one_object() {
    let mut w = world(vec![
        ("main", vec![import_namespace("m", "first"), import_namespace("m", "second")]),
        ("m", vec![declare("v"), export("v")]),
    ]);
    let output = finished(run(&mut w, &["main"], false));
    let main = module_of(&output, "main");
    let linking = &output.module_table.linking[main];
    assert!(matches!(linking.resolutions[0], MatchImportKind::Namespace(0)));
    assert!(matches!(linking.resolutions[1], MatchImportKind::Namespace(0)));
    assert_eq!(linking.namespaces.len(), 1);
    assert_eq!(linking.namespaces[0].members.len(), 1);
    assert_eq!(linking.namespaces[0].members[0].name, "v");
}

#[test]
fn entry_points_keep_the_order_of_the_input() {
    let mut w = world(vec![("a", vec![]), ("b", vec![]), ("c", vec![])]);
    let output = finished(run(&mut w, &["c", "a", "b", "a"], true));
    let names: Vec<Option<String>> = output.entry_points.iter().map(|e| e.name.clone()).collect();
    assert_eq!(
        names,
        vec![
            Some("c".to_string()),
            Some("a".to_string()),
            Some("b".to_string()),
            Some("a".to_string())
        ]
    );
    let ids: Vec<usize> = output.entry_points.iter().map(|e| e.id.raw).collect();
    assert_eq!(ids, vec![1, 2, 3, 2]);
    assert_eq!(output.runtime.id.raw, 0);
    assert_eq!(paths(&output), vec!["rolldown:runtime", "c", "a", "b"]);
}

#[test]
fn the_syntax_of_every_loaded_module_is_kept() {
    let mut w = world(vec![("a", vec![import("ext", "v", "v"), declare("w")])]);
    w.externals.push("ext");
    let output = finished(run(&mut w, &["a"], false));
    assert_eq!(paths(&output), vec!["rolldown:runtime", "a", "ext"]);
    assert_eq!(output.ast_table.len(), 3);
    assert_eq!(output.ast_table.syntax_tree(ModuleId { raw: 0 }).unwrap().nodes.len(), 0);
    let tree = output.ast_table.syntax_tree(ModuleId { raw: 1 }).unwrap();
    assert_eq!(tree.nodes.len(), 2);
    assert!(matches!(&tree.nodes[1], SyntaxNode::Declare { name, .. } if name == "w"));
    assert!(output.ast_table.syntax_tree(ModuleId { raw: 2 }).is_none());
    assert!(output.ast_table.syntax_tree(ModuleId { raw: 3 }).is_none());
    assert!(output.module_table.modules[2].is_external);
    assert!(matches!(
        output.module_table.linking[1].resolutions[0],
        MatchImportKind::External
    ));
    assert_eq!(w.loads, vec!["rolldown:runtime", "a"]);
}

#[test]
fn a_failed_resolution_of_an_import_is_a_warning() {
    let mut w = world(vec![("a", vec![import("missing", "v", "v"), import("b", "w", "w")]), ("b", vec![])]);
    let output = finished(run(&mut w, &["a"], false));
    assert_eq!(paths(&output), vec!["rolldown:runtime", "a", "b"]);
    assert_eq!(output.warnings.len(), 2);
    assert!(matches!(&output.warnings[0], BuildError::ResolveFailed { specifier, .. } if specifier == "missing"));
    assert!(matches!(
        &output.warnings[1],
        BuildError::UnresolvedImport { importer, specifier, name }
            if importer == "a" && specifier == "b" && name == "w"
    ));
    let resolutions = &output.module_table.linking[1].resolutions;
    assert!(matches!(resolutions[0], MatchImportKind::Unresolved));
    assert!(matches!(resolutions[1], MatchImportKind::NotFound));
}

#[test]
fn a_module_that_cannot_be_parsed_is_a_warning() {
    let mut w = world(vec![("a", vec![import("b", "v", "v")]), ("b", vec![])]);
    w.modules.pop();
    w.modules.push(("a2", vec![]));
    let mut stage = ScanStage::new(InputOptions {
        input: vec![InputItem { name: None, import: "a".to_string() }],
    });
    stage.scan(ScanEvent::Start);
    let info = ResolvedRequestInfo { path: "a".to_string(), is_external: false, side_data: vec![] };
    let mut pending = match stage.scan(ScanEvent::EntriesResolved(vec![Ok(info)])) {
        ScanStep::Tasks(requests) => requests,
        _ => panic!("loading should begin"),
    };
    let mut last = None;
    while let Some(request) = if pending.is_empty() { None } else { Some(pending.remove(0)) } {
        let (ticket, completion) = match &request {
            Request::Load { ticket, path } if path == "a" => (
                *ticket,
                Completion::Loaded(Err(BuildError::ParseFailed {
                    path: path.clone(),
                    reason: "unexpected token".to_string(),
                })),
            ),
            other => carry_out(&mut w, other),
        };
        match stage.scan(ScanEvent::Completed { ticket, completion }) {
            ScanStep::Tasks(mut requests) => pending.append(&mut requests),
            other => last = Some(other),
        }
    }
    let output = finished(last.unwrap());
    assert_eq!(paths(&output), vec!["rolldown:runtime", "a"]);
    assert_eq!(output.warnings.len(), 1);
    assert!(matches!(&output.warnings[0], BuildError::ParseFailed { path, .. } if path == "a"));
    assert!(output.ast_table.syntax_tree(ModuleId { raw: 1 }).is_none());
    assert!(output.module_table.modules[1].symbols.is_empty());
}

#[test]
fn a_plugin_error_ends_the_scan() {
    let mut stage = ScanStage::new(InputOptions {
        input: vec![InputItem { name: None, import: "a".to_string() }],
    });
    stage.scan(ScanEvent::Start);
    let info = ResolvedRequestInfo { path: "a".to_string(), is_external: false, side_data: vec![] };
    let pending = match stage.scan(ScanEvent::EntriesResolved(vec![Ok(info)])) {
        ScanStep::Tasks(requests) => requests,
        _ => panic!("loading should begin"),
    };
    assert_eq!(pending.len(), 2);
    let broken = Completion::Loaded(Err(BuildError::PluginHookError {
        hook: "load".to_string(),
        reason: "returned twice".to_string(),
    }));
    let waits = stage.scan(ScanEvent::Completed { ticket: 1, completion: broken });
    assert!(matches!(waits, ScanStep::Tasks(requests) if requests.is_empty()));
    let first = Completion::Loaded(Ok(SyntaxTree { nodes: vec![] }));
    match stage.scan(ScanEvent::Completed { ticket: 0, completion: first }) {
        ScanStep::Failed(errors) => {
            assert_eq!(errors.len(), 1);
            assert!(matches!(&errors[0], BuildError::PluginHookError { hook, .. } if hook == "load"));
        }
        _ => panic!("the scan should have failed"),
    }
    let late = Completion::Loaded(Ok(SyntaxTree { nodes: vec![] }));
    assert!(matches!(
        stage.scan(ScanEvent::Completed { ticket: 0, completion: late }),
        ScanStep::Rejected
    ));
}

#[test]
fn events_that_do_not_fit_are_rejected() {
    let mut stage = ScanStage::new(InputOptions {
        input: vec![InputItem { name: None, import: "a".to_string() }],
    });
    assert!(matches!(stage.scan(ScanEvent::EntriesResolved(vec![])), ScanStep::Rejected));
    let done = Completion::Loaded(Ok(SyntaxTree { nodes: vec![] }));
    assert!(matches!(
        stage.scan(ScanEvent::Completed { ticket: 0, completion: done }),
        ScanStep::Rejected
    ));
    match stage.scan(ScanEvent::Start) {
        ScanStep::ResolveEntries(requests) => {
            assert_eq!(requests.len(), 1);
            assert!(matches!(
                &requests[0],
                Request::Resolve { ticket: 0, specifier, importer: None, is_entry: true, kind: ImportKind::Import }
                    if specifier == "a"
            ));
        }
        _ => panic!("the scan should ask for the entries"),
    }
    assert!(matches!(stage.scan(ScanEvent::Start), ScanStep::Rejected));
    assert!(matches!(stage.scan(ScanEvent::EntriesResolved(vec![])), ScanStep::Rejected));
    let info = ResolvedRequestInfo { path: "a".to_string(), is_external: false, side_data: vec![] };
    assert!(matches!(stage.scan(ScanEvent::EntriesResolved(vec![Ok(info)])), ScanStep::Tasks(_)));
    let wrong_kind = Completion::Resolved(Err(BuildError::ResolveFailed {
        specifier: "a".to_string(),
        importer: None,
        reason: "no".to_string(),
    }));
    assert!(matches!(
        stage.scan(ScanEvent::Completed { ticket: 0, completion: wrong_kind }),
        ScanStep::Rejected
    ));
    let unknown = Completion::Loaded(Ok(SyntaxTree { nodes: vec![] }));
    assert!(matches!(
        stage.scan(ScanEvent::Completed { ticket: 7, completion: unknown }),
        ScanStep::Rejected
    ));
}

#[test]
fn colliding_top_level_names_are_renamed_by_module() {
    let mut w = world(vec![
        ("a", vec![declare("x"), import("b", "y", "y"), import("c", "z", "z")]),
        ("b", vec![declare("x"), declare("y"), export("y")]),
        (
            "c",
            vec![
                declare("x"),
                declare("z"),
                export("z"),
                SyntaxNode::EnterBlock,
                declare("x"),
                SyntaxNode::ExitBlock,
            ],
        ),
    ]);
    let output = finished(run(&mut w, &["a"], false));
    assert_eq!(paths(&output), vec!["rolldown:runtime", "a", "b", "c"]);
    let top = |module: usize| SymbolRef { owner: ModuleId { raw: module }, symbol: 0 };
    assert_eq!(final_name(&output, top(1)), "x");
    assert_eq!(final_name(&output, top(2)), "x$2");
    assert_eq!(final_name(&output, top(3)), "x$3");
    let nested = SymbolRef { owner: ModuleId { raw: 3 }, symbol: 2 };
    assert_eq!(output.module_table.modules[3].symbols[2].scope, 1);
    assert_eq!(final_name(&output, nested), "x");
    assert_eq!(final_name(&output, symbol_named(&output, 2, "y")), "y");
}
