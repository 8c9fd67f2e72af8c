use rolldown::stages::scan_stage::ScanStage;
use rolldown::{
    BuildError, Completion, InputItem, InputOptions, ModuleLoader, Request, ResolvedRequestInfo,
    SyntaxNode, SyntaxTree,
};

fn info(path: &str, is_external: bool) -> ResolvedRequestInfo {
    ResolvedRequestInfo { path: path.to_string(), is_external, side_data: Vec::new() }
}

fn importing(specifiers: &[&str]) -> SyntaxTree {
    SyntaxTree {
        nodes: specifiers
            .iter()
            .map(|s| SyntaxNode::ExportStar { specifier: s.to_string() })
            .collect(),
    }
}

fn loaded(specifiers: &[&str]) -> Completion {
    Completion::Loaded(Ok(importing(specifiers)))
}

fn resolved(path: &str) -> Completion {
    Completion::Resolved(Ok(info(path, false)))
}

#[test]
fn the_runtime_module_is_claimed_once() {
    let mut loader = ModuleLoader::new();
    assert!(loader.is_finished());
    assert!(loader.next_task().is_none());
    let first = loader.try_spawn_runtime_module_task();
    let second = loader.try_spawn_runtime_module_task();
    assert_eq!(first.raw, 0);
    assert_eq!(second.raw, 0);
    assert!(!loader.is_finished());
    assert!(matches!(
        loader.next_task(),
        Some(Request::Load { ticket: 0, path }) if path == "rolldown:runtime"
    ));
    assert!(loader.next_task().is_none());
    assert!(loader.complete(0, loaded(&[])));
    assert!(loader.is_finished());
    let output = loader.finish().unwrap();
    assert_eq!(output.module_table.modules.len(), 1);
    assert_eq!(output.runtime.id.raw, 0);
    assert!(output.runtime.helpers.is_empty());
}

#[test]
fn the_runtime_brief_lists_the_helpers() {
    let mut loader = ModuleLoader::new();
    loader.add_entries(vec![(None, info("main", false))]);
    let id = loader.try_spawn_runtime_module_task();
    assert_eq!(id.raw, 1);
    let helper = |name: &str| {
        vec![
            SyntaxNode::Declare { name: name.to_string(), mutable: false },
            SyntaxNode::Export { local: name.to_string(), exported: name.to_string() },
        ]
    };
    let mut nodes = vec![SyntaxNode::Declare { name: "hidden".to_string(), mutable: false }];
    nodes.extend(helper("__export"));
    nodes.extend(helper("__toESM"));
    assert!(loader.complete(1, Completion::Loaded(Ok(SyntaxTree { nodes }))));
    assert!(loader.complete(0, loaded(&[])));
    let output = loader.finish().unwrap();
    assert_eq!(output.runtime.id.raw, 1);
    let helpers: Vec<(&str, usize, usize)> = output
        .runtime
        .helpers
        .iter()
        .map(|h| (h.name.as_str(), h.symbol.owner.raw, h.symbol.symbol))
        .collect();
    assert_eq!(helpers, vec![("__export", 1, 1), ("__toESM", 1, 2)]);
    let found = output.runtime.resolve_symbol(&"__toESM".to_string()).unwrap();
    assert_eq!((found.owner.raw, found.symbol), (1, 2));
    assert!(output.runtime.resolve_symbol(&"__toCommonJS".to_string()).is_none());
}

#[test]
fn results_are_applied_in_the_order_of_the_tickets() {
    let mut loader = ModuleLoader::new();
    loader.try_spawn_runtime_module_task();
    loader.add_entries(vec![(None, info("a", false)), (Some("b".to_string()), info("b", false))]);
    let mut tickets = Vec::new();
    while let Some(request) = loader.next_task() {
        match request {
            Request::Load { ticket, path } => tickets.push((ticket, path)),
            Request::Resolve { .. } => panic!("nothing is loaded yet"),
        }
    }
    assert_eq!(
        tickets,
        vec![(0, "rolldown:runtime".to_string()), (1, "a".to_string()), (2, "b".to_string())]
    );
    assert!(loader.complete(2, loaded(&["x", "y"])));
    assert!(loader.next_task().is_none());
    assert!(loader.complete(1, loaded(&["y"])));
    assert!(loader.next_task().is_none());
    assert!(!loader.complete(1, loaded(&[])));
    assert!(!loader.complete(3, loaded(&[])));
    assert!(loader.complete(0, loaded(&[])));
    let mut asked = Vec::new();
    while let Some(request) = loader.next_task() {
        match request {
            Request::Resolve { ticket, specifier, importer, is_entry, .. } => {
                assert!(!is_entry);
                asked.push((ticket, specifier, importer.unwrap()));
            }
            Request::Load { .. } => panic!("no new module has been claimed"),
        }
    }
    assert_eq!(
        asked,
        vec![
            (3, "y".to_string(), "a".to_string()),
            (4, "x".to_string(), "b".to_string()),
            (5, "y".to_string(), "b".to_string())
        ]
    );
    assert!(!loader.complete(0, loaded(&[])));
    assert!(!loader.complete(3, loaded(&[])));
    assert!(loader.complete(5, resolved("y")));
    assert!(loader.complete(4, resolved("x")));
    assert!(loader.next_task().is_none());
    assert!(loader.complete(3, resolved("y")));
    let mut loads = Vec::new();
    while let Some(request) = loader.next_task() {
        match request {
            Request::Load { ticket, path } => loads.push((ticket, path)),
            Request::Resolve { .. } => panic!("every specifier has been resolved"),
        }
    }
    assert_eq!(loads, vec![(6, "y".to_string()), (7, "x".to_string())]);
    assert!(loader.complete(7, loaded(&[])));
    assert!(!loader.is_finished());
    assert!(loader.complete(6, loaded(&[])));
    assert!(loader.is_finished());
    let output = loader.finish().unwrap();
    let paths: Vec<&str> = output.module_table.modules.iter().map(|m| m.path.as_str()).collect();
    assert_eq!(paths, vec!["rolldown:runtime", "a", "b", "y", "x"]);
    let edges: Vec<Vec<Option<usize>>> = output
        .module_table
        .modules
        .iter()
        .map(|m| m.resolved.iter().map(|t| t.map(|id| id.raw)).collect())
        .collect();
    assert_eq!(
        edges,
        vec![vec![], vec![Some(3)], vec![Some(4), Some(3)], vec![], vec![]]
    );
    let entries: Vec<(Option<String>, usize)> =
        output.entry_points.iter().map(|e| (e.name.clone(), e.id.raw)).collect();
    assert_eq!(entries, vec![(None, 1), (Some("b".to_string()), 2)]);
}

#[test]
fn a_failed_scan_hands_over_its_errors() {
    let mut loader = ModuleLoader::new();
    loader.try_spawn_runtime_module_task();
    loader.add_entries(vec![(None, info("a", false))]);
    let broken = Completion::Loaded(Err(BuildError::PluginHookError {
        hook: "transform".to_string(),
        reason: "no result".to_string(),
    }));
    assert!(loader.complete(0, broken));
    assert!(loader.is_finished());
    assert!(loader.next_task().is_none());
    assert!(loader.complete(1, loaded(&["b"])));
    match loader.finish() {
        Err(errors) => {
            assert_eq!(errors.len(), 1);
            assert!(matches!(&errors[0], BuildError::PluginHookError { hook, .. } if hook == "transform"));
        }
        Ok(_) => panic!("the scan has failed"),
    }
}

#[test]
fn entries_are_paired_in_the_order_of_the_input() {
    let stage = ScanStage::new(InputOptions {
        input: vec![
            InputItem { name: Some("main".to_string()), import: "./main".to_string() },
            InputItem { name: None, import: "./other".to_string() },
        ],
    });
    let entries = stage
        .resolve_user_defined_entries(vec![Ok(info("/main.js", false)), Ok(info("/other.js", false))])
        .unwrap();
    let pairs: Vec<(Option<String>, String)> =
        entries.into_iter().map(|(name, info)| (name, info.path)).collect();
    assert_eq!(
        pairs,
        vec![(Some("main".to_string()), "/main.js".to_string()), (None, "/other.js".to_string())]
    );
    let failure = stage.resolve_user_defined_entries(vec![
        Ok(info("/main.js", false)),
        Ok(info("react", true)),
    ]);
    match failure {
        Err(errors) => {
            assert_eq!(errors.len(), 1);
            assert!(matches!(&errors[0], BuildError::EntryCannotBeExternal { path } if path == "react"));
            assert!(errors[0].is_always_fatal());
        }
        Ok(_) => panic!("an external entry is an error"),
    }
    let error = BuildError::entry_cannot_be_external("lodash");
    assert!(matches!(error, BuildError::EntryCannotBeExternal { path } if path == "lodash"));
    let warning = BuildError::ParseFailed { path: "a".to_string(), reason: "b".to_string() };
    assert!(!warning.is_always_fatal());
}
