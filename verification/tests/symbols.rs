use rolldown::renamer::{assign_names, decimal_text, fresh_name};
use rolldown::types::ast_symbols::Symbol;
use rolldown::types::symbols::{SymbolRef, Symbols};
use rolldown::ModuleId;

fn symbol(name: &str, scope: usize) -> Symbol {
    Symbol {
        name: name.to_string(),
        scope,
        import_binding: false,
        mutable: false,
        exported: false,
        placeholder: false,
    }
}

fn registry(sizes: &[usize]) -> Symbols {
    let mut symbols = Symbols::new();
    for (m, size) in sizes.iter().enumerate() {
        let table: Vec<Symbol> = (0..*size).map(|s| symbol(&format!("s{}_{}", m, s), 0)).collect();
        let id = symbols.add_module(&table);
        assert_eq!(id.raw, m);
    }
    symbols
}

fn roots(symbols: &Symbols) -> Vec<usize> {
    (0..symbols.len()).map(|h| symbols.canonical(h)).collect()
}

fn at(module: usize, symbol: usize) -> SymbolRef {
    SymbolRef { owner: ModuleId { raw: module }, symbol }
}

#[test]
fn handles_follow_the_modules() {
    let symbols = registry(&[2, 0, 3]);
    assert_eq!(symbols.len(), 5);
    assert_eq!(symbols.handle(at(0, 0)), Some(0));
    assert_eq!(symbols.handle(at(0, 1)), Some(1));
    assert_eq!(symbols.handle(at(0, 2)), None);
    assert_eq!(symbols.handle(at(1, 0)), None);
    assert_eq!(symbols.handle(at(2, 0)), Some(2));
    assert_eq!(symbols.handle(at(2, 2)), Some(4));
    assert_eq!(symbols.handle(at(3, 0)), None);
    let origin = symbols.origin(3);
    assert_eq!((origin.owner.raw, origin.symbol), (2, 1));
    assert_eq!(roots(&symbols), vec![0, 1, 2, 3, 4]);
}

#[test]
fn the_smallest_handle_is_canonical() {
    let mut symbols = registry(&[6]);
    symbols.union(5, 3);
    assert_eq!(roots(&symbols), vec![0, 1, 2, 3, 4, 3]);
    symbols.union(4, 5);
    assert_eq!(roots(&symbols), vec![0, 1, 2, 3, 3, 3]);
    symbols.union(1, 4);
    assert_eq!(roots(&symbols), vec![0, 1, 2, 1, 1, 1]);
    symbols.union(2, 0);
    assert_eq!(roots(&symbols), vec![0, 1, 0, 1, 1, 1]);
}

#[test]
fn merging_is_idempotent_and_symmetric() {
    let mut once = registry(&[4]);
    once.union(3, 1);
    let mut twice = registry(&[4]);
    twice.union(3, 1);
    twice.union(3, 1);
    twice.union(1, 3);
    assert_eq!(roots(&once), roots(&twice));
    assert_eq!(roots(&once), vec![0, 1, 2, 1]);
}

#[test]
fn merging_does_not_depend_on_the_order() {
    let pairs = [(4, 2), (2, 5), (1, 3), (5, 1), (0, 0)];
    let mut forward = registry(&[3, 3]);
    for (a, b) in pairs.iter() {
        forward.union(*a, *b);
    }
    let mut backward = registry(&[3, 3]);
    for (a, b) in pairs.iter().rev() {
        backward.union(*b, *a);
    }
    assert_eq!(roots(&forward), roots(&backward));
    assert_eq!(roots(&forward), vec![0, 1, 1, 1, 1, 1]);
}

#[test]
fn unknown_handles_are_left_alone() {
    let mut symbols = registry(&[3]);
    symbols.union(1, 3);
    symbols.union(9, 0);
    assert_eq!(roots(&symbols), vec![0, 1, 2]);
}

#[test]
fn numbers_are_written_in_decimal() {
    assert_eq!(decimal_text(0), "0");
    assert_eq!(decimal_text(7), "7");
    assert_eq!(decimal_text(10), "10");
    assert_eq!(decimal_text(1234), "1234");
    assert_eq!(decimal_text(9056781), "9056781");
}

#[test]
fn a_fresh_name_is_the_first_free_candidate() {
    let base = "x".to_string();
    assert_eq!(fresh_name(&base, 3, &vec![]), "x");
    assert_eq!(fresh_name(&base, 3, &vec!["y".to_string()]), "x");
    assert_eq!(fresh_name(&base, 3, &vec!["x".to_string()]), "x$3");
    assert_eq!(fresh_name(&base, 12, &vec!["x".to_string(), "x$3".to_string()]), "x$12");
    let used = vec!["x$3_".to_string(), "x".to_string(), "x$3".to_string()];
    assert_eq!(fresh_name(&base, 3, &used), "x$3__");
}

#[test]
fn names_are_assigned_in_order() {
    let names: Vec<String> = ["a", "b", "a", "a", "a$2", "b"].iter().map(|n| n.to_string()).collect();
    let owners = vec![0, 0, 1, 2, 3, 4];
    let eligible = vec![true, true, true, false, true, true];
    let finals = assign_names(&names, &owners, &eligible);
    assert_eq!(finals, vec!["a", "b", "a$1", "a", "a$2", "b$4"]);
}

#[test]
fn final_names_follow_the_canonical_handle() {
    let mut symbols = Symbols::new();
    symbols.add_module(&vec![symbol("v", 0), symbol("w", 0), symbol("v", 1)]);
    symbols.add_module(&vec![symbol("v", 0), symbol("w", 0)]);
    symbols.union(4, 1);
    symbols.assign_final_names();
    let names: Vec<String> = (0..symbols.len()).map(|h| symbols.final_name(h).clone()).collect();
    assert_eq!(names, vec!["v", "w", "v", "v$1", "w"]);
}

#[test]
fn a_new_table_of_syntax_trees_is_empty() {
    let table = rolldown::ast_table::AstTable::new();
    assert_eq!(table.len(), 0);
    assert!(table.syntax_tree(ModuleId { raw: 0 }).is_none());
}
