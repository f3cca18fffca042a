use pervade::graph::Graph;
use pervade::loader::ModuleLoader;
use pervade::loader::ResolvedRequestInfo;
use pervade::maps::StrMap;
use pervade::module::Module;
use pervade::scanner::ImportSpec;
use pervade::scanner::ParsedProgram;
use pervade::scanner::Scanner;
use pervade::scanner::StmtKind;
use pervade::scanner::TopStmt;
use pervade::symbols::SymbolMap;

fn resolve_spec(spec: &str) -> String {
    format!("/{}", &spec[2..])
}

fn import_stmt(src: &str, local: usize) -> TopStmt {
    TopStmt {
        kind: StmtKind::ImportDecl {
            source: src.to_string(),
            specifiers: vec![ImportSpec::Named { imported: "v".to_string(), local }],
        },
        declared: vec![local],
    }
}

fn build_graph(mods: Vec<(String, Vec<String>, Vec<TopStmt>)>, entry: &str) -> Graph {
    let mut loader = ModuleLoader::new();
    let entry_id = loader
        .add_entry(&ResolvedRequestInfo { path: entry.to_string(), is_external: false })
        .unwrap();
    while let Some((mid, rid)) = loader.next_job() {
        let path = rid.as_str().to_string();
        let idx = mods.iter().position(|m| m.0 == path).expect("unknown module path");
        let syms = mods[idx].1.clone();
        let stmts = mods[idx].2.clone();
        let mut table = SymbolMap::new();
        let mut bindings: StrMap<usize> = StrMap::new();
        for name in &syms {
            let s = table.create_symbol(name.clone());
            bindings.insert(name.clone(), s);
        }
        let mut sc = Scanner::new(mid, table, bindings, rid.unique_name());
        sc.visit_program(&ParsedProgram { stmts }).unwrap();
        let mut deps = Vec::new();
        for (i, rec) in sc.result.import_records.iter().enumerate() {
            deps.push(
                (
                    i,
                    ResolvedRequestInfo {
                        path: resolve_spec(&rec.module_request),
                        is_external: false,
                    },
                ),
            );
        }
        loader.on_task_done(mid, rid, sc.result, sc.symbol_table, deps);
    }
    let (modules, symbols) = loader.finish();
    Graph { modules, entries: vec![entry_id], sorted_modules: Vec::new(), symbols }
}

fn chain_mods() -> Vec<(String, Vec<String>, Vec<TopStmt>)> {
    vec![
        ("/c.js".to_string(), vec!["v".to_string()], vec![import_stmt("./b.js", 0)]),
        ("/b.js".to_string(), vec!["v".to_string()], vec![import_stmt("./a.js", 0)]),
        ("/a.js".to_string(), vec![], vec![TopStmt { kind: StmtKind::Other, declared: vec![] }]),
    ]
}

#[test]
fn test_dependencies_run_first() {
    // c.js -> b.js -> a.js: every dependency is ordered before its
    // dependent
    let mut graph = build_graph(chain_mods(), "/c.js");
    graph.sort_modules();
    // discovery order: c = 0, b = 1, a = 2; execution order: a, b, c
    assert_eq!(graph.sorted_modules, vec![2, 1, 0]);
    assert_eq!(graph.modules[2].exec_order(), 0);
    assert_eq!(graph.modules[1].exec_order(), 1);
    assert_eq!(graph.modules[0].exec_order(), 2);
}

#[test]
fn test_sort_modules_deterministic() {
    // two builds from the same file set and entry list produce the
    // same execution order
    let mut g1 = build_graph(chain_mods(), "/c.js");
    let mut g2 = build_graph(chain_mods(), "/c.js");
    g1.sort_modules();
    g2.sort_modules();
    assert_eq!(g1.sorted_modules, g2.sorted_modules);
}

#[test]
fn test_cycle_sorts_each_module_once() {
    // a.js -> b.js -> a.js: the traversal terminates and assigns each
    // module exactly one execution order
    let mods = vec![
        ("/a.js".to_string(), vec!["v".to_string()], vec![import_stmt("./b.js", 0)]),
        ("/b.js".to_string(), vec!["v".to_string()], vec![import_stmt("./a.js", 0)]),
    ];
    let mut graph = build_graph(mods, "/a.js");
    graph.sort_modules();
    assert_eq!(graph.sorted_modules.len(), 2);
    let mut seen = graph.sorted_modules.clone();
    seen.sort();
    assert_eq!(seen, vec![0, 1]);
    // orders are the positions in the sorted list
    for (pos, id) in graph.sorted_modules.iter().enumerate() {
        assert_eq!(graph.modules[*id].exec_order() as usize, pos);
    }
}

#[test]
fn test_diamond_is_ordered_once() {
    // c.js imports a.js and b.js; both import d.js: d is ordered once,
    // before a and b
    let mods = vec![
        (
            "/c.js".to_string(),
            vec!["va".to_string(), "vb".to_string()],
            vec![import_stmt("./a.js", 0), import_stmt("./b.js", 1)],
        ),
        ("/a.js".to_string(), vec!["v".to_string()], vec![import_stmt("./d.js", 0)]),
        ("/b.js".to_string(), vec!["v".to_string()], vec![import_stmt("./d.js", 0)]),
        ("/d.js".to_string(), vec![], vec![TopStmt { kind: StmtKind::Other, declared: vec![] }]),
    ];
    let mut graph = build_graph(mods, "/c.js");
    graph.sort_modules();
    assert_eq!(graph.sorted_modules.len(), 4);
    let d_id = 3;
    let order_of = |id: usize| graph
        .sorted_modules
        .iter()
        .position(|m| *m == id)
        .unwrap();
    assert!(order_of(d_id) < order_of(1));
    assert!(order_of(d_id) < order_of(2));
    assert!(order_of(1) < order_of(0));
    assert!(order_of(2) < order_of(0));
    // left-to-right priority: a.js (first import) runs before b.js
    assert!(order_of(1) < order_of(2));
    match &graph.modules[d_id] {
        Module::Normal(d) => assert_eq!(d.resource_id.as_str(), "/d.js"),
        Module::External(_) => panic!("d.js must be normal"),
    }
}
