use pervade::error::Error;
use pervade::graph::Graph;
use pervade::ids::SymbolRef;
use pervade::linker::Linker;
use pervade::loader::ModuleLoader;
use pervade::loader::ResolvedRequestInfo;
use pervade::maps::StrMap;
use pervade::module::Module;
use pervade::module::Resolution;
use pervade::scanner::ExportNamedSpec;
use pervade::scanner::ExportedDecl;
use pervade::scanner::ImportSpec;
use pervade::scanner::ParsedProgram;
use pervade::scanner::Scanner;
use pervade::scanner::StmtKind;
use pervade::scanner::TopStmt;
use pervade::symbols::SymbolMap;

fn resolve_spec(spec: &str) -> String {
    // `./a.js` resolves to `/a.js`
    format!("/{}", &spec[2..])
}

fn build_graph(mods: Vec<(String, Vec<String>, Vec<TopStmt>)>, entry: &str) -> Graph {
    let mut loader = ModuleLoader::new();
    let entry_id = loader
        .add_entry(&ResolvedRequestInfo { path: entry.to_string(), is_external: false })
        .unwrap();
    while let Some((mid, rid)) = loader.next_job() {
        let path = rid.as_str().to_string();
        let idx = mods.iter().position(|m| m.0 == path).expect("unknown module path");
        let syms = mods[idx].1.clone();
        let stmts = mods[idx].2.clone();
        let mut table = SymbolMap::new();
        let mut bindings: StrMap<usize> = StrMap::new();
        for name in &syms {
            let s = table.create_symbol(name.clone());
            bindings.insert(name.clone(), s);
        }
        let unique = rid.unique_name();
        let mut sc = Scanner::new(mid, table, bindings, unique);
        let program = ParsedProgram { stmts };
        sc.visit_program(&program).unwrap();
        let mut deps = Vec::new();
        for (i, rec) in sc.result.import_records.iter().enumerate() {
            deps.push(
                (
                    i,
                    ResolvedRequestInfo {
                        path: resolve_spec(&rec.module_request),
                        is_external: false,
                    },
                ),
            );
        }
        loader.on_task_done(mid, rid, sc.result, sc.symbol_table, deps);
    }
    let (modules, symbols) = loader.finish();
    Graph { modules, entries: vec![entry_id], sorted_modules: Vec::new(), symbols }
}

fn var_export(name: &str, sym: usize) -> TopStmt {
    TopStmt {
        kind: StmtKind::ExportNamedDecl {
            source: None,
            specifiers: vec![],
            declaration: Some(ExportedDecl::VarDecl {
                bindings: vec![(name.to_string(), sym)],
            }),
        },
        declared: vec![sym],
    }
}

#[test]
fn test_round_trip_re_export_collapses() {
    // a.js exports `const x = 1`; b.js has `export {x} from './a.js'`;
    // c.js imports {x} from './b.js'. The import must collapse to a's
    // own binding, not b's.
    let mods = vec![
        (
            "/c.js".to_string(),
            vec!["x".to_string()],
            vec![TopStmt {
                kind: StmtKind::ImportDecl {
                    source: "./b.js".to_string(),
                    specifiers: vec![ImportSpec::Named {
                        imported: "x".to_string(),
                        local: 0,
                    }],
                },
                declared: vec![0],
            }],
        ),
        (
            "/b.js".to_string(),
            vec![],
            vec![TopStmt {
                kind: StmtKind::ExportNamedDecl {
                    source: Some("./a.js".to_string()),
                    specifiers: vec![ExportNamedSpec {
                        local: "x".to_string(),
                        exported: "x".to_string(),
                    }],
                    declaration: None,
                },
                declared: vec![],
            }],
        ),
        ("/a.js".to_string(), vec!["x".to_string()], vec![var_export("x", 0)]),
    ];
    let mut graph = build_graph(mods, "/c.js");
    graph.sort_modules();
    Linker::link(&mut graph).unwrap();

    // module ids follow discovery order: c = 0, b = 1, a = 2
    let c_import = SymbolRef { owner: 0, symbol: 0 };
    let a_x = SymbolRef { owner: 2, symbol: 0 };
    let canonical = graph.symbols.par_get_canonical_ref(c_import);
    assert_eq!(canonical, a_x);
    assert_eq!(graph.symbols.get_original_name(canonical), "x");

    // resolving x on b directly also lands on a's binding
    let modules = &graph.modules;
    match &modules[1] {
        Module::Normal(b) => {
            let mut rset = Vec::new();
            let res = b
                .resolve_export(&"x".to_string(), &mut rset, modules, &mut graph.symbols)
                .unwrap();
            assert_eq!(res, Resolution::Found(a_x));
        }
        Module::External(_) => panic!("b.js must be a normal module"),
    }
}

#[test]
fn test_star_export_ambiguity() {
    // a.js and b.js each export their own `y`; c.js re-exports both
    // star surfaces, so resolving `y` on c.js is ambiguous.
    let mods = vec![
        (
            "/c.js".to_string(),
            vec![],
            vec![
                TopStmt {
                    kind: StmtKind::ExportAllDecl {
                        source: "./a.js".to_string(),
                        exported_as: None,
                    },
                    declared: vec![],
                },
                TopStmt {
                    kind: StmtKind::ExportAllDecl {
                        source: "./b.js".to_string(),
                        exported_as: None,
                    },
                    declared: vec![],
                },
            ],
        ),
        ("/a.js".to_string(), vec!["y".to_string()], vec![var_export("y", 0)]),
        ("/b.js".to_string(), vec!["y".to_string()], vec![var_export("y", 0)]),
    ];
    let mut graph = build_graph(mods, "/c.js");
    graph.sort_modules();
    let modules = &graph.modules;
    match &modules[0] {
        Module::Normal(c) => {
            let mut rset = Vec::new();
            let res = c
                .resolve_export(&"y".to_string(), &mut rset, modules, &mut graph.symbols)
                .unwrap();
            assert_eq!(res, Resolution::Ambiguous);
        }
        Module::External(_) => panic!("c.js must be a normal module"),
    }
}

#[test]
fn test_star_export_single_hit_resolves() {
    // only a.js exports `y`: one distinct star hit resolves to it
    let mods = vec![
        (
            "/c.js".to_string(),
            vec![],
            vec![TopStmt {
                kind: StmtKind::ExportAllDecl {
                    source: "./a.js".to_string(),
                    exported_as: None,
                },
                declared: vec![],
            }],
        ),
        ("/a.js".to_string(), vec!["y".to_string()], vec![var_export("y", 0)]),
    ];
    let mut graph = build_graph(mods, "/c.js");
    graph.sort_modules();
    let modules = &graph.modules;
    match &modules[0] {
        Module::Normal(c) => {
            let mut rset = Vec::new();
            let res = c
                .resolve_export(&"y".to_string(), &mut rset, modules, &mut graph.symbols)
                .unwrap();
            assert_eq!(res, Resolution::Found(SymbolRef { owner: 1, symbol: 0 }));
        }
        Module::External(_) => panic!("c.js must be a normal module"),
    }
}

#[test]
fn test_default_never_satisfied_by_star() {
    // a.js has a default export; c.js re-exports a's star surface:
    // `default` must not travel over the star edge.
    let mods = vec![
        (
            "/c.js".to_string(),
            vec![],
            vec![TopStmt {
                kind: StmtKind::ExportAllDecl {
                    source: "./a.js".to_string(),
                    exported_as: None,
                },
                declared: vec![],
            }],
        ),
        (
            "/a.js".to_string(),
            vec![],
            vec![TopStmt {
                kind: StmtKind::ExportDefaultDecl {
                    kind: pervade::scanner::DefaultExportKind::AnonymousValue,
                },
                declared: vec![],
            }],
        ),
    ];
    let mut graph = build_graph(mods, "/c.js");
    graph.sort_modules();
    let modules = &graph.modules;
    match &modules[0] {
        Module::Normal(c) => {
            let mut rset = Vec::new();
            let res = c
                .resolve_export(&"default".to_string(), &mut rset, modules, &mut graph.symbols)
                .unwrap();
            assert_eq!(res, Resolution::NotFound);
        }
        Module::External(_) => panic!("c.js must be a normal module"),
    }
}

#[test]
fn test_missing_export_error() {
    // `import {z} from './a.js'` where a.js never exports z
    let mods = vec![
        (
            "/c.js".to_string(),
            vec!["z".to_string()],
            vec![TopStmt {
                kind: StmtKind::ImportDecl {
                    source: "./a.js".to_string(),
                    specifiers: vec![ImportSpec::Named {
                        imported: "z".to_string(),
                        local: 0,
                    }],
                },
                declared: vec![0],
            }],
        ),
        ("/a.js".to_string(), vec!["x".to_string()], vec![var_export("x", 0)]),
    ];
    let mut graph = build_graph(mods, "/c.js");
    graph.sort_modules();
    let err = Linker::link(&mut graph).unwrap_err();
    match err {
        Error::MissingExport { importer, importee, missing_export } => {
            assert_eq!(importer, "/c.js");
            assert_eq!(importee, "/a.js");
            assert_eq!(missing_export, "z");
        }
        _ => panic!("expected a missing-export error"),
    }
}

#[test]
fn test_circular_reexport_error() {
    // a.js re-exports w from b.js and b.js re-exports w from a.js:
    // a self-referential re-export chain is a loud failure.
    let mods = vec![
        (
            "/a.js".to_string(),
            vec![],
            vec![TopStmt {
                kind: StmtKind::ExportNamedDecl {
                    source: Some("./b.js".to_string()),
                    specifiers: vec![ExportNamedSpec {
                        local: "w".to_string(),
                        exported: "w".to_string(),
                    }],
                    declaration: None,
                },
                declared: vec![],
            }],
        ),
        (
            "/b.js".to_string(),
            vec![],
            vec![TopStmt {
                kind: StmtKind::ExportNamedDecl {
                    source: Some("./a.js".to_string()),
                    specifiers: vec![ExportNamedSpec {
                        local: "w".to_string(),
                        exported: "w".to_string(),
                    }],
                    declaration: None,
                },
                declared: vec![],
            }],
        ),
    ];
    let mut graph = build_graph(mods, "/a.js");
    graph.sort_modules();
    let modules = &graph.modules;
    match &modules[0] {
        Module::Normal(a) => {
            let mut rset = Vec::new();
            let res = a.resolve_export(&"w".to_string(), &mut rset, modules, &mut graph.symbols);
            match res {
                Err(Error::CircularReexport { export_name, .. }) => {
                    assert_eq!(export_name, "w");
                }
                _ => panic!("expected a circular re-export error"),
            }
        }
        Module::External(_) => panic!("a.js must be a normal module"),
    }
}

#[test]
fn test_namespace_import_binds_namespace_symbol() {
    // `import * as ns from './a.js'` aliases a's namespace symbol and
    // marks a as needing its namespace object.
    let mods = vec![
        (
            "/c.js".to_string(),
            vec!["ns".to_string()],
            vec![TopStmt {
                kind: StmtKind::ImportDecl {
                    source: "./a.js".to_string(),
                    specifiers: vec![ImportSpec::Namespace { local: 0 }],
                },
                declared: vec![0],
            }],
        ),
        ("/a.js".to_string(), vec!["x".to_string()], vec![var_export("x", 0)]),
    ];
    let mut graph = build_graph(mods, "/c.js");
    graph.sort_modules();
    Linker::link(&mut graph).unwrap();
    let a_ns = match &graph.modules[1] {
        Module::Normal(a) => {
            assert!(a.is_symbol_for_namespace_referenced);
            a.namespace_symbol.0
        }
        Module::External(_) => panic!("a.js must be a normal module"),
    };
    let canonical = graph.symbols.par_get_canonical_ref(SymbolRef { owner: 0, symbol: 0 });
    assert_eq!(canonical, graph.symbols.par_get_canonical_ref(a_ns));
}

#[test]
fn test_no_duplicate_fetch() {
    // c.js imports both a.js and b.js; each of those imports d.js:
    // the loader hands out exactly one fetch job for every resource.
    let import_stmt = |src: &str, local: usize| TopStmt {
        kind: StmtKind::ImportDecl {
            source: src.to_string(),
            specifiers: vec![ImportSpec::Named { imported: "v".to_string(), local }],
        },
        declared: vec![local],
    };
    let mods = vec![
        (
            "/c.js".to_string(),
            vec!["va".to_string(), "vb".to_string()],
            vec![import_stmt("./a.js", 0), import_stmt("./b.js", 1)],
        ),
        ("/a.js".to_string(), vec!["v".to_string()], vec![import_stmt("./d.js", 0), var_export("v", 0)]),
        ("/b.js".to_string(), vec!["v".to_string()], vec![import_stmt("./d.js", 0), var_export("v", 0)]),
        ("/d.js".to_string(), vec!["v".to_string()], vec![var_export("v", 0)]),
    ];

    let mut loader = ModuleLoader::new();
    loader
        .add_entry(&ResolvedRequestInfo { path: "/c.js".to_string(), is_external: false })
        .unwrap();
    let mut fetched: Vec<String> = Vec::new();
    while let Some((mid, rid)) = loader.next_job() {
        fetched.push(rid.as_str().to_string());
        let path = rid.as_str().to_string();
        let idx = mods.iter().position(|m| m.0 == path).expect("unknown module path");
        let syms = mods[idx].1.clone();
        let stmts = mods[idx].2.clone();
        let mut table = SymbolMap::new();
        let mut bindings: StrMap<usize> = StrMap::new();
        for name in &syms {
            let s = table.create_symbol(name.clone());
            bindings.insert(name.clone(), s);
        }
        let mut sc = Scanner::new(mid, table, bindings, rid.unique_name());
        sc.visit_program(&ParsedProgram { stmts }).unwrap();
        let mut deps = Vec::new();
        for (i, rec) in sc.result.import_records.iter().enumerate() {
            deps.push(
                (
                    i,
                    ResolvedRequestInfo {
                        path: resolve_spec(&rec.module_request),
                        is_external: false,
                    },
                ),
            );
        }
        loader.on_task_done(mid, rid, sc.result, sc.symbol_table, deps);
    }
    assert_eq!(loader.remaining_tasks(), 0);
    // every resource fetched exactly once, d.js included
    let mut sorted_fetched = fetched.clone();
    sorted_fetched.sort();
    sorted_fetched.dedup();
    assert_eq!(sorted_fetched.len(), fetched.len());
    assert_eq!(fetched.iter().filter(|p| p.as_str() == "/d.js").count(), 1);
}

#[test]
fn test_external_import_minted_symbol() {
    // an import whose specifier does not resolve becomes an external
    // module; the import binds a symbol minted on the external side
    let mods = vec![
        (
            "/c.js".to_string(),
            vec!["fmt".to_string()],
            vec![TopStmt {
                kind: StmtKind::ImportDecl {
                    source: "./lib.js".to_string(),
                    specifiers: vec![ImportSpec::Named {
                        imported: "fmt".to_string(),
                        local: 0,
                    }],
                },
                declared: vec![0],
            }],
        ),
    ];

    let mut loader = ModuleLoader::new();
    let entry_id = loader
        .add_entry(&ResolvedRequestInfo { path: "/c.js".to_string(), is_external: false })
        .unwrap();
    while let Some((mid, rid)) = loader.next_job() {
        let path = rid.as_str().to_string();
        let idx = mods.iter().position(|m| m.0 == path).expect("unknown module path");
        let syms = mods[idx].1.clone();
        let stmts = mods[idx].2.clone();
        let mut table = SymbolMap::new();
        let mut bindings: StrMap<usize> = StrMap::new();
        for name in &syms {
            let s = table.create_symbol(name.clone());
            bindings.insert(name.clone(), s);
        }
        let mut sc = Scanner::new(mid, table, bindings, rid.unique_name());
        sc.visit_program(&ParsedProgram { stmts }).unwrap();
        let mut deps = Vec::new();
        for (i, rec) in sc.result.import_records.iter().enumerate() {
            // the dependency is marked external instead of resolving
            deps.push(
                (i, ResolvedRequestInfo { path: rec.module_request.clone(), is_external: true }),
            );
        }
        loader.on_task_done(mid, rid, sc.result, sc.symbol_table, deps);
    }
    let (modules, symbols) = loader.finish();
    let mut graph = Graph { modules, entries: vec![entry_id], sorted_modules: Vec::new(), symbols };
    graph.sort_modules();
    Linker::link(&mut graph).unwrap();
    match &graph.modules[1] {
        Module::External(em) => {
            assert_eq!(em.resource_id.as_str(), "./lib.js");
            let minted = em.symbols_imported_by_others.get("fmt").unwrap();
            let canonical = graph.symbols.par_get_canonical_ref(SymbolRef { owner: 0, symbol: 0 });
            assert_eq!(canonical, graph.symbols.par_get_canonical_ref(*minted));
        }
        Module::Normal(_) => panic!("lib.js must be external"),
    }
}
