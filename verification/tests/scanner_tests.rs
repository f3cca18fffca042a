use pervade::ids::LocalOrReExport;
use pervade::ids::Specifier;
use pervade::maps::StrMap;
use pervade::scanner::DefaultExportKind;
use pervade::scanner::ExportNamedSpec;
use pervade::scanner::ExportedDecl;
use pervade::scanner::ImportSpec;
use pervade::scanner::ParsedProgram;
use pervade::scanner::ScanError;
use pervade::scanner::Scanner;
use pervade::scanner::StmtKind;
use pervade::scanner::TopStmt;
use pervade::symbols::SymbolMap;

fn scanner_with_symbols(names: &[&str]) -> Scanner {
    let mut table = SymbolMap::new();
    let mut bindings: StrMap<usize> = StrMap::new();
    for name in names {
        let sym = table.create_symbol(String::from(*name));
        bindings.insert(String::from(*name), sym);
    }
    Scanner::new(0, table, bindings, String::from("m"))
}

#[test]
fn test_scan_import_decl_forms() {
    let mut sc = scanner_with_symbols(&["b", "ns", "def"]);
    let program = ParsedProgram {
        stmts: vec![
            TopStmt {
                kind: StmtKind::ImportDecl {
                    source: String::from("./x.js"),
                    specifiers: vec![
                        ImportSpec::Named { imported: String::from("a"), local: 0 },
                        ImportSpec::Namespace { local: 1 },
                        ImportSpec::DefaultImport { local: 2 },
                    ],
                },
                declared: vec![0, 1, 2],
            },
        ],
    };
    sc.visit_program(&program).unwrap();
    assert_eq!(sc.result.import_records.len(), 1);
    assert_eq!(sc.result.import_records[0].module_request, "./x.js");
    assert!(sc.result.import_records[0].is_import_namespace);
    assert!(sc.result.import_records[0].resolved_module.is_none());

    let named = sc.result.named_imports.get(0).unwrap();
    assert!(matches!(&named.imported, Specifier::Literal(n) if n == "a"));
    assert_eq!(named.imported_as.owner, 0);
    assert_eq!(named.imported_as.symbol, 0);

    let star = sc.result.named_imports.get(1).unwrap();
    assert!(star.imported.is_star());

    let def = sc.result.named_imports.get(2).unwrap();
    assert!(def.imported.is_default());

    assert_eq!(sc.result.stmt_infos.len(), 1);
    assert_eq!(sc.result.stmt_infos[0].stmt_idx, 0);
    assert_eq!(sc.result.stmt_infos[0].declared_symbols, vec![0, 1, 2]);
}

#[test]
fn test_scan_export_named_decl_local_and_decl() {
    let mut sc = scanner_with_symbols(&["a", "b"]);
    let program = ParsedProgram {
        stmts: vec![
            TopStmt {
                kind: StmtKind::ExportNamedDecl {
                    source: None,
                    specifiers: vec![
                        ExportNamedSpec { local: String::from("a"), exported: String::from("a2") },
                    ],
                    declaration: Some(ExportedDecl::VarDecl {
                        bindings: vec![(String::from("c"), 2)],
                    }),
                },
                declared: vec![2],
            },
        ],
    };
    sc.visit_program(&program).unwrap();
    match sc.result.named_exports.get("a2").unwrap() {
        LocalOrReExport::Local(l) => {
            assert_eq!(l.referenced.symbol, 0);
        }
        LocalOrReExport::Re(_) => panic!("expected a local export"),
    }
    match sc.result.named_exports.get("c").unwrap() {
        LocalOrReExport::Local(l) => {
            assert_eq!(l.referenced.symbol, 2);
        }
        LocalOrReExport::Re(_) => panic!("expected a local export"),
    }
}

#[test]
fn test_scan_re_export_and_star() {
    let mut sc = scanner_with_symbols(&[]);
    let program = ParsedProgram {
        stmts: vec![
            TopStmt {
                kind: StmtKind::ExportNamedDecl {
                    source: Some(String::from("./a.js")),
                    specifiers: vec![
                        ExportNamedSpec { local: String::from("x"), exported: String::from("y") },
                    ],
                    declaration: None,
                },
                declared: vec![],
            },
            TopStmt {
                kind: StmtKind::ExportAllDecl { source: String::from("./b.js"), exported_as: None },
                declared: vec![],
            },
            TopStmt {
                kind: StmtKind::ExportAllDecl {
                    source: String::from("./c.js"),
                    exported_as: Some(String::from("ns")),
                },
                declared: vec![],
            },
        ],
    };
    sc.visit_program(&program).unwrap();
    assert_eq!(sc.result.import_records.len(), 3);
    match sc.result.named_exports.get("y").unwrap() {
        LocalOrReExport::Re(re) => {
            assert!(matches!(&re.imported, Specifier::Literal(n) if n == "x"));
            assert_eq!(re.record_id, 0);
        }
        LocalOrReExport::Local(_) => panic!("expected a re-export"),
    }
    assert_eq!(sc.result.star_exports, vec![1]);
    assert!(sc.result.import_records[2].is_import_namespace);
    match sc.result.named_exports.get("ns").unwrap() {
        LocalOrReExport::Re(re) => {
            assert!(re.imported.is_star());
            assert_eq!(re.record_id, 2);
        }
        LocalOrReExport::Local(_) => panic!("expected a namespace re-export"),
    }
}

#[test]
fn test_default_export_synthesis() {
    // `export default 1 + 1;` mints exactly one synthetic symbol,
    // declared by its statement and exported as `default`.
    let mut sc = scanner_with_symbols(&[]);
    let program = ParsedProgram {
        stmts: vec![
            TopStmt {
                kind: StmtKind::ExportDefaultDecl { kind: DefaultExportKind::AnonymousValue },
                declared: vec![],
            },
        ],
    };
    sc.visit_program(&program).unwrap();
    assert_eq!(sc.symbol_table.names.len(), 1);
    assert_eq!(sc.symbol_table.names[0], "m_default");
    assert_eq!(sc.result.export_default_symbol_id, Some(0));
    assert_eq!(sc.result.stmt_infos[0].declared_symbols, vec![0]);
    match sc.result.named_exports.get("default").unwrap() {
        LocalOrReExport::Local(l) => {
            assert_eq!(l.referenced.owner, 0);
            assert_eq!(l.referenced.symbol, 0);
        }
        LocalOrReExport::Re(_) => panic!("expected the default to be a local export"),
    }
}

#[test]
fn test_duplicate_export_is_error() {
    let mut sc = scanner_with_symbols(&["a"]);
    let program = ParsedProgram {
        stmts: vec![
            TopStmt {
                kind: StmtKind::ExportNamedDecl {
                    source: None,
                    specifiers: vec![
                        ExportNamedSpec { local: String::from("a"), exported: String::from("y") },
                        ExportNamedSpec { local: String::from("a"), exported: String::from("y") },
                    ],
                    declaration: None,
                },
                declared: vec![],
            },
        ],
    };
    let err = sc.visit_program(&program).unwrap_err();
    assert!(matches!(err, ScanError::DuplicateExport { name } if name == "y"));
}

#[test]
fn test_unbound_export_is_error() {
    let mut sc = scanner_with_symbols(&[]);
    let program = ParsedProgram {
        stmts: vec![
            TopStmt {
                kind: StmtKind::ExportNamedDecl {
                    source: None,
                    specifiers: vec![
                        ExportNamedSpec {
                            local: String::from("missing"),
                            exported: String::from("m"),
                        },
                    ],
                    declaration: None,
                },
                declared: vec![],
            },
        ],
    };
    let err = sc.visit_program(&program).unwrap_err();
    assert!(matches!(err, ScanError::UnboundName { name } if name == "missing"));
}

#[test]
fn test_unsupported_shape_is_error() {
    let mut sc = scanner_with_symbols(&[]);
    let program = ParsedProgram {
        stmts: vec![
            TopStmt { kind: StmtKind::Other, declared: vec![] },
            TopStmt {
                kind: StmtKind::ExportNamedDecl {
                    source: None,
                    specifiers: vec![],
                    declaration: Some(ExportedDecl::Unsupported),
                },
                declared: vec![],
            },
        ],
    };
    let err = sc.visit_program(&program).unwrap_err();
    assert!(matches!(err, ScanError::UnsupportedShape { stmt_idx: 1 }));
}
