//! Single-pass declaration scanner.
//!
//! Walks the top-level statements of one parsed module and produces
//! its local linking facts: named imports, named exports (local and
//! re-export), import records, star exports, per-statement declared
//! symbols, and the optional default-export symbol. The walk applies a
//! deterministic, order-independent mapping from declaration forms to
//! table entries; a duplicate export name or an unbound exported
//! identifier is a scan error.
//!
//! The statements are plain values (`TopStmt`) that the embedding
//! program derives from the parser's syntax tree together with the
//! module's symbol table and root-scope bindings.
//!
//! Import records are minted one per declaration, in declaration
//! order, so a module request appearing in several declarations owns
//! several records. Record ids thereby follow program order, and the
//! loader's visited map still fetches each resolved resource once;
//! the records of one request all resolve to the same module.

use vstd::prelude::*;

use crate::ids::ExportView;
use crate::ids::ImportRecord;
use crate::ids::ImportRecordId;
use crate::ids::LocalExport;
use crate::ids::LocalOrReExport;
use crate::ids::ModuleId;
use crate::ids::NamedImport;
use crate::ids::NamedImportView;
use crate::ids::ReExport;
use crate::ids::Specifier;
use crate::ids::SpecifierView;
use crate::ids::StmtInfo;
use crate::ids::SymbolId;
use crate::ids::SymbolRef;
use crate::ids::default_name;
use crate::ids::default_export_name;
use crate::maps::IdMap;
use crate::resource::sanitized;
use crate::maps::StrMap;
use crate::symbols::SymbolMap;

verus! {

/// One specifier of an `import ... from 'x'` declaration.
#[derive(Debug, Clone)]
pub enum ImportSpec {
    /// `import {a as b} from 'x'`: requests literal name `a`, declares
    /// local binding `b`.
    Named { imported: String, local: SymbolId },
    /// `import def from 'x'`: requests the literal name `default`.
    DefaultImport { local: SymbolId },
    /// `import * as ns from 'x'`: requests the whole namespace.
    Namespace { local: SymbolId },
}

impl ImportSpec {
    /// The local binding the specifier declares.
    pub open spec fn local_symbol(&self) -> SymbolId {
        match self {
            ImportSpec::Named { local, .. } => *local,
            ImportSpec::DefaultImport { local } => *local,
            ImportSpec::Namespace { local } => *local,
        }
    }

    /// What the specifier requests of the importee.
    pub open spec fn requested(&self) -> SpecifierView {
        match self {
            ImportSpec::Named { imported, .. } => SpecifierView::Literal(imported@),
            ImportSpec::DefaultImport { .. } => SpecifierView::Literal(default_name()),
            ImportSpec::Namespace { .. } => SpecifierView::Star,
        }
    }
}

/// One specifier of `export {local as exported}` (with or without a
/// source module).
#[derive(Debug, Clone)]
pub struct ExportNamedSpec {
    pub local: String,
    pub exported: String,
}

/// The declaration attached to `export <decl>`.
#[derive(Debug, Clone)]
pub enum ExportedDecl {
    /// `export const a = ..., b = ...;`: binding names and symbols.
    VarDecl { bindings: Vec<(String, SymbolId)> },
    /// `export function f() {}`
    FnDecl { name: String, symbol: SymbolId },
    /// `export class C {}`
    ClassDecl { name: String, symbol: SymbolId },
    /// Any other declaration form; a scan error.
    Unsupported,
}

/// What follows `export default`.
#[derive(Debug, Clone)]
pub enum DefaultExportKind {
    /// `export default someBinding;` with the reference's resolution.
    Identifier { name: String, symbol: Option<SymbolId> },
    /// `export default function f() {}`
    NamedFunction { symbol: SymbolId },
    /// `export default class C {}`
    NamedClass { symbol: SymbolId },
    /// An anonymous function/class or a plain expression: a synthetic
    /// symbol is minted to stand for the value.
    AnonymousValue,
    /// A declaration form the scanner does not support; a scan error.
    Unsupported,
}

/// One top-level statement's linking-relevant shape.
#[derive(Debug, Clone)]
pub enum StmtKind {
    ImportDecl { source: String, specifiers: Vec<ImportSpec> },
    /// `export * from 'x'` or, with `exported_as`, `export * as ns from 'x'`.
    ExportAllDecl { source: String, exported_as: Option<String> },
    ExportNamedDecl {
        source: Option<String>,
        specifiers: Vec<ExportNamedSpec>,
        declaration: Option<ExportedDecl>,
    },
    ExportDefaultDecl { kind: DefaultExportKind },
    /// Any other statement; relevant only for its declared symbols.
    Other,
}

/// One top-level statement: its shape and the top-level symbols its
/// text declares.
#[derive(Debug, Clone)]
pub struct TopStmt {
    pub kind: StmtKind,
    pub declared: Vec<SymbolId>,
}

/// A parsed module's top-level statement list.
#[derive(Debug, Clone)]
pub struct ParsedProgram {
    pub stmts: Vec<TopStmt>,
}

/// Why a module's scan was aborted.
#[derive(Debug, Clone)]
pub enum ScanError {
    /// A top-level declaration form the scanner does not support.
    UnsupportedShape { stmt_idx: usize },
    /// An exported identifier that resolves to no top-level binding.
    UnboundName { name: String },
    /// Two exports under one exported name.
    DuplicateExport { name: String },
}

/// Everything the scanner learns about one module.
#[derive(Debug)]
pub struct ScanResult {
    /// Local symbol id of each import binding, with what it imports.
    pub named_imports: IdMap<NamedImport>,
    /// Exported name to local export or re-export.
    pub named_exports: StrMap<LocalOrReExport>,
    /// Per top-level statement, in program order.
    pub stmt_infos: Vec<StmtInfo>,
    /// One record per textual module request.
    pub import_records: Vec<ImportRecord>,
    /// Import records of `export * from` edges, in declaration order.
    pub star_exports: Vec<ImportRecordId>,
    /// The symbol the module's default export binds, if any.
    pub export_default_symbol_id: Option<SymbolId>,
}

impl ScanResult {
    pub fn new() -> (r: ScanResult)
        ensures
            r.named_imports@ == Map::<int, NamedImport>::empty(),
            r.named_exports@ == Map::<Seq<char>, LocalOrReExport>::empty(),
            r.stmt_infos@ == Seq::<StmtInfo>::empty(),
            r.import_records@ == Seq::<ImportRecord>::empty(),
            r.star_exports@ == Seq::<ImportRecordId>::empty(),
            r.export_default_symbol_id is None,
    {
        ScanResult {
            named_imports: IdMap::new(),
            named_exports: StrMap::new(),
            stmt_infos: Vec::new(),
            import_records: Vec::new(),
            star_exports: Vec::new(),
            export_default_symbol_id: None,
        }
    }
}

/// The scanner for one module. It owns the module's symbol table while
/// scanning; the loader takes table and result back when the walk is
/// done.
pub struct Scanner {
    /// The module being scanned.
    pub id: ModuleId,
    /// The module's symbol table; grows when a synthetic default
    /// symbol is minted.
    pub symbol_table: SymbolMap,
    /// Root-scope binding name to symbol id.
    pub root_bindings: StrMap<SymbolId>,
    /// Identifier-safe module name, used to name synthetic symbols.
    pub unique_name: String,
    /// Declared symbols of the statement currently being walked.
    pub current_stmt_info: StmtInfo,
    /// The tables built so far.
    pub result: ScanResult,
}

/// Frame: the scanner fields other than `result` and
/// `current_stmt_info` are unchanged between `a` and `b`.
pub open spec fn same_scanner_context(a: Scanner, b: Scanner) -> bool {
    &&& b.id == a.id
    &&& b.symbol_table == a.symbol_table
    &&& b.root_bindings == a.root_bindings
    &&& b.unique_name == a.unique_name
    &&& b.current_stmt_info == a.current_stmt_info
}

/// Frame: the result tables other than the named imports are unchanged.
pub open spec fn same_but_named_imports(a: ScanResult, b: ScanResult) -> bool {
    &&& b.named_exports == a.named_exports
    &&& b.stmt_infos == a.stmt_infos
    &&& b.import_records == a.import_records
    &&& b.star_exports == a.star_exports
    &&& b.export_default_symbol_id == a.export_default_symbol_id
}

/// Frame: the result tables other than the named exports are unchanged.
pub open spec fn same_but_named_exports(a: ScanResult, b: ScanResult) -> bool {
    &&& b.named_imports == a.named_imports
    &&& b.stmt_infos == a.stmt_infos
    &&& b.import_records == a.import_records
    &&& b.star_exports == a.star_exports
    &&& b.export_default_symbol_id == a.export_default_symbol_id
}

impl Scanner {
    pub fn new(
        id: ModuleId,
        symbol_table: SymbolMap,
        root_bindings: StrMap<SymbolId>,
        unique_name: String,
    ) -> (r: Scanner)
        ensures
            r.id == id,
            r.symbol_table == symbol_table,
            r.root_bindings == root_bindings,
            r.unique_name == unique_name,
            r.current_stmt_info.stmt_idx == 0,
            r.current_stmt_info.declared_symbols@ == Seq::<SymbolId>::empty(),
            r.result.named_imports@ == Map::<int, NamedImport>::empty(),
            r.result.named_exports@ == Map::<Seq<char>, LocalOrReExport>::empty(),
            r.result.stmt_infos@ == Seq::<StmtInfo>::empty(),
            r.result.import_records@ == Seq::<ImportRecord>::empty(),
            r.result.star_exports@ == Seq::<ImportRecordId>::empty(),
            r.result.export_default_symbol_id is None,
    {
        Scanner {
            id,
            symbol_table,
            root_bindings,
            unique_name,
            current_stmt_info: StmtInfo { stmt_idx: 0, declared_symbols: Vec::new() },
            result: ScanResult::new(),
        }
    }

    /// Records a top-level symbol as declared by the current statement.
    pub fn add_declared_id(&mut self, id: SymbolId)
        ensures
            final(self).current_stmt_info.stmt_idx == old(self).current_stmt_info.stmt_idx,
            final(self).current_stmt_info.declared_symbols@ == old(self).current_stmt_info.declared_symbols@.push(id),
            final(self).id == old(self).id,
            final(self).symbol_table == old(self).symbol_table,
            final(self).root_bindings == old(self).root_bindings,
            final(self).unique_name == old(self).unique_name,
            final(self).result == old(self).result,
    {
        self.current_stmt_info.declared_symbols.push(id);
    }

    /// The top-level binding a name resolves to; an unbound name is a
    /// scan error.
    pub fn get_root_binding(&self, name: &String) -> (r: Result<SymbolId, ScanError>)
        ensures
            match r {
                Ok(sym) => self.root_bindings@.dom().contains(name@) && sym
                    == self.root_bindings@[name@],
                Err(e) => !self.root_bindings@.dom().contains(name@) && (e matches
                    ScanError::UnboundName { name: n } && n@ == name@),
            },
    {
        match self.root_bindings.get(name.as_str()) {
            Some(sym) => Ok(*sym),
            None => Err(ScanError::UnboundName { name: name.clone() }),
        }
    }

    /// Appends an unresolved import record for a module request.
    pub fn add_import_record(&mut self, module_request: String) -> (idx: ImportRecordId)
        ensures
            idx == old(self).result.import_records@.len(),
            same_scanner_context(*old(self), *final(self)),
            final(self).result.named_imports == old(self).result.named_imports,
            final(self).result.named_exports == old(self).result.named_exports,
            final(self).result.stmt_infos == old(self).result.stmt_infos,
            final(self).result.star_exports == old(self).result.star_exports,
            final(self).result.export_default_symbol_id == old(self).result.export_default_symbol_id,
            final(self).result.import_records@.len() == old(self).result.import_records@.len()
                + 1,
            forall|i: int|
                0 <= i < old(self).result.import_records@.len() ==> final(self).result.import_records@[i] == old(self).result.import_records@[i],
            final(self).result.import_records@.last()@.module_request == module_request@,
            final(self).result.import_records@.last()@.resolved_module is None,
            !final(self).result.import_records@.last()@.is_import_namespace,
    {
        let rec = ImportRecord::new(module_request);
        let idx = self.result.import_records.len();
        self.result.import_records.push(rec);
        idx
    }

    /// Marks an import record as a namespace import.
    pub fn mark_namespace_import(&mut self, record_id: ImportRecordId)
        requires
            record_id < old(self).result.import_records@.len(),
        ensures
            same_scanner_context(*old(self), *final(self)),
            final(self).result.named_imports == old(self).result.named_imports,
            final(self).result.named_exports == old(self).result.named_exports,
            final(self).result.stmt_infos == old(self).result.stmt_infos,
            final(self).result.star_exports == old(self).result.star_exports,
            final(self).result.export_default_symbol_id == old(self).result.export_default_symbol_id,
            final(self).result.import_records@.len() == old(self).result.import_records@.len(),
            forall|i: int|
                0 <= i < old(self).result.import_records@.len() && i != record_id ==> final(self).result.import_records@[i] == old(self).result.import_records@[i],
            final(self).result.import_records@[record_id as int]@.module_request == old(self).result.import_records@[record_id as int]@.module_request,
            final(self).result.import_records@[record_id as int]@.resolved_module == old(self).result.import_records@[record_id as int]@.resolved_module,
            final(self).result.import_records@[record_id as int]@.is_import_namespace,
    {
        let rec = &mut self.result.import_records[record_id];
        rec.is_import_namespace = true;
    }

    /// Records `import {a as b} from 'x'` and the like: the local
    /// binding `local` requests the literal name `imported`.
    pub fn add_named_import(
        &mut self,
        local: SymbolId,
        imported: String,
        record_id: ImportRecordId,
    )
        ensures
            same_scanner_context(*old(self), *final(self)),
            same_but_named_imports(old(self).result, final(self).result),
            final(self).result.named_imports@ == old(self).result.named_imports@.insert(
                local as int,
                NamedImport {
                    imported: Specifier::Literal(imported),
                    imported_as: SymbolRef { owner: old(self).id, symbol: local },
                    record_id,
                },
            ),
    {
        let owner = self.id;
        self.result.named_imports.insert(
            local,
            NamedImport {
                imported: Specifier::Literal(imported),
                imported_as: SymbolRef { owner, symbol: local },
                record_id,
            },
        );
    }

    /// Records `import * as ns from 'x'`: the local binding requests
    /// the whole namespace, and the record becomes a namespace import.
    pub fn add_star_import(&mut self, local: SymbolId, record_id: ImportRecordId)
        requires
            record_id < old(self).result.import_records@.len(),
        ensures
            same_scanner_context(*old(self), *final(self)),
            final(self).result.named_imports@ == old(self).result.named_imports@.insert(
                local as int,
                NamedImport {
                    imported: Specifier::Star,
                    imported_as: SymbolRef { owner: old(self).id, symbol: local },
                    record_id,
                },
            ),
            final(self).result.named_exports == old(self).result.named_exports,
            final(self).result.stmt_infos == old(self).result.stmt_infos,
            final(self).result.star_exports == old(self).result.star_exports,
            final(self).result.export_default_symbol_id == old(self).result.export_default_symbol_id,
            final(self).result.import_records@.len() == old(self).result.import_records@.len(),
            forall|i: int|
                0 <= i < old(self).result.import_records@.len() && i != record_id ==> final(self).result.import_records@[i] == old(self).result.import_records@[i],
            final(self).result.import_records@[record_id as int]@.module_request == old(self).result.import_records@[record_id as int]@.module_request,
            final(self).result.import_records@[record_id as int]@.resolved_module == old(self).result.import_records@[record_id as int]@.resolved_module,
            final(self).result.import_records@[record_id as int]@.is_import_namespace,
    {
        self.mark_namespace_import(record_id);
        let owner = self.id;
        self.result.named_imports.insert(
            local,
            NamedImport {
                imported: Specifier::Star,
                imported_as: SymbolRef { owner, symbol: local },
                record_id,
            },
        );
    }

    /// Records `export {a}` / `export <decl>`: the exported name maps
    /// to a local binding. A name exported twice is a scan error.
    pub fn add_local_export(&mut self, export_name: String, local: SymbolId) -> (r: Result<
        (),
        ScanError,
    >)
        ensures
            same_scanner_context(*old(self), *final(self)),
            same_but_named_exports(old(self).result, final(self).result),
            match r {
                Ok(()) => !old(self).result.named_exports@.dom().contains(export_name@) && final(self).result.named_exports@ == old(self).result.named_exports@.insert(
                    export_name@,
                    LocalOrReExport::Local(
                        LocalExport {
                            referenced: SymbolRef { owner: old(self).id, symbol: local },
                        },
                    ),
                ),
                Err(e) => old(self).result.named_exports@.dom().contains(export_name@) && final(self).result.named_exports == old(self).result.named_exports && (e matches
                    ScanError::DuplicateExport { name: n } && n@ == export_name@),
            },
    {
        if self.result.named_exports.contains_key(export_name.as_str()) {
            return Err(ScanError::DuplicateExport { name: export_name });
        }
        let owner = self.id;
        self.result.named_exports.insert(
            export_name,
            LocalOrReExport::Local(LocalExport { referenced: SymbolRef { owner, symbol: local } }),
        );
        Ok(())
    }

    /// Records the default export as a local binding under the name
    /// `default`.
    pub fn add_local_default_export(&mut self, local: SymbolId) -> (r: Result<(), ScanError>)
        ensures
            final(self).id == old(self).id,
            final(self).symbol_table == old(self).symbol_table,
            final(self).root_bindings == old(self).root_bindings,
            final(self).unique_name == old(self).unique_name,
            final(self).current_stmt_info == old(self).current_stmt_info,
            final(self).result.named_imports == old(self).result.named_imports,
            final(self).result.stmt_infos == old(self).result.stmt_infos,
            final(self).result.import_records == old(self).result.import_records,
            final(self).result.star_exports == old(self).result.star_exports,
            match r {
                Ok(()) => !old(self).result.named_exports@.dom().contains(default_name()) && final(self).result.named_exports@ == old(self).result.named_exports@.insert(
                    default_name(),
                    LocalOrReExport::Local(
                        LocalExport {
                            referenced: SymbolRef { owner: old(self).id, symbol: local },
                        },
                    ),
                ) && final(self).result.export_default_symbol_id == Some(local),
                Err(e) => old(self).result.named_exports@.dom().contains(default_name()) && final(self).result.named_exports == old(self).result.named_exports && final(self).result.export_default_symbol_id == old(self).result.export_default_symbol_id
                    && (e matches ScanError::DuplicateExport { name: n } && n@
                    == default_name()),
            },
    {
        let dname = default_export_name();
        if self.result.named_exports.contains_key(dname.as_str()) {
            return Err(ScanError::DuplicateExport { name: dname });
        }
        self.result.export_default_symbol_id = Some(local);
        let owner = self.id;
        self.result.named_exports.insert(
            dname,
            LocalOrReExport::Local(LocalExport { referenced: SymbolRef { owner, symbol: local } }),
        );
        Ok(())
    }

    /// Records `export {a as b} from 'x'`: the exported name forwards
    /// a literal name of the source module.
    pub fn add_re_export(
        &mut self,
        export_name: String,
        imported: String,
        record_id: ImportRecordId,
    ) -> (r: Result<(), ScanError>)
        ensures
            same_scanner_context(*old(self), *final(self)),
            same_but_named_exports(old(self).result, final(self).result),
            match r {
                Ok(()) => !old(self).result.named_exports@.dom().contains(export_name@) && final(self).result.named_exports@ == old(self).result.named_exports@.insert(
                    export_name@,
                    LocalOrReExport::Re(
                        ReExport { imported: Specifier::Literal(imported), record_id },
                    ),
                ),
                Err(e) => old(self).result.named_exports@.dom().contains(export_name@) && final(self).result.named_exports == old(self).result.named_exports && (e matches
                    ScanError::DuplicateExport { name: n } && n@ == export_name@),
            },
    {
        if self.result.named_exports.contains_key(export_name.as_str()) {
            return Err(ScanError::DuplicateExport { name: export_name });
        }
        self.result.named_exports.insert(
            export_name,
            LocalOrReExport::Re(ReExport { imported: Specifier::Literal(imported), record_id }),
        );
        Ok(())
    }

    /// Records `export * as ns from 'x'`: the exported name forwards
    /// the source module's namespace, and the record becomes a
    /// namespace import.
    pub fn add_star_re_export(&mut self, export_name: String, record_id: ImportRecordId) -> (r:
        Result<(), ScanError>)
        requires
            record_id < old(self).result.import_records@.len(),
        ensures
            same_scanner_context(*old(self), *final(self)),
            final(self).result.named_imports == old(self).result.named_imports,
            final(self).result.stmt_infos == old(self).result.stmt_infos,
            final(self).result.star_exports == old(self).result.star_exports,
            final(self).result.export_default_symbol_id == old(self).result.export_default_symbol_id,
            final(self).result.import_records@.len() == old(self).result.import_records@.len(),
            forall|i: int|
                0 <= i < old(self).result.import_records@.len() && i != record_id ==> final(self).result.import_records@[i] == old(self).result.import_records@[i],
            final(self).result.import_records@[record_id as int]@.module_request == old(self).result.import_records@[record_id as int]@.module_request,
            final(self).result.import_records@[record_id as int]@.resolved_module == old(self).result.import_records@[record_id as int]@.resolved_module,
            final(self).result.import_records@[record_id as int]@.is_import_namespace,
            match r {
                Ok(()) => !old(self).result.named_exports@.dom().contains(export_name@) && final(self).result.named_exports@ == old(self).result.named_exports@.insert(
                    export_name@,
                    LocalOrReExport::Re(ReExport { imported: Specifier::Star, record_id }),
                ),
                Err(e) => old(self).result.named_exports@.dom().contains(export_name@) && final(self).result.named_exports == old(self).result.named_exports && (e matches
                    ScanError::DuplicateExport { name: n } && n@ == export_name@),
            },
    {
        self.mark_namespace_import(record_id);
        if self.result.named_exports.contains_key(export_name.as_str()) {
            return Err(ScanError::DuplicateExport { name: export_name });
        }
        self.result.named_exports.insert(
            export_name,
            LocalOrReExport::Re(ReExport { imported: Specifier::Star, record_id }),
        );
        Ok(())
    }
}


/// Copies a list of symbol ids.
fn copy_ids(v: &Vec<usize>) -> (r: Vec<usize>)
    ensures
        r@ == v@,
{
    let mut r: Vec<usize> = Vec::new();
    let n = v.len();
    let mut i: usize = 0;
    while i < n
        invariant
            0 <= i <= n,
            n == v@.len(),
            r@ == v@.take(i as int),
        decreases n - i,
    {
        r.push(v[i]);
        proof {
            assert(v@.take(i + 1) =~= v@.take(i as int).push(v@[i as int]));
        }
        i += 1;
    }
    proof {
        assert(v@.take(n as int) =~= v@);
    }
    r
}

/// The named-import table of `post` extends that of `pre` with one
/// entry per specifier, all on import record `rid`.
pub open spec fn named_imports_extended(
    pre: Scanner,
    post: Scanner,
    specs: Seq<ImportSpec>,
    rid: int,
) -> bool {
    &&& forall|k: int|
        post.result.named_imports@.dom().contains(k) <==> (
        pre.result.named_imports@.dom().contains(k) || exists|j: int|
            0 <= j < specs.len() && (#[trigger] specs[j]).local_symbol() == k)
    &&& forall|i: int|
        0 <= i < specs.len() && (forall|j: int|
            i < j < specs.len() ==> (#[trigger] specs[j]).local_symbol()
                != specs[i].local_symbol()) ==> (#[trigger] post.result.named_imports@[specs[i].local_symbol() as int])@
            == (NamedImportView {
            imported: specs[i].requested(),
            imported_as: SymbolRef { owner: pre.id, symbol: specs[i].local_symbol() },
            record_id: rid,
        })
    &&& forall|k: int|
        (forall|j: int| 0 <= j < specs.len() ==> (#[trigger] specs[j]).local_symbol() != k)
            && pre.result.named_imports@.dom().contains(k)
            ==> #[trigger] post.result.named_imports@[k] == pre.result.named_imports@[k]
}

/// Effect of scanning `import ... from 'source'`: one new import
/// record for this declaration, whose namespace flag reflects the
/// specifiers, and one named import per specifier.
pub open spec fn import_decl_effect(
    pre: Scanner,
    post: Scanner,
    source: Seq<char>,
    specs: Seq<ImportSpec>,
) -> bool {
    let rid = pre.result.import_records@.len() as int;
    &&& same_scanner_context(pre, post)
    &&& post.result.named_exports == pre.result.named_exports
    &&& post.result.stmt_infos == pre.result.stmt_infos
    &&& post.result.star_exports == pre.result.star_exports
    &&& post.result.export_default_symbol_id == pre.result.export_default_symbol_id
    &&& post.result.import_records@.len() == rid + 1
    &&& forall|i: int|
        0 <= i < rid ==> #[trigger] post.result.import_records@[i]
            == pre.result.import_records@[i]
    &&& post.result.import_records@[rid]@.module_request == source
    &&& post.result.import_records@[rid]@.resolved_module is None
    &&& post.result.import_records@[rid]@.is_import_namespace == (exists|j: int|
        0 <= j < specs.len() && (#[trigger] specs[j]) matches ImportSpec::Namespace { .. })
    &&& named_imports_extended(pre, post, specs, rid)
}

impl Scanner {
    /// Scans one `import ... from 'x'` declaration.
    pub fn scan_import_decl(&mut self, source: String, specifiers: &Vec<ImportSpec>)
        ensures
            import_decl_effect(*old(self), *final(self), source@, specifiers@),
    {
        let ghost pre = *self;
        let ghost specs = specifiers@;
        let ghost src = source@;
        let rid = self.add_import_record(source);
        let n = specifiers.len();
        let mut i: usize = 0;
        while i < n
            invariant
                0 <= i <= n,
                n == specs.len(),
                specs == specifiers@,
                rid == pre.result.import_records@.len(),
                same_scanner_context(pre, *self),
                self.result.named_exports == pre.result.named_exports,
                self.result.stmt_infos == pre.result.stmt_infos,
                self.result.star_exports == pre.result.star_exports,
                self.result.export_default_symbol_id == pre.result.export_default_symbol_id,
                self.result.import_records@.len() == rid + 1,
                forall|j: int|
                    0 <= j < rid ==> #[trigger] self.result.import_records@[j]
                        == pre.result.import_records@[j],
                self.result.import_records@[rid as int]@.module_request == src,
                self.result.import_records@[rid as int]@.resolved_module is None,
                self.result.import_records@[rid as int]@.is_import_namespace == (exists|j: int|
                    0 <= j < i && (#[trigger] specs[j]) matches ImportSpec::Namespace { .. }),
                named_imports_extended(pre, *self, specs.take(i as int), rid as int),
            decreases n - i,
        {
            let ghost before = *self;
            match &specifiers[i] {
                ImportSpec::Named { imported, local } => {
                    self.add_named_import(*local, imported.clone(), rid);
                },
                ImportSpec::DefaultImport { local } => {
                    let dname = default_export_name();
                    self.add_named_import(*local, dname, rid);
                },
                ImportSpec::Namespace { local } => {
                    self.add_star_import(*local, rid);
                },
            }
            proof {
                let t1 = specs.take(i + 1);
                let t0 = specs.take(i as int);
                assert(t1.drop_last() =~= t0);
                assert(t1.last() == specs[i as int]);
                assert forall|k: int| self.result.named_imports@.dom().contains(k) <==> (
                pre.result.named_imports@.dom().contains(k) || exists|j: int|
                    0 <= j < t1.len() && (#[trigger] t1[j]).local_symbol() == k) by {
                    if self.result.named_imports@.dom().contains(k) {
                        if k == specs[i as int].local_symbol() {
                            assert((t1[i as int]).local_symbol() == k);
                        } else {
                            assert(before.result.named_imports@.dom().contains(k));
                            if !pre.result.named_imports@.dom().contains(k) {
                                let j = choose|j: int|
                                    0 <= j < t0.len() && (#[trigger] t0[j]).local_symbol() == k;
                                assert((t1[j]).local_symbol() == k);
                            }
                        }
                    } else {
                        assert(!before.result.named_imports@.dom().contains(k));
                    }
                }
                assert forall|i2: int|
                    0 <= i2 < t1.len() && (forall|j: int|
                        i2 < j < t1.len() ==> (#[trigger] t1[j]).local_symbol()
                            != t1[i2].local_symbol()) implies (#[trigger] self.result.named_imports@[t1[i2].local_symbol() as int])@
                    == (NamedImportView {
                    imported: t1[i2].requested(),
                    imported_as: SymbolRef { owner: pre.id, symbol: t1[i2].local_symbol() },
                    record_id: rid as int,
                }) by {
                    if i2 == i as int {
                    } else {
                        assert(t0[i2] == t1[i2]);
                        assert(t1[i2].local_symbol() != specs[i as int].local_symbol());
                    }
                }
            }
            i += 1;
        }
        proof {
            assert(specs.take(n as int) =~= specs);
        }
    }
}


/// The exported (name, symbol) pairs that `export <decl>` contributes.
pub open spec fn decl_export_list(decl: Option<ExportedDecl>) -> Seq<(String, SymbolId)> {
    match decl {
        None => Seq::empty(),
        Some(ExportedDecl::VarDecl { bindings }) => bindings@,
        Some(ExportedDecl::FnDecl { name, symbol }) => seq![(name, symbol)],
        Some(ExportedDecl::ClassDecl { name, symbol }) => seq![(name, symbol)],
        Some(ExportedDecl::Unsupported) => Seq::empty(),
    }
}

/// `k` is one of the exported names the statement introduces.
pub open spec fn named_decl_mentions(
    specs: Seq<ExportNamedSpec>,
    dl: Seq<(String, SymbolId)>,
    k: Seq<char>,
) -> bool {
    ||| exists|i: int| 0 <= i < specs.len() && (#[trigger] specs[i]).exported@ == k
    ||| exists|j: int| 0 <= j < dl.len() && (#[trigger] dl[j]).0@ == k
}

/// `k` would be exported twice: it is already in the table and the
/// statement mentions it, or the statement mentions it twice.
pub open spec fn named_decl_dup(
    pre: Scanner,
    specs: Seq<ExportNamedSpec>,
    dl: Seq<(String, SymbolId)>,
    k: Seq<char>,
) -> bool {
    ||| (pre.result.named_exports@.dom().contains(k) && named_decl_mentions(specs, dl, k))
    ||| exists|i: int, j: int|
        0 <= i < j < specs.len() && (#[trigger] specs[i]).exported@ == k && (#[trigger] specs[j]).exported@
            == k
    ||| exists|i: int, j: int|
        0 <= i < specs.len() && 0 <= j < dl.len() && (#[trigger] specs[i]).exported@ == k && (#[trigger] dl[j]).0@
            == k
    ||| exists|i: int, j: int|
        0 <= i < j < dl.len() && (#[trigger] dl[i]).0@ == k && (#[trigger] dl[j]).0@ == k
}

/// The conditions under which scanning a source-less
/// `export {..}` / `export <decl>` statement succeeds.
pub open spec fn named_decl_ok(
    pre: Scanner,
    specs: Seq<ExportNamedSpec>,
    declaration: Option<ExportedDecl>,
) -> bool {
    let dl = decl_export_list(declaration);
    &&& !(declaration matches Some(ExportedDecl::Unsupported))
    &&& forall|i: int|
        0 <= i < specs.len() ==> pre.root_bindings@.dom().contains(
            (#[trigger] specs[i]).local@,
        )
    &&& forall|k: Seq<char>| !named_decl_dup(pre, specs, dl, k)
}

/// Frame: all result tables except the named exports, and the scanner
/// context, are unchanged.
pub open spec fn only_named_exports_changed(pre: Scanner, post: Scanner) -> bool {
    &&& same_scanner_context(pre, post)
    &&& post.result.named_imports == pre.result.named_imports
    &&& post.result.stmt_infos == pre.result.stmt_infos
    &&& post.result.import_records == pre.result.import_records
    &&& post.result.star_exports == pre.result.star_exports
    &&& post.result.export_default_symbol_id == pre.result.export_default_symbol_id
}

/// Effect of scanning `export {..};` / `export <decl>;` (no source):
/// every specifier maps its exported name to the root binding of its
/// local name, and every declared binding is exported under its own
/// name.
pub open spec fn export_named_local_effect(
    pre: Scanner,
    post: Scanner,
    specs: Seq<ExportNamedSpec>,
    declaration: Option<ExportedDecl>,
    r: Result<(), ScanError>,
) -> bool {
    let dl = decl_export_list(declaration);
    &&& only_named_exports_changed(pre, post)
    &&& (r is Ok <==> named_decl_ok(pre, specs, declaration))
    &&& match r {
        Ok(()) => {
            &&& forall|k: Seq<char>|
                #[trigger] post.result.named_exports@.dom().contains(k) <==> (
                pre.result.named_exports@.dom().contains(k) || named_decl_mentions(specs, dl, k))
            &&& forall|i: int|
                0 <= i < specs.len() ==> (#[trigger] post.result.named_exports@[specs[i].exported@])@
                    == ExportView::Local(
                    SymbolRef {
                        owner: pre.id,
                        symbol: pre.root_bindings@[specs[i].local@],
                    },
                )
            &&& forall|j: int|
                0 <= j < dl.len() ==> (#[trigger] post.result.named_exports@[dl[j].0@])@
                    == ExportView::Local(SymbolRef { owner: pre.id, symbol: dl[j].1 })
            &&& forall|k: Seq<char>|
                pre.result.named_exports@.dom().contains(k) && !named_decl_mentions(specs, dl, k)
                    ==> #[trigger] post.result.named_exports@[k]
                    == pre.result.named_exports@[k]
        },
        Err(e) => {
            ||| (e matches ScanError::UnboundName { name } && !pre.root_bindings@.dom().contains(
                name@,
            ) && exists|i: int| 0 <= i < specs.len() && (#[trigger] specs[i]).local@ == name@)
            ||| (e matches ScanError::DuplicateExport { name } && named_decl_dup(
                pre,
                specs,
                dl,
                name@,
            ))
            ||| (e matches ScanError::UnsupportedShape { .. } && declaration matches Some(
                ExportedDecl::Unsupported,
            ))
        },
    }
}

/// Effect of scanning `export {..} from 'source'`: one new import
/// record and one re-export entry per specifier.
pub open spec fn export_named_re_effect(
    pre: Scanner,
    post: Scanner,
    source: Seq<char>,
    specs: Seq<ExportNamedSpec>,
    r: Result<(), ScanError>,
) -> bool {
    let rid = pre.result.import_records@.len() as int;
    &&& same_scanner_context(pre, post)
    &&& post.result.named_imports == pre.result.named_imports
    &&& post.result.stmt_infos == pre.result.stmt_infos
    &&& post.result.star_exports == pre.result.star_exports
    &&& post.result.export_default_symbol_id == pre.result.export_default_symbol_id
    &&& post.result.import_records@.len() == rid + 1
    &&& forall|i: int|
        0 <= i < rid ==> #[trigger] post.result.import_records@[i]
            == pre.result.import_records@[i]
    &&& post.result.import_records@[rid]@.module_request == source
    &&& post.result.import_records@[rid]@.resolved_module is None
    &&& !post.result.import_records@[rid]@.is_import_namespace
    &&& (r is Ok <==> (forall|k: Seq<char>|
        !named_decl_dup(pre, specs, Seq::<(String, SymbolId)>::empty(), k)))
    &&& match r {
        Ok(()) => {
            &&& forall|k: Seq<char>|
                #[trigger] post.result.named_exports@.dom().contains(k) <==> (
                pre.result.named_exports@.dom().contains(k) || exists|i: int|
                    0 <= i < specs.len() && (#[trigger] specs[i]).exported@ == k)
            &&& forall|i: int|
                0 <= i < specs.len() ==> ((#[trigger] post.result.named_exports@[specs[i].exported@])@
                    matches ExportView::Re(req, rec) && req == SpecifierView::Literal(
                    specs[i].local@,
                ) && rec == rid)
            &&& forall|k: Seq<char>|
                pre.result.named_exports@.dom().contains(k) && (forall|i: int|
                    0 <= i < specs.len() ==> (#[trigger] specs[i]).exported@ != k)
                    ==> post.result.named_exports@[k] == pre.result.named_exports@[k]
        },
        Err(e) => (e matches ScanError::DuplicateExport { name } && named_decl_dup(
            pre,
            specs,
            Seq::<(String, SymbolId)>::empty(),
            name@,
        )),
    }
}


impl Scanner {
    /// Scans one `export {..}` / `export {..} from 'x'` /
    /// `export <decl>` statement.
    #[verifier::loop_isolation(false)]
    pub fn scan_export_named_decl(
        &mut self,
        source: Option<String>,
        specifiers: &Vec<ExportNamedSpec>,
        declaration: Option<&ExportedDecl>,
    ) -> (r: Result<(), ScanError>)
        ensures
            match source {
                Some(src) => export_named_re_effect(
                    *old(self),
                    *final(self),
                    src@,
                    specifiers@,
                    r,
                ),
                None => export_named_local_effect(
                    *old(self),
                    *final(self),
                    specifiers@,
                    match declaration {
                        Some(d) => Some(*d),
                        None => None,
                    },
                    r,
                ),
            },
    {
        let ghost pre = *self;
        let ghost specs = specifiers@;
        let n = specifiers.len();
        match &source {
            Some(src) => {
                let ghost srcv = src@;
                let src_owned = src.clone();
                let rid = self.add_import_record(src_owned);
                let ghost dl0 = Seq::<(String, SymbolId)>::empty();
                let mut i: usize = 0;
                while i < n
                    invariant
                        0 <= i <= n,
                        n == specs.len(),
                        specs == specifiers@,
                        rid == pre.result.import_records@.len(),
                        same_scanner_context(pre, *self),
                        self.result.named_imports == pre.result.named_imports,
                        self.result.stmt_infos == pre.result.stmt_infos,
                        self.result.star_exports == pre.result.star_exports,
                        self.result.export_default_symbol_id
                            == pre.result.export_default_symbol_id,
                        self.result.import_records@.len() == rid + 1,
                        forall|j: int|
                            0 <= j < rid ==> #[trigger] self.result.import_records@[j]
                                == pre.result.import_records@[j],
                        self.result.import_records@[rid as int]@.module_request == srcv,
                        self.result.import_records@[rid as int]@.resolved_module is None,
                        !self.result.import_records@[rid as int]@.is_import_namespace,
                        forall|k: Seq<char>|
                            #[trigger] self.result.named_exports@.dom().contains(k) <==> (
                            pre.result.named_exports@.dom().contains(k) || exists|j: int|
                                0 <= j < i && (#[trigger] specs[j]).exported@ == k),
                        forall|j: int|
                            0 <= j < i ==> ((#[trigger] self.result.named_exports@[specs[j].exported@])@
                                matches ExportView::Re(req, rec) && req == SpecifierView::Literal(
                                specs[j].local@,
                            ) && rec == rid),
                        forall|k: Seq<char>|
                            pre.result.named_exports@.dom().contains(k) && (forall|j: int|
                                0 <= j < i ==> (#[trigger] specs[j]).exported@ != k)
                                ==> #[trigger] self.result.named_exports@[k]
                                == pre.result.named_exports@[k],
                        forall|j: int, j2: int|
                            0 <= j < j2 < i ==> (#[trigger] specs[j]).exported@ != (
                            #[trigger] specs[j2]).exported@,
                        forall|j: int|
                            0 <= j < i ==> !pre.result.named_exports@.dom().contains(
                                (#[trigger] specs[j]).exported@,
                            ),
                    decreases n - i,
                {
                    let exported = specifiers[i].exported.clone();
                    let local = specifiers[i].local.clone();
                    let step = self.add_re_export(exported, local, rid);
                    match step {
                        Ok(()) => {},
                        Err(e) => {
                            proof {
                                let k = specs[i as int].exported@;
                                if pre.result.named_exports@.dom().contains(k) {
                                    assert(named_decl_dup(pre, specs, dl0, k));
                                } else {
                                    let j = choose|j: int|
                                        0 <= j < i && (#[trigger] specs[j]).exported@ == k;
                                    assert(0 <= j < specs.len());
                                    assert(j < i as int);
                                    assert(specs[j].exported@ == k);
                                    assert(specs[i as int].exported@ == k);
                                    assert(named_decl_dup(pre, specs, dl0, k));
                                }
                            }
                            return Err(e);
                        },
                    }
                    i += 1;
                }
                proof {
                    assert forall|k: Seq<char>| !named_decl_dup(pre, specs, dl0, k) by {
                        if pre.result.named_exports@.dom().contains(k) && named_decl_mentions(
                            specs,
                            dl0,
                            k,
                        ) {
                            let i0 = choose|i0: int|
                                0 <= i0 < specs.len() && (#[trigger] specs[i0]).exported@ == k;
                            assert(false);
                        }
                    }
                }
                Ok(())
            },
            None => {
                let ghost decl_ghost = (match declaration {
                    Some(d) => Some(*d),
                    None => None,
                });
                let ghost dl = decl_export_list(decl_ghost);
                let mut i: usize = 0;
                while i < n
                    invariant
                        0 <= i <= n,
                        n == specs.len(),
                        specs == specifiers@,
                        only_named_exports_changed(pre, *self),
                        forall|k: Seq<char>|
                            #[trigger] self.result.named_exports@.dom().contains(k) <==> (
                            pre.result.named_exports@.dom().contains(k) || exists|j: int|
                                0 <= j < i && (#[trigger] specs[j]).exported@ == k),
                        forall|j: int|
                            0 <= j < i ==> (#[trigger] self.result.named_exports@[specs[j].exported@])@
                                == ExportView::Local(
                                SymbolRef {
                                    owner: pre.id,
                                    symbol: pre.root_bindings@[specs[j].local@],
                                },
                            ),
                        forall|k: Seq<char>|
                            pre.result.named_exports@.dom().contains(k) && (forall|j: int|
                                0 <= j < i ==> (#[trigger] specs[j]).exported@ != k)
                                ==> #[trigger] self.result.named_exports@[k]
                                == pre.result.named_exports@[k],
                        forall|j: int, j2: int|
                            0 <= j < j2 < i ==> (#[trigger] specs[j]).exported@ != (
                            #[trigger] specs[j2]).exported@,
                        forall|j: int|
                            0 <= j < i ==> !pre.result.named_exports@.dom().contains(
                                (#[trigger] specs[j]).exported@,
                            ),
                        forall|j: int|
                            0 <= j < i ==> pre.root_bindings@.dom().contains(
                                (#[trigger] specs[j]).local@,
                            ),
                    decreases n - i,
                {
                    let bind = self.get_root_binding(&specifiers[i].local);
                    let sym: SymbolId;
                    match bind {
                        Ok(sv) => {
                            sym = sv;
                        },
                        Err(e) => {
                            return Err(e);
                        },
                    }
                    let exported = specifiers[i].exported.clone();
                    let step = self.add_local_export(exported, sym);
                    match step {
                        Ok(()) => {},
                        Err(e) => {
                            proof {
                                let k = specs[i as int].exported@;
                                if pre.result.named_exports@.dom().contains(k) {
                                    assert(named_decl_dup(pre, specs, dl, k));
                                } else {
                                    let j = choose|j: int|
                                        0 <= j < i && (#[trigger] specs[j]).exported@ == k;
                                    assert(0 <= j < specs.len());
                                    assert(j < i as int);
                                    assert(specs[j].exported@ == k);
                                    assert(specs[i as int].exported@ == k);
                                    assert(named_decl_dup(pre, specs, dl, k));
                                }
                            }
                            return Err(e);
                        },
                    }
                    i += 1;
                }
                // the attached declaration's own bindings
                let mut dlv: Vec<(String, SymbolId)> = Vec::new();
                match declaration {
                    None => {},
                    Some(ExportedDecl::VarDecl { bindings }) => {
                        let m = bindings.len();
                        let mut j: usize = 0;
                        while j < m
                            invariant
                                0 <= j <= m,
                                m == bindings@.len(),
                                dl == bindings@,
                                dlv@.len() == j,
                                forall|jj: int|
                                    0 <= jj < j ==> (#[trigger] dlv@[jj]).0@ == dl[jj].0@
                                        && dlv@[jj].1 == dl[jj].1,
                            decreases m - j,
                        {
                            let name = bindings[j].0.clone();
                            let symv = bindings[j].1;
                            dlv.push((name, symv));
                            j += 1;
                        }
                    },
                    Some(ExportedDecl::FnDecl { name, symbol }) => {
                        dlv.push((name.clone(), *symbol));
                    },
                    Some(ExportedDecl::ClassDecl { name, symbol }) => {
                        dlv.push((name.clone(), *symbol));
                    },
                    Some(ExportedDecl::Unsupported) => {
                        let idx = self.current_stmt_info.stmt_idx;
                        return Err(ScanError::UnsupportedShape { stmt_idx: idx });
                    },
                }
                proof {
                    assert(dlv@.len() == dl.len());
                    assert(forall|jj: int|
                        0 <= jj < dl.len() ==> (#[trigger] dlv@[jj]).0@ == dl[jj].0@
                            && dlv@[jj].1 == dl[jj].1);
                }
                let m = dlv.len();
                let mut j: usize = 0;
                while j < m
                    invariant
                        0 <= j <= m,
                        n == specs.len(),
                        specs == specifiers@,
                        m == dl.len(),
                        dlv@.len() == dl.len(),
                        forall|jj: int|
                            0 <= jj < dl.len() ==> (#[trigger] dlv@[jj]).0@ == dl[jj].0@
                                && dlv@[jj].1 == dl[jj].1,
                        only_named_exports_changed(pre, *self),
                        forall|k: Seq<char>|
                            #[trigger] self.result.named_exports@.dom().contains(k) <==> (
                            pre.result.named_exports@.dom().contains(k) || (exists|j2: int|
                                0 <= j2 < specs.len() && (#[trigger] specs[j2]).exported@ == k)
                                || (exists|j2: int|
                                0 <= j2 < j && (#[trigger] dl[j2]).0@ == k)),
                        forall|j2: int|
                            0 <= j2 < specs.len() ==> (#[trigger] self.result.named_exports@[specs[j2].exported@])@
                                == ExportView::Local(
                                SymbolRef {
                                    owner: pre.id,
                                    symbol: pre.root_bindings@[specs[j2].local@],
                                },
                            ),
                        forall|j2: int|
                            0 <= j2 < j ==> (#[trigger] self.result.named_exports@[dl[j2].0@])@
                                == ExportView::Local(
                                SymbolRef { owner: pre.id, symbol: dl[j2].1 },
                            ),
                        forall|k: Seq<char>|
                            pre.result.named_exports@.dom().contains(k) && (forall|j2: int|
                                0 <= j2 < specs.len() ==> (#[trigger] specs[j2]).exported@ != k)
                                && (forall|j2: int| 0 <= j2 < j ==> (#[trigger] dl[j2]).0@ != k)
                                ==> #[trigger] self.result.named_exports@[k]
                                == pre.result.named_exports@[k],
                        forall|j2: int, j3: int|
                            0 <= j2 < j3 < specs.len() ==> (#[trigger] specs[j2]).exported@ != (
                            #[trigger] specs[j3]).exported@,
                        forall|j2: int|
                            0 <= j2 < specs.len() ==> !pre.result.named_exports@.dom().contains(
                                (#[trigger] specs[j2]).exported@,
                            ),
                        forall|j2: int|
                            0 <= j2 < specs.len() ==> pre.root_bindings@.dom().contains(
                                (#[trigger] specs[j2]).local@,
                            ),
                        forall|j2: int, j3: int|
                            0 <= j2 < j3 < j ==> (#[trigger] dl[j2]).0@ != (#[trigger] dl[j3]).0@,
                        forall|j2: int|
                            0 <= j2 < j ==> !pre.result.named_exports@.dom().contains(
                                (#[trigger] dl[j2]).0@,
                            ),
                        forall|j2: int, j3: int|
                            0 <= j2 < specs.len() && 0 <= j3 < j ==> (#[trigger] specs[j2]).exported@
                                != (#[trigger] dl[j3]).0@,
                    decreases m - j,
                {
                    let name = dlv[j].0.clone();
                    let symv = dlv[j].1;
                    let step = self.add_local_export(name, symv);
                    match step {
                        Ok(()) => {},
                        Err(e) => {
                            proof {
                                let k = dl[j as int].0@;
                                if pre.result.named_exports@.dom().contains(k) {
                                    assert(named_decl_mentions(specs, dl, k));
                                    assert(named_decl_dup(pre, specs, dl, k));
                                } else if exists|j2: int|
                                    0 <= j2 < specs.len() && (#[trigger] specs[j2]).exported@
                                        == k {
                                    let j2 = choose|j2: int|
                                        0 <= j2 < specs.len() && (#[trigger] specs[j2]).exported@
                                            == k;
                                    assert(specs[j2].exported@ == k && dl[j as int].0@ == k);
                                    assert(named_decl_dup(pre, specs, dl, k));
                                } else {
                                    let j2 = choose|j2: int|
                                        0 <= j2 < j && (#[trigger] dl[j2]).0@ == k;
                                    assert(0 <= j2 < dl.len());
                                    assert(j2 < j as int);
                                    assert(dl[j2].0@ == k);
                                    assert(dl[j as int].0@ == k);
                                    assert(named_decl_dup(pre, specs, dl, k));
                                }
                            }
                            return Err(e);
                        },
                    }
                    j += 1;
                }
                proof {
                    assert forall|k: Seq<char>| !named_decl_dup(pre, specs, dl, k) by {
                        if pre.result.named_exports@.dom().contains(k) && named_decl_mentions(
                            specs,
                            dl,
                            k,
                        ) {
                            assert(false);
                        }
                    }
                    assert forall|k: Seq<char>|
                        #[trigger] self.result.named_exports@.dom().contains(k) <==> (
                        pre.result.named_exports@.dom().contains(k) || named_decl_mentions(
                            specs,
                            dl,
                            k,
                        )) by {}
                }
                Ok(())
            },
        }
    }
}


/// Effect of scanning `export * from 'source'` /
/// `export * as ns from 'source'`.
pub open spec fn export_all_effect(
    pre: Scanner,
    post: Scanner,
    source: Seq<char>,
    exported_as: Option<Seq<char>>,
    r: Result<(), ScanError>,
) -> bool {
    let rid = pre.result.import_records@.len() as int;
    &&& same_scanner_context(pre, post)
    &&& post.result.named_imports == pre.result.named_imports
    &&& post.result.stmt_infos == pre.result.stmt_infos
    &&& post.result.export_default_symbol_id == pre.result.export_default_symbol_id
    &&& post.result.import_records@.len() == rid + 1
    &&& forall|i: int|
        0 <= i < rid ==> #[trigger] post.result.import_records@[i]
            == pre.result.import_records@[i]
    &&& post.result.import_records@[rid]@.module_request == source
    &&& post.result.import_records@[rid]@.resolved_module is None
    &&& post.result.import_records@[rid]@.is_import_namespace == (exported_as is Some)
    &&& match exported_as {
        None => {
            &&& r is Ok
            &&& post.result.star_exports@ == pre.result.star_exports@.push(
                pre.result.import_records@.len() as usize,
            )
            &&& post.result.named_exports == pre.result.named_exports
        },
        Some(name) => {
            &&& post.result.star_exports == pre.result.star_exports
            &&& (r is Ok <==> !pre.result.named_exports@.dom().contains(name))
            &&& match r {
                Ok(()) => {
                    &&& forall|k: Seq<char>|
                        #[trigger] post.result.named_exports@.dom().contains(k) <==> (
                        pre.result.named_exports@.dom().contains(k) || k == name)
                    &&& ((#[trigger] post.result.named_exports@[name])@ matches ExportView::Re(
                        req,
                        rec,
                    ) && req == SpecifierView::Star && rec == rid)
                    &&& forall|k: Seq<char>|
                        pre.result.named_exports@.dom().contains(k) && k != name
                            ==> #[trigger] post.result.named_exports@[k]
                            == pre.result.named_exports@[k]
                },
                Err(e) => post.result.named_exports == pre.result.named_exports && (e matches
                    ScanError::DuplicateExport { name: n } && n@ == name),
            }
        },
    }
}

/// Effect of scanning `export default ...`.
pub open spec fn export_default_effect(
    pre: Scanner,
    post: Scanner,
    kind: DefaultExportKind,
    r: Result<(), ScanError>,
) -> bool {
    &&& post.id == pre.id
    &&& post.root_bindings == pre.root_bindings
    &&& post.unique_name == pre.unique_name
    &&& post.result.named_imports == pre.result.named_imports
    &&& post.result.stmt_infos == pre.result.stmt_infos
    &&& post.result.import_records == pre.result.import_records
    &&& post.result.star_exports == pre.result.star_exports
    &&& match kind {
        DefaultExportKind::Identifier { name, symbol } => match symbol {
            Some(sym) => default_bound_effect(pre, post, sym, r),
            None => {
                &&& post == pre
                &&& (r matches Err(e) && (e matches ScanError::UnboundName { name: n } && n@
                    == name@))
            },
        },
        DefaultExportKind::NamedFunction { symbol } => default_bound_effect(pre, post, symbol, r),
        DefaultExportKind::NamedClass { symbol } => default_bound_effect(pre, post, symbol, r),
        DefaultExportKind::AnonymousValue => {
            let fresh = pre.symbol_table.names@.len() as usize;
            &&& (r is Ok <==> !pre.result.named_exports@.dom().contains(default_name()))
            &&& match r {
                Ok(()) => {
                    &&& post.symbol_table.names@.len() == pre.symbol_table.names@.len() + 1
                    &&& post.symbol_table.names@.drop_last() == pre.symbol_table.names@
                    &&& post.symbol_table.names@.last()@ == sanitized(pre.unique_name@) + "_default"@
                    &&& post.symbol_table.references@ == pre.symbol_table.references@
                    &&& post.current_stmt_info.stmt_idx == pre.current_stmt_info.stmt_idx
                    &&& post.current_stmt_info.declared_symbols@
                        == pre.current_stmt_info.declared_symbols@.push(fresh)
                    &&& post.result.export_default_symbol_id == Some(fresh)
                    &&& named_exports_gained_default(pre, post, fresh)
                },
                Err(e) => post == pre && (e matches ScanError::DuplicateExport { name: n } && n@
                    == default_name()),
            }
        },
        DefaultExportKind::Unsupported => {
            &&& post == pre
            &&& (r matches Err(e) && (e matches ScanError::UnsupportedShape { stmt_idx } && stmt_idx
                == pre.current_stmt_info.stmt_idx))
        },
    }
}

/// Effect of recording the default export on an existing binding.
pub open spec fn default_bound_effect(
    pre: Scanner,
    post: Scanner,
    sym: SymbolId,
    r: Result<(), ScanError>,
) -> bool {
    &&& post.symbol_table == pre.symbol_table
    &&& post.current_stmt_info == pre.current_stmt_info
    &&& (r is Ok <==> !pre.result.named_exports@.dom().contains(default_name()))
    &&& match r {
        Ok(()) => {
            &&& post.result.export_default_symbol_id == Some(sym)
            &&& named_exports_gained_default(pre, post, sym)
        },
        Err(e) => post == pre && (e matches ScanError::DuplicateExport { name: n } && n@
            == default_name()),
    }
}

/// The export table gained exactly the entry `default -> (module, sym)`.
pub open spec fn named_exports_gained_default(pre: Scanner, post: Scanner, sym: SymbolId) -> bool {
    &&& forall|k: Seq<char>|
        #[trigger] post.result.named_exports@.dom().contains(k) <==> (
        pre.result.named_exports@.dom().contains(k) || k == default_name())
    &&& (#[trigger] post.result.named_exports@[default_name()])@ == ExportView::Local(
        SymbolRef { owner: pre.id, symbol: sym },
    )
    &&& forall|k: Seq<char>|
        pre.result.named_exports@.dom().contains(k) && k != default_name()
            ==> #[trigger] post.result.named_exports@[k] == pre.result.named_exports@[k]
}

impl Scanner {
    /// Scans one `export * from 'x'` / `export * as ns from 'x'`
    /// declaration.
    pub fn scan_export_all_decl(&mut self, source: String, exported_as: Option<&String>) -> (r:
        Result<(), ScanError>)
        ensures
            export_all_effect(
                *old(self),
                *final(self),
                source@,
                match exported_as {
                    Some(n) => Some(n@),
                    None => None,
                },
                r,
            ),
    {
        let rid = self.add_import_record(source);
        match exported_as {
            Some(name) => {
                let res = self.add_star_re_export(name.clone(), rid);
                res
            },
            None => {
                self.result.star_exports.push(rid);
                Ok(())
            },
        }
    }

    /// Scans one `export default ...` declaration. For a value without
    /// a name, a synthetic symbol is minted, recorded as declared by
    /// the current statement, and exported as `default`.
    pub fn scan_export_default_decl(&mut self, kind: &DefaultExportKind) -> (r: Result<
        (),
        ScanError,
    >)
        ensures
            export_default_effect(*old(self), *final(self), *kind, r),
    {
        match kind {
            DefaultExportKind::Identifier { name, symbol } => match symbol {
                Some(sym) => self.add_local_default_export(*sym),
                None => Err(ScanError::UnboundName { name: name.clone() }),
            },
            DefaultExportKind::NamedFunction { symbol } => self.add_local_default_export(*symbol),
            DefaultExportKind::NamedClass { symbol } => self.add_local_default_export(*symbol),
            DefaultExportKind::AnonymousValue => {
                let dname = default_export_name();
                if self.result.named_exports.contains_key(dname.as_str()) {
                    return Err(ScanError::DuplicateExport { name: dname });
                }
                let ghost pre_tab = self.symbol_table;
                let base = crate::resource::sanitize_identifier(self.unique_name.as_str());
                let sym_name = base.concat("_default");
                let sym = self.symbol_table.create_symbol(sym_name);
                proof {
                    assert(self.symbol_table.names@.drop_last() =~= pre_tab.names@);
                }
                self.current_stmt_info.declared_symbols.push(sym);
                let res = self.add_local_default_export(sym);
                res
            },
            DefaultExportKind::Unsupported => {
                let idx = self.current_stmt_info.stmt_idx;
                Err(ScanError::UnsupportedShape { stmt_idx: idx })
            },
        }
    }
}


impl Scanner {
    /// Dispatches one top-level statement to its scanning rule. A
    /// statement that is not a module declaration contributes nothing
    /// here.
    pub fn scan_module_decl(&mut self, stmt: &TopStmt) -> (r: Result<(), ScanError>)
        ensures
            match stmt.kind {
                StmtKind::ImportDecl { source, specifiers } => r is Ok && import_decl_effect(
                    *old(self),
                    *final(self),
                    source@,
                    specifiers@,
                ),
                StmtKind::ExportAllDecl { source, exported_as } => export_all_effect(
                    *old(self),
                    *final(self),
                    source@,
                    match exported_as {
                        Some(n) => Some(n@),
                        None => None,
                    },
                    r,
                ),
                StmtKind::ExportNamedDecl { source, specifiers, declaration } => match source {
                    Some(src) => export_named_re_effect(
                        *old(self),
                        *final(self),
                        src@,
                        specifiers@,
                        r,
                    ),
                    None => export_named_local_effect(
                        *old(self),
                        *final(self),
                        specifiers@,
                        declaration,
                        r,
                    ),
                },
                StmtKind::ExportDefaultDecl { kind } => export_default_effect(
                    *old(self),
                    *final(self),
                    kind,
                    r,
                ),
                StmtKind::Other => r is Ok && *final(self) == *old(self),
            },
    {
        match &stmt.kind {
            StmtKind::ImportDecl { source, specifiers } => {
                self.scan_import_decl(source.clone(), specifiers);
                Ok(())
            },
            StmtKind::ExportAllDecl { source, exported_as } => {
                self.scan_export_all_decl(source.clone(), exported_as.as_ref())
            },
            StmtKind::ExportNamedDecl { source, specifiers, declaration } => {
                let src: Option<String> = (match source {
                    Some(s) => Some(s.clone()),
                    None => None,
                });
                self.scan_export_named_decl(src, specifiers, declaration.as_ref())
            },
            StmtKind::ExportDefaultDecl { kind } => self.scan_export_default_decl(kind),
            StmtKind::Other => Ok(()),
        }
    }

    /// Walks the program's top-level statements in order, recording
    /// per-statement declared symbols and scanning every module
    /// declaration. Aborts at the first scan error.
    #[verifier::loop_isolation(false)]
    pub fn visit_program(&mut self, program: &ParsedProgram) -> (r: Result<(), ScanError>)
        requires
            old(self).result.stmt_infos@.len() == 0,
        ensures
            final(self).id == old(self).id,
            final(self).root_bindings == old(self).root_bindings,
            final(self).unique_name == old(self).unique_name,
            old(self).symbol_table.names@.is_prefix_of(final(self).symbol_table.names@),
            final(self).symbol_table.references@ == old(self).symbol_table.references@,
            r is Ok ==> {
                &&& final(self).result.stmt_infos@.len() == program.stmts@.len()
                &&& forall|i: int|
                    0 <= i < program.stmts@.len() ==> (#[trigger] final(self).result.stmt_infos@[i]).stmt_idx == i
                &&& forall|i: int|
                    0 <= i < program.stmts@.len() && !((#[trigger] program.stmts@[i]).kind matches
                        StmtKind::ExportDefaultDecl {
                        kind: DefaultExportKind::AnonymousValue,
                    }) ==> final(self).result.stmt_infos@[i].declared_symbols@
                        == program.stmts@[i].declared@
                &&& forall|i: int|
                    0 <= i < program.stmts@.len() && ((#[trigger] program.stmts@[i]).kind matches
                        StmtKind::ExportDefaultDecl {
                        kind: DefaultExportKind::AnonymousValue,
                    }) ==> final(self).result.stmt_infos@[i].declared_symbols@.len()
                        == program.stmts@[i].declared@.len() + 1 && final(self).result.stmt_infos@[i].declared_symbols@.drop_last()
                        == program.stmts@[i].declared@
            },
    {
        let n = program.stmts.len();
        let mut idx: usize = 0;
        while idx < n
            invariant
                0 <= idx <= n,
                n == program.stmts@.len(),
                self.id == old(self).id,
                self.root_bindings == old(self).root_bindings,
                self.unique_name == old(self).unique_name,
                old(self).symbol_table.names@.is_prefix_of(self.symbol_table.names@),
                self.symbol_table.references@ == old(self).symbol_table.references@,
                self.result.stmt_infos@.len() == idx,
                forall|i: int|
                    0 <= i < idx ==> (#[trigger] self.result.stmt_infos@[i]).stmt_idx == i,
                forall|i: int|
                    0 <= i < idx && !((#[trigger] program.stmts@[i]).kind matches
                        StmtKind::ExportDefaultDecl {
                        kind: DefaultExportKind::AnonymousValue,
                    }) ==> self.result.stmt_infos@[i].declared_symbols@
                        == program.stmts@[i].declared@,
                forall|i: int|
                    0 <= i < idx && ((#[trigger] program.stmts@[i]).kind matches
                        StmtKind::ExportDefaultDecl {
                        kind: DefaultExportKind::AnonymousValue,
                    }) ==> self.result.stmt_infos@[i].declared_symbols@.len()
                        == program.stmts@[i].declared@.len() + 1
                        && self.result.stmt_infos@[i].declared_symbols@.drop_last()
                        == program.stmts@[i].declared@,
            decreases n - idx,
        {
            let declared = copy_ids(&program.stmts[idx].declared);
            self.current_stmt_info = StmtInfo { stmt_idx: idx, declared_symbols: declared };
            let ghost before = *self;
            let step = self.scan_module_decl(&program.stmts[idx]);
            match step {
                Ok(()) => {},
                Err(e) => {
                    return Err(e);
                },
            }
            proof {
                if program.stmts@[idx as int].kind matches StmtKind::ExportDefaultDecl {
                    kind: DefaultExportKind::AnonymousValue,
                } {
                    assert(self.current_stmt_info.declared_symbols@.drop_last()
                        =~= program.stmts@[idx as int].declared@);
                }
            }
            let mut tmp = StmtInfo { stmt_idx: 0, declared_symbols: Vec::new() };
            core::mem::swap(&mut self.current_stmt_info, &mut tmp);
            self.result.stmt_infos.push(tmp);
            idx += 1;
        }
        Ok(())
    }
}

} // verus!
