//! Dense integer handles and the small value types shared by the whole
//! pipeline: symbol references, import records, named imports and the
//! per-module export table entries.

use vstd::prelude::*;

verus! {

/// Dense handle of a module, assigned in first-seen order by the loader.
pub type ModuleId = usize;

/// Dense handle of a declared binding, unique within one module's symbol table.
pub type SymbolId = usize;

/// Dense handle of one textual module request (`import ... from 'x'`).
pub type ImportRecordId = usize;

/// Dense handle of a reference site recorded in a symbol table.
pub type ReferenceId = usize;

/// Globally unique identity of a binding: the module that declared it
/// plus the symbol id inside that module's table.
#[derive(Debug, Clone, Copy, PartialEq, Eq, Structural)]
pub struct SymbolRef {
    pub owner: ModuleId,
    pub symbol: SymbolId,
}

impl SymbolRef {
    pub fn new(owner: ModuleId, symbol: SymbolId) -> (r: SymbolRef)
        ensures
            r.owner == owner,
            r.symbol == symbol,
    {
        SymbolRef { owner, symbol }
    }
}

/// What a named import or re-export asks of the importee: the whole
/// namespace, or one literal exported name.
#[derive(Debug, Clone)]
pub enum Specifier {
    Star,
    Literal(String),
}

impl View for Specifier {
    type V = SpecifierView;

    open spec fn view(&self) -> SpecifierView {
        match self {
            Specifier::Star => SpecifierView::Star,
            Specifier::Literal(name) => SpecifierView::Literal(name@),
        }
    }
}

/// Mathematical model of a `Specifier`.
pub enum SpecifierView {
    Star,
    Literal(Seq<char>),
}

impl Specifier {
    pub fn is_star(&self) -> (r: bool)
        ensures
            r == (self@ is Star),
    {
        match self {
            Specifier::Star => true,
            Specifier::Literal(_) => false,
        }
    }

    pub fn is_default(&self) -> (r: bool)
        ensures
            r == (self@ matches SpecifierView::Literal(n) && n == default_name()),
    {
        proof {
            reveal_strlit("default");
        }
        match self {
            Specifier::Star => false,
            Specifier::Literal(name) => {
                let d: String = default_export_name();
                *name == d
            },
        }
    }
}

/// The exported name that `export default` binds: `"default"`.
pub open spec fn default_name() -> Seq<char> {
    "default"@
}

/// Builds the literal exported name `"default"`.
pub fn default_export_name() -> (r: String)
    ensures
        r@ == default_name(),
{
    proof {
        reveal_strlit("default");
    }
    String::from_str("default")
}

/// One textual module request out of a module, e.g. `./lib.js` in
/// `import { foo } from './lib.js';`. Created unresolved by the scanner
/// and resolved exactly once by the loader.
#[derive(Debug, Clone)]
pub struct ImportRecord {
    /// The literal specifier string as written in the source.
    pub module_request: String,
    /// Destination module, filled in when the loader resolves the request.
    pub resolved_module: Option<ModuleId>,
    /// True for `import * as ns from '...'` and `export * as ns from '...'`.
    pub is_import_namespace: bool,
}

/// Mathematical model of an `ImportRecord`.
pub struct ImportRecordView {
    pub module_request: Seq<char>,
    pub resolved_module: Option<int>,
    pub is_import_namespace: bool,
}

impl View for ImportRecord {
    type V = ImportRecordView;

    open spec fn view(&self) -> ImportRecordView {
        ImportRecordView {
            module_request: self.module_request@,
            resolved_module: match self.resolved_module {
                Some(m) => Some(m as int),
                None => None,
            },
            is_import_namespace: self.is_import_namespace,
        }
    }
}

impl ImportRecord {
    pub fn new(specifier: String) -> (r: ImportRecord)
        ensures
            r@.module_request == specifier@,
            r@.resolved_module is None,
            !r@.is_import_namespace,
    {
        ImportRecord { module_request: specifier, resolved_module: None, is_import_namespace: false }
    }
}

/// A local binding created by an import, e.g. `foo` in
/// `import { foo } from 'x'` or `ns` in `import * as ns from 'x'`.
#[derive(Debug, Clone)]
pub struct NamedImport {
    /// What is requested of the importee.
    pub imported: Specifier,
    /// The local binding the import declares.
    pub imported_as: SymbolRef,
    /// The import record the request travels on.
    pub record_id: ImportRecordId,
}

/// Mathematical model of a `NamedImport`.
pub struct NamedImportView {
    pub imported: SpecifierView,
    pub imported_as: SymbolRef,
    pub record_id: int,
}

impl View for NamedImport {
    type V = NamedImportView;

    open spec fn view(&self) -> NamedImportView {
        NamedImportView {
            imported: self.imported@,
            imported_as: self.imported_as,
            record_id: self.record_id as int,
        }
    }
}

/// An export that directly references a binding of the same module.
#[derive(Debug, Clone)]
pub struct LocalExport {
    pub referenced: SymbolRef,
}

/// An export that forwards a binding of another module:
/// `export {a} from 'x'` or `export * as ns from 'x'`.
#[derive(Debug, Clone)]
pub struct ReExport {
    pub imported: Specifier,
    pub record_id: ImportRecordId,
}

/// One entry of a module's export table.
#[derive(Debug, Clone)]
pub enum LocalOrReExport {
    Local(LocalExport),
    Re(ReExport),
}

/// Mathematical model of a `LocalOrReExport`.
pub enum ExportView {
    Local(SymbolRef),
    Re(SpecifierView, int),
}

impl View for LocalOrReExport {
    type V = ExportView;

    open spec fn view(&self) -> ExportView {
        match self {
            LocalOrReExport::Local(l) => ExportView::Local(l.referenced),
            LocalOrReExport::Re(r) => ExportView::Re(r.imported@, r.record_id as int),
        }
    }
}

/// One resolved entry of a module's post-link export table.
#[derive(Debug, Clone)]
pub struct ResolvedExport {
    pub local_symbol: SymbolRef,
    pub local_ref: ReferenceId,
}

/// Per top-level statement: its index in program order and the symbols
/// it declares at module top level.
#[derive(Debug, Clone)]
pub struct StmtInfo {
    pub stmt_idx: usize,
    pub declared_symbols: Vec<SymbolId>,
}

} // verus!
