//! Modules of the graph: a Normal module owns its scan results and
//! post-link export tables; an External module stands for a source the
//! build does not load and tracks only its import/export surface.

use vstd::prelude::*;

use crate::ids::ImportRecord;
use crate::ids::default_name;
use crate::ids::ImportRecordId;
use crate::ids::LocalOrReExport;
use crate::ids::ModuleId;
use crate::ids::NamedImport;
use crate::ids::ReferenceId;
use crate::ids::ResolvedExport;
use crate::ids::StmtInfo;
use crate::ids::SymbolId;
use crate::ids::SymbolRef;
use crate::maps::IdMap;
use crate::maps::id_assoc_map;
use crate::maps::str_assoc_map;
use crate::maps::StrMap;
use crate::resource::ResourceId;
use crate::symbols::SymbolMap;
use crate::symbols::Symbols;

verus! {

/// The execution-order value of a module that has not been ordered
/// yet.
pub const ORDER_UNASSIGNED: u32 = u32::MAX;

/// A module whose source was loaded, parsed and scanned.
pub struct NormalModule {
    pub id: ModuleId,
    /// Position in the execution order; `ORDER_UNASSIGNED` until the
    /// graph is sorted.
    pub exec_order: u32,
    pub resource_id: ResourceId,
    /// Local symbol id of each import binding, with what it imports.
    pub named_imports: IdMap<NamedImport>,
    /// Exported name to local export or re-export.
    pub named_exports: StrMap<LocalOrReExport>,
    /// Per top-level statement facts, in program order.
    pub stmt_infos: Vec<StmtInfo>,
    /// One record per textual module request.
    pub import_records: Vec<ImportRecord>,
    /// Records of `export * from` edges, in declaration order.
    pub star_exports: Vec<ImportRecordId>,
    /// Exported name to canonical symbol, built by the linker.
    pub resolved_exports: StrMap<ResolvedExport>,
    /// Modules reachable over `export *` edges, built by the linker.
    pub resolved_star_exports: Vec<ModuleId>,
    /// The symbol the module's default export binds, if any.
    pub default_export_symbol: Option<SymbolId>,
    /// The reserved symbol standing for the module's namespace object,
    /// with its reference site.
    pub namespace_symbol: (SymbolRef, ReferenceId),
    /// Set when linked code needs the namespace object materialized.
    pub is_symbol_for_namespace_referenced: bool,
}

/// A module that is not loaded: resolution marked it external.
pub struct ExternalModule {
    pub id: ModuleId,
    pub exec_order: u32,
    pub resource_id: ResourceId,
    pub import_records: Vec<ImportRecord>,
    pub is_symbol_for_namespace_referenced: bool,
    /// Exported name to the symbol minted for it on first use.
    pub symbols_imported_by_others: StrMap<SymbolRef>,
}

/// Every symbol minted for an external module's export is a valid
/// reference owned by that module.
pub open spec fn wf_external(m: ExternalModule, symbols: Symbols) -> bool {
    forall|k: Seq<char>|
        #[trigger] m.symbols_imported_by_others@.dom().contains(k) ==> symbols.valid_ref(
            m.symbols_imported_by_others@[k],
        ) && m.symbols_imported_by_others@[k].owner == m.id
}

impl ExternalModule {
    pub fn new(id: ModuleId, resource_id: ResourceId) -> (r: ExternalModule)
        ensures
            r.id == id,
            r.exec_order == ORDER_UNASSIGNED,
            r.resource_id@ == resource_id@,
            r.import_records@ == Seq::<ImportRecord>::empty(),
            !r.is_symbol_for_namespace_referenced,
            r.symbols_imported_by_others@ == Map::<Seq<char>, SymbolRef>::empty(),
    {
        ExternalModule {
            id,
            exec_order: ORDER_UNASSIGNED,
            resource_id,
            import_records: Vec::new(),
            is_symbol_for_namespace_referenced: false,
            symbols_imported_by_others: StrMap::new(),
        }
    }

    /// The symbol standing for this module's export `exported`,
    /// minting one in the module's table on first use.
    pub fn resolve_export(&mut self, symbols: &mut Symbols, exported: &String) -> (r: SymbolRef)
        requires
            old(symbols).inv(),
            old(self).id < old(symbols).spec_tables().len(),
            wf_external(*old(self), *old(symbols)),
        ensures
            wf_external(*final(self), *final(symbols)),
            final(symbols).inv(),
            final(symbols).spec_tables().len() == old(symbols).spec_tables().len(),
            forall|x: SymbolRef|
                #[trigger] old(symbols).valid_ref(x) ==> final(symbols).valid_ref(x),
            forall|x: SymbolRef|
                old(symbols).valid_ref(x) ==> #[trigger] final(symbols).root_of(x) == old(symbols).root_of(x),
            final(self).id == old(self).id,
            final(self).exec_order == old(self).exec_order,
            final(self).resource_id == old(self).resource_id,
            final(self).import_records == old(self).import_records,
            final(self).is_symbol_for_namespace_referenced == old(self).is_symbol_for_namespace_referenced,
            final(symbols).valid_ref(r),
            r.owner == old(self).id,
            old(self).symbols_imported_by_others@.dom().contains(exported@) ==> r == old(self).symbols_imported_by_others@[exported@] && *final(self) == *old(self) && *final(symbols) == *old(symbols),
            final(self).symbols_imported_by_others@ == old(self).symbols_imported_by_others@.insert(exported@, r),
    {
        let existing = self.symbols_imported_by_others.get(exported.as_str());
        match existing {
            Some(sym) => {
                let r = *sym;
                proof {
                    symbols.lemma_valid_ref_iff(r);
                    assert(old(self).symbols_imported_by_others@.insert(exported@, r) =~= old(self).symbols_imported_by_others@);
                }
                r
            },
            None => {
                let owner = self.id;
                let sym = symbols.create_symbol(owner, exported.clone());
                let r = SymbolRef { owner, symbol: sym };
                self.symbols_imported_by_others.insert(exported.clone(), r);
                r
            },
        }
    }
}

/// A module of the graph: loaded and scanned, or external.
pub enum Module {
    Normal(NormalModule),
    External(ExternalModule),
}

impl Module {
    pub open spec fn spec_id(&self) -> ModuleId {
        match self {
            Module::Normal(m) => m.id,
            Module::External(m) => m.id,
        }
    }

    pub open spec fn spec_exec_order(&self) -> u32 {
        match self {
            Module::Normal(m) => m.exec_order,
            Module::External(m) => m.exec_order,
        }
    }

    pub open spec fn spec_import_records(&self) -> Seq<ImportRecord> {
        match self {
            Module::Normal(m) => m.import_records@,
            Module::External(m) => m.import_records@,
        }
    }

    pub fn id(&self) -> (r: ModuleId)
        ensures
            r == self.spec_id(),
    {
        match self {
            Module::Normal(m) => m.id,
            Module::External(m) => m.id,
        }
    }

    pub fn exec_order(&self) -> (r: u32)
        ensures
            r == self.spec_exec_order(),
    {
        match self {
            Module::Normal(m) => m.exec_order,
            Module::External(m) => m.exec_order,
        }
    }

    pub fn import_records(&self) -> (r: &Vec<ImportRecord>)
        ensures
            r@ == self.spec_import_records(),
    {
        match self {
            Module::Normal(m) => &m.import_records,
            Module::External(m) => &m.import_records,
        }
    }

    /// Assigns the module's position in the execution order.
    pub fn set_exec_order(&mut self, order: u32)
        ensures
            final(self).spec_exec_order() == order,
            final(self).spec_id() == old(self).spec_id(),
            final(self).spec_import_records() == old(self).spec_import_records(),
            (*final(self)) is Normal <==> (*old(self)) is Normal,
            forall|other: u32|
                #[trigger] final(self).with_exec_order(other) == old(self).with_exec_order(other),
    {
        match self {
            Module::Normal(m) => m.exec_order = order,
            Module::External(m) => m.exec_order = order,
        }
    }

    /// This module with its execution order replaced; everything else
    /// identical.
    pub open spec fn with_exec_order(&self, order: u32) -> Module {
        match self {
            Module::Normal(m) => Module::Normal(NormalModule { exec_order: order, ..*m }),
            Module::External(m) => Module::External(ExternalModule { exec_order: order, ..*m }),
        }
    }

    /// Marks the module's namespace object as referenced by linked
    /// code.
    pub fn mark_symbol_for_namespace_referenced(&mut self)
        ensures
            *final(self) == old(self).with_namespace_referenced(),
    {
        match self {
            Module::Normal(m) => m.is_symbol_for_namespace_referenced = true,
            Module::External(m) => m.is_symbol_for_namespace_referenced = true,
        }
    }

    /// This module with its namespace-referenced flag set; everything
    /// else identical.
    pub open spec fn with_namespace_referenced(&self) -> Module {
        match self {
            Module::Normal(m) => Module::Normal(
                NormalModule { is_symbol_for_namespace_referenced: true, ..*m },
            ),
            Module::External(m) => Module::External(
                ExternalModule { is_symbol_for_namespace_referenced: true, ..*m },
            ),
        }
    }

    /// The contained Normal module; calling this on an External module
    /// is a programming-contract violation, ruled out by `requires`.
    pub fn expect_normal(&self) -> (r: &NormalModule)
        requires
            self is Normal,
        ensures
            *self == Module::Normal(*r),
    {
        match self {
            Module::Normal(m) => m,
            Module::External(_) => unreached(),
        }
    }
}

/// Collects the parts of one Normal module while the loader's task
/// pipeline produces them; `build` assembles the module once all are
/// there.
pub struct NormalModuleBuilder {
    pub id: Option<ModuleId>,
    pub path: Option<ResourceId>,
    pub named_imports: Option<IdMap<NamedImport>>,
    pub named_exports: Option<StrMap<LocalOrReExport>>,
    pub stmt_infos: Option<Vec<StmtInfo>>,
    pub import_records: Option<Vec<ImportRecord>>,
    pub star_exports: Option<Vec<ImportRecordId>>,
    pub default_export_symbol: Option<SymbolId>,
    pub namespace_symbol: Option<(SymbolRef, ReferenceId)>,
}

impl NormalModuleBuilder {
    pub fn new() -> (r: NormalModuleBuilder)
        ensures
            r.id is None,
            r.path is None,
            r.named_imports is None,
            r.named_exports is None,
            r.stmt_infos is None,
            r.import_records is None,
            r.star_exports is None,
            r.default_export_symbol is None,
            r.namespace_symbol is None,
    {
        NormalModuleBuilder {
            id: None,
            path: None,
            named_imports: None,
            named_exports: None,
            stmt_infos: None,
            import_records: None,
            star_exports: None,
            default_export_symbol: None,
            namespace_symbol: None,
        }
    }

    /// Reserves the module's namespace-object symbol, named after the
    /// module, and its reference site.
    pub fn initialize_namespace_binding(&mut self, symbol_table: &mut SymbolMap)
        requires
            old(self).path is Some,
            old(self).id is Some,
        ensures
            final(self).namespace_symbol matches Some((sym, refer)) && sym.owner == old(self).id->Some_0 && sym.symbol == old(symbol_table).names@.len() && refer == old(
                symbol_table,
            ).references@.len(),
            final(symbol_table).names@.len() == old(symbol_table).names@.len() + 1,
            final(symbol_table).names@.drop_last() == old(symbol_table).names@,
            final(symbol_table).names@.last()@ == crate::resource::sanitized(
                old(self).path->Some_0@,
            ) + "_ns"@,
            final(symbol_table).references@ == old(symbol_table).references@.push(
                Some(old(symbol_table).names@.len() as usize),
            ),
            final(self).id == old(self).id,
            final(self).path == old(self).path,
            final(self).named_imports == old(self).named_imports,
            final(self).named_exports == old(self).named_exports,
            final(self).stmt_infos == old(self).stmt_infos,
            final(self).import_records == old(self).import_records,
            final(self).star_exports == old(self).star_exports,
            final(self).default_export_symbol == old(self).default_export_symbol,
    {
        let ghost pre_tab = *symbol_table;
        let path_ref = self.path.as_ref().unwrap();
        let base = crate::resource::sanitize_identifier(path_ref.as_str());
        let name = base.concat("_ns");
        let sym = symbol_table.create_symbol(name);
        proof {
            assert(symbol_table.names@.drop_last() =~= pre_tab.names@);
        }
        let refer = symbol_table.create_reference(Some(sym));
        let owner = self.id.unwrap();
        self.namespace_symbol = Some((SymbolRef { owner, symbol: sym }, refer));
    }

    /// Assembles the module. Every part must be present; a missing
    /// part is a programming-contract violation, ruled out by
    /// `requires`.
    pub fn build(self) -> (r: NormalModule)
        requires
            self.id is Some,
            self.path is Some,
            self.named_imports is Some,
            self.named_exports is Some,
            self.stmt_infos is Some,
            self.import_records is Some,
            self.star_exports is Some,
            self.namespace_symbol is Some,
        ensures
            r.id == self.id->Some_0,
            r.exec_order == ORDER_UNASSIGNED,
            r.resource_id == self.path->Some_0,
            r.named_imports == self.named_imports->Some_0,
            r.named_exports == self.named_exports->Some_0,
            r.stmt_infos == self.stmt_infos->Some_0,
            r.import_records == self.import_records->Some_0,
            r.star_exports == self.star_exports->Some_0,
            r.resolved_exports@ == Map::<Seq<char>, ResolvedExport>::empty(),
            r.resolved_star_exports@ == Seq::<ModuleId>::empty(),
            r.default_export_symbol == self.default_export_symbol,
            r.namespace_symbol == self.namespace_symbol->Some_0,
            !r.is_symbol_for_namespace_referenced,
    {
        NormalModule {
            id: self.id.unwrap(),
            exec_order: ORDER_UNASSIGNED,
            resource_id: self.path.unwrap(),
            named_imports: self.named_imports.unwrap(),
            named_exports: self.named_exports.unwrap(),
            stmt_infos: self.stmt_infos.unwrap(),
            import_records: self.import_records.unwrap(),
            star_exports: self.star_exports.unwrap(),
            resolved_exports: StrMap::new(),
            resolved_star_exports: Vec::new(),
            default_export_symbol: self.default_export_symbol,
            namespace_symbol: self.namespace_symbol.unwrap(),
            is_symbol_for_namespace_referenced: false,
        }
    }
}


/// The literal name a specifier requests, or the empty string for a
/// namespace request.
pub open spec fn literal_of_specifier(s: crate::ids::Specifier) -> Seq<char> {
    match s {
        crate::ids::Specifier::Literal(n) => n@,
        crate::ids::Specifier::Star => Seq::empty(),
    }
}

/// The literal name an export entry forwards, or the empty string.
pub open spec fn literal_of_export(e: LocalOrReExport) -> Seq<char> {
    match e {
        LocalOrReExport::Re(re) => literal_of_specifier(re.imported),
        LocalOrReExport::Local(_) => Seq::empty(),
    }
}

/// Every name a module's tables mention: its exported names, the
/// literal names its re-exports forward, and the literal names its
/// imports request.
pub open spec fn module_name_list(m: Module) -> Seq<Seq<char>> {
    match m {
        Module::Normal(nm) => nm.named_exports.spec_entries().map_values(
            |p: (String, LocalOrReExport)| p.0@,
        ) + nm.named_exports.spec_entries().map_values(
            |p: (String, LocalOrReExport)| literal_of_export(p.1),
        ) + nm.named_imports.spec_entries().map_values(
            |p: (usize, NamedImport)| literal_of_specifier(p.1.imported),
        ),
        Module::External(_) => Seq::empty(),
    }
}

/// Every name any module of the graph mentions.
pub open spec fn graph_name_set(ms: Seq<Module>) -> Set<Seq<char>>
    decreases ms.len(),
{
    if ms.len() == 0 {
        Set::empty()
    } else {
        graph_name_set(ms.drop_last()).union(module_name_list(ms.last()).to_set())
    }
}

proof fn lemma_graph_name_set_finite(ms: Seq<Module>)
    ensures
        graph_name_set(ms).finite(),
    decreases ms.len(),
{
    broadcast use vstd::seq_lib::seq_to_set_is_finite;

    if ms.len() > 0 {
        lemma_graph_name_set_finite(ms.drop_last());
    }
}

proof fn lemma_graph_name_set_contains(ms: Seq<Module>, mid: int, n: Seq<char>)
    requires
        0 <= mid < ms.len(),
        module_name_list(ms[mid]).contains(n),
    ensures
        graph_name_set(ms).contains(n),
    decreases ms.len(),
{
    if mid == ms.len() - 1 {
        assert(module_name_list(ms.last()).to_set().contains(n));
    } else {
        assert(ms.drop_last()[mid] == ms[mid]);
        lemma_graph_name_set_contains(ms.drop_last(), mid, n);
    }
}

/// All (module id, name) pairs with the id below `m` and the name in
/// `names`.
pub open spec fn pair_universe(m: nat, names: Set<Seq<char>>) -> Set<(int, Seq<char>)>
    decreases m,
{
    if m == 0 {
        Set::empty()
    } else {
        pair_universe((m - 1) as nat, names).union(
            names.map(|n: Seq<char>| (((m - 1) as int), n)),
        )
    }
}

proof fn lemma_pair_universe(m: nat, names: Set<Seq<char>>)
    requires
        names.finite(),
    ensures
        pair_universe(m, names).finite(),
        forall|p: (int, Seq<char>)|
            #[trigger] pair_universe(m, names).contains(p) <==> (0 <= p.0 < m && names.contains(
                p.1,
            )),
    decreases m,
{
    if m > 0 {
        lemma_pair_universe((m - 1) as nat, names);
        names.lemma_map_finite(|n: Seq<char>| (((m - 1) as int), n));
        assert forall|p: (int, Seq<char>)|
            #[trigger] pair_universe(m, names).contains(p) implies (0 <= p.0 < m
            && names.contains(p.1)) by {
            if !pair_universe((m - 1) as nat, names).contains(p) {
                let f = |n: Seq<char>| (((m - 1) as int), n);
                assert(names.map(f).contains(p));
                let a = choose|a: Seq<char>| names.contains(a) && f(a) == p;
                assert(p.0 == m - 1 && names.contains(p.1));
            }
        }
        assert forall|p: (int, Seq<char>)|
            (0 <= p.0 < m && names.contains(p.1)) implies #[trigger] pair_universe(
            m,
            names,
        ).contains(p) by {
            if p.0 == m - 1 {
                let f = |n: Seq<char>| (((m - 1) as int), n);
                assert(f(p.1) == p);
                assert(names.map(f).contains(p));
            }
        }
    }
}

/// The names of the pairs of a resolution stack.
pub open spec fn rset_names(rset: Seq<(int, Seq<char>)>) -> Set<Seq<char>> {
    rset.map_values(|p: (int, Seq<char>)| p.1).to_set()
}

/// The pair universe a resolution of `name` moves in.
pub open spec fn resolve_universe(
    ms: Seq<Module>,
    rset: Seq<(int, Seq<char>)>,
    name: Seq<char>,
) -> Set<(int, Seq<char>)> {
    pair_universe(ms.len(), graph_name_set(ms).union(rset_names(rset)).insert(name))
}

/// A resolution stack is well formed: distinct pairs, every module id
/// in range.
pub open spec fn wf_rset(ms: Seq<Module>, rset: Seq<(int, Seq<char>)>) -> bool {
    &&& rset.no_duplicates()
    &&& forall|i: int| 0 <= i < rset.len() ==> 0 <= (#[trigger] rset[i]).0 < ms.len()
}

/// Termination measure of export resolution: how many pairs of the
/// universe the stack has not yet visited.
pub open spec fn resolve_measure(
    ms: Seq<Module>,
    rset: Seq<(int, Seq<char>)>,
    name: Seq<char>,
) -> int {
    resolve_universe(ms, rset, name).len() - rset.len()
}

proof fn lemma_rset_in_universe(ms: Seq<Module>, rset: Seq<(int, Seq<char>)>, name: Seq<char>)
    requires
        wf_rset(ms, rset),
    ensures
        resolve_measure(ms, rset, name) >= 0,
{
    broadcast use vstd::seq_lib::seq_to_set_is_finite;

    let names = graph_name_set(ms).union(rset_names(rset)).insert(name);
    lemma_graph_name_set_finite(ms);
    lemma_pair_universe(ms.len() as nat, names);
    let u = resolve_universe(ms, rset, name);
    let pairs = rset.map_values(|p: (int, Seq<char>)| p.1);
    assert forall|i: int| 0 <= i < rset.len() implies u.contains(#[trigger] rset[i]) by {
        assert(pairs[i] == rset[i].1);
        assert(pairs.contains(rset[i].1));
        assert(rset_names(rset).contains(rset[i].1));
        assert(names.contains(rset[i].1));
    }
    rset.unique_seq_to_set();
    assert(rset.to_set().subset_of(u));
    vstd::set_lib::lemma_len_subset(rset.to_set(), u);
}

/// Pushing the pair currently being resolved onto the stack leaves the
/// universe unchanged and shrinks the measure, provided the next name
/// is one the graph mentions.
proof fn lemma_measure_step(
    ms: Seq<Module>,
    rset: Seq<(int, Seq<char>)>,
    mid: int,
    name: Seq<char>,
    next: Seq<char>,
)
    requires
        wf_rset(ms, rset),
        0 <= mid < ms.len(),
        !rset.contains((mid, name)),
        graph_name_set(ms).contains(next) || next == name,
    ensures
        wf_rset(ms, rset.push((mid, name))),
        resolve_universe(ms, rset.push((mid, name)), next) == resolve_universe(ms, rset, name),
        resolve_measure(ms, rset.push((mid, name)), next) < resolve_measure(ms, rset, name),
        resolve_measure(ms, rset.push((mid, name)), next) >= 0,
{
    broadcast use vstd::seq_lib::seq_to_set_is_finite;

    let rset2 = rset.push((mid, name));
    assert(rset2.no_duplicates()) by {
        assert(forall|i: int| 0 <= i < rset.len() ==> rset[i] == rset2[i]);
        assert(rset2.last() == (mid, name));
    }
    assert(wf_rset(ms, rset2));
    let names1 = graph_name_set(ms).union(rset_names(rset)).insert(name);
    let names2 = graph_name_set(ms).union(rset_names(rset2)).insert(next);
    assert(names1 =~= names2) by {
        let pairs1 = rset.map_values(|p: (int, Seq<char>)| p.1);
        let pairs2 = rset2.map_values(|p: (int, Seq<char>)| p.1);
        assert(pairs2 =~= pairs1.push(name));
        assert forall|x: Seq<char>| names1.contains(x) implies names2.contains(x) by {
            if x == name {
                assert(pairs2[pairs1.len() as int] == name);
                assert(pairs2.contains(name));
                assert(rset_names(rset2).contains(name));
            } else if rset_names(rset).contains(x) {
                assert(pairs1.contains(x));
                let i = choose|i: int| 0 <= i < pairs1.len() && pairs1[i] == x;
                assert(pairs2[i] == x);
                assert(pairs2.contains(x));
                assert(rset_names(rset2).contains(x));
            }
        }
        assert forall|x: Seq<char>| names2.contains(x) implies names1.contains(x) by {
            if x == next {
            } else if rset_names(rset2).contains(x) {
                assert(pairs2.contains(x));
                let i = choose|i: int| 0 <= i < pairs2.len() && pairs2[i] == x;
                if i < pairs1.len() {
                    assert(pairs1[i] == x);
                    assert(pairs1.contains(x));
                    assert(rset_names(rset).contains(x));
                } else {
                    assert(x == name);
                }
            }
        }
    }
    assert(resolve_universe(ms, rset2, next) == resolve_universe(ms, rset, name));
    lemma_rset_in_universe(ms, rset2, next);
}


/// Outcome of resolving one exported name, per the ECMAScript
/// `ResolveExport` abstract operation with two loud failure cases:
/// a self-referential re-export cycle and a chain that runs through an
/// external module.
pub enum ResolutionSpec {
    NotFound,
    Ambiguous,
    Found(SymbolRef),
    Cycle(int, Seq<char>),
    External(int, Seq<char>),
}

/// The import records of a Normal module are all resolved in range,
/// and every table handle is in range.
pub open spec fn wf_module_refs(m: NormalModule, n: int) -> bool {
    &&& forall|i: int|
        0 <= i < m.import_records@.len() ==> ((#[trigger] m.import_records@[i])@.resolved_module
            matches Some(t) && 0 <= t < n)
    &&& forall|i: int|
        0 <= i < m.star_exports@.len() ==> (#[trigger] m.star_exports@[i])
            < m.import_records@.len()
    &&& forall|k: int|
        m.named_imports@.dom().contains(k) ==> (#[trigger] m.named_imports@[k]).record_id
            < m.import_records@.len()
    &&& forall|k: Seq<char>|
        m.named_exports@.dom().contains(k) ==> match #[trigger] m.named_exports@[k] {
            LocalOrReExport::Re(re) => re.record_id < m.import_records@.len(),
            LocalOrReExport::Local(_) => true,
        }
}

/// A fully loaded and resolved graph: module ids are their positions
/// and every Normal module's handles are in range.
pub open spec fn wf_linked(ms: Seq<Module>) -> bool {
    forall|i: int|
        0 <= i < ms.len() ==> (#[trigger] ms[i]).spec_id() == i && match ms[i] {
            Module::Normal(nm) => wf_module_refs(nm, ms.len() as int),
            Module::External(em) => forall|j: int|
                0 <= j < em.import_records@.len() ==> ((
                #[trigger] em.import_records@[j])@.resolved_module matches Some(t) && 0 <= t
                    < ms.len()),
        }
}

/// Every symbol reference a module's tables hold is valid in the
/// symbol store.
pub open spec fn wf_symbol_refs(ms: Seq<Module>, symbols: Symbols) -> bool {
    forall|i: int|
        0 <= i < ms.len() ==> match #[trigger] ms[i] {
            Module::Normal(nm) => {
                &&& symbols.valid_ref(nm.namespace_symbol.0)
                &&& forall|k: Seq<char>|
                    nm.named_exports@.dom().contains(k) ==> match #[trigger] nm.named_exports@[k] {
                        LocalOrReExport::Local(l) => symbols.valid_ref(l.referenced),
                        LocalOrReExport::Re(_) => true,
                    }
                &&& forall|k: int|
                    #[trigger] nm.named_imports@.dom().contains(k) ==> symbols.valid_ref(
                        nm.named_imports@[k].imported_as,
                    )
            },
            Module::External(em) => wf_external(em, symbols),
        }
}

/// Resolves `name` on module `mid`, per `ResolveExport`: a direct
/// entry resolves locally or through its import; `default` is never
/// satisfied by stars; otherwise the star exports are consulted and
/// two distinct hits are ambiguous.
pub open spec fn resolve_export_spec(
    ms: Seq<Module>,
    mid: int,
    name: Seq<char>,
    rset: Seq<(int, Seq<char>)>,
) -> ResolutionSpec
    decreases resolve_measure(ms, rset, name), 0int, 0int
        when wf_linked(ms) && wf_rset(ms, rset) && 0 <= mid < ms.len() && (ms[mid] matches
    Module::Normal(..))
        via resolve_export_spec_dec
{
    let m = ms[mid]->Normal_0;
    if rset.contains((mid, name)) {
        ResolutionSpec::Cycle(mid, name)
    } else {
        let rset2 = rset.push((mid, name));
        if m.named_exports@.dom().contains(name) {
            match m.named_exports@[name] {
                LocalOrReExport::Local(local) => {
                    if m.named_imports@.dom().contains(local.referenced.symbol as int) {
                        let ni = m.named_imports@[local.referenced.symbol as int];
                        let importee =
                            m.import_records@[ni.record_id as int]@.resolved_module->Some_0;
                        if ms[importee] matches Module::Normal(..) {
                            match ni.imported {
                                crate::ids::Specifier::Star => ResolutionSpec::Found(
                                    ms[importee]->Normal_0.namespace_symbol.0,
                                ),
                                crate::ids::Specifier::Literal(n2) => resolve_export_spec(
                                    ms,
                                    importee,
                                    n2@,
                                    rset2,
                                ),
                            }
                        } else {
                            ResolutionSpec::External(mid, name)
                        }
                    } else {
                        ResolutionSpec::Found(local.referenced)
                    }
                },
                LocalOrReExport::Re(re) => {
                    let importee = m.import_records@[re.record_id as int]@.resolved_module->Some_0;
                    if ms[importee] matches Module::Normal(..) {
                        match re.imported {
                            crate::ids::Specifier::Star => ResolutionSpec::Found(
                                ms[importee]->Normal_0.namespace_symbol.0,
                            ),
                            crate::ids::Specifier::Literal(n2) => resolve_export_spec(
                                ms,
                                importee,
                                n2@,
                                rset2,
                            ),
                        }
                    } else {
                        ResolutionSpec::External(mid, name)
                    }
                },
            }
        } else if name == default_name() {
            ResolutionSpec::NotFound
        } else {
            star_resolve_spec(ms, mid, 0, name, rset2, Option::<SymbolRef>::None)
        }
    }
}

/// Walks the star-export list of `mid` from position `idx`, resolving
/// `name` in each target; `acc` carries the single hit seen so far.
pub open spec fn star_resolve_spec(
    ms: Seq<Module>,
    mid: int,
    idx: int,
    name: Seq<char>,
    rset: Seq<(int, Seq<char>)>,
    acc: Option<SymbolRef>,
) -> ResolutionSpec
    decreases resolve_measure(ms, rset, name), 1int, ms[mid]->Normal_0.star_exports@.len() - idx
        when wf_linked(ms) && wf_rset(ms, rset) && 0 <= mid < ms.len() && (ms[mid] matches
    Module::Normal(..)) && 0 <= idx <= ms[mid]->Normal_0.star_exports@.len()
        via star_resolve_spec_dec
{
    let m = ms[mid]->Normal_0;
    if idx >= m.star_exports@.len() {
        match acc {
            Option::Some(s) => ResolutionSpec::Found(s),
            Option::None => ResolutionSpec::NotFound,
        }
    } else {
        let importee = m.import_records@[m.star_exports@[idx] as int]@.resolved_module->Some_0;
        if ms[importee] matches Module::Normal(..) {
            match resolve_export_spec(ms, importee, name, rset) {
                ResolutionSpec::NotFound => star_resolve_spec(ms, mid, idx + 1, name, rset, acc),
                ResolutionSpec::Ambiguous => ResolutionSpec::Ambiguous,
                ResolutionSpec::Found(s) => match acc {
                    Option::Some(prev) => if prev == s {
                        star_resolve_spec(ms, mid, idx + 1, name, rset, acc)
                    } else {
                        ResolutionSpec::Ambiguous
                    },
                    Option::None => star_resolve_spec(ms, mid, idx + 1, name, rset, Some(s)),
                },
                ResolutionSpec::Cycle(a, b) => ResolutionSpec::Cycle(a, b),
                ResolutionSpec::External(e, en) => ResolutionSpec::External(e, en),
            }
        } else {
            ResolutionSpec::External(mid, name)
        }
    }
}

#[via_fn]
proof fn resolve_export_spec_dec(
    ms: Seq<Module>,
    mid: int,
    name: Seq<char>,
    rset: Seq<(int, Seq<char>)>,
) {
    let m = ms[mid]->Normal_0;
    if !rset.contains((mid, name)) {
        let rset2 = rset.push((mid, name));
        if m.named_exports@.dom().contains(name) {
            match m.named_exports@[name] {
                LocalOrReExport::Local(local) => {
                    if m.named_imports@.dom().contains(local.referenced.symbol as int) {
                        let ni = m.named_imports@[local.referenced.symbol as int];
                        match ni.imported {
                            crate::ids::Specifier::Star => {},
                            crate::ids::Specifier::Literal(n2) => {
                                lemma_literal_in_graph_names_import(ms, mid, local.referenced.symbol as int);
                                lemma_measure_step(ms, rset, mid, name, n2@);
                            },
                        }
                    }
                },
                LocalOrReExport::Re(re) => {
                    match re.imported {
                        crate::ids::Specifier::Star => {},
                        crate::ids::Specifier::Literal(n2) => {
                            lemma_literal_in_graph_names_export(ms, mid, name);
                            lemma_measure_step(ms, rset, mid, name, n2@);
                        },
                    }
                },
            }
        } else if name == default_name() {
        } else {
            lemma_measure_step(ms, rset, mid, name, name);
        }
    }
}

#[via_fn]
proof fn star_resolve_spec_dec(
    ms: Seq<Module>,
    mid: int,
    idx: int,
    name: Seq<char>,
    rset: Seq<(int, Seq<char>)>,
    acc: Option<SymbolRef>,
) {
}

/// The literal name an import of `m` requests is one the graph
/// mentions.
proof fn lemma_literal_in_graph_names_import(ms: Seq<Module>, mid: int, sym: int)
    requires
        0 <= mid < ms.len(),
        ms[mid] matches Module::Normal(nm) && nm.named_imports@.dom().contains(sym),
    ensures
        graph_name_set(ms).contains(
            literal_of_specifier(ms[mid]->Normal_0.named_imports@[sym].imported),
        ),
{
    let nm = ms[mid]->Normal_0;
    nm.named_imports.lemma_view();
    crate::maps::lemma_id_assoc_last_entry(nm.named_imports.spec_entries(), sym);
    let i = choose|i: int|
        0 <= i < nm.named_imports.spec_entries().len() && (#[trigger] nm.named_imports.spec_entries()[i]).0
            == sym && id_assoc_map(nm.named_imports.spec_entries())[sym]
            == nm.named_imports.spec_entries()[i].1;
    let lst = module_name_list(ms[mid]);
    let a = nm.named_exports.spec_entries().len() as int;
    assert(lst[2 * a + i] == literal_of_specifier(nm.named_imports.spec_entries()[i].1.imported));
    assert(nm.named_imports.spec_entries()[i].1 == nm.named_imports@[sym]);
    assert(lst.contains(literal_of_specifier(nm.named_imports@[sym].imported)));
    lemma_graph_name_set_contains(ms, mid, literal_of_specifier(nm.named_imports@[sym].imported));
}

/// The literal name a re-export entry of `m` forwards is one the graph
/// mentions.
proof fn lemma_literal_in_graph_names_export(ms: Seq<Module>, mid: int, k: Seq<char>)
    requires
        0 <= mid < ms.len(),
        ms[mid] matches Module::Normal(nm) && nm.named_exports@.dom().contains(k),
    ensures
        graph_name_set(ms).contains(literal_of_export(ms[mid]->Normal_0.named_exports@[k])),
{
    let nm = ms[mid]->Normal_0;
    nm.named_exports.lemma_view();
    crate::maps::lemma_str_assoc_last_entry(nm.named_exports.spec_entries(), k);
    let i = choose|i: int|
        0 <= i < nm.named_exports.spec_entries().len() && (#[trigger] nm.named_exports.spec_entries()[i]).0@
            == k && str_assoc_map(nm.named_exports.spec_entries())[k]
            == nm.named_exports.spec_entries()[i].1;
    let lst = module_name_list(ms[mid]);
    let a = nm.named_exports.spec_entries().len() as int;
    assert(lst[a + i] == literal_of_export(nm.named_exports.spec_entries()[i].1));
    assert(nm.named_exports.spec_entries()[i].1 == nm.named_exports@[k]);
    assert(lst.contains(literal_of_export(nm.named_exports@[k])));
    lemma_graph_name_set_contains(ms, mid, literal_of_export(nm.named_exports@[k]));
}


/// Outcome of resolving an exported name: no binding, several
/// equally valid bindings, or one concrete binding.
#[derive(Debug, Clone, Copy, PartialEq, Eq, Structural)]
pub enum Resolution {
    NotFound,
    Ambiguous,
    Found(SymbolRef),
}

/// The view of an executable resolution stack.
pub open spec fn rset_view(s: Seq<(ModuleId, String)>) -> Seq<(int, Seq<char>)> {
    s.map_values(|p: (ModuleId, String)| (p.0 as int, p.1@))
}

/// The exec result `r` is what the resolution spec `out` prescribes;
/// an error names the module it was detected on and the name under
/// resolution there.
pub open spec fn resolution_matches(
    ms: Seq<Module>,
    r: Result<Resolution, crate::error::Error>,
    out: ResolutionSpec,
) -> bool {
    match r {
        Ok(res) => match res {
            Resolution::NotFound => out is NotFound,
            Resolution::Ambiguous => out is Ambiguous,
            Resolution::Found(s) => out == ResolutionSpec::Found(s),
        },
        Err(e) => match out {
            ResolutionSpec::Cycle(cm, cn) => (e matches crate::error::Error::CircularReexport {
                exporter,
                export_name,
            } && export_name@ == cn && 0 <= cm < ms.len() && ms[cm] is Normal && exporter@
                == ms[cm]->Normal_0.resource_id@),
            ResolutionSpec::External(em, en) => (e matches crate::error::Error::ExternalExport {
                exporter,
                export_name,
            } && export_name@ == en && 0 <= em < ms.len() && ms[em] is Normal && exporter@
                == ms[em]->Normal_0.resource_id@),
            _ => false,
        },
    }
}

/// The symbol store evolved only by merging classes: same tables, same
/// valid references, well-formed, and every merge kept.
pub open spec fn symbols_evolved(pre: Symbols, post: Symbols) -> bool {
    &&& post.inv()
    &&& post.spec_tables() == pre.spec_tables()
    &&& forall|x: SymbolRef| pre.valid_ref(x) <==> post.valid_ref(x)
    &&& forall|a: SymbolRef, b: SymbolRef|
        pre.valid_ref(a) && pre.valid_ref(b) && #[trigger] pre.equiv(a, b) ==> post.equiv(a, b)
}

impl NormalModule {
    /// Resolves `export_name` on this module, per the ECMAScript
    /// `ResolveExport` operation: a direct entry resolves locally or
    /// through its import (merging the aliased symbols), `default` is
    /// never satisfied by star exports, and otherwise every star
    /// target is consulted, two distinct hits being ambiguous. A
    /// self-referential re-export and a chain through an external
    /// module are errors.
    #[verifier::loop_isolation(false)]
    #[verifier::rlimit(60)]
    pub fn resolve_export(
        &self,
        export_name: &String,
        resolve_set: &mut Vec<(ModuleId, String)>,
        modules: &Vec<Module>,
        symbols: &mut Symbols,
    ) -> (r: Result<Resolution, crate::error::Error>)
        requires
            wf_linked(modules@),
            wf_symbol_refs(modules@, *old(symbols)),
            old(symbols).inv(),
            self.id < modules@.len(),
            modules@[self.id as int] == Module::Normal(*self),
            wf_rset(modules@, rset_view(old(resolve_set)@)),
        ensures
            final(resolve_set)@ == old(resolve_set)@,
            symbols_evolved(*old(symbols), *final(symbols)),
            wf_symbol_refs(modules@, *final(symbols)),
            resolution_matches(
                modules@,
                r,
                resolve_export_spec(
                    modules@,
                    self.id as int,
                    export_name@,
                    rset_view(old(resolve_set)@),
                ),
            ),
            r matches Ok(Resolution::Found(s)) ==> final(symbols).valid_ref(s),
            r matches Ok(Resolution::Found(s)) ==> ((self.named_exports@.dom().contains(
                export_name@,
            ) && self.named_exports@[export_name@] is Local) ==> final(symbols).equiv(
                self.named_exports@[export_name@]->Local_0.referenced,
                s,
            )),
        decreases resolve_measure(modules@, rset_view(old(resolve_set)@), export_name@), 2int,
    {
        let ghost ms = modules@;
        let ghost mid = self.id as int;
        let ghost rset0 = rset_view(old(resolve_set)@);
        let ghost name0 = export_name@;
        // cycle guard over the resolution stack
        let n = resolve_set.len();
        let mut i: usize = 0;
        while i < n
            invariant
                0 <= i <= n,
                n == resolve_set@.len(),
                resolve_set@ == old(resolve_set)@,
                forall|j: int| 0 <= j < i ==> #[trigger] rset0[j] != (mid, name0),
            decreases n - i,
        {
            let hit = resolve_set[i].0 == self.id && crate::maps::str_eq(
                resolve_set[i].1.as_str(),
                export_name.as_str(),
            );
            if hit {
                proof {
                    assert(rset0[i as int] == (mid, name0));
                    assert(rset0.contains((mid, name0)));
                }
                return Err(
                    crate::error::Error::CircularReexport {
                        exporter: self.resource_id.as_str().to_owned(),
                        export_name: export_name.clone(),
                    },
                );
            }
            proof {
                assert(rset0[i as int] == (resolve_set@[i as int].0 as int,
                    resolve_set@[i as int].1@));
            }
            i += 1;
        }
        proof {
            assert(forall|j: int| 0 <= j < rset0.len() ==> #[trigger] rset0[j] != (mid, name0));
            assert(!rset0.contains((mid, name0)));
        }
        resolve_set.push((self.id, export_name.clone()));
        let ghost full = resolve_set@;
        let ghost rset2 = rset_view(resolve_set@);
        proof {
            assert(rset2 =~= rset0.push((mid, name0)));
        }
        let ret: Result<Resolution, crate::error::Error>;
        let entry = self.named_exports.get(export_name.as_str());
        match entry {
            Some(info) => {
                match info {
                    LocalOrReExport::Local(local) => {
                        let ni = self.named_imports.get(local.referenced.symbol);
                        match ni {
                            Some(named_import) => {
                                let rec = &self.import_records[named_import.record_id];
                                let importee_id = rec.resolved_module.unwrap();
                                match &modules[importee_id] {
                                    Module::Normal(importee) => {
                                        let resolved: Result<Resolution, crate::error::Error>;
                                        match &named_import.imported {
                                            crate::ids::Specifier::Star => {
                                                resolved = Ok(
                                                    Resolution::Found(importee.namespace_symbol.0),
                                                );
                                            },
                                            crate::ids::Specifier::Literal(name2) => {
                                                proof {
                                                    lemma_literal_in_graph_names_import(
                                                        ms,
                                                        mid,
                                                        local.referenced.symbol as int,
                                                    );
                                                    lemma_measure_step(
                                                        ms,
                                                        rset0,
                                                        mid,
                                                        name0,
                                                        name2@,
                                                    );
                                                }
                                                resolved = importee.resolve_export(
                                                    name2,
                                                    resolve_set,
                                                    modules,
                                                    symbols,
                                                );
                                            },
                                        }
                                        match &resolved {
                                            Ok(res) => match res {
                                                Resolution::Found(exist) => {
                                                    proof {
                                                        symbols.lemma_valid_ref_iff(
                                                            local.referenced,
                                                        );
                                                    }
                                                    symbols.union(local.referenced, *exist);
                                                },
                                                _ => {},
                                            },
                                            Err(_) => {},
                                        }
                                        ret = resolved;
                                    },
                                    Module::External(_) => {
                                        ret = Err(
                                            crate::error::Error::ExternalExport {
                                                exporter: self.resource_id.as_str().to_owned(),
                                                export_name: export_name.clone(),
                                            },
                                        );
                                    },
                                }
                            },
                            None => {
                                ret = Ok(Resolution::Found(local.referenced));
                            },
                        }
                    },
                    LocalOrReExport::Re(re) => {
                        let rec = &self.import_records[re.record_id];
                        let importee_id = rec.resolved_module.unwrap();
                        match &modules[importee_id] {
                            Module::Normal(importee) => {
                                match &re.imported {
                                    crate::ids::Specifier::Star => {
                                        ret = Ok(Resolution::Found(importee.namespace_symbol.0));
                                    },
                                    crate::ids::Specifier::Literal(name2) => {
                                        proof {
                                            lemma_literal_in_graph_names_export(ms, mid, name0);
                                            lemma_measure_step(ms, rset0, mid, name0, name2@);
                                        }
                                        ret = importee.resolve_export(
                                            name2,
                                            resolve_set,
                                            modules,
                                            symbols,
                                        );
                                    },
                                }
                            },
                            Module::External(_) => {
                                ret = Err(
                                    crate::error::Error::ExternalExport {
                                        exporter: self.resource_id.as_str().to_owned(),
                                        export_name: export_name.clone(),
                                    },
                                );
                            },
                        }
                    },
                }
            },
            None => {
                let dname = crate::ids::default_export_name();
                if *export_name == dname {
                    ret = Ok(Resolution::NotFound);
                } else {
                    proof {
                        lemma_measure_step(ms, rset0, mid, name0, name0);
                    }
                    let mut star_resolution: Option<SymbolRef> = None;
                    let mut outcome: Option<Result<Resolution, crate::error::Error>> = None;
                    let sn = self.star_exports.len();
                    let mut si: usize = 0;
                    while si < sn
                        invariant
                            0 <= si <= sn,
                            sn == self.star_exports@.len(),
                            resolve_set@ == full,
                            symbols_evolved(*old(symbols), *symbols),
                            wf_symbol_refs(ms, *symbols),
                            outcome is None ==> star_resolve_spec(
                                ms,
                                mid,
                                si as int,
                                name0,
                                rset2,
                                star_resolution,
                            ) == star_resolve_spec(
                                ms,
                                mid,
                                0,
                                name0,
                                rset2,
                                Option::<SymbolRef>::None,
                            ),
                            outcome matches Some(v) ==> resolution_matches(
                                ms,
                                v,
                                star_resolve_spec(
                                    ms,
                                    mid,
                                    0,
                                    name0,
                                    rset2,
                                    Option::<SymbolRef>::None,
                                ),
                            ) && !(v is Ok && v->Ok_0 is NotFound),
                            outcome matches Some(v) ==> (v matches Ok(Resolution::Found(s))
                                ==> symbols.valid_ref(s)),
                            star_resolution matches Some(s) ==> symbols.valid_ref(s),
                        decreases sn - si,
                    {
                        if outcome.is_none() {
                            let rec = &self.import_records[self.star_exports[si]];
                            let importee_id = rec.resolved_module.unwrap();
                            match &modules[importee_id] {
                                Module::Normal(importee) => {
                                    let sub = importee.resolve_export(
                                        export_name,
                                        resolve_set,
                                        modules,
                                        symbols,
                                    );
                                    match sub {
                                        Ok(Resolution::NotFound) => {},
                                        Ok(Resolution::Ambiguous) => {
                                            outcome = Some(Ok(Resolution::Ambiguous));
                                        },
                                        Ok(Resolution::Found(exist)) => {
                                            match star_resolution {
                                                Some(prev) => {
                                                    if prev.owner == exist.owner && prev.symbol
                                                        == exist.symbol {
                                                    } else {
                                                        outcome = Some(Ok(Resolution::Ambiguous));
                                                    }
                                                },
                                                None => {
                                                    star_resolution = Some(exist);
                                                },
                                            }
                                        },
                                        Err(e) => {
                                            outcome = Some(Err(e));
                                        },
                                    }
                                },
                                Module::External(_) => {
                                    outcome = Some(
                                        Err(
                                            crate::error::Error::ExternalExport {
                                                exporter: self.resource_id.as_str().to_owned(),
                                                export_name: export_name.clone(),
                                            },
                                        ),
                                    );
                                },
                            }
                        }
                        si += 1;
                    }
                    match outcome {
                        Some(v) => {
                            ret = v;
                        },
                        None => {
                            match star_resolution {
                                Some(s) => {
                                    ret = Ok(Resolution::Found(s));
                                },
                                None => {
                                    ret = Ok(Resolution::NotFound);
                                },
                            }
                        },
                    }
                }
            },
        }
        let _popped = resolve_set.pop();
        proof {
            assert(full.take(full.len() - 1) =~= old(resolve_set)@);
            assert(resolve_set@ =~= old(resolve_set)@);
        }
        ret
    }
}


/// A list of strings with pairwise distinct contents.
pub open spec fn distinct_views(r: Seq<String>) -> bool {
    forall|i: int, j: int| 0 <= i < j < r.len() ==> (#[trigger] r[i])@ != (#[trigger] r[j])@
}

/// True when some member of `r` reads `k`.
pub fn contains_str(r: &Vec<String>, k: &str) -> (b: bool)
    ensures
        b == (exists|i: int| 0 <= i < r@.len() && (#[trigger] r@[i])@ == k@),
{
    let n = r.len();
    let mut i: usize = 0;
    while i < n
        invariant
            0 <= i <= n,
            n == r@.len(),
            forall|j: int| 0 <= j < i ==> (#[trigger] r@[j])@ != k@,
        decreases n - i,
    {
        if crate::maps::str_eq(r[i].as_str(), k) {
            return true;
        }
        i += 1;
    }
    false
}

/// A name present in a list stays present when the list only grows at
/// the end.
proof fn lemma_presence_persists(pre: Seq<String>, post: Seq<String>, k: Seq<char>)
    requires
        pre.len() <= post.len(),
        forall|i: int| 0 <= i < pre.len() ==> #[trigger] post[i] == pre[i],
    ensures
        (exists|i: int| 0 <= i < pre.len() && (#[trigger] pre[i])@ == k) ==> (exists|i: int|
            0 <= i < post.len() && (#[trigger] post[i])@ == k),
{
    if exists|i: int| 0 <= i < pre.len() && (#[trigger] pre[i])@ == k {
        let i = choose|i: int| 0 <= i < pre.len() && (#[trigger] pre[i])@ == k;
        assert(post[i]@ == k);
    }
}

/// Module `m` provides `k` over a star edge: it is Normal, exports
/// `k` directly, and `k` is not `default`.
pub open spec fn provides_star_name(ms: Seq<Module>, m: int, k: Seq<char>) -> bool {
    &&& 0 <= m < ms.len()
    &&& ms[m] is Normal
    &&& ms[m]->Normal_0.named_exports@.dom().contains(k)
    &&& k != default_name()
}

/// The exported surface of module `mid`, per `GetExportedNames`: its
/// own exported names, plus every non-`default` name a star-reachable
/// module exports directly.
pub open spec fn exported_name_set(ms: Seq<Module>, mid: int, k: Seq<char>) -> bool {
    ||| (ms[mid] matches Module::Normal(nm) && nm.named_exports@.dom().contains(k))
    ||| exists|m: int| #[trigger] star_reachable(ms, mid, m) && provides_star_name(ms, m, k)
}

impl NormalModule {
    /// The names this module exports, directly or through `export *`
    /// chains, per the ECMAScript `GetExportedNames` operation: its own
    /// exported names, plus every name (except `default`) exported by
    /// a module reachable over star edges — no more and no less. Star
    /// cycles are harmless: the walk is over the star-reachable
    /// closure.
    #[verifier::loop_isolation(false)]
    #[verifier::rlimit(100)]
    pub fn get_exported_names(&self, modules: &Vec<Module>) -> (r: Vec<String>)
        requires
            wf_linked(modules@),
            self.id < modules@.len(),
            modules@[self.id as int] == Module::Normal(*self),
        ensures
            distinct_views(r@),
            forall|i: int|
                0 <= i < r@.len() ==> exported_name_set(
                    modules@,
                    self.id as int,
                    (#[trigger] r@[i])@,
                ),
            forall|k: Seq<char>|
                #[trigger] self.named_exports@.dom().contains(k) ==> (exists|i: int|
                    0 <= i < r@.len() && (#[trigger] r@[i])@ == k),
            forall|m: int, k: Seq<char>|
                star_reachable(modules@, self.id as int, m) && #[trigger] provides_star_name(
                    modules@,
                    m,
                    k,
                ) ==> (exists|i: int| 0 <= i < r@.len() && (#[trigger] r@[i])@ == k),
    {
        let ghost ms = modules@;
        let ghost me = self.id as int;
        let closure = self.resolve_star_exports(modules);
        let mut out: Vec<String> = Vec::new();

        // the module's own exported names
        self.named_exports.entries_facts();
        let en = self.named_exports.len();
        let mut ei: usize = 0;
        while ei < en
            invariant
                0 <= ei <= en,
                en == self.named_exports.spec_entries().len(),
                out@.len() == ei,
                forall|j: int|
                    0 <= j < ei ==> (#[trigger] out@[j])@
                        == self.named_exports.spec_entries()[j].0@,
            decreases en - ei,
        {
            let name = &self.named_exports.entry_at(ei).0;
            out.push(name.clone());
            ei += 1;
        }
        proof {
            assert(distinct_views(out@));
            assert forall|j: int| 0 <= j < out@.len() implies exported_name_set(
                ms,
                me,
                (#[trigger] out@[j])@,
            ) by {
                assert(self.named_exports@.dom().contains(
                    self.named_exports.spec_entries()[j].0@,
                ));
            }
            assert forall|k: Seq<char>|
                #[trigger] self.named_exports@.dom().contains(k) implies (exists|i: int|
                0 <= i < out@.len() && (#[trigger] out@[i])@ == k) by {
                let i = choose|i: int|
                    0 <= i < self.named_exports.spec_entries().len()
                        && (#[trigger] self.named_exports.spec_entries()[i]).0@ == k;
                assert(out@[i]@ == k);
            }
        }

        // names provided by the star-reachable modules, `default` excluded
        let cn = closure.len();
        let mut ci: usize = 0;
        while ci < cn
            invariant
                0 <= ci <= cn,
                cn == closure@.len(),
                forall|i: int| 0 <= i < closure@.len() ==> (#[trigger] closure@[i]) < ms.len(),
                forall|i: int|
                    0 <= i < closure@.len() ==> star_reachable(
                        ms,
                        me,
                        (#[trigger] closure@[i]) as int,
                    ),
                forall|x: int| #[trigger] star_reachable(ms, me, x) ==> closure@.contains(
                    x as ModuleId,
                ),
                distinct_views(out@),
                forall|j: int|
                    0 <= j < out@.len() ==> exported_name_set(ms, me, (#[trigger] out@[j])@),
                forall|k: Seq<char>|
                    #[trigger] self.named_exports@.dom().contains(k) ==> (exists|i: int|
                        0 <= i < out@.len() && (#[trigger] out@[i])@ == k),
                forall|j: int, k: Seq<char>|
                    0 <= j < ci && #[trigger] provides_star_name(
                        ms,
                        (#[trigger] closure@[j]) as int,
                        k,
                    ) ==> (exists|i: int| 0 <= i < out@.len() && (#[trigger] out@[i])@ == k),
            decreases cn - ci,
        {
            let ghost pre_ci_out = out@;
            let cid = closure[ci];
            match &modules[cid] {
                Module::Normal(m) => {
                    proof {
                        assert(modules@[cid as int] == Module::Normal(*m));
                    }
                    m.named_exports.entries_facts();
                    let mn = m.named_exports.len();
                    let mut mi: usize = 0;
                    while mi < mn
                        invariant
                            0 <= mi <= mn,
                            mn == m.named_exports.spec_entries().len(),
                            cid < ms.len(),
                            ci < closure@.len(),
                            closure@[ci as int] == cid,
                            star_reachable(ms, me, cid as int),
                            modules@[cid as int] == Module::Normal(*m),
                            distinct_views(out@),
                            forall|j: int|
                                0 <= j < out@.len() ==> exported_name_set(
                                    ms,
                                    me,
                                    (#[trigger] out@[j])@,
                                ),
                            forall|k: Seq<char>|
                                #[trigger] self.named_exports@.dom().contains(k) ==> (exists|
                                    i: int,
                                |
                                    0 <= i < out@.len() && (#[trigger] out@[i])@ == k),
                            forall|j: int, k: Seq<char>|
                                0 <= j < ci && #[trigger] provides_star_name(
                                    ms,
                                    (#[trigger] closure@[j]) as int,
                                    k,
                                ) ==> (exists|i: int|
                                    0 <= i < out@.len() && (#[trigger] out@[i])@ == k),
                            forall|j2: int|
                                0 <= j2 < mi
                                    && (#[trigger] m.named_exports.spec_entries()[j2]).0@
                                    != default_name() ==> (exists|i: int|
                                    0 <= i < out@.len() && (#[trigger] out@[i])@
                                        == m.named_exports.spec_entries()[j2].0@),
                        decreases mn - mi,
                    {
                        let ghost pre_out = out@;
                        let name = &m.named_exports.entry_at(mi).0;
                        let dname = crate::ids::default_export_name();
                        let is_default = crate::maps::str_eq(name.as_str(), dname.as_str());
                        if !is_default && !contains_str(&out, name.as_str()) {
                            out.push(name.clone());
                            proof {
                                assert(m.named_exports@.dom().contains(
                                    m.named_exports.spec_entries()[mi as int].0@,
                                ));
                                assert(provides_star_name(
                                    ms,
                                    cid as int,
                                    out@.last()@,
                                ));
                                assert(exported_name_set(ms, me, out@.last()@));
                            }
                        }
                        proof {
                            let cur = m.named_exports.spec_entries()[mi as int].0@;
                            assert forall|k: Seq<char>|
                                #[trigger] self.named_exports@.dom().contains(k) implies (exists|
                                i: int,
                            |
                                0 <= i < out@.len() && (#[trigger] out@[i])@ == k) by {
                                lemma_presence_persists(pre_out, out@, k);
                            }
                            assert forall|j: int, k: Seq<char>|
                                0 <= j < ci && #[trigger] provides_star_name(
                                    ms,
                                    (#[trigger] closure@[j]) as int,
                                    k,
                                ) implies (exists|i: int|
                                0 <= i < out@.len() && (#[trigger] out@[i])@ == k) by {
                                lemma_presence_persists(pre_out, out@, k);
                            }
                            assert forall|j2: int|
                                0 <= j2 < mi + 1
                                    && (#[trigger] m.named_exports.spec_entries()[j2]).0@
                                    != default_name() implies (exists|i: int|
                                0 <= i < out@.len() && (#[trigger] out@[i])@
                                    == m.named_exports.spec_entries()[j2].0@) by {
                                if j2 < mi {
                                    lemma_presence_persists(
                                        pre_out,
                                        out@,
                                        m.named_exports.spec_entries()[j2].0@,
                                    );
                                } else {
                                    if pre_out.len() < out@.len() {
                                        assert(out@[out@.len() - 1]@ == cur);
                                    } else {
                                        lemma_presence_persists(pre_out, out@, cur);
                                    }
                                }
                            }
                        }
                        mi += 1;
                    }
                    proof {
                        assert forall|j: int, k: Seq<char>|
                            0 <= j < ci + 1 && #[trigger] provides_star_name(
                                ms,
                                (#[trigger] closure@[j]) as int,
                                k,
                            ) implies (exists|i: int|
                            0 <= i < out@.len() && (#[trigger] out@[i])@ == k) by {
                            if j == ci as int {
                                let j2 = choose|j2: int|
                                    0 <= j2 < m.named_exports.spec_entries().len()
                                        && (#[trigger] m.named_exports.spec_entries()[j2]).0@
                                        == k;
                            }
                        }
                    }
                },
                Module::External(_) => {
                    proof {
                        assert forall|j: int, k: Seq<char>|
                            0 <= j < ci + 1 && #[trigger] provides_star_name(
                                ms,
                                (#[trigger] closure@[j]) as int,
                                k,
                            ) implies (exists|i: int|
                            0 <= i < out@.len() && (#[trigger] out@[i])@ == k) by {
                            assert(j != ci as int);
                        }
                    }
                },
            }
            ci += 1;
        }
        proof {
            assert forall|m2: int, k: Seq<char>|
                star_reachable(ms, me, m2) && #[trigger] provides_star_name(
                    ms,
                    m2,
                    k,
                ) implies (exists|i: int| 0 <= i < out@.len() && (#[trigger] out@[i])@ == k) by {
                assert(closure@.contains(m2 as ModuleId));
                let j = choose|j: int| 0 <= j < closure@.len() && closure@[j] == m2 as ModuleId;
                assert(provides_star_name(ms, closure@[j] as int, k));
            }
        }
        out
    }

    /// The transitive set of modules reachable over `export *` edges:
    /// it holds every direct star target, is closed under the star
    /// edges of its Normal members, and holds no module twice.
    /// External members terminate the walk.
    #[verifier::loop_isolation(false)]
    #[verifier::rlimit(100)]
    pub fn resolve_star_exports(&self, modules: &Vec<Module>) -> (r: Vec<ModuleId>)
        requires
            wf_linked(modules@),
            self.id < modules@.len(),
            modules@[self.id as int] == Module::Normal(*self),
        ensures
            r@.no_duplicates(),
            forall|i: int| 0 <= i < r@.len() ==> (#[trigger] r@[i]) < modules@.len(),
            forall|i: int|
                0 <= i < self.star_exports@.len()
                    ==> r@.contains(
                    self.import_records@[self.star_exports@[i] as int]@.resolved_module->Some_0
                        as ModuleId,
                ),
            forall|i: int, j: int|
                0 <= i < r@.len() && modules@[r@[i] as int] is Normal && 0 <= j
                    < modules@[r@[i] as int]->Normal_0.star_exports@.len() ==> r@.contains(
                    #[trigger] star_target(modules@, r@[i] as int, j) as ModuleId,
                ),
            forall|i: int|
                0 <= i < r@.len() ==> star_reachable(
                    modules@,
                    self.id as int,
                    (#[trigger] r@[i]) as int,
                ),
            forall|x: int|
                #[trigger] star_reachable(modules@, self.id as int, x) ==> r@.contains(
                    x as ModuleId,
                ),
    {
        let ghost ms = modules@;
        let ghost me = self.id as int;
        let mut visited: Vec<bool> = Vec::new();
        let mcount = modules.len();
        let mut vi: usize = 0;
        while vi < mcount
            invariant
                0 <= vi <= mcount,
                visited@.len() == vi,
                forall|j: int| 0 <= j < vi ==> !(#[trigger] visited@[j]),
            decreases mcount - vi,
        {
            visited.push(false);
            vi += 1;
        }
        let mut resolved: Vec<ModuleId> = Vec::new();
        let mut queue: Vec<ModuleId> = Vec::new();
        let sn = self.star_exports.len();
        let mut sx: usize = 0;
        while sx < sn
            invariant
                0 <= sx <= sn,
                sn == self.star_exports@.len(),
                forall|i: int| 0 <= i < queue@.len() ==> (#[trigger] queue@[i]) < modules@.len(),
                forall|i: int|
                    0 <= i < sx
                        ==> queue@.contains(
                        self.import_records@[self.star_exports@[i] as int]@.resolved_module->Some_0
                            as ModuleId,
                    ),
                forall|i: int|
                    0 <= i < queue@.len() ==> star_reachable(
                        ms,
                        me,
                        (#[trigger] queue@[i]) as int,
                    ),
            decreases sn - sx,
        {
            let rec = &self.import_records[self.star_exports[sx]];
            let t = rec.resolved_module.unwrap();
            proof {
                lemma_contains_after_push(queue@, t);
            }
            queue.push(t);
            proof {
                assert(queue@.last() == t);
                assert(queue@.contains(t));
                assert(star_target(ms, me, sx as int) == t as int);
                assert(star_edge(ms, me, t as int));
                let p = seq![t as int];
                assert(p.len() > 0 && star_edge(ms, me, p[0]) && p.last() == t as int);
                assert(star_reachable(ms, me, t as int));
            }
            sx += 1;
        }
        while queue.len() > 0
            invariant
                visited@.len() == modules@.len(),
                forall|i: int| 0 <= i < queue@.len() ==> (#[trigger] queue@[i]) < modules@.len(),
                forall|i: int|
                    0 <= i < resolved@.len() ==> (#[trigger] resolved@[i]) < modules@.len(),
                resolved@.no_duplicates(),
                forall|i: int|
                    0 <= i < resolved@.len() ==> visited@[(#[trigger] resolved@[i]) as int],
                forall|i: int|
                    0 <= i < queue@.len() ==> star_reachable(
                        ms,
                        me,
                        (#[trigger] queue@[i]) as int,
                    ),
                forall|i: int|
                    0 <= i < resolved@.len() ==> star_reachable(
                        ms,
                        me,
                        (#[trigger] resolved@[i]) as int,
                    ),
                forall|id: int|
                    0 <= id < visited@.len() && #[trigger] visited@[id] ==> resolved@.contains(
                        id as ModuleId,
                    ),
                forall|i: int|
                    0 <= i < self.star_exports@.len()
                        ==> queue@.contains(
                        self.import_records@[self.star_exports@[i] as int]@.resolved_module->Some_0
                            as ModuleId,
                    ) || visited@[self.import_records@[self.star_exports@[i] as int]@.resolved_module->Some_0],
                forall|i: int, j: int|
                    0 <= i < resolved@.len() && modules@[resolved@[i] as int] is Normal && 0 <= j
                        < modules@[resolved@[i] as int]->Normal_0.star_exports@.len()
                        ==> queue@.contains(
                        #[trigger] star_target(modules@, resolved@[i] as int, j) as ModuleId,
                    ) || visited@[star_target(modules@, resolved@[i] as int, j)],
            decreases crate::graph::count_unentered(visited@), queue@.len(),
        {
            let ghost pre_visited = visited@;
            let ghost pre_queue_full = queue@;
            let ghost pre_resolved = resolved@;
            let importee_id = queue.pop().unwrap();
            let ghost pre_queue = queue@;
            proof {
                crate::graph::lemma_count_unentered_bounds(visited@);
            }
            proof {
                assert(pre_queue_full.last() == importee_id);
                assert(star_reachable(ms, me, importee_id as int));
            }
            if !visited[importee_id] {
                visited.set(importee_id, true);
                proof {
                    lemma_contains_after_push(resolved@, importee_id);
                }
                resolved.push(importee_id);
                proof {
                    crate::graph::lemma_count_unentered_update(pre_visited, importee_id as int);
                    assert(resolved@.no_duplicates()) by {
                        assert(forall|i: int|
                            0 <= i < pre_resolved.len() ==> #[trigger] resolved@[i]
                                == pre_resolved[i]);
                        assert(!pre_visited[importee_id as int]);
                        assert(forall|i: int|
                            0 <= i < pre_resolved.len() ==> pre_resolved[i] != importee_id);
                    }
                }
                match &modules[importee_id] {
                    Module::Normal(importee) => {
                        let isn = importee.star_exports.len();
                        let mut isx: usize = 0;
                        while isx < isn
                            invariant
                                0 <= isx <= isn,
                                isn == importee.star_exports@.len(),
                                modules@[importee_id as int] == Module::Normal(*importee),
                                forall|i: int|
                                    0 <= i < queue@.len() ==> (#[trigger] queue@[i])
                                        < modules@.len(),
                                forall|j: int|
                                    0 <= j < isx
                                        ==> queue@.contains(
                                        #[trigger] star_target(
                                            modules@,
                                            importee_id as int,
                                            j,
                                        ) as ModuleId,
                                    ),
                                forall|x: ModuleId|
                                    pre_queue.contains(x) ==> #[trigger] queue@.contains(x),
                                star_reachable(ms, me, importee_id as int),
                                forall|i: int|
                                    0 <= i < queue@.len() ==> star_reachable(
                                        ms,
                                        me,
                                        (#[trigger] queue@[i]) as int,
                                    ),
                            decreases isn - isx,
                        {
                            let rec = &importee.import_records[importee.star_exports[isx]];
                            let t = rec.resolved_module.unwrap();
                            proof {
                                lemma_contains_after_push(queue@, t);
                                assert(star_target(modules@, importee_id as int, isx as int)
                                    == t as int);
                            }
                            queue.push(t);
                            proof {
                                assert(queue@.last() == t);
                                assert(queue@.contains(t));
                                assert(star_edge(ms, importee_id as int, t as int));
                                lemma_star_reach_append(ms, me, importee_id as int, t as int);
                            }
                            isx += 1;
                        }
                    },
                    Module::External(_) => {},
                }
            }
            proof {
                crate::graph::lemma_count_unentered_bounds(visited@);
                assert forall|id: int|
                    0 <= id < visited@.len() && #[trigger] visited@[id] implies resolved@.contains(
                    id as ModuleId,
                ) by {
                    if pre_visited[id] {
                        assert(pre_resolved.contains(id as ModuleId));
                        let w = choose|w: int|
                            0 <= w < pre_resolved.len() && pre_resolved[w] == id as ModuleId;
                        assert(resolved@[w] == id as ModuleId);
                    } else {
                        assert(id == importee_id as int);
                        assert(resolved@.last() == importee_id);
                    }
                }
                assert forall|x: ModuleId|
                    pre_queue_full.contains(x) implies queue@.contains(x) || visited@[x as int] by {
                    if x == importee_id {
                        assert(visited@[x as int] || queue@.contains(x));
                    } else {
                        let w = choose|w: int|
                            0 <= w < pre_queue_full.len() && pre_queue_full[w] == x;
                        if w < pre_queue.len() {
                            assert(pre_queue[w] == x);
                            assert(pre_queue.contains(x));
                        } else {
                            assert(pre_queue_full[pre_queue_full.len() - 1] == importee_id);
                            assert(x == importee_id);
                        }
                    }
                }
            }
        }
        proof {
            lemma_star_closure_complete(ms, me, *self, resolved@);
        }
        resolved
    }
}

/// A star closure that holds every direct target and is closed under
/// its members' star edges holds every star-reachable module.
proof fn lemma_star_closure_complete(
    ms: Seq<Module>,
    me: int,
    nm: NormalModule,
    resolved: Seq<ModuleId>,
)
    requires
        wf_linked(ms),
        0 <= me < ms.len(),
        ms[me] == Module::Normal(nm),
        forall|i: int|
            0 <= i < nm.star_exports@.len()
                ==> resolved.contains(
                nm.import_records@[nm.star_exports@[i] as int]@.resolved_module->Some_0
                    as ModuleId,
            ),
        forall|i: int, j: int|
            0 <= i < resolved.len() && ms[resolved[i] as int] is Normal && 0 <= j
                < ms[resolved[i] as int]->Normal_0.star_exports@.len() ==> resolved.contains(
                #[trigger] star_target(ms, resolved[i] as int, j) as ModuleId,
            ),
    ensures
        forall|x: int|
            #[trigger] star_reachable(ms, me, x) ==> resolved.contains(x as ModuleId),
{
    assert forall|x: int| #[trigger] star_reachable(ms, me, x) implies resolved.contains(
        x as ModuleId,
    ) by {
        let p = choose|p: Seq<int>|
            #![trigger p.len()]
            {
                &&& p.len() > 0
                &&& star_edge(ms, me, p[0])
                &&& p.last() == x
                &&& forall|i: int| 0 <= i < p.len() - 1 ==> star_edge(ms, #[trigger] p[i], p[i + 1])
            };
        assert forall|y: int| star_edge(ms, me, y) implies resolved.contains(y as ModuleId) by {
            let j = choose|j: int|
                0 <= j < ms[me]->Normal_0.star_exports@.len() && #[trigger] star_target(
                    ms,
                    me,
                    j,
                ) == y;
            assert(nm.import_records@[nm.star_exports@[j] as int]@.resolved_module->Some_0 == y);
        }
        assert forall|i2: int, y: int|
            0 <= i2 < resolved.len() && #[trigger] star_edge(
                ms,
                resolved[i2] as int,
                y,
            ) implies resolved.contains(y as ModuleId) by {
            let j = choose|j: int|
                0 <= j < ms[resolved[i2] as int]->Normal_0.star_exports@.len()
                    && #[trigger] star_target(ms, resolved[i2] as int, j) == y;
            assert(star_target(ms, resolved[i2] as int, j) == y);
        }
        lemma_reachable_in_closed(ms, me, resolved, p, x);
    }
}

/// The destination of the `j`-th star export of module `m`.
pub open spec fn star_target(ms: Seq<Module>, m: int, j: int) -> int {
    let nm = ms[m]->Normal_0;
    nm.import_records@[nm.star_exports@[j] as int]@.resolved_module->Some_0
}

/// `b` is a direct `export *` target of `a`.
pub open spec fn star_edge(ms: Seq<Module>, a: int, b: int) -> bool {
    &&& 0 <= a < ms.len()
    &&& ms[a] is Normal
    &&& exists|j: int|
        0 <= j < ms[a]->Normal_0.star_exports@.len() && #[trigger] star_target(ms, a, j) == b
}

/// `to` is reachable from `from` over `export *` edges: some chain of
/// star edges starts at `from` and ends at `to`.
pub open spec fn star_reachable(ms: Seq<Module>, from: int, to: int) -> bool {
    exists|p: Seq<int>|
        #![trigger p.len()]
        {
            &&& p.len() > 0
            &&& star_edge(ms, from, p[0])
            &&& p.last() == to
            &&& forall|i: int| 0 <= i < p.len() - 1 ==> star_edge(ms, #[trigger] p[i], p[i + 1])
        }
}

/// Under a well-formed registry every star edge stays in range.
proof fn lemma_star_edge_range(ms: Seq<Module>, a: int, b: int)
    requires
        wf_linked(ms),
        star_edge(ms, a, b),
    ensures
        0 <= b < ms.len(),
{
    let j = choose|j: int|
        0 <= j < ms[a]->Normal_0.star_exports@.len() && #[trigger] star_target(ms, a, j) == b;
    let nm = ms[a]->Normal_0;
    assert(wf_module_refs(nm, ms.len() as int));
    assert(nm.star_exports@[j] < nm.import_records@.len());
}

/// Reachability extends backwards across one star edge.
proof fn lemma_star_reach_prepend(ms: Seq<Module>, a: int, b: int, x: int)
    requires
        star_edge(ms, a, b),
        star_reachable(ms, b, x) || b == x,
    ensures
        star_reachable(ms, a, x),
{
    if b == x {
        let p = seq![b];
        assert(p.len() > 0 && star_edge(ms, a, p[0]) && p.last() == x);
        assert(star_reachable(ms, a, x));
    } else {
        let p0 = choose|p0: Seq<int>|
            #![trigger p0.len()]
            {
                &&& p0.len() > 0
                &&& star_edge(ms, b, p0[0])
                &&& p0.last() == x
                &&& forall|i: int| 0 <= i < p0.len() - 1 ==> star_edge(ms, #[trigger] p0[i], p0[i + 1])
            };
        let p = seq![b] + p0;
        assert(p[0] == b);
        assert(p.last() == p0.last());
        assert(forall|i: int| 0 <= i < p0.len() ==> #[trigger] p[i + 1] == p0[i]);
        assert forall|i: int| 0 <= i < p.len() - 1 implies star_edge(ms, #[trigger] p[i], p[i + 1]) by {
            if i == 0 {
                assert(p[0] == b && p[1] == p0[0]);
            } else {
                assert(p[i] == p0[i - 1] && p[i + 1] == p0[i]);
            }
        }
        assert(p.len() > 0 && star_edge(ms, a, p[0]) && p.last() == x);
        assert(star_reachable(ms, a, x));
    }
}

/// Reachability extends forwards across one star edge.
proof fn lemma_star_reach_append(ms: Seq<Module>, a: int, b: int, c: int)
    requires
        star_reachable(ms, a, b),
        star_edge(ms, b, c),
    ensures
        star_reachable(ms, a, c),
{
    let p0 = choose|p0: Seq<int>|
        #![trigger p0.len()]
        {
            &&& p0.len() > 0
            &&& star_edge(ms, a, p0[0])
            &&& p0.last() == b
            &&& forall|i: int| 0 <= i < p0.len() - 1 ==> star_edge(ms, #[trigger] p0[i], p0[i + 1])
        };
    let p = p0.push(c);
    assert(forall|i: int| 0 <= i < p0.len() ==> #[trigger] p[i] == p0[i]);
    assert forall|i: int| 0 <= i < p.len() - 1 implies star_edge(ms, #[trigger] p[i], p[i + 1]) by {
        if i < p0.len() - 1 {
            assert(p[i] == p0[i] && p[i + 1] == p0[i + 1]);
        } else {
            assert(p[i] == b);
            assert(p[i + 1] == c);
        }
    }
    assert(p.len() > 0 && star_edge(ms, a, p[0]) && p.last() == c);
    assert(star_reachable(ms, a, c));
}

/// `name` is exported directly by the module or by one of the Normal
/// modules its `export *` chains reach.
pub open spec fn exportable_name(ms: Seq<Module>, mid: int, name: Seq<char>) -> bool {
    ||| (ms[mid] matches Module::Normal(nm) && nm.named_exports@.dom().contains(name))
    ||| exists|m: int|
        #[trigger] star_reachable(ms, mid, m) && (ms[m] matches Module::Normal(nm2)
            && nm2.named_exports@.dom().contains(name))
}

/// A set of modules that contains every direct star target of `from`
/// and is closed under the star edges of its members contains every
/// star-reachable module.
proof fn lemma_reachable_in_closed(ms: Seq<Module>, from: int, r: Seq<ModuleId>, p: Seq<int>, to: int)
    requires
        wf_linked(ms),
        forall|j: int| star_edge(ms, from, j) ==> r.contains(j as ModuleId),
        forall|i: int, j: int|
            0 <= i < r.len() && #[trigger] star_edge(ms, r[i] as int, j) ==> r.contains(
                j as ModuleId,
            ),
        p.len() > 0,
        star_edge(ms, from, p[0]),
        p.last() == to,
        forall|i: int| 0 <= i < p.len() - 1 ==> star_edge(ms, #[trigger] p[i], p[i + 1]),
    ensures
        r.contains(to as ModuleId),
    decreases p.len(),
{
    if p.len() == 1 {
        lemma_star_edge_range(ms, from, p[0]);
        assert(r.contains(p[0] as ModuleId));
    } else {
        let q = p.drop_last();
        assert(forall|i: int| 0 <= i < q.len() ==> #[trigger] q[i] == p[i]);
        lemma_reachable_in_closed(ms, from, r, q, q.last());
        let w = choose|w: int| 0 <= w < r.len() && r[w] == q.last() as ModuleId;
        assert(star_edge(ms, p[p.len() - 2], p[p.len() - 1]));
        if q.len() == 1 {
            lemma_star_edge_range(ms, from, q.last());
        } else {
            lemma_star_edge_range(ms, q[q.len() - 2], q.last());
        }
        assert(r[w] as int == q.last());
        assert(star_edge(ms, r[w] as int, to));
    }
}

proof fn lemma_contains_after_push(q: Seq<ModuleId>, t: ModuleId)
    ensures
        forall|x: ModuleId| q.contains(x) ==> #[trigger] q.push(t).contains(x),
{
    assert forall|x: ModuleId| q.contains(x) implies #[trigger] q.push(t).contains(x) by {
        let w = choose|w: int| 0 <= w < q.len() && q[w] == x;
        assert(q.push(t)[w] == x);
    }
}

/// Pushing a fresh valid id onto a distinct stack keeps it distinct
/// and bounded by the module count.
proof fn lemma_distinct_ids_push(s: Seq<ModuleId>, x: int, n: int)
    requires
        s.no_duplicates(),
        !s.contains(x as ModuleId),
        forall|i: int| 0 <= i < s.len() ==> (#[trigger] s[i]) < n,
        0 <= x < n,
    ensures
        s.push(x as ModuleId).no_duplicates(),
        s.len() < n,
{
    let pushed = s.push(x as ModuleId);
    assert forall|i: int, j: int| 0 <= i < j < pushed.len() implies pushed[i] != pushed[j] by {
        if j == pushed.len() - 1 {
            assert(pushed[i] == s[i]);
            assert(!s.contains(x as ModuleId));
            assert(s[i] != x as ModuleId) by {
                if s[i] == x as ModuleId {
                    assert(s.contains(x as ModuleId));
                }
            }
        }
    }
    let mapped = pushed.map_values(|m: ModuleId| m as int);
    assert forall|i: int, j: int| 0 <= i < j < mapped.len() implies #[trigger] mapped[i]
        != #[trigger] mapped[j] by {
        assert(mapped[i] == pushed[i] as int);
        assert(mapped[j] == pushed[j] as int);
        assert(pushed[i] != pushed[j]);
    }
    assert(mapped.no_duplicates());
    crate::graph::lemma_distinct_ids_bound(mapped, n);
    assert(mapped.len() == s.len() + 1);
}


/// The two registries agree on everything export resolution reads.
pub open spec fn same_resolution_shape(ms1: Seq<Module>, ms2: Seq<Module>) -> bool {
    &&& ms2.len() == ms1.len()
    &&& forall|i: int|
        0 <= i < ms1.len() ==> match (#[trigger] ms1[i], #[trigger] ms2[i]) {
            (Module::Normal(n1), Module::Normal(n2)) => {
                &&& n1.import_records == n2.import_records
                &&& n1.star_exports == n2.star_exports
                &&& n1.named_imports == n2.named_imports
                &&& n1.named_exports == n2.named_exports
                &&& n1.namespace_symbol == n2.namespace_symbol
            },
            (Module::External(_), Module::External(_)) => true,
            _ => false,
        }
}

proof fn lemma_shape_same_module_names(ms1: Seq<Module>, ms2: Seq<Module>)
    requires
        same_resolution_shape(ms1, ms2),
    ensures
        graph_name_set(ms1) == graph_name_set(ms2),
    decreases ms1.len(),
{
    if ms1.len() > 0 {
        assert(forall|i: int|
            0 <= i < ms1.drop_last().len() ==> #[trigger] ms1.drop_last()[i] == ms1[i]);
        assert(forall|i: int|
            0 <= i < ms2.drop_last().len() ==> #[trigger] ms2.drop_last()[i] == ms2[i]);
        lemma_shape_same_module_names(ms1.drop_last(), ms2.drop_last());
        assert(module_name_list(ms1.last()) == module_name_list(ms2.last())) by {
            assert(ms1[ms1.len() - 1] == ms1.last());
            assert(ms2[ms2.len() - 1] == ms2.last());
        }
    }
}

/// Determinism of export resolution: the outcome depends only on the
/// parts of the registry the resolution rules read — never on the
/// mutable alias state, the resolved export tables, the execution
/// orders, or anything the linker fills in along the way. Two
/// registries that agree on that shape resolve every name alike.
pub proof fn lemma_resolve_export_deterministic(
    ms1: Seq<Module>,
    ms2: Seq<Module>,
    mid: int,
    name: Seq<char>,
    rset: Seq<(int, Seq<char>)>,
)
    requires
        same_resolution_shape(ms1, ms2),
        wf_linked(ms1),
        wf_linked(ms2),
        wf_rset(ms1, rset),
        0 <= mid < ms1.len(),
        ms1[mid] is Normal,
    ensures
        resolve_export_spec(ms1, mid, name, rset) == resolve_export_spec(ms2, mid, name, rset),
    decreases resolve_measure(ms1, rset, name), 0int, 0int,
{
    lemma_shape_same_module_names(ms1, ms2);
    assert(resolve_universe(ms2, rset, name) == resolve_universe(ms1, rset, name));
    let m1 = ms1[mid]->Normal_0;
    let m2 = ms2[mid]->Normal_0;
    if !rset.contains((mid, name)) {
        let rset2 = rset.push((mid, name));
        if m1.named_exports@.dom().contains(name) {
            match m1.named_exports@[name] {
                LocalOrReExport::Local(local) => {
                    if m1.named_imports@.dom().contains(local.referenced.symbol as int) {
                        let ni = m1.named_imports@[local.referenced.symbol as int];
                        let importee =
                            m1.import_records@[ni.record_id as int]@.resolved_module->Some_0;
                        if ms1[importee] is Normal {
                            match ni.imported {
                                crate::ids::Specifier::Star => {},
                                crate::ids::Specifier::Literal(n2) => {
                                    lemma_literal_in_graph_names_import(
                                        ms1,
                                        mid,
                                        local.referenced.symbol as int,
                                    );
                                    lemma_measure_step(ms1, rset, mid, name, n2@);
                                    lemma_resolve_export_deterministic(
                                        ms1,
                                        ms2,
                                        importee,
                                        n2@,
                                        rset2,
                                    );
                                },
                            }
                        }
                    }
                },
                LocalOrReExport::Re(re) => {
                    let importee = m1.import_records@[re.record_id as int]@.resolved_module->Some_0;
                    if ms1[importee] is Normal {
                        match re.imported {
                            crate::ids::Specifier::Star => {},
                            crate::ids::Specifier::Literal(n2) => {
                                lemma_literal_in_graph_names_export(ms1, mid, name);
                                lemma_measure_step(ms1, rset, mid, name, n2@);
                                lemma_resolve_export_deterministic(ms1, ms2, importee, n2@, rset2);
                            },
                        }
                    }
                },
            }
        } else if name == default_name() {
        } else {
            lemma_measure_step(ms1, rset, mid, name, name);
            lemma_star_resolve_deterministic(
                ms1,
                ms2,
                mid,
                0,
                name,
                rset2,
                Option::<SymbolRef>::None,
            );
        }
    }
}

proof fn lemma_star_resolve_deterministic(
    ms1: Seq<Module>,
    ms2: Seq<Module>,
    mid: int,
    idx: int,
    name: Seq<char>,
    rset: Seq<(int, Seq<char>)>,
    acc: Option<SymbolRef>,
)
    requires
        same_resolution_shape(ms1, ms2),
        wf_linked(ms1),
        wf_linked(ms2),
        wf_rset(ms1, rset),
        0 <= mid < ms1.len(),
        ms1[mid] is Normal,
        0 <= idx <= ms1[mid]->Normal_0.star_exports@.len(),
    ensures
        star_resolve_spec(ms1, mid, idx, name, rset, acc) == star_resolve_spec(
            ms2,
            mid,
            idx,
            name,
            rset,
            acc,
        ),
    decreases resolve_measure(ms1, rset, name), 1int, ms1[mid]->Normal_0.star_exports@.len() - idx,
{
    lemma_shape_same_module_names(ms1, ms2);
    assert(resolve_universe(ms2, rset, name) == resolve_universe(ms1, rset, name));
    let m1 = ms1[mid]->Normal_0;
    if idx < m1.star_exports@.len() {
        let importee = m1.import_records@[m1.star_exports@[idx] as int]@.resolved_module->Some_0;
        if ms1[importee] is Normal {
            lemma_resolve_export_deterministic(ms1, ms2, importee, name, rset);
            match resolve_export_spec(ms1, importee, name, rset) {
                ResolutionSpec::NotFound => {
                    lemma_star_resolve_deterministic(ms1, ms2, mid, idx + 1, name, rset, acc);
                },
                ResolutionSpec::Ambiguous => {},
                ResolutionSpec::Found(s) => match acc {
                    Option::Some(prev) => if prev == s {
                        lemma_star_resolve_deterministic(ms1, ms2, mid, idx + 1, name, rset, acc);
                    },
                    Option::None => {
                        lemma_star_resolve_deterministic(
                            ms1,
                            ms2,
                            mid,
                            idx + 1,
                            name,
                            rset,
                            Some(s),
                        );
                    },
                },
                ResolutionSpec::Cycle(a, b) => {},
                ResolutionSpec::External(e, en) => {},
            }
        }
    }
}

} // verus!
