//! The multi-phase export/import resolution over the sorted graph.
//!
//! Phase order follows module-evaluation needs: the star-export
//! closure of every module, namespace-reference marking, the resolved
//! export table of every module, and finally import binding, which
//! unions every import-bound symbol with its resolved source symbol.
//! A missing export, an ambiguous star resolution, a self-referential
//! re-export and a chain through an external module abort the build.

use vstd::prelude::*;

use crate::error::Error;
use crate::graph::Graph;
use crate::ids::LocalOrReExport;
use crate::ids::ModuleId;
use crate::ids::NamedImport;
use crate::ids::ResolvedExport;
use crate::ids::Specifier;
use crate::ids::SymbolRef;
use crate::maps::IdMap;
use crate::module::Module;
use crate::module::Resolution;
use crate::module::wf_external;
use crate::module::wf_linked;
use crate::module::wf_symbol_refs;
use crate::symbols::Symbols;

verus! {

/// The linking-relevant shape of a module: everything the resolution
/// rules read. Linking itself only fills outputs (closures, resolved
/// tables, flags, external export symbols), never this shape.
pub open spec fn same_linking_shape(a: Module, b: Module) -> bool {
    match (a, b) {
        (Module::Normal(n1), Module::Normal(n2)) => {
            &&& n1.id == n2.id
            &&& n1.import_records == n2.import_records
            &&& n1.star_exports == n2.star_exports
            &&& n1.named_imports == n2.named_imports
            &&& n1.named_exports == n2.named_exports
            &&& n1.namespace_symbol == n2.namespace_symbol
        },
        (Module::External(e1), Module::External(e2)) => {
            &&& e1.id == e2.id
            &&& e1.import_records == e2.import_records
        },
        _ => false,
    }
}

/// Shape preservation keeps a graph linkable.
pub proof fn lemma_shape_preserves_wf(ms1: Seq<Module>, ms2: Seq<Module>)
    requires
        ms2.len() == ms1.len(),
        forall|i: int| 0 <= i < ms1.len() ==> same_linking_shape(#[trigger] ms1[i], ms2[i]),
        wf_linked(ms1),
    ensures
        wf_linked(ms2),
{
    assert forall|i: int| 0 <= i < ms2.len() implies (#[trigger] ms2[i]).spec_id() == i && match
        ms2[i] {
        Module::Normal(nm) => crate::module::wf_module_refs(nm, ms2.len() as int),
        Module::External(em) => forall|j: int|
            0 <= j < em.import_records@.len() ==> ((
            #[trigger] em.import_records@[j])@.resolved_module matches Some(t) && 0 <= t
                < ms2.len()),
    } by {
        assert(same_linking_shape(ms1[i], ms2[i]));
        match ms2[i] {
            Module::Normal(_) => {},
            Module::External(em) => {
                let e1 = ms1[i]->External_0;
                assert(em.import_records == e1.import_records);
            },
        }
    }
}

/// Shape preservation, evolved symbols and well-formed externals keep
/// the symbol references of a graph valid.
pub proof fn lemma_shape_preserves_symbol_refs(
    ms1: Seq<Module>,
    ms2: Seq<Module>,
    sym1: Symbols,
    sym2: Symbols,
)
    requires
        ms2.len() == ms1.len(),
        forall|i: int| 0 <= i < ms1.len() ==> same_linking_shape(#[trigger] ms1[i], ms2[i]),
        wf_symbol_refs(ms1, sym1),
        forall|x: SymbolRef| sym1.valid_ref(x) ==> sym2.valid_ref(x),
        forall|i: int|
            0 <= i < ms2.len() ==> ((#[trigger] ms2[i]) matches Module::External(em)
                ==> wf_external(em, sym2)),
    ensures
        wf_symbol_refs(ms2, sym2),
{
    assert forall|i: int| 0 <= i < ms2.len() implies match #[trigger] ms2[i] {
        Module::Normal(nm) => {
            &&& sym2.valid_ref(nm.namespace_symbol.0)
            &&& forall|k: Seq<char>|
                nm.named_exports@.dom().contains(k) ==> match #[trigger] nm.named_exports@[k] {
                    LocalOrReExport::Local(l) => sym2.valid_ref(l.referenced),
                    LocalOrReExport::Re(_) => true,
                }
            &&& forall|k: int|
                #[trigger] nm.named_imports@.dom().contains(k) ==> sym2.valid_ref(
                    nm.named_imports@[k].imported_as,
                )
        },
        Module::External(em) => wf_external(em, sym2),
    } by {
        assert(same_linking_shape(ms1[i], ms2[i]));
        match ms2[i] {
            Module::Normal(nm) => {
                let n1 = ms1[i]->Normal_0;
                assert(sym1.valid_ref(n1.namespace_symbol.0));
                assert forall|k: Seq<char>|
                    nm.named_exports@.dom().contains(k) implies match #[trigger] nm.named_exports@[k] {
                    LocalOrReExport::Local(l) => sym2.valid_ref(l.referenced),
                    LocalOrReExport::Re(_) => true,
                } by {
                    assert(n1.named_exports@.dom().contains(k));
                    assert(n1.named_exports@[k] == nm.named_exports@[k]);
                }
                assert forall|k: int|
                    #[trigger] nm.named_imports@.dom().contains(k) implies sym2.valid_ref(
                    nm.named_imports@[k].imported_as,
                ) by {
                    assert(n1.named_imports@.dom().contains(k));
                    assert(sym1.valid_ref(n1.named_imports@[k].imported_as));
                }
            },
            Module::External(_) => {},
        }
    }
}

/// Copies the named-import table into a plain list of
/// (local symbol, import) pairs with equal views.
fn copy_named_imports(m: &IdMap<NamedImport>) -> (r: Vec<(usize, NamedImport)>)
    ensures
        r@.len() == m.spec_entries().len(),
        forall|i: int|
            0 <= i < r@.len() ==> (#[trigger] r@[i]).0 == m.spec_entries()[i].0 && r@[i].1.imported@
                == m.spec_entries()[i].1.imported@ && r@[i].1.imported_as
                == m.spec_entries()[i].1.imported_as && r@[i].1.record_id
                == m.spec_entries()[i].1.record_id,
    {
    let mut r: Vec<(usize, NamedImport)> = Vec::new();
    let n = m.len();
    let mut i: usize = 0;
    while i < n
        invariant
            0 <= i <= n,
            n == m.spec_entries().len(),
            r@.len() == i,
            forall|j: int|
                0 <= j < i ==> (#[trigger] r@[j]).0 == m.spec_entries()[j].0 && r@[j].1.imported@
                    == m.spec_entries()[j].1.imported@ && r@[j].1.imported_as
                    == m.spec_entries()[j].1.imported_as && r@[j].1.record_id
                    == m.spec_entries()[j].1.record_id,
        decreases n - i,
    {
        let entry = m.entry_at(i);
        let imported = (match &entry.1.imported {
            Specifier::Star => Specifier::Star,
            Specifier::Literal(s) => Specifier::Literal(s.clone()),
        });
        let copy = NamedImport {
            imported,
            imported_as: entry.1.imported_as,
            record_id: entry.1.record_id,
        };
        r.push((entry.0, copy));
        i += 1;
    }
    r
}


/// The named import `k` of Normal module `mid` is bound: its local
/// binding has been merged with what it resolves to — the resolution
/// of its literal name on a Normal importee, the importee's namespace
/// symbol for a star import, or the symbol the external importee
/// minted for the name.
pub open spec fn import_bound(ms: Seq<Module>, sym: Symbols, mid: int, k: int) -> bool {
    let nm = ms[mid]->Normal_0;
    let ni = nm.named_imports@[k];
    let importee = nm.import_records@[ni.record_id as int]@.resolved_module->Some_0;
    &&& sym.valid_ref(ni.imported_as)
    &&& match ni.imported {
        Specifier::Star => ms[importee] is Normal ==> {
            &&& sym.valid_ref(ms[importee]->Normal_0.namespace_symbol.0)
            &&& sym.equiv(ni.imported_as, ms[importee]->Normal_0.namespace_symbol.0)
        },
        Specifier::Literal(n) => {
            if ms[importee] is Normal {
                &&& crate::module::resolve_export_spec(
                    ms,
                    importee,
                    n@,
                    Seq::<(int, Seq<char>)>::empty(),
                ) matches crate::module::ResolutionSpec::Found(s)
                &&& sym.valid_ref(
                    crate::module::resolve_export_spec(
                        ms,
                        importee,
                        n@,
                        Seq::<(int, Seq<char>)>::empty(),
                    )->Found_0,
                )
                &&& sym.equiv(
                    ni.imported_as,
                    crate::module::resolve_export_spec(
                        ms,
                        importee,
                        n@,
                        Seq::<(int, Seq<char>)>::empty(),
                    )->Found_0,
                )
            } else {
                &&& ms[importee]->External_0.symbols_imported_by_others@.dom().contains(n@)
                &&& sym.valid_ref(ms[importee]->External_0.symbols_imported_by_others@[n@])
                &&& sym.equiv(
                    ni.imported_as,
                    ms[importee]->External_0.symbols_imported_by_others@[n@],
                )
            }
        },
    }
}

/// A bound import stays bound while linking goes on: the resolution
/// shape is untouched, external export maps only grow, and merged
/// classes are never separated.
proof fn lemma_import_bound_persists(
    ms1: Seq<Module>,
    sym1: Symbols,
    ms2: Seq<Module>,
    sym2: Symbols,
    mid: int,
    k: int,
)
    requires
        wf_linked(ms1),
        wf_linked(ms2),
        ms2.len() == ms1.len(),
        forall|i: int| 0 <= i < ms1.len() ==> same_linking_shape(#[trigger] ms1[i], ms2[i]),
        forall|i: int|
            0 <= i < ms1.len() ==> ((#[trigger] ms1[i]) is External ==> (forall|kk: Seq<char>|
                #[trigger] ms1[i]->External_0.symbols_imported_by_others@.dom().contains(kk)
                    ==> ms2[i]->External_0.symbols_imported_by_others@.dom().contains(kk)
                    && ms2[i]->External_0.symbols_imported_by_others@[kk]
                    == ms1[i]->External_0.symbols_imported_by_others@[kk])),
        forall|x: SymbolRef| #[trigger] sym1.valid_ref(x) ==> sym2.valid_ref(x),
        forall|a: SymbolRef, b: SymbolRef|
            sym1.valid_ref(a) && sym1.valid_ref(b) && #[trigger] sym1.equiv(a, b) ==> sym2.equiv(
                a,
                b,
            ),
        0 <= mid < ms1.len(),
        ms1[mid] is Normal,
        ms1[mid]->Normal_0.named_imports@.dom().contains(k),
        crate::module::wf_module_refs(ms1[mid]->Normal_0, ms1.len() as int),
        import_bound(ms1, sym1, mid, k),
    ensures
        import_bound(ms2, sym2, mid, k),
{
    assert(same_linking_shape(ms1[mid], ms2[mid]));
    let nm = ms1[mid]->Normal_0;
    let ni = nm.named_imports@[k];
    let importee = nm.import_records@[ni.record_id as int]@.resolved_module->Some_0;
    assert(same_linking_shape(ms1[importee], ms2[importee]));
    assert(crate::module::same_resolution_shape(ms1, ms2)) by {
        assert forall|i: int|
            0 <= i < ms1.len() implies match (#[trigger] ms1[i], #[trigger] ms2[i]) {
            (Module::Normal(n1), Module::Normal(n2)) => {
                &&& n1.import_records == n2.import_records
                &&& n1.star_exports == n2.star_exports
                &&& n1.named_imports == n2.named_imports
                &&& n1.named_exports == n2.named_exports
                &&& n1.namespace_symbol == n2.namespace_symbol
            },
            (Module::External(_), Module::External(_)) => true,
            _ => false,
        } by {
            assert(same_linking_shape(ms1[i], ms2[i]));
        }
    }
    match ni.imported {
        Specifier::Star => {},
        Specifier::Literal(n) => {
            if ms1[importee] is Normal {
                crate::module::lemma_resolve_export_deterministic(
                    ms1,
                    ms2,
                    importee,
                    n@,
                    Seq::<(int, Seq<char>)>::empty(),
                );
            }
        },
    }
}

/// What a linking error reports: a genuine failure of the graph, with
/// the diagnostic naming its context. A missing or ambiguous export
/// names importer, importee and binding; a circular or external
/// re-export chain carries the module and name it was detected on.
pub open spec fn link_failure(ms: Seq<Module>, sorted: Seq<ModuleId>, e: Error) -> bool {
    match e {
        Error::MissingExport { importer, importee, missing_export } => exists|i: int, k: int|
            #![auto]
            {
                &&& 0 <= i < sorted.len()
                &&& ms[sorted[i] as int] is Normal
                &&& ms[sorted[i] as int]->Normal_0.named_imports@.dom().contains(k)
                &&& import_resolution_is(
                    ms,
                    sorted[i] as int,
                    k,
                    crate::module::ResolutionSpec::NotFound,
                )
                &&& importer@ == ms[sorted[i] as int]->Normal_0.resource_id@
                &&& importee@ == ms[import_target(ms, sorted[i] as int, k)]->Normal_0.resource_id@
                &&& missing_export@ == import_literal(ms, sorted[i] as int, k)
            },
        Error::AmbiguousExport { importer, importee, binding } => exists|i: int, k: int|
            #![auto]
            {
                &&& 0 <= i < sorted.len()
                &&& ms[sorted[i] as int] is Normal
                &&& ms[sorted[i] as int]->Normal_0.named_imports@.dom().contains(k)
                &&& import_resolution_is(
                    ms,
                    sorted[i] as int,
                    k,
                    crate::module::ResolutionSpec::Ambiguous,
                )
                &&& importer@ == ms[sorted[i] as int]->Normal_0.resource_id@
                &&& importee@ == ms[import_target(ms, sorted[i] as int, k)]->Normal_0.resource_id@
                &&& binding@ == import_literal(ms, sorted[i] as int, k)
            },
        Error::CircularReexport { exporter, export_name } => exists|m: int, n: Seq<char>|
            #![auto]
            {
                &&& 0 <= m < ms.len()
                &&& ms[m] is Normal
                &&& crate::module::resolution_matches(
                    ms,
                    Err::<crate::module::Resolution, Error>(e),
                    crate::module::resolve_export_spec(
                        ms,
                        m,
                        n,
                        Seq::<(int, Seq<char>)>::empty(),
                    ),
                )
                &&& crate::module::resolve_export_spec(
                    ms,
                    m,
                    n,
                    Seq::<(int, Seq<char>)>::empty(),
                ) is Cycle
            },
        Error::ExternalExport { exporter, export_name } => exists|m: int, n: Seq<char>|
            #![auto]
            {
                &&& 0 <= m < ms.len()
                &&& ms[m] is Normal
                &&& crate::module::resolution_matches(
                    ms,
                    Err::<crate::module::Resolution, Error>(e),
                    crate::module::resolve_export_spec(
                        ms,
                        m,
                        n,
                        Seq::<(int, Seq<char>)>::empty(),
                    ),
                )
                &&& crate::module::resolve_export_spec(
                    ms,
                    m,
                    n,
                    Seq::<(int, Seq<char>)>::empty(),
                ) is External
            },
        _ => false,
    }
}

/// The destination module of the named import `k` of module `mid`.
pub open spec fn import_target(ms: Seq<Module>, mid: int, k: int) -> int {
    let nm = ms[mid]->Normal_0;
    let ni = nm.named_imports@[k];
    nm.import_records@[ni.record_id as int]@.resolved_module->Some_0
}

/// The literal name the named import `k` of module `mid` requests.
pub open spec fn import_literal(ms: Seq<Module>, mid: int, k: int) -> Seq<char> {
    crate::module::literal_of_specifier(ms[mid]->Normal_0.named_imports@[k].imported)
}

/// Resolving the named import `k` of module `mid` (a literal import of
/// a Normal importee) yields the given outcome.
pub open spec fn import_resolution_is(
    ms: Seq<Module>,
    mid: int,
    k: int,
    out: crate::module::ResolutionSpec,
) -> bool {
    let target = import_target(ms, mid, k);
    &&& ms[mid]->Normal_0.named_imports@[k].imported is Literal
    &&& ms[target] is Normal
    &&& crate::module::resolve_export_spec(
        ms,
        target,
        import_literal(ms, mid, k),
        Seq::<(int, Seq<char>)>::empty(),
    ) == out
}


/// Every named import of the first `hi` sorted modules is bound.
pub open spec fn imports_bound_upto(
    ms: Seq<Module>,
    sym: Symbols,
    sorted: Seq<ModuleId>,
    hi: int,
) -> bool {
    forall|i: int, k: int|
        0 <= i < hi && ms[sorted[i] as int] is Normal && (
        #[trigger] ms[sorted[i] as int]->Normal_0.named_imports@.dom().contains(k))
            ==> import_bound(ms, sym, sorted[i] as int, k)
}

/// One linking step: the resolution shape is intact, external export
/// maps only grow, valid references stay valid, and merged classes
/// stay merged.
pub open spec fn link_evolution(
    ms1: Seq<Module>,
    sym1: Symbols,
    ms2: Seq<Module>,
    sym2: Symbols,
) -> bool {
    &&& ms2.len() == ms1.len()
    &&& wf_linked(ms1)
    &&& wf_linked(ms2)
    &&& forall|i: int| 0 <= i < ms1.len() ==> same_linking_shape(#[trigger] ms1[i], ms2[i])
    &&& forall|i: int|
        0 <= i < ms1.len() ==> ((#[trigger] ms1[i]) is External ==> (forall|kk: Seq<char>|
            #[trigger] ms1[i]->External_0.symbols_imported_by_others@.dom().contains(kk)
                ==> ms2[i]->External_0.symbols_imported_by_others@.dom().contains(kk)
                && ms2[i]->External_0.symbols_imported_by_others@[kk]
                == ms1[i]->External_0.symbols_imported_by_others@[kk]))
    &&& forall|x: SymbolRef| #[trigger] sym1.valid_ref(x) ==> sym2.valid_ref(x)
    &&& forall|a: SymbolRef, b: SymbolRef|
        sym1.valid_ref(a) && sym1.valid_ref(b) && #[trigger] sym1.equiv(a, b) ==> sym2.equiv(a, b)
}

/// Bound imports survive a linking step.
proof fn lemma_bound_upto_persists(
    ms1: Seq<Module>,
    sym1: Symbols,
    ms2: Seq<Module>,
    sym2: Symbols,
    sorted: Seq<ModuleId>,
    hi: int,
)
    requires
        link_evolution(ms1, sym1, ms2, sym2),
        forall|i: int| 0 <= i < sorted.len() ==> ((#[trigger] sorted[i]) as int) < ms1.len(),
        0 <= hi <= sorted.len(),
        imports_bound_upto(ms1, sym1, sorted, hi),
    ensures
        imports_bound_upto(ms2, sym2, sorted, hi),
{
    assert forall|i: int, k: int|
        0 <= i < hi && ms2[sorted[i] as int] is Normal && (
        #[trigger] ms2[sorted[i] as int]->Normal_0.named_imports@.dom().contains(k)) implies
        import_bound(ms2, sym2, sorted[i] as int, k) by {
        let mid = sorted[i] as int;
        assert(same_linking_shape(ms1[mid], ms2[mid]));
        assert(ms1[mid] is Normal);
        assert(ms1[mid]->Normal_0.named_imports@.dom().contains(k));
        assert(import_bound(ms1, sym1, mid, k));
        assert(crate::module::wf_module_refs(ms1[mid]->Normal_0, ms1.len() as int));
        lemma_import_bound_persists(ms1, sym1, ms2, sym2, mid, k);
    }
}

/// Linking shapes compose: two states shaped like a common origin are
/// shaped like each other.
proof fn lemma_shape_between(ms0: Seq<Module>, ms1: Seq<Module>, ms2: Seq<Module>)
    requires
        ms1.len() == ms0.len(),
        ms2.len() == ms0.len(),
        forall|i: int| 0 <= i < ms0.len() ==> same_linking_shape(#[trigger] ms0[i], ms1[i]),
        forall|i: int| 0 <= i < ms0.len() ==> same_linking_shape(#[trigger] ms0[i], ms2[i]),
    ensures
        forall|i: int| 0 <= i < ms1.len() ==> same_linking_shape(#[trigger] ms1[i], ms2[i]),
{
    assert forall|i: int| 0 <= i < ms1.len() implies same_linking_shape(
        #[trigger] ms1[i],
        ms2[i],
    ) by {
        assert(same_linking_shape(ms0[i], ms1[i]));
        assert(same_linking_shape(ms0[i], ms2[i]));
    }
}

/// A merge never separates classes that were already one.
proof fn lemma_equiv_monotone_from_union(pre: Symbols, post: Symbols, ua: SymbolRef, ub: SymbolRef)
    requires
        forall|x: SymbolRef|
            pre.valid_ref(x) ==> #[trigger] post.root_of(x) == (if pre.equiv(x, ua) {
                pre.root_of(ub)
            } else {
                pre.root_of(x)
            }),
    ensures
        forall|a: SymbolRef, b: SymbolRef|
            pre.valid_ref(a) && pre.valid_ref(b) && #[trigger] pre.equiv(a, b) ==> post.equiv(
                a,
                b,
            ),
{
    assert forall|a: SymbolRef, b: SymbolRef|
        pre.valid_ref(a) && pre.valid_ref(b) && #[trigger] pre.equiv(a, b) implies post.equiv(
        a,
        b,
    ) by {
        assert(post.root_of(a) == post.root_of(b));
    }
}

/// Classes are untouched when every root is kept.
proof fn lemma_equiv_monotone_from_same_roots(pre: Symbols, post: Symbols)
    requires
        forall|x: SymbolRef|
            pre.valid_ref(x) ==> #[trigger] post.root_of(x) == pre.root_of(x),
    ensures
        forall|a: SymbolRef, b: SymbolRef|
            pre.valid_ref(a) && pre.valid_ref(b) && #[trigger] pre.equiv(a, b) ==> post.equiv(
                a,
                b,
            ),
{
    assert forall|a: SymbolRef, b: SymbolRef|
        pre.valid_ref(a) && pre.valid_ref(b) && #[trigger] pre.equiv(a, b) implies post.equiv(
        a,
        b,
    ) by {
        assert(post.root_of(a) == post.root_of(b));
    }
}


/// Shape likeness is reflexive.
proof fn lemma_shape_refl(ms: Seq<Module>)
    ensures
        forall|i: int| 0 <= i < ms.len() ==> same_linking_shape(#[trigger] ms[i], ms[i]),
{
    assert forall|i: int| 0 <= i < ms.len() implies same_linking_shape(
        #[trigger] ms[i],
        ms[i],
    ) by {
        match ms[i] {
            Module::Normal(_) => {},
            Module::External(_) => {},
        }
    }
}

/// One linking step keeps every binding made so far: the bound prefix
/// of the sorted order, and the bound entries of the module in hand.
proof fn lemma_all_bounds_persist(
    ms1: Seq<Module>,
    sym1: Symbols,
    ms2: Seq<Module>,
    sym2: Symbols,
    sorted: Seq<ModuleId>,
    hi: int,
    mid: int,
    entries: Seq<(usize, NamedImport)>,
    done: int,
)
    requires
        link_evolution(ms1, sym1, ms2, sym2),
        forall|i: int| 0 <= i < sorted.len() ==> ((#[trigger] sorted[i]) as int) < ms1.len(),
        0 <= hi <= sorted.len(),
        imports_bound_upto(ms1, sym1, sorted, hi),
        0 <= mid < ms1.len(),
        ms1[mid] is Normal,
        0 <= done <= entries.len(),
        forall|j: int|
            0 <= j < done ==> ms1[mid]->Normal_0.named_imports@.dom().contains(
                (#[trigger] entries[j]).0 as int,
            ) && import_bound(ms1, sym1, mid, entries[j].0 as int),
    ensures
        imports_bound_upto(ms2, sym2, sorted, hi),
        forall|j: int|
            0 <= j < done ==> import_bound(ms2, sym2, mid, (#[trigger] entries[j]).0 as int),
{
    lemma_bound_upto_persists(ms1, sym1, ms2, sym2, sorted, hi);
    assert forall|j: int| 0 <= j < done implies import_bound(
        ms2,
        sym2,
        mid,
        (#[trigger] entries[j]).0 as int,
    ) by {
        assert(crate::module::wf_module_refs(ms1[mid]->Normal_0, ms1.len() as int));
        lemma_import_bound_persists(ms1, sym1, ms2, sym2, mid, entries[j].0 as int);
    }
}


/// Star reachability reads only the linking shape.
proof fn lemma_star_reach_shape(ms1: Seq<Module>, ms2: Seq<Module>, from: int, x: int)
    requires
        ms2.len() == ms1.len(),
        forall|i: int| 0 <= i < ms1.len() ==> same_linking_shape(#[trigger] ms1[i], ms2[i]),
        crate::module::star_reachable(ms1, from, x),
    ensures
        crate::module::star_reachable(ms2, from, x),
{
    let p = choose|p: Seq<int>|
        #![trigger p.len()]
        {
            &&& p.len() > 0
            &&& crate::module::star_edge(ms1, from, p[0])
            &&& p.last() == x
            &&& forall|i: int|
                0 <= i < p.len() - 1 ==> crate::module::star_edge(ms1, #[trigger] p[i], p[i + 1])
        };
    assert forall|a: int, b: int|
        crate::module::star_edge(ms1, a, b) implies #[trigger] crate::module::star_edge(
        ms2,
        a,
        b,
    ) by {
        assert(same_linking_shape(ms1[a], ms2[a]));
        let j = choose|j: int|
            0 <= j < ms1[a]->Normal_0.star_exports@.len() && #[trigger] crate::module::star_target(
                ms1,
                a,
                j,
            ) == b;
        assert(crate::module::star_target(ms2, a, j) == b);
    }
    assert(crate::module::star_edge(ms2, from, p[0]));
    assert(forall|i: int|
        0 <= i < p.len() - 1 ==> crate::module::star_edge(ms2, #[trigger] p[i], p[i + 1]));
    assert(crate::module::star_reachable(ms2, from, x));
}

/// The first `hi` sorted modules carry their star-export closure:
/// membership in `resolved_star_exports` is exactly star reachability.
pub open spec fn star_closures_ok(ms: Seq<Module>, sorted: Seq<ModuleId>, hi: int) -> bool {
    &&& forall|i: int, x: int|
        0 <= i < hi && ms[sorted[i] as int] is Normal && #[trigger] crate::module::star_reachable(
            ms,
            sorted[i] as int,
            x,
        ) ==> ms[sorted[i] as int]->Normal_0.resolved_star_exports@.contains(x as ModuleId)
    &&& forall|i: int, j: int|
        0 <= i < hi && ms[sorted[i] as int] is Normal && 0 <= j < ms[sorted[i] as int]->Normal_0.resolved_star_exports@.len()
            ==> crate::module::star_reachable(
            ms,
            sorted[i] as int,
            (#[trigger] ms[sorted[i] as int]->Normal_0.resolved_star_exports@[j]) as int,
        )
}

/// The closure facts survive a shape-preserving change that keeps
/// every sorted Normal module's closure field.
proof fn lemma_closures_persist(
    ms1: Seq<Module>,
    ms2: Seq<Module>,
    sorted: Seq<ModuleId>,
    hi: int,
)
    requires
        ms2.len() == ms1.len(),
        forall|i: int| 0 <= i < ms1.len() ==> same_linking_shape(#[trigger] ms1[i], ms2[i]),
        forall|i: int|
            0 <= i < ms1.len() ==> ((#[trigger] ms1[i]) is Normal
                ==> ms2[i]->Normal_0.resolved_star_exports
                == ms1[i]->Normal_0.resolved_star_exports),
        forall|i: int| 0 <= i < sorted.len() ==> ((#[trigger] sorted[i]) as int) < ms1.len(),
        0 <= hi <= sorted.len(),
        star_closures_ok(ms1, sorted, hi),
    ensures
        star_closures_ok(ms2, sorted, hi),
{
    assert forall|i: int, x: int|
        0 <= i < hi && ms2[sorted[i] as int] is Normal && #[trigger] crate::module::star_reachable(
            ms2,
            sorted[i] as int,
            x,
        ) implies ms2[sorted[i] as int]->Normal_0.resolved_star_exports@.contains(
        x as ModuleId,
    ) by {
        assert(same_linking_shape(ms1[sorted[i] as int], ms2[sorted[i] as int]));
        assert forall|k: int|
            0 <= k < ms2.len() implies same_linking_shape(#[trigger] ms2[k], ms1[k]) by {
            assert(same_linking_shape(ms1[k], ms2[k]));
        }
        lemma_star_reach_shape(ms2, ms1, sorted[i] as int, x);
    }
    assert forall|i: int, j: int|
        0 <= i < hi && ms2[sorted[i] as int] is Normal && 0 <= j < ms2[sorted[i] as int]->Normal_0.resolved_star_exports@.len() implies crate::module::star_reachable(
        ms2,
        sorted[i] as int,
        (#[trigger] ms2[sorted[i] as int]->Normal_0.resolved_star_exports@[j]) as int,
    ) by {
        assert(same_linking_shape(ms1[sorted[i] as int], ms2[sorted[i] as int]));
        lemma_star_reach_shape(
            ms1,
            ms2,
            sorted[i] as int,
            ms1[sorted[i] as int]->Normal_0.resolved_star_exports@[j] as int,
        );
    }
}


/// The linker: resolves every export and import binding of a sorted
/// graph.
pub struct Linker;

impl Linker {
    /// Runs all linking phases over the graph, in execution order:
    /// star closures, namespace marking, export resolution, and
    /// import binding with symbol unification.
    #[verifier::loop_isolation(false)]
    #[verifier::rlimit(60)]
    pub fn link(graph: &mut Graph) -> (r: Result<(), Error>)
        requires
            wf_linked(old(graph).modules@),
            old(graph).symbols.spec_tables().len() == old(graph).modules@.len(),
            old(graph).symbols.inv(),
            wf_symbol_refs(old(graph).modules@, old(graph).symbols),
            old(graph).sorted_modules@.no_duplicates(),
            forall|i: int|
                0 <= i < old(graph).sorted_modules@.len() ==> (#[trigger] old(
                    graph,
                ).sorted_modules@[i]) < old(graph).modules@.len(),
        ensures
            final(graph).symbols.inv(),
            final(graph).modules@.len() == old(graph).modules@.len(),
            final(graph).entries == old(graph).entries,
            final(graph).sorted_modules == old(graph).sorted_modules,
            forall|i: int|
                0 <= i < old(graph).modules@.len() ==> same_linking_shape(
                    #[trigger] old(graph).modules@[i],
                    final(graph).modules@[i],
                ),
            wf_linked(final(graph).modules@),
            wf_symbol_refs(final(graph).modules@, final(graph).symbols),
            r is Ok ==> imports_bound_upto(
                final(graph).modules@,
                final(graph).symbols,
                final(graph).sorted_modules@,
                final(graph).sorted_modules@.len() as int,
            ),
            r is Ok ==> star_closures_ok(
                final(graph).modules@,
                final(graph).sorted_modules@,
                final(graph).sorted_modules@.len() as int,
            ),
            r matches Err(e) ==> link_failure(
                final(graph).modules@,
                final(graph).sorted_modules@,
                e,
            ),
    {
        let ghost ms0 = graph.modules@;
        let sn = graph.sorted_modules.len();

        // phase 1: star-export closure, per module
        let ghost sortedg = graph.sorted_modules@;
        let mut si: usize = 0;
        while si < sn
            invariant
                0 <= si <= sn,
                sn == graph.sorted_modules@.len(),
                graph.modules@.len() == ms0.len(),
                graph.entries == old(graph).entries,
                graph.sorted_modules == old(graph).sorted_modules,
                graph.symbols == old(graph).symbols,
                forall|i: int|
                    0 <= i < ms0.len() ==> same_linking_shape(
                        #[trigger] ms0[i],
                        graph.modules@[i],
                    ),
                wf_linked(graph.modules@),
                wf_symbol_refs(graph.modules@, graph.symbols),
                star_closures_ok(graph.modules@, graph.sorted_modules@, si as int),
            decreases sn - si,
        {
            let ghost pre_ms = graph.modules@;
            let id = graph.sorted_modules[si];
            let mut closure: Option<Vec<ModuleId>> = None;
            match &graph.modules[id] {
                Module::Normal(nm) => {
                    proof {
                        assert(graph.modules@[id as int] == Module::Normal(*nm));
                        assert(graph.modules@[id as int].spec_id() == id);
                        assert(nm.id == id);
                    }
                    let c = nm.resolve_star_exports(&graph.modules);
                    closure = Some(c);
                },
                Module::External(_) => {},
            }
            let ghost closure_v = (match closure {
                Some(ref c) => c@,
                None => Seq::<ModuleId>::empty(),
            });
            match closure {
                Some(c) => {
                    match &mut graph.modules[id] {
                        Module::Normal(nm) => {
                            nm.resolved_star_exports = c;
                        },
                        Module::External(_) => {},
                    }
                },
                None => {},
            }
            proof {
                assert forall|i: int|
                    0 <= i < ms0.len() implies same_linking_shape(
                    #[trigger] ms0[i],
                    graph.modules@[i],
                ) by {
                    assert(same_linking_shape(ms0[i], pre_ms[i]));
                    if i != id {
                        assert(graph.modules@[i] == pre_ms[i]);
                    }
                }
                lemma_shape_preserves_wf(ms0, graph.modules@);
                lemma_shape_preserves_symbol_refs(
                    pre_ms,
                    graph.modules@,
                    graph.symbols,
                    graph.symbols,
                );
                // the processed prefix keeps its closures, and this
                // module's fresh closure is exactly its reachability
                lemma_shape_between(ms0, pre_ms, graph.modules@);
                assert(sortedg == old(graph).sorted_modules@);
                assert(id == sortedg[si as int]);
                assert(sortedg.no_duplicates());
                assert forall|i: int, x: int|
                    0 <= i < si + 1 && graph.modules@[sortedg[i] as int] is Normal
                        && #[trigger] crate::module::star_reachable(
                        graph.modules@,
                        sortedg[i] as int,
                        x,
                    ) implies graph.modules@[sortedg[i] as int]->Normal_0.resolved_star_exports@.contains(
                    x as ModuleId,
                ) by {
                    assert forall|kk: int|
                        0 <= kk < graph.modules@.len() implies same_linking_shape(
                        #[trigger] graph.modules@[kk],
                        pre_ms[kk],
                    ) by {
                        assert(same_linking_shape(pre_ms[kk], graph.modules@[kk]));
                    }
                    lemma_star_reach_shape(graph.modules@, pre_ms, sortedg[i] as int, x);
                    if i < si as int {
                        assert(sortedg[i] != id);
                        assert(graph.modules@[sortedg[i] as int] == pre_ms[sortedg[i] as int]);
                    } else {
                        assert(sortedg[i] == id);
                        assert(graph.modules@[id as int]->Normal_0.resolved_star_exports@
                            == closure_v);
                    }
                }
                assert forall|i: int, j: int|
                    0 <= i < si + 1 && graph.modules@[sortedg[i] as int] is Normal && 0 <= j
                        < graph.modules@[sortedg[i] as int]->Normal_0.resolved_star_exports@.len() implies crate::module::star_reachable(
                    graph.modules@,
                    sortedg[i] as int,
                    (#[trigger] graph.modules@[sortedg[i] as int]->Normal_0.resolved_star_exports@[j]) as int,
                ) by {
                    if i < si as int {
                        assert(sortedg[i] != id);
                        assert(graph.modules@[sortedg[i] as int] == pre_ms[sortedg[i] as int]);
                        lemma_star_reach_shape(
                            pre_ms,
                            graph.modules@,
                            sortedg[i] as int,
                            pre_ms[sortedg[i] as int]->Normal_0.resolved_star_exports@[j] as int,
                        );
                    } else {
                        assert(sortedg[i] == id);
                        assert(graph.modules@[id as int]->Normal_0.resolved_star_exports@
                            == closure_v);
                        lemma_star_reach_shape(
                            pre_ms,
                            graph.modules@,
                            id as int,
                            closure_v[j] as int,
                        );
                    }
                }
                assert(star_closures_ok(graph.modules@, graph.sorted_modules@, si + 1));
            }
            si += 1;
        }

        // phase 2: mark modules whose namespace object is requested by
        // `import * as ns` or `export * as ns`
        let mcount = graph.modules.len();
        let mut mi: usize = 0;
        while mi < mcount
            invariant
                0 <= mi <= mcount,
                mcount == graph.modules@.len(),
                graph.modules@.len() == ms0.len(),
                graph.entries == old(graph).entries,
                graph.sorted_modules == old(graph).sorted_modules,
                graph.symbols == old(graph).symbols,
                forall|i: int|
                    0 <= i < ms0.len() ==> same_linking_shape(
                        #[trigger] ms0[i],
                        graph.modules@[i],
                    ),
                wf_linked(graph.modules@),
                wf_symbol_refs(graph.modules@, graph.symbols),
                star_closures_ok(graph.modules@, graph.sorted_modules@, sn as int),
            decreases mcount - mi,
        {
            // collect namespace-import destinations of module `mi`
            let mut targets: Vec<ModuleId> = Vec::new();
            let recs = graph.modules[mi].import_records();
            let rn = recs.len();
            let mut ri: usize = 0;
            while ri < rn
                invariant
                    0 <= ri <= rn,
                    rn == recs@.len(),
                    recs@ == graph.modules@[mi as int].spec_import_records(),
                    mi < graph.modules@.len(),
                    wf_linked(graph.modules@),
                    forall|i: int|
                        0 <= i < targets@.len() ==> (#[trigger] targets@[i])
                            < graph.modules@.len(),
                decreases rn - ri,
            {
                if recs[ri].is_import_namespace {
                    match recs[ri].resolved_module {
                        Some(t) => {
                            proof {
                                assert(recs@[ri as int]@.resolved_module == Some(t as int));
                                assert(graph.modules@[mi as int].spec_id() == mi);
                                assert(t < graph.modules@.len());
                            }
                            targets.push(t);
                        },
                        None => {},
                    }
                }
                ri += 1;
            }
            let tn = targets.len();
            let mut ti: usize = 0;
            while ti < tn
                invariant
                    0 <= ti <= tn,
                    tn == targets@.len(),
                    graph.modules@.len() == ms0.len(),
                    graph.entries == old(graph).entries,
                    graph.sorted_modules == old(graph).sorted_modules,
                    graph.symbols == old(graph).symbols,
                    forall|i: int|
                        0 <= i < targets@.len() ==> (#[trigger] targets@[i])
                            < graph.modules@.len(),
                    forall|i: int|
                        0 <= i < ms0.len() ==> same_linking_shape(
                            #[trigger] ms0[i],
                            graph.modules@[i],
                        ),
                    wf_linked(graph.modules@),
                    wf_symbol_refs(graph.modules@, graph.symbols),
                    star_closures_ok(graph.modules@, graph.sorted_modules@, sn as int),
                decreases tn - ti,
            {
                let ghost pre_ms = graph.modules@;
                let t = targets[ti];
                graph.modules[t].mark_symbol_for_namespace_referenced();
                proof {
                    assert forall|i: int|
                        0 <= i < ms0.len() implies same_linking_shape(
                        #[trigger] ms0[i],
                        graph.modules@[i],
                    ) by {
                        assert(same_linking_shape(ms0[i], pre_ms[i]));
                        if i != t {
                            assert(graph.modules@[i] == pre_ms[i]);
                        } else {
                            assert(graph.modules@[i] == pre_ms[i].with_namespace_referenced());
                        }
                    }
                    lemma_shape_preserves_wf(ms0, graph.modules@);
                    lemma_shape_preserves_symbol_refs(
                        pre_ms,
                        graph.modules@,
                        graph.symbols,
                        graph.symbols,
                    );
                    lemma_shape_between(ms0, pre_ms, graph.modules@);
                    assert forall|i: int|
                        0 <= i < pre_ms.len() implies ((#[trigger] pre_ms[i]) is Normal
                        ==> graph.modules@[i]->Normal_0.resolved_star_exports
                        == pre_ms[i]->Normal_0.resolved_star_exports) by {
                        if i == t {
                            assert(graph.modules@[i] == pre_ms[i].with_namespace_referenced());
                        } else {
                            assert(graph.modules@[i] == pre_ms[i]);
                        }
                    }
                    lemma_closures_persist(pre_ms, graph.modules@, graph.sorted_modules@, sn as int);
                }
                ti += 1;
            }
            mi += 1;
        }


        // phase 3: resolved export tables, in execution order
        let mut s3: usize = 0;
        while s3 < sn
            invariant
                0 <= s3 <= sn,
                graph.modules@.len() == ms0.len(),
                graph.entries == old(graph).entries,
                graph.sorted_modules == old(graph).sorted_modules,
                graph.symbols.inv(),
                graph.symbols.spec_tables().len() == graph.modules@.len(),
                forall|x: SymbolRef|
                    old(graph).symbols.valid_ref(x) ==> graph.symbols.valid_ref(x),
                forall|i: int|
                    0 <= i < ms0.len() ==> same_linking_shape(
                        #[trigger] ms0[i],
                        graph.modules@[i],
                    ),
                wf_linked(graph.modules@),
                wf_symbol_refs(graph.modules@, graph.symbols),
                star_closures_ok(graph.modules@, graph.sorted_modules@, sn as int),
            decreases sn - s3,
        {
            let id = graph.sorted_modules[s3];
            let mut to_store: Vec<(String, ResolvedExport)> = Vec::new();
            let mut failed: Option<Error> = None;
            match &graph.modules[id] {
                Module::Normal(nm) => {
                    proof {
                        assert(graph.modules@[id as int] == Module::Normal(*nm));
                        assert(graph.modules@[id as int].spec_id() == id);
                        assert(nm.id == id);
                    }
                    let names = nm.get_exported_names(&graph.modules);
                    let ghost pre_ms_resolve = graph.modules@;
                    let nn = names.len();
                    let mut k: usize = 0;
                    while k < nn && failed.is_none()
                        invariant
                            0 <= k <= nn,
                            nn == names@.len(),
                            graph.modules@ == pre_ms_resolve,
                            star_closures_ok(graph.modules@, graph.sorted_modules@, sn as int),
                            graph.modules@.len() == ms0.len(),
                            graph.entries == old(graph).entries,
                            graph.sorted_modules == old(graph).sorted_modules,
                            forall|i: int|
                                0 <= i < ms0.len() ==> same_linking_shape(
                                    #[trigger] ms0[i],
                                    graph.modules@[i],
                                ),
                            wf_linked(graph.modules@),
                            graph.symbols.spec_tables().len() == graph.modules@.len(),
                            nm.id == id < graph.modules@.len(),
                            graph.modules@[id as int] == Module::Normal(*nm),
                            graph.symbols.inv(),
                            forall|x: SymbolRef|
                                old(graph).symbols.valid_ref(x) ==> graph.symbols.valid_ref(x),
                            wf_symbol_refs(graph.modules@, graph.symbols),
                            failed matches Some(e) ==> link_failure(
                                graph.modules@,
                                graph.sorted_modules@,
                                e,
                            ),
                        decreases nn - k + (if failed is Some { 0int } else { 1int }),
                    {
                        let mut rset: Vec<(ModuleId, String)> = Vec::new();
                        let res = nm.resolve_export(
                            &names[k],
                            &mut rset,
                            &graph.modules,
                            &mut graph.symbols,
                        );
                        match res {
                            Ok(Resolution::Found(sref)) => {
                                proof {
                                    graph.symbols.lemma_valid_ref_iff(sref);
                                }
                                let ghost pre_sym = graph.symbols;
                                let refer = graph.symbols.create_reference(
                                    sref.owner,
                                    Some(sref.symbol),
                                );
                                proof {
                                    lemma_wf_symbol_refs_valid_iff(
                                        graph.modules@,
                                        pre_sym,
                                        graph.symbols,
                                    );
                                }
                                to_store.push(
                                    (
                                        names[k].clone(),
                                        ResolvedExport { local_symbol: sref, local_ref: refer },
                                    ),
                                );
                            },
                            Ok(_) => {},
                            Err(e) => {
                                proof {
                                    let ms = graph.modules@;
                                    let m = nm.id as int;
                                    let n = names@[k as int]@;
                                    assert(crate::module::rset_view(Seq::<(
                                        ModuleId,
                                        String,
                                    )>::empty()) =~= Seq::<(int, Seq<char>)>::empty());
                                    let out = crate::module::resolve_export_spec(
                                        ms,
                                        m,
                                        n,
                                        Seq::<(int, Seq<char>)>::empty(),
                                    );
                                    assert(crate::module::resolution_matches(
                                        ms,
                                        Err::<Resolution, Error>(e),
                                        out,
                                    ));
                                    assert(out is Cycle || out is External);
                                    assert(0 <= m < ms.len() && ms[m] is Normal);
                                    assert(link_failure(graph.modules@, graph.sorted_modules@, e));
                                }
                                failed = Some(e);
                            },
                        }
                        k += 1;
                    }
                },
                Module::External(_) => {},
            }
            match failed {
                Some(e) => {
                    return Err(e);
                },
                None => {},
            }
            let ghost pre_ms = graph.modules@;
            let ghost pre_sym_store = graph.symbols;
            match &mut graph.modules[id] {
                Module::Normal(nm) => {
                    let tn = to_store.len();
                    let mut ti: usize = 0;
                    while ti < tn
                        invariant
                            0 <= ti <= tn,
                            tn == to_store@.len(),
                            id < graph.modules@.len(),
                            graph.modules@.len() == pre_ms.len(),
                            graph.entries == old(graph).entries,
                            graph.sorted_modules == old(graph).sorted_modules,
                            graph.symbols == pre_sym_store,
                            forall|i: int|
                                0 <= i < pre_ms.len() && i != id ==> #[trigger] graph.modules@[i]
                                    == pre_ms[i],
                            graph.modules@[id as int] is Normal,
                            same_linking_shape(pre_ms[id as int], graph.modules@[id as int]),
                            graph.modules@[id as int]->Normal_0.resolved_star_exports
                                == pre_ms[id as int]->Normal_0.resolved_star_exports,
                        decreases tn - ti,
                    {
                        let ghost mid_ms = graph.modules@;
                        let entry_name = to_store[ti].0.clone();
                        let entry_val = ResolvedExport {
                            local_symbol: to_store[ti].1.local_symbol,
                            local_ref: to_store[ti].1.local_ref,
                        };
                        match &mut graph.modules[id] {
                            Module::Normal(nm2) => {
                                nm2.resolved_exports.insert(entry_name, entry_val);
                            },
                            Module::External(_) => {},
                        }
                        ti += 1;
                    }
                },
                Module::External(_) => {},
            }
            proof {
                assert forall|i: int|
                    0 <= i < ms0.len() implies same_linking_shape(
                    #[trigger] ms0[i],
                    graph.modules@[i],
                ) by {
                    assert(same_linking_shape(ms0[i], pre_ms[i]));
                    if i != id {
                        assert(graph.modules@[i] == pre_ms[i]);
                    }
                }
                lemma_shape_preserves_wf(ms0, graph.modules@);
                lemma_wf_symbol_refs_shape(pre_ms, graph.modules@, graph.symbols);
                lemma_shape_between(ms0, pre_ms, graph.modules@);
                assert forall|i: int|
                    0 <= i < pre_ms.len() implies ((#[trigger] pre_ms[i]) is Normal
                    ==> graph.modules@[i]->Normal_0.resolved_star_exports
                    == pre_ms[i]->Normal_0.resolved_star_exports) by {
                    if i != id {
                        assert(graph.modules@[i] == pre_ms[i]);
                    }
                }
                lemma_closures_persist(pre_ms, graph.modules@, graph.sorted_modules@, sn as int);
            }
            s3 += 1;
        }

        // phase 4: import binding and symbol unification
        let mut s4: usize = 0;
        while s4 < sn
            invariant
                0 <= s4 <= sn,
                graph.modules@.len() == ms0.len(),
                graph.entries == old(graph).entries,
                graph.sorted_modules == old(graph).sorted_modules,
                graph.symbols.inv(),
                graph.symbols.spec_tables().len() == graph.modules@.len(),
                forall|x: SymbolRef|
                    old(graph).symbols.valid_ref(x) ==> graph.symbols.valid_ref(x),
                forall|i: int|
                    0 <= i < ms0.len() ==> same_linking_shape(
                        #[trigger] ms0[i],
                        graph.modules@[i],
                    ),
                wf_linked(graph.modules@),
                wf_symbol_refs(graph.modules@, graph.symbols),
                star_closures_ok(graph.modules@, graph.sorted_modules@, sn as int),
                imports_bound_upto(
                    graph.modules@,
                    graph.symbols,
                    graph.sorted_modules@,
                    s4 as int,
                ),
            decreases sn - s4,
        {
            let id = graph.sorted_modules[s4];
            let ghost sortedv = graph.sorted_modules@;
            let mut imports: Vec<(usize, NamedImport)> = Vec::new();
            let mut importer_path: String = String::new();
            let mut is_normal: bool = false;
            let ghost snap = graph.modules@[id as int];
            match &graph.modules[id] {
                Module::Normal(nm) => {
                    nm.named_imports.entries_facts();
                    imports = copy_named_imports(&nm.named_imports);
                    importer_path = nm.resource_id.as_str().to_owned();
                    is_normal = true;
                    proof {
                        assert(graph.modules@[id as int] == Module::Normal(*nm));
                        assert(nm.id == id);
                        assert forall|j: int|
                            0 <= j < imports@.len() implies (#[trigger] imports@[j]).1.record_id
                            < nm.import_records@.len() by {
                            assert(imports@[j].1.record_id
                                == nm.named_imports.spec_entries()[j].1.record_id);
                            assert(nm.named_imports@.dom().contains(
                                nm.named_imports.spec_entries()[j].0 as int,
                            ));
                            assert(nm.named_imports@[nm.named_imports.spec_entries()[j].0 as int]
                                == nm.named_imports.spec_entries()[j].1);
                        }
                    }
                },
                Module::External(_) => {},
            }
            if is_normal {
                let ghost ni_map = snap->Normal_0.named_imports@;
                let ghost entry_seq = snap->Normal_0.named_imports.spec_entries();
                let inn = imports.len();
                let mut ii: usize = 0;
                while ii < inn
                    invariant
                        0 <= ii <= inn,
                        inn == imports@.len(),
                        s4 < sn == graph.sorted_modules@.len(),
                        id == graph.sorted_modules@[s4 as int],
                        id < graph.modules@.len(),
                        graph.modules@.len() == ms0.len(),
                        graph.entries == old(graph).entries,
                        graph.sorted_modules == old(graph).sorted_modules,
                        graph.symbols.inv(),
                        graph.symbols.spec_tables().len() == graph.modules@.len(),
                        forall|x: SymbolRef|
                            old(graph).symbols.valid_ref(x) ==> graph.symbols.valid_ref(x),
                        forall|i: int|
                            0 <= i < ms0.len() ==> same_linking_shape(
                                #[trigger] ms0[i],
                                graph.modules@[i],
                            ),
                        wf_linked(graph.modules@),
                        wf_symbol_refs(graph.modules@, graph.symbols),
                        star_closures_ok(graph.modules@, graph.sorted_modules@, sn as int),
                        graph.modules@[id as int] == snap,
                        snap is Normal,
                        snap->Normal_0.id == id,
                        forall|j: int|
                            0 <= j < imports@.len() ==> (#[trigger] imports@[j]).1.record_id
                                < snap->Normal_0.import_records@.len(),
                        imports_bound_upto(
                            graph.modules@,
                            graph.symbols,
                            graph.sorted_modules@,
                            s4 as int,
                        ),
                        forall|j: int|
                            0 <= j < ii ==> ni_map.dom().contains(
                                (#[trigger] imports@[j]).0 as int,
                            ) && import_bound(
                                graph.modules@,
                                graph.symbols,
                                id as int,
                                imports@[j].0 as int,
                            ),
                    decreases inn - ii,
                {
                    let ghost pre_ms = graph.modules@;
                    let ghost pre_sym = graph.symbols;
                    let record_id = imports[ii].1.record_id;
                    let imported_as = imports[ii].1.imported_as;
                    let ghost key = imports@[ii as int].0 as int;
                    proof {
                        // the processed entry is the table's entry for its key
                        assert(imports@[ii as int].0 == entry_seq[ii as int].0);
                        assert(ni_map.dom().contains(key));
                        assert(ni_map[key] == entry_seq[ii as int].1);
                        assert(imports@[ii as int].1.imported@ == ni_map[key].imported@);
                        assert(imports@[ii as int].1.imported_as == ni_map[key].imported_as);
                        assert(imports@[ii as int].1.record_id == ni_map[key].record_id);
                        assert(graph.symbols.valid_ref(imported_as));
                    }
                    let mut importee_id: ModuleId = 0;
                    match &graph.modules[id] {
                        Module::Normal(nm) => {
                            let rec = &nm.import_records[record_id];
                            importee_id = rec.resolved_module.unwrap();
                        },
                        Module::External(_) => {},
                    }
                    proof {
                        assert(snap->Normal_0.import_records@[record_id as int]@.resolved_module
                            == Some(importee_id as int));
                        assert(import_target(graph.modules@, id as int, key)
                            == importee_id as int);
                        assert(importee_id < graph.modules@.len());
                    }
                    match &graph.modules[importee_id] {
                        Module::Normal(importee) => {
                            proof {
                                assert(graph.modules@[importee_id as int] == Module::Normal(
                                    *importee,
                                ));
                                assert(importee.id == importee_id);
                            }
                            match &imports[ii].1.imported {
                                Specifier::Star => {
                                    let ns = importee.namespace_symbol.0;
                                    graph.symbols.union(imported_as, ns);
                                    proof {
                                        lemma_wf_symbol_refs_valid_iff(
                                            graph.modules@,
                                            pre_sym,
                                            graph.symbols,
                                        );
                                        lemma_shape_refl(graph.modules@);
                                        lemma_equiv_monotone_from_union(
                                            pre_sym,
                                            graph.symbols,
                                            imported_as,
                                            ns,
                                        );
                                        assert(link_evolution(
                                            pre_ms,
                                            pre_sym,
                                            graph.modules@,
                                            graph.symbols,
                                        ));
                                        lemma_all_bounds_persist(
                                            pre_ms,
                                            pre_sym,
                                            graph.modules@,
                                            graph.symbols,
                                            graph.sorted_modules@,
                                            s4 as int,
                                            id as int,
                                            imports@,
                                            ii as int,
                                        );
                                        // the new binding
                                        assert(graph.symbols.root_of(imported_as)
                                            == pre_sym.root_of(ns));
                                        assert(graph.symbols.root_of(ns) == pre_sym.root_of(ns));
                                        assert(graph.symbols.equiv(imported_as, ns));
                                        assert(ni_map[key].imported is Star);
                                        assert(import_bound(
                                            graph.modules@,
                                            graph.symbols,
                                            id as int,
                                            key,
                                        ));
                                    }
                                },
                                Specifier::Literal(name) => {
                                    let mut rset: Vec<(ModuleId, String)> = Vec::new();
                                    proof {
                                        assert(crate::module::rset_view(rset@) =~= Seq::<(
                                            int,
                                            Seq<char>,
                                        )>::empty());
                                    }
                                    let res = importee.resolve_export(
                                        name,
                                        &mut rset,
                                        &graph.modules,
                                        &mut graph.symbols,
                                    );
                                    let ghost out = crate::module::resolve_export_spec(
                                        graph.modules@,
                                        importee_id as int,
                                        name@,
                                        Seq::<(int, Seq<char>)>::empty(),
                                    );
                                    let ghost mid_sym = graph.symbols;
                                    proof {
                                        assert(crate::module::resolution_matches(
                                            graph.modules@,
                                            res,
                                            out,
                                        ));
                                        assert(ni_map[key].imported is Literal);
                                        assert(import_literal(graph.modules@, id as int, key)
                                            == name@);
                                    }
                                    match res {
                                        Ok(Resolution::Found(sref)) => {
                                            graph.symbols.union(imported_as, sref);
                                            proof {
                                                lemma_wf_symbol_refs_valid_iff(
                                                    graph.modules@,
                                                    mid_sym,
                                                    graph.symbols,
                                                );
                                                lemma_shape_refl(graph.modules@);
                                                assert(link_evolution(
                                                    pre_ms,
                                                    pre_sym,
                                                    graph.modules@,
                                                    mid_sym,
                                                ));
                                                // the union step
                                                lemma_equiv_monotone_from_union(
                                                    mid_sym,
                                                    graph.symbols,
                                                    imported_as,
                                                    sref,
                                                );
                                                assert(link_evolution(
                                                    graph.modules@,
                                                    mid_sym,
                                                    graph.modules@,
                                                    graph.symbols,
                                                ));
                                                lemma_all_bounds_persist(
                                                    pre_ms,
                                                    pre_sym,
                                                    graph.modules@,
                                                    mid_sym,
                                                    graph.sorted_modules@,
                                                    s4 as int,
                                                    id as int,
                                                    imports@,
                                                    ii as int,
                                                );
                                                lemma_all_bounds_persist(
                                                    graph.modules@,
                                                    mid_sym,
                                                    graph.modules@,
                                                    graph.symbols,
                                                    graph.sorted_modules@,
                                                    s4 as int,
                                                    id as int,
                                                    imports@,
                                                    ii as int,
                                                );
                                                assert(graph.symbols.root_of(imported_as)
                                                    == mid_sym.root_of(sref));
                                                assert(graph.symbols.root_of(sref)
                                                    == mid_sym.root_of(sref));
                                                assert(graph.symbols.equiv(imported_as, sref));
                                                assert(out == crate::module::ResolutionSpec::Found(
                                                    sref,
                                                ));
                                                assert(import_bound(
                                                    graph.modules@,
                                                    graph.symbols,
                                                    id as int,
                                                    key,
                                                ));
                                            }
                                        },
                                        Ok(Resolution::NotFound) => {
                                            proof {
                                                assert(out is NotFound);
                                                assert(import_resolution_is(
                                                    graph.modules@,
                                                    id as int,
                                                    key,
                                                    crate::module::ResolutionSpec::NotFound,
                                                ));
                                                assert(importer_path@
                                                    == snap->Normal_0.resource_id@);
                                            }
                                            return Err(
                                                Error::MissingExport {
                                                    importer: importer_path,
                                                    importee: importee.resource_id.as_str()
                                                        .to_owned(),
                                                    missing_export: name.clone(),
                                                },
                                            );
                                        },
                                        Ok(Resolution::Ambiguous) => {
                                            proof {
                                                assert(out is Ambiguous);
                                                assert(import_resolution_is(
                                                    graph.modules@,
                                                    id as int,
                                                    key,
                                                    crate::module::ResolutionSpec::Ambiguous,
                                                ));
                                                assert(importer_path@
                                                    == snap->Normal_0.resource_id@);
                                            }
                                            return Err(
                                                Error::AmbiguousExport {
                                                    importer: importer_path,
                                                    importee: importee.resource_id.as_str()
                                                        .to_owned(),
                                                    binding: name.clone(),
                                                },
                                            );
                                        },
                                        Err(e) => {
                                            proof {
                                                assert(crate::module::resolution_matches(
                                                    graph.modules@,
                                                    Err::<Resolution, Error>(e),
                                                    out,
                                                ));
                                                assert(out is Cycle || out is External);
                                                assert(graph.modules@[importee_id as int]
                                                    is Normal);
                                                assert(link_failure(
                                                    graph.modules@,
                                                    graph.sorted_modules@,
                                                    e,
                                                ));
                                            }
                                            return Err(e);
                                        },
                                    }
                                },
                            }
                        },
                        Module::External(_) => {},
                    }
                    // imports from external modules mint a symbol on the
                    // external side and merge with it; a star import of an
                    // external module needs no binding
                    let mut ext_name: Option<String> = None;
                    match &graph.modules[importee_id] {
                        Module::External(_) => {
                            match &imports[ii].1.imported {
                                Specifier::Literal(name) => {
                                    ext_name = Some(name.clone());
                                },
                                Specifier::Star => {
                                    proof {
                                        assert(ni_map[key].imported is Star);
                                        assert(import_bound(
                                            graph.modules@,
                                            graph.symbols,
                                            id as int,
                                            key,
                                        ));
                                    }
                                },
                            }
                        },
                        Module::Normal(_) => {},
                    }
                    match ext_name {
                        Some(name) => {
                            let ghost pre_ms2 = graph.modules@;
                            let ghost pre_sym2 = graph.symbols;
                            let mut minted: Option<SymbolRef> = None;
                            proof {
                                assert(pre_ms2[importee_id as int].spec_id() == importee_id);
                                assert(graph.symbols.spec_tables().len() == pre_ms2.len());
                            }
                            match &mut graph.modules[importee_id] {
                                Module::External(em) => {
                                    proof {
                                        assert(*em == pre_ms2[importee_id as int]->External_0);
                                        assert(em.id == importee_id);
                                        assert(wf_external(*em, graph.symbols));
                                    }
                                    let sref = em.resolve_export(&mut graph.symbols, &name);
                                    minted = Some(sref);
                                },
                                Module::Normal(_) => {},
                            }
                            let ghost mid_ms = graph.modules@;
                            let ghost mid_sym = graph.symbols;
                            proof {
                                assert forall|i: int|
                                    0 <= i < ms0.len() implies same_linking_shape(
                                    #[trigger] ms0[i],
                                    graph.modules@[i],
                                ) by {
                                    assert(same_linking_shape(ms0[i], pre_ms2[i]));
                                    if i != importee_id {
                                        assert(graph.modules@[i] == pre_ms2[i]);
                                    }
                                }
                                lemma_shape_preserves_wf(ms0, graph.modules@);
                                lemma_wf_symbol_refs_after_external(
                                    pre_ms2,
                                    graph.modules@,
                                    pre_sym2,
                                    graph.symbols,
                                    importee_id as int,
                                );
                                assert forall|i: int|
                                    0 <= i < pre_ms2.len() implies ((#[trigger] pre_ms2[i])
                                    is Normal ==> graph.modules@[i]->Normal_0.resolved_star_exports
                                    == pre_ms2[i]->Normal_0.resolved_star_exports) by {
                                    if i != importee_id {
                                        assert(graph.modules@[i] == pre_ms2[i]);
                                    }
                                }
                                lemma_closures_persist(
                                    pre_ms2,
                                    graph.modules@,
                                    graph.sorted_modules@,
                                    sn as int,
                                );
                                // the minting step
                                lemma_shape_between(ms0, pre_ms2, mid_ms);
                                lemma_equiv_monotone_from_same_roots(pre_sym2, mid_sym);
                                assert forall|i: int|
                                    0 <= i < pre_ms2.len() implies ((#[trigger] pre_ms2[i])
                                    is External ==> (forall|kk: Seq<char>|
                                    #[trigger] pre_ms2[i]->External_0.symbols_imported_by_others@.dom().contains(
                                        kk,
                                    ) ==> mid_ms[i]->External_0.symbols_imported_by_others@.dom().contains(
                                        kk,
                                    )
                                        && mid_ms[i]->External_0.symbols_imported_by_others@[kk]
                                        == pre_ms2[i]->External_0.symbols_imported_by_others@[kk])) by {
                                    if i != importee_id {
                                        assert(mid_ms[i] == pre_ms2[i]);
                                    }
                                }
                                assert(link_evolution(pre_ms2, pre_sym2, mid_ms, mid_sym));
                                lemma_all_bounds_persist(
                                    pre_ms2,
                                    pre_sym2,
                                    mid_ms,
                                    mid_sym,
                                    graph.sorted_modules@,
                                    s4 as int,
                                    id as int,
                                    imports@,
                                    ii as int,
                                );
                            }
                            match minted {
                                Some(sref) => {
                                    let ghost pre_sym3 = graph.symbols;
                                    proof {
                                        assert(graph.symbols.valid_ref(imported_as));
                                    }
                                    graph.symbols.union(imported_as, sref);
                                    proof {
                                        lemma_wf_symbol_refs_valid_iff(
                                            graph.modules@,
                                            pre_sym3,
                                            graph.symbols,
                                        );
                                        lemma_shape_refl(graph.modules@);
                                        lemma_equiv_monotone_from_union(
                                            pre_sym3,
                                            graph.symbols,
                                            imported_as,
                                            sref,
                                        );
                                        assert(link_evolution(
                                            mid_ms,
                                            mid_sym,
                                            graph.modules@,
                                            graph.symbols,
                                        ));
                                        lemma_all_bounds_persist(
                                            mid_ms,
                                            mid_sym,
                                            graph.modules@,
                                            graph.symbols,
                                            graph.sorted_modules@,
                                            s4 as int,
                                            id as int,
                                            imports@,
                                            ii as int,
                                        );
                                        // the new binding to the minted symbol
                                        assert(graph.modules@[importee_id as int]->External_0.symbols_imported_by_others@
                                            == pre_ms2[importee_id as int]->External_0.symbols_imported_by_others@.insert(
                                            name@,
                                            sref,
                                        ));
                                        assert(graph.symbols.root_of(imported_as)
                                            == pre_sym3.root_of(sref));
                                        assert(graph.symbols.root_of(sref)
                                            == pre_sym3.root_of(sref));
                                        assert(graph.symbols.equiv(imported_as, sref));
                                        assert(ni_map[key].imported is Literal);
                                        assert(crate::module::literal_of_specifier(
                                            ni_map[key].imported,
                                        ) == name@);
                                        assert(import_bound(
                                            graph.modules@,
                                            graph.symbols,
                                            id as int,
                                            key,
                                        ));
                                    }
                                },
                                None => {},
                            }
                        },
                        None => {},
                    }
                    proof {
                        assert forall|j: int|
                            0 <= j < ii + 1 implies ni_map.dom().contains(
                            (#[trigger] imports@[j]).0 as int,
                        ) && import_bound(
                            graph.modules@,
                            graph.symbols,
                            id as int,
                            imports@[j].0 as int,
                        ) by {
                            assert(imports@[j].0 == entry_seq[j].0);
                            assert(ni_map.dom().contains(imports@[j].0 as int));
                        }
                    }
                    ii += 1;
                }
                proof {
                    // every key of the module's import table was processed
                    assert forall|i: int, k: int|
                        0 <= i < s4 + 1 && graph.modules@[sortedv[i] as int] is Normal && (
                        #[trigger] graph.modules@[sortedv[i] as int]->Normal_0.named_imports@.dom().contains(
                            k,
                        )) implies import_bound(
                        graph.modules@,
                        graph.symbols,
                        sortedv[i] as int,
                        k,
                    ) by {
                        if i == s4 as int {
                            assert(sortedv[i] == id);
                            assert(ni_map.dom().contains(k));
                            let j = choose|j: int|
                                0 <= j < entry_seq.len() && (#[trigger] entry_seq[j]).0 == k;
                            assert(imports@[j].0 == entry_seq[j].0);
                            assert(import_bound(
                                graph.modules@,
                                graph.symbols,
                                id as int,
                                imports@[j].0 as int,
                            ));
                        }
                    }
                }
            } else {
                proof {
                    assert forall|i: int, k: int|
                        0 <= i < s4 + 1 && graph.modules@[sortedv[i] as int] is Normal && (
                        #[trigger] graph.modules@[sortedv[i] as int]->Normal_0.named_imports@.dom().contains(
                            k,
                        )) implies import_bound(
                        graph.modules@,
                        graph.symbols,
                        sortedv[i] as int,
                        k,
                    ) by {
                        if i == s4 as int {
                            assert(sortedv[i] == id);
                            assert(graph.modules@[id as int] == snap);
                        }
                    }
                }
            }
            s4 += 1;
        }

        Ok(())
    }
}

/// Re-derives symbol well-formedness after one external module minted
/// an export symbol.
proof fn lemma_wf_symbol_refs_after_external(
    ms1: Seq<Module>,
    ms2: Seq<Module>,
    sym1: Symbols,
    sym2: Symbols,
    changed: int,
)
    requires
        ms2.len() == ms1.len(),
        forall|i: int| 0 <= i < ms1.len() ==> same_linking_shape(#[trigger] ms1[i], ms2[i]),
        forall|i: int| 0 <= i < ms1.len() && i != changed ==> #[trigger] ms2[i] == ms1[i],
        0 <= changed < ms2.len(),
        ms2[changed] matches Module::External(em) ==> wf_external(em, sym2),
        wf_symbol_refs(ms1, sym1),
        forall|x: SymbolRef| #[trigger] sym1.valid_ref(x) ==> sym2.valid_ref(x),
    ensures
        wf_symbol_refs(ms2, sym2),
{
    assert forall|i: int|
        0 <= i < ms1.len() implies (match #[trigger] ms1[i] {
        Module::Normal(nm2) => {
            &&& sym2.valid_ref(nm2.namespace_symbol.0)
            &&& forall|k2: Seq<char>|
                nm2.named_exports@.dom().contains(k2) ==> match #[trigger] nm2.named_exports@[k2] {
                    LocalOrReExport::Local(l) => sym2.valid_ref(l.referenced),
                    LocalOrReExport::Re(_) => true,
                }
            &&& forall|k2: int|
                #[trigger] nm2.named_imports@.dom().contains(k2) ==> sym2.valid_ref(
                    nm2.named_imports@[k2].imported_as,
                )
        },
        Module::External(em2) => i == changed || wf_external(em2, sym2),
    }) by {
        match ms1[i] {
            Module::Normal(nm2) => {
                assert(sym1.valid_ref(nm2.namespace_symbol.0));
                assert forall|k2: Seq<char>|
                    nm2.named_exports@.dom().contains(k2) implies match
                    #[trigger] nm2.named_exports@[k2] {
                    LocalOrReExport::Local(l) => sym2.valid_ref(l.referenced),
                    LocalOrReExport::Re(_) => true,
                } by {
                    assert(match nm2.named_exports@[k2] {
                        LocalOrReExport::Local(l) => sym1.valid_ref(l.referenced),
                        LocalOrReExport::Re(_) => true,
                    });
                }
                assert forall|k2: int|
                    #[trigger] nm2.named_imports@.dom().contains(k2) implies sym2.valid_ref(
                    nm2.named_imports@[k2].imported_as,
                ) by {
                    assert(sym1.valid_ref(nm2.named_imports@[k2].imported_as));
                }
            },
            Module::External(em2) => {
                if i != changed {
                    assert(wf_external(em2, sym1));
                    assert forall|k2: Seq<char>|
                        #[trigger] em2.symbols_imported_by_others@.dom().contains(k2) implies
                        sym2.valid_ref(em2.symbols_imported_by_others@[k2])
                            && em2.symbols_imported_by_others@[k2].owner == em2.id by {
                        assert(sym1.valid_ref(em2.symbols_imported_by_others@[k2]));
                    }
                }
            },
        }
    }
    lemma_wf_symbol_refs_shape_ext(ms1, ms2, sym2, changed);
}

/// An empty resolution stack views to the empty sequence.
pub open spec fn rset_empty_view(s: Seq<(ModuleId, String)>) -> bool {
    crate::module::rset_view(s) == Seq::<(int, Seq<char>)>::empty()
}

/// The number of symbols in one module's table.
fn table_len(symbols: &Symbols, owner: ModuleId) -> (r: usize)
    requires
        owner < symbols.spec_tables().len(),
    ensures
        r == symbols.spec_tables()[owner as int].names@.len(),
{
    symbols.table_size(owner)
}

/// Symbol evolution that keeps the set of valid references keeps the
/// graph's symbol references well formed.
proof fn lemma_wf_symbol_refs_valid_iff(ms: Seq<Module>, s1: Symbols, s2: Symbols)
    requires
        wf_symbol_refs(ms, s1),
        forall|x: SymbolRef| s1.valid_ref(x) ==> s2.valid_ref(x),
    ensures
        wf_symbol_refs(ms, s2),
{
    assert forall|i: int| 0 <= i < ms.len() implies match #[trigger] ms[i] {
        Module::Normal(nm) => {
            &&& s2.valid_ref(nm.namespace_symbol.0)
            &&& forall|k: Seq<char>|
                nm.named_exports@.dom().contains(k) ==> match #[trigger] nm.named_exports@[k] {
                    LocalOrReExport::Local(l) => s2.valid_ref(l.referenced),
                    LocalOrReExport::Re(_) => true,
                }
        },
        Module::External(em) => wf_external(em, s2),
    } by {
        match ms[i] {
            Module::Normal(nm) => {
                assert forall|k: Seq<char>|
                    nm.named_exports@.dom().contains(k) implies match
                    #[trigger] nm.named_exports@[k] {
                    LocalOrReExport::Local(l) => s2.valid_ref(l.referenced),
                    LocalOrReExport::Re(_) => true,
                } by {
                    assert(match nm.named_exports@[k] {
                        LocalOrReExport::Local(l) => s1.valid_ref(l.referenced),
                        LocalOrReExport::Re(_) => true,
                    });
                }
            },
            Module::External(em) => {
                assert(wf_external(em, s1));
                assert forall|k: Seq<char>|
                    #[trigger] em.symbols_imported_by_others@.dom().contains(k) implies
                    s2.valid_ref(em.symbols_imported_by_others@[k])
                        && em.symbols_imported_by_others@[k].owner == em.id by {
                    assert(s1.valid_ref(em.symbols_imported_by_others@[k]));
                }
            },
        }
    }
}

/// Re-derives `wf_symbol_refs` after a shape-preserving module change
/// with unchanged symbols.
proof fn lemma_wf_symbol_refs_shape(ms1: Seq<Module>, ms2: Seq<Module>, sym: Symbols)
    requires
        ms2.len() == ms1.len(),
        forall|i: int|
            0 <= i < ms1.len() ==> same_linking_shape(#[trigger] ms1[i], ms2[i]),
        wf_symbol_refs(ms1, sym),
        forall|i: int|
            0 <= i < ms1.len() ==> ((#[trigger] ms1[i]) is External ==> ms2[i] == ms1[i]),
    ensures
        wf_symbol_refs(ms2, sym),
{
    assert forall|i: int|
        0 <= i < ms2.len() implies ((#[trigger] ms2[i]) matches Module::External(em)
        ==> wf_external(em, sym)) by {
        assert(same_linking_shape(ms1[i], ms2[i]));
        if ms2[i] is External {
            assert(ms1[i] is External);
            assert(ms2[i] == ms1[i]);
            assert(wf_external(ms1[i]->External_0, sym));
        }
    }
    lemma_shape_preserves_symbol_refs(ms1, ms2, sym, sym);
}

/// Re-derives `wf_symbol_refs` after one external module changed via
/// its own well-formed resolve.
proof fn lemma_wf_symbol_refs_shape_ext(
    ms1: Seq<Module>,
    ms2: Seq<Module>,
    sym2: Symbols,
    changed: int,
)
    requires
        ms2.len() == ms1.len(),
        forall|i: int|
            0 <= i < ms1.len() ==> same_linking_shape(#[trigger] ms1[i], ms2[i]),
        forall|i: int| 0 <= i < ms1.len() && i != changed ==> #[trigger] ms2[i] == ms1[i],
        0 <= changed < ms2.len(),
        ms2[changed] matches Module::External(em) ==> wf_external(em, sym2),
        forall|i: int|
            0 <= i < ms1.len() ==> (match #[trigger] ms1[i] {
                Module::Normal(nm) => {
                    &&& sym2.valid_ref(nm.namespace_symbol.0)
                    &&& forall|k: Seq<char>|
                        nm.named_exports@.dom().contains(k) ==> match
                            #[trigger] nm.named_exports@[k] {
                            LocalOrReExport::Local(l) => sym2.valid_ref(l.referenced),
                            LocalOrReExport::Re(_) => true,
                        }
                    &&& forall|k: int|
                        #[trigger] nm.named_imports@.dom().contains(k) ==> sym2.valid_ref(
                            nm.named_imports@[k].imported_as,
                        )
                },
                Module::External(em) => i == changed || wf_external(em, sym2),
            }),
    ensures
        wf_symbol_refs(ms2, sym2),
{
    assert forall|i: int| 0 <= i < ms2.len() implies match #[trigger] ms2[i] {
        Module::Normal(nm) => {
            &&& sym2.valid_ref(nm.namespace_symbol.0)
            &&& forall|k: Seq<char>|
                nm.named_exports@.dom().contains(k) ==> match #[trigger] nm.named_exports@[k] {
                    LocalOrReExport::Local(l) => sym2.valid_ref(l.referenced),
                    LocalOrReExport::Re(_) => true,
                }
            &&& forall|k: int|
                #[trigger] nm.named_imports@.dom().contains(k) ==> sym2.valid_ref(
                    nm.named_imports@[k].imported_as,
                )
        },
        Module::External(em) => wf_external(em, sym2),
    } by {
        if i != changed {
            assert(ms2[i] == ms1[i]);
        }
    }
}

} // verus!
