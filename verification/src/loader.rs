//! The module loader's orchestration state.
//!
//! Discovery is breadth-first: the driver takes pending fetch jobs,
//! reads, parses and scans each module concurrently, and reports
//! completions back; only this state machine allocates module ids,
//! decides what to fetch, and mutates the registry. The visited map
//! keyed by resolved resource id guarantees that no resource is
//! fetched twice: the ghost fetch log holds every job ever spawned and
//! never repeats a path.

use vstd::prelude::*;

use crate::error::Error;
use crate::ids::ImportRecordId;
use crate::ids::ModuleId;
use crate::maps::StrMap;
use crate::module::ExternalModule;
use crate::module::Module;
use crate::module::NormalModuleBuilder;
use crate::resource::ResourceId;
use crate::scanner::ScanResult;
use crate::symbols::SymbolMap;
use crate::symbols::Symbols;

verus! {

/// What specifier resolution produced: an absolute path, or a request
/// marked external.
#[derive(Debug)]
pub struct ResolvedRequestInfo {
    pub path: String,
    pub is_external: bool,
}

/// The policy for specifiers that skip resolution: a non-entry request
/// that does not start with `.` is treated as external.
pub fn is_external_specifier(request: &str, has_importer: bool) -> (r: bool)
    ensures
        r == (has_importer && !(request@.len() > 0 && request@[0] == '.')),
{
    if !has_importer {
        return false;
    }
    let n: usize = request.unicode_len();
    if n == 0 {
        return true;
    }
    request.get_char(0) != '.'
}

/// The loader's single-writer state: the visited map, the registry
/// under construction, the gathered symbol tables, and the queue of
/// fetch jobs the driver has not taken yet.
pub struct ModuleLoader {
    /// Resolved resource id to allocated module id.
    visited: StrMap<ModuleId>,
    /// The registry; a slot is `None` while its module's task runs.
    modules: Vec<Option<Module>>,
    /// Per-module symbol tables, indexed like `modules`.
    tables: Vec<SymbolMap>,
    /// Fetch jobs spawned but not yet taken by the driver.
    jobs: Vec<(ModuleId, ResourceId)>,
    /// How many spawned tasks have not completed yet.
    remaining: usize,
    /// Every fetch job ever spawned, by resource id.
    fetch_log: Ghost<Seq<Seq<char>>>,
}

impl ModuleLoader {
    /// Every fetch job ever spawned, by resource id, in spawn order.
    pub closed spec fn spec_fetch_log(&self) -> Seq<Seq<char>> {
        self.fetch_log@
    }

    /// The registry under construction.
    pub closed spec fn spec_modules(&self) -> Seq<Option<Module>> {
        self.modules@
    }

    /// The visited map: resolved resource id to module id.
    pub closed spec fn spec_visited(&self) -> Map<Seq<char>, ModuleId> {
        self.visited@
    }

    /// How many spawned tasks have not completed yet.
    pub closed spec fn spec_remaining(&self) -> nat {
        self.remaining as nat
    }

    /// The fetch jobs spawned but not yet taken by the driver, in
    /// spawn order.
    pub closed spec fn spec_jobs(&self) -> Seq<(ModuleId, ResourceId)> {
        self.jobs@
    }

    /// The state is consistent: ids are slots, every spawned path is
    /// visited, and no path was ever fetched twice.
    pub closed spec fn inv(&self) -> bool {
        &&& self.modules@.len() == self.tables@.len()
        &&& self.remaining <= self.modules@.len()
        &&& forall|k: Seq<char>|
            #[trigger] self.visited@.dom().contains(k) ==> (self.visited@[k] as int)
                < self.modules@.len()
        &&& forall|i: int|
            0 <= i < self.fetch_log@.len() ==> self.visited@.dom().contains(
                #[trigger] self.fetch_log@[i],
            )
        &&& self.fetch_log@.no_duplicates()
        &&& forall|i: int|
            0 <= i < self.modules@.len() ==> ((#[trigger] self.modules@[i]) matches Some(m) ==>
                m.spec_id() == i)
        &&& forall|i: int, j: int|
            0 <= i < j < self.jobs@.len() ==> (#[trigger] self.jobs@[i]).0 != (
            #[trigger] self.jobs@[j]).0
        &&& forall|i: int|
            0 <= i < self.jobs@.len() ==> ((#[trigger] self.jobs@[i]).0 as int)
                < self.modules@.len() && self.visited@.dom().contains(self.jobs@[i].1@)
                && self.visited@[self.jobs@[i].1@] == self.jobs@[i].0
                && self.fetch_log@.contains(self.jobs@[i].1@)
    }

    /// No resource is fetched twice: the spawn log never repeats a
    /// resolved resource id, however many importers reference it.
    pub proof fn lemma_no_duplicate_fetch(&self)
        requires
            self.inv(),
        ensures
            self.spec_fetch_log().no_duplicates(),
    {
    }

    pub fn new() -> (r: ModuleLoader)
        ensures
            r.inv(),
            r.spec_fetch_log() == Seq::<Seq<char>>::empty(),
            r.spec_modules() == Seq::<Option<Module>>::empty(),
            r.spec_jobs() == Seq::<(ModuleId, ResourceId)>::empty(),
            r.spec_remaining() == 0,
    {
        ModuleLoader {
            visited: StrMap::new(),
            modules: Vec::new(),
            tables: Vec::new(),
            jobs: Vec::new(),
            remaining: 0,
            fetch_log: Ghost(Seq::empty()),
        }
    }

    /// The build must start from a non-empty entry list.
    pub fn validate_input(input_len: usize) -> (r: Result<(), Error>)
        ensures
            r is Ok <==> input_len > 0,
            r matches Err(e) ==> (e matches Error::InvalidConfig { message } && message@
                == "You must supply options.input"@),
    {
        if input_len == 0 {
            proof {
                reveal_strlit("You must supply options.input");
            }
            Err(
                Error::InvalidConfig {
                    message: String::from_str("You must supply options.input"),
                },
            )
        } else {
            Ok(())
        }
    }

    /// Registers an entry: an entry that resolved as external is a
    /// fatal configuration error.
    pub fn add_entry(&mut self, info: &ResolvedRequestInfo) -> (r: Result<ModuleId, Error>)
        requires
            old(self).inv(),
        ensures
            final(self).inv(),
            match r {
                Ok(id) => !info.is_external && spawn_effect(*old(self), *final(self), *info, id),
                Err(e) => info.is_external && (e matches Error::ExternalEntry { id } && id@
                    == info.path@) && *final(self) == *old(self),
            },
    {
        if info.is_external {
            return Err(Error::ExternalEntry { id: info.path.clone() });
        }
        Ok(self.try_spawn_new_task(info))
    }

    /// Allocates a module id for a resolved request not seen before,
    /// spawning a fetch job for it (or registering it at once when it
    /// is external); a request seen before reuses its id and spawns
    /// nothing.
    pub fn try_spawn_new_task(&mut self, info: &ResolvedRequestInfo) -> (id: ModuleId)
        requires
            old(self).inv(),
        ensures
            final(self).inv(),
            spawn_effect(*old(self), *final(self), *info, id),
    {
        let seen = self.visited.get(info.path.as_str());
        match seen {
            Some(found) => {
                let id = *found;
                proof {
                    assert(self.visited@.insert(info.path@, id) =~= self.visited@);
                }
                id
            },
            None => {
                let id = self.modules.len();
                self.visited.insert(info.path.clone(), id);
                if info.is_external {
                    let em = ExternalModule::new(id, ResourceId::new(info.path.clone()));
                    self.modules.push(Some(Module::External(em)));
                    self.tables.push(SymbolMap::new());
                } else {
                    self.modules.push(None);
                    self.tables.push(SymbolMap::new());
                    self.jobs.push((id, ResourceId::new(info.path.clone())));
                    let cur_len = self.modules.len();
                    proof {
                        assert(self.remaining < cur_len);
                    }
                    self.remaining = self.remaining + 1;
                    proof {
                        self.fetch_log = Ghost(self.fetch_log@.push(info.path@));
                    }
                }
                proof {
                    assert(self.fetch_log@.no_duplicates()) by {
                        if !info.is_external {
                            assert(forall|i: int|
                                0 <= i < old(self).fetch_log@.len() ==> #[trigger] self.fetch_log@[i]
                                    == old(self).fetch_log@[i]);
                            assert(self.fetch_log@.last() == info.path@);
                            assert(forall|i: int|
                                0 <= i < old(self).fetch_log@.len() ==> old(self).fetch_log@[i] != info.path@);
                        }
                    }
                    assert forall|i: int|
                        0 <= i < self.jobs@.len() implies ((#[trigger] self.jobs@[i]).0 as int)
                        < self.modules@.len() && self.visited@.dom().contains(self.jobs@[i].1@)
                        && self.visited@[self.jobs@[i].1@] == self.jobs@[i].0
                        && self.fetch_log@.contains(self.jobs@[i].1@) by {
                        if i < old(self).jobs@.len() {
                            assert(self.jobs@[i] == old(self).jobs@[i]);
                            assert(old(self).visited@.dom().contains(old(self).jobs@[i].1@));
                            assert(old(self).jobs@[i].1@ != info.path@);
                            let w = choose|w: int|
                                0 <= w < old(self).fetch_log@.len() && old(self).fetch_log@[w]
                                    == old(self).jobs@[i].1@;
                            assert(self.fetch_log@[w] == old(self).jobs@[i].1@);
                            assert(self.fetch_log@.contains(old(self).jobs@[i].1@));
                        } else {
                            assert(self.jobs@[i] == self.jobs@.last());
                            assert(self.jobs@.last().1@ == info.path@);
                            assert(self.fetch_log@.last() == info.path@);
                            assert(self.fetch_log@.contains(info.path@));
                        }
                    }
                    assert forall|i: int, j: int|
                        0 <= i < j < self.jobs@.len() implies (#[trigger] self.jobs@[i]).0 != (
                    #[trigger] self.jobs@[j]).0 by {
                        if j == self.jobs@.len() - 1 && self.jobs@.len() > old(self).jobs@.len() {
                            assert(self.jobs@[i] == old(self).jobs@[i]);
                            assert((old(self).jobs@[i].0 as int) < old(self).modules@.len());
                            assert(self.jobs@[j].0 == id);
                        }
                    }
                }
                id
            },
        }
    }

    /// The next fetch job for the driver, if any: the newest untaken
    /// job, removed from the queue. Ids in the queue never repeat, so
    /// no job is ever handed out twice.
    pub fn next_job(&mut self) -> (r: Option<(ModuleId, ResourceId)>)
        requires
            old(self).inv(),
        ensures
            final(self).inv(),
            final(self).spec_fetch_log() == old(self).spec_fetch_log(),
            final(self).spec_modules() == old(self).spec_modules(),
            final(self).spec_remaining() == old(self).spec_remaining(),
            final(self).spec_visited() == old(self).spec_visited(),
            r is Some <==> old(self).spec_jobs().len() > 0,
            r is None ==> final(self).spec_jobs() == old(self).spec_jobs(),
            r matches Some(job) ==> {
                &&& job == old(self).spec_jobs().last()
                &&& final(self).spec_jobs() == old(self).spec_jobs().drop_last()
                &&& (job.0 as int) < old(self).spec_modules().len()
                &&& old(self).spec_visited().dom().contains(job.1@)
                &&& old(self).spec_visited()[job.1@] == job.0
                &&& old(self).spec_fetch_log().contains(job.1@)
            },
    {
        let r = self.jobs.pop();
        proof {
            if old(self).jobs@.len() > 0 {
                assert(self.jobs@ =~= old(self).jobs@.drop_last());
            }
        }
        r
    }

    /// How many spawned tasks have not completed yet.
    pub fn remaining_tasks(&self) -> (r: usize)
        ensures
            r == self.spec_remaining(),
    {
        self.remaining
    }

    /// Accepts one completed module task: resolves its dependencies
    /// (spawning new fetch jobs for resources not seen before), writes
    /// the destinations back into the import records, reserves the
    /// namespace binding, and stores the built module in its slot.
    pub fn on_task_done(
        &mut self,
        module_id: ModuleId,
        resource_id: ResourceId,
        scan: ScanResult,
        symbol_map: SymbolMap,
        resolved_deps: Vec<(ImportRecordId, ResolvedRequestInfo)>,
    )
        requires
            old(self).inv(),
            (module_id as int) < old(self).spec_modules().len(),
            old(self).spec_modules()[module_id as int] is None,
            old(self).spec_remaining() > 0,
            forall|i: int|
                0 <= i < resolved_deps@.len() ==> (#[trigger] resolved_deps@[i]).0
                    < scan.import_records@.len(),
        ensures
            final(self).inv(),
            final(self).spec_modules().len() >= old(self).spec_modules().len(),
            final(self).spec_remaining() == old(self).spec_remaining() - 1 + (final(self).spec_fetch_log().len() - old(self).spec_fetch_log().len()),
            old(self).spec_fetch_log().is_prefix_of(final(self).spec_fetch_log()),
            old(self).spec_jobs().is_prefix_of(final(self).spec_jobs()),
            final(self).spec_modules()[module_id as int] matches Some(m) && m is Normal,
            forall|i: int|
                0 <= i < old(self).spec_modules().len() && i != module_id ==> #[trigger] final(self).spec_modules()[i] == old(self).spec_modules()[i],
            ({
                let m = final(self).spec_modules()[module_id as int]->Some_0->Normal_0;
                &&& m.id == module_id
                &&& m.resource_id@ == resource_id@
                &&& m.named_imports == scan.named_imports
                &&& m.named_exports == scan.named_exports
                &&& m.stmt_infos == scan.stmt_infos
                &&& m.star_exports == scan.star_exports
                &&& m.default_export_symbol == scan.export_default_symbol_id
                &&& m.namespace_symbol.0.owner == module_id
                &&& m.import_records@.len() == scan.import_records@.len()
                &&& (forall|r: int|
                    0 <= r < m.import_records@.len() ==> (#[trigger] m.import_records@[r])@.module_request == scan.import_records@[r]@.module_request && m.import_records@[r]@.is_import_namespace == scan.import_records@[r]@.is_import_namespace)
                &&& (forall|j: int|
                    0 <= j < resolved_deps@.len() && (forall|j2: int|
                        j < j2 < resolved_deps@.len() ==> (#[trigger] resolved_deps@[j2]).0 != resolved_deps@[j].0) ==> {
                        let rid = (#[trigger] resolved_deps@[j]).0 as int;
                        let path = resolved_deps@[j].1.path@;
                        &&& final(self).spec_visited().dom().contains(path)
                        &&& m.import_records@[rid]@.resolved_module == Some(
                            final(self).spec_visited()[path] as int,
                        )
                    })
                &&& (forall|r: int|
                    0 <= r < m.import_records@.len() && (forall|j: int|
                        0 <= j < resolved_deps@.len() ==> (#[trigger] resolved_deps@[j]).0 != r)
                        ==> (#[trigger] m.import_records@[r])@.resolved_module == scan.import_records@[r]@.resolved_module)
            }),
    {
        let mut records = scan.import_records;
        let ghost scan_records = records@;
        let dn = resolved_deps.len();
        let mut di: usize = 0;
        while di < dn
            invariant
                0 <= di <= dn,
                dn == resolved_deps@.len(),
                self.inv(),
                records@.len() == scan_records.len(),
                forall|i: int|
                    0 <= i < resolved_deps@.len() ==> (#[trigger] resolved_deps@[i]).0
                        < records@.len(),
                (module_id as int) < self.spec_modules().len(),
                self.spec_modules()[module_id as int] is None,
                self.spec_remaining() >= old(self).spec_remaining() > 0,
                self.spec_modules().len() >= old(self).spec_modules().len(),
                old(self).spec_fetch_log().is_prefix_of(self.spec_fetch_log()),
                old(self).spec_jobs().is_prefix_of(self.spec_jobs()),
                self.spec_remaining() == old(self).spec_remaining() + (self.spec_fetch_log().len()
                    - old(self).spec_fetch_log().len()),
                forall|i: int|
                    0 <= i < old(self).spec_modules().len() && i != module_id
                        ==> #[trigger] self.spec_modules()[i] == old(self).spec_modules()[i],
                forall|r: int|
                    0 <= r < records@.len() ==> (#[trigger] records@[r])@.module_request
                        == scan_records[r]@.module_request && records@[r]@.is_import_namespace
                        == scan_records[r]@.is_import_namespace,
                forall|j: int|
                    0 <= j < di && (forall|j2: int|
                        j < j2 < di ==> (#[trigger] resolved_deps@[j2]).0 != resolved_deps@[j].0)
                        ==> {
                        let rid = (#[trigger] resolved_deps@[j]).0 as int;
                        let path = resolved_deps@[j].1.path@;
                        &&& self.spec_visited().dom().contains(path)
                        &&& records@[rid]@.resolved_module == Some(
                            self.spec_visited()[path] as int,
                        )
                    },
                forall|r: int|
                    0 <= r < records@.len() && (forall|j: int|
                        0 <= j < di ==> (#[trigger] resolved_deps@[j]).0 != r)
                        ==> (#[trigger] records@[r])@.resolved_module
                        == scan_records[r]@.resolved_module,
            decreases dn - di,
        {
            let ghost pre_visited = self.spec_visited();
            let ghost pre_records = records@;
            let ghost pre_jobs = self.spec_jobs();
            let rid = resolved_deps[di].0;
            let dep_id = self.try_spawn_new_task(&resolved_deps[di].1);
            proof {
                assert(old(self).spec_jobs().is_prefix_of(self.spec_jobs())) by {
                    assert(old(self).spec_jobs().len() <= pre_jobs.len()
                        <= self.spec_jobs().len());
                    assert forall|i: int|
                        0 <= i < old(self).spec_jobs().len() implies #[trigger] self.spec_jobs()[i]
                        == old(self).spec_jobs()[i] by {
                        assert(pre_jobs[i] == old(self).spec_jobs()[i]);
                        if self.spec_jobs().len() > pre_jobs.len() {
                            assert(self.spec_jobs()[i] == pre_jobs[i]);
                        }
                    }
                    assert(self.spec_jobs().subrange(0, old(self).spec_jobs().len() as int)
                        =~= old(self).spec_jobs());
                }
            }
            let rec = &mut records[rid];
            rec.resolved_module = Some(dep_id);
            proof {
                assert(self.spec_visited() == pre_visited.insert(
                    resolved_deps@[di as int].1.path@,
                    dep_id,
                ));
                assert(self.spec_visited()[resolved_deps@[di as int].1.path@] == dep_id);
                assert forall|j: int|
                    0 <= j < di + 1 && (forall|j2: int|
                        j < j2 < di + 1 ==> (#[trigger] resolved_deps@[j2]).0
                            != resolved_deps@[j].0) implies {
                    let rid2 = (#[trigger] resolved_deps@[j]).0 as int;
                    let path = resolved_deps@[j].1.path@;
                    &&& self.spec_visited().dom().contains(path)
                    &&& records@[rid2]@.resolved_module == Some(self.spec_visited()[path] as int)
                } by {
                    if j < di as int {
                        let rid2 = resolved_deps@[j].0 as int;
                        let path = resolved_deps@[j].1.path@;
                        assert(pre_visited.dom().contains(path));
                        assert(rid2 != rid as int);
                        assert(records@[rid2] == pre_records[rid2]);
                        assert(self.spec_visited()[path] == pre_visited[path] || path
                            == resolved_deps@[di as int].1.path@);
                    }
                }
            }
            di += 1;
        }
        let mut table = symbol_map;
        let mut builder = NormalModuleBuilder::new();
        builder.id = Some(module_id);
        builder.path = Some(resource_id);
        builder.named_imports = Some(scan.named_imports);
        builder.named_exports = Some(scan.named_exports);
        builder.stmt_infos = Some(scan.stmt_infos);
        builder.import_records = Some(records);
        builder.star_exports = Some(scan.star_exports);
        builder.default_export_symbol = scan.export_default_symbol_id;
        builder.initialize_namespace_binding(&mut table);
        let built = builder.build();
        let m = Module::Normal(built);
        proof {
            assert(m.spec_id() == module_id);
        }
        self.modules.set(module_id, Some(m));
        self.tables.set(module_id, table);
        self.remaining = self.remaining - 1;
    }

    /// Hands the finished registry and the symbol store to the graph.
    /// Every slot must be filled: no partial registry is exposed.
    pub fn finish(self) -> (r: (Vec<Module>, Symbols))
        requires
            self.inv(),
            self.spec_remaining() == 0,
            forall|i: int| 0 <= i < self.spec_modules().len() ==> self.spec_modules()[i] is Some,
        ensures
            r.0@.len() == self.spec_modules().len(),
            forall|i: int|
                0 <= i < r.0@.len() ==> Some(#[trigger] r.0@[i]) == self.spec_modules()[i],
            forall|i: int| 0 <= i < r.0@.len() ==> (#[trigger] r.0@[i]).spec_id() == i,
            r.1.inv(),
            r.1.spec_tables().len() == r.0@.len(),
            forall|x: crate::ids::SymbolRef| r.1.valid_ref(x) ==> #[trigger] r.1.root_of(x) == x,
    {
        let ghost orig = self.spec_modules();
        let ModuleLoader { visited, mut modules, tables, jobs, remaining, fetch_log } = self;
        proof {
            assert(orig == modules@);
        }
        let mut out: Vec<Module> = Vec::new();
        let n = modules.len();
        let mut i: usize = 0;
        while i < n
            invariant
                0 <= i <= n,
                n == orig.len(),
                modules@.len() == orig.len(),
                out@.len() == i,
                forall|j: int|
                    0 <= j < orig.len() ==> ((#[trigger] orig[j]) matches Some(m) ==> m.spec_id()
                        == j),
                forall|j: int| 0 <= j < orig.len() ==> orig[j] is Some,
                forall|j: int| i <= j < orig.len() ==> #[trigger] modules@[j] == orig[j],
                forall|j: int| 0 <= j < i ==> Some(#[trigger] out@[j]) == orig[j],
            decreases n - i,
        {
            let mut slot: Option<Module> = None;
            core::mem::swap(&mut modules[i], &mut slot);
            let m = slot.unwrap();
            out.push(m);
            i += 1;
        }
        let symbols = Symbols::new(tables);
        (out, symbols)
    }
}

/// Effect of asking the loader for a resolved request: a request seen
/// before reuses its id and changes nothing; a new one is allocated
/// the next id, becomes visited, and either registers an external
/// module at once or spawns exactly one fetch job for its path.
pub open spec fn spawn_effect(
    pre: ModuleLoader,
    post: ModuleLoader,
    info: ResolvedRequestInfo,
    id: ModuleId,
) -> bool {
    &&& post.spec_visited() == pre.spec_visited().insert(info.path@, id)
    &&& pre.spec_visited().dom().contains(info.path@) ==> (id == pre.spec_visited()[info.path@]
        && post.spec_modules() == pre.spec_modules() && post.spec_fetch_log()
        == pre.spec_fetch_log() && post.spec_remaining() == pre.spec_remaining()
        && post.spec_jobs() == pre.spec_jobs())
    &&& !pre.spec_visited().dom().contains(info.path@) ==> {
        &&& id == pre.spec_modules().len()
        &&& post.spec_modules().len() == pre.spec_modules().len() + 1
        &&& forall|i: int|
            0 <= i < pre.spec_modules().len() ==> #[trigger] post.spec_modules()[i]
                == pre.spec_modules()[i]
        &&& (info.is_external ==> (post.spec_modules()[id as int] matches Some(m) && m matches
            Module::External(em) && em.id == id && em.resource_id@ == info.path@)
            && post.spec_fetch_log() == pre.spec_fetch_log() && post.spec_remaining()
            == pre.spec_remaining() && post.spec_jobs() == pre.spec_jobs())
        &&& (!info.is_external ==> post.spec_modules()[id as int] is None && post.spec_fetch_log()
            == pre.spec_fetch_log().push(info.path@) && !pre.spec_fetch_log().contains(
            info.path@,
        ) && post.spec_remaining() == pre.spec_remaining() + 1 && post.spec_jobs().len()
            == pre.spec_jobs().len() + 1 && (forall|i: int|
            0 <= i < pre.spec_jobs().len() ==> #[trigger] post.spec_jobs()[i]
                == pre.spec_jobs()[i]) && post.spec_jobs().last().0 == id
            && post.spec_jobs().last().1@ == info.path@)
    }
}

} // verus!
