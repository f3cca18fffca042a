//! The module graph: the registry of modules, the entry list, and the
//! deterministic execution order.
//!
//! `sort_modules` runs an iterative post-order depth-first traversal
//! over the resolved import edges starting from the entries. Each
//! module is entered once; on its first visit its dependencies are
//! pushed in reverse declaration order (so the leftmost dependency is
//! visited first), and on its exit it receives the next sequential
//! execution order. A module reached from several import paths is
//! ordered exactly once, and a module already mid-traversal is not
//! re-entered, which breaks import cycles silently.

use vstd::prelude::*;

use crate::ids::ImportRecord;
use crate::ids::ModuleId;
use crate::module::Module;
use crate::symbols::Symbols;

verus! {

/// A pending traversal step: first visit of a module, or the moment
/// all its dependencies are done.
#[derive(Debug, Clone, Copy, PartialEq, Eq, Structural)]
pub enum Action {
    Enter,
    Exit,
}

/// The module graph under construction.
pub struct Graph {
    /// The registry, indexed by module id.
    pub modules: Vec<Module>,
    /// The entry modules, in configuration order.
    pub entries: Vec<ModuleId>,
    /// Every ordered module, in execution order; filled by
    /// `sort_modules`.
    pub sorted_modules: Vec<ModuleId>,
    /// The alias forest over all modules' symbols.
    pub symbols: Symbols,
}

/// The resolved import edges of every module: for each module, the
/// destination of each of its import records.
pub open spec fn adjacency(ms: Seq<Module>) -> Seq<Seq<Option<int>>> {
    Seq::new(
        ms.len(),
        |i: int| ms[i].spec_import_records().map_values(|r: ImportRecord| r@.resolved_module),
    )
}

/// `d` is a direct static dependency of `m`.
pub open spec fn dep_edge(adj: Seq<Seq<Option<int>>>, m: int, d: int) -> bool {
    &&& 0 <= m < adj.len()
    &&& exists|i: int| 0 <= i < adj[m].len() && adj[m][i] == Some(d)
}

/// All ids on the stack are in range and the entered flags cover every
/// module.
pub open spec fn sort_state_ok(
    adj: Seq<Seq<Option<int>>>,
    stack: Seq<(Action, int)>,
    entered: Seq<bool>,
) -> bool {
    &&& entered.len() == adj.len()
    &&& forall|i: int| 0 <= i < stack.len() ==> 0 <= (#[trigger] stack[i]).1 < adj.len()
}

/// How many modules have not been entered yet.
pub open spec fn count_unentered(entered: Seq<bool>) -> int
    decreases entered.len(),
{
    if entered.len() == 0 {
        0
    } else {
        count_unentered(entered.drop_last()) + (if entered.last() {
            0int
        } else {
            1int
        })
    }
}

pub proof fn lemma_count_unentered_bounds(entered: Seq<bool>)
    ensures
        0 <= count_unentered(entered) <= entered.len(),
    decreases entered.len(),
{
    if entered.len() > 0 {
        lemma_count_unentered_bounds(entered.drop_last());
    }
}

pub proof fn lemma_count_unentered_update(entered: Seq<bool>, i: int)
    requires
        0 <= i < entered.len(),
        !entered[i],
    ensures
        count_unentered(entered.update(i, true)) == count_unentered(entered) - 1,
    decreases entered.len(),
{
    let upd = entered.update(i, true);
    if i == entered.len() - 1 {
        assert(upd.drop_last() =~= entered.drop_last());
    } else {
        assert(upd.drop_last() =~= entered.drop_last().update(i, true));
        assert(upd.last() == entered.last());
        lemma_count_unentered_update(entered.drop_last(), i);
    }
}

/// The traversal steps a module's dependency row contributes, so that
/// popping visits the dependencies in declaration order.
pub open spec fn dep_enters(row: Seq<Option<int>>) -> Seq<(Action, int)>
    decreases row.len(),
{
    if row.len() == 0 {
        Seq::empty()
    } else {
        dep_enters(row.drop_first()) + (match row[0] {
            Some(t) => seq![(Action::Enter, t)],
            None => Seq::empty(),
        })
    }
}

proof fn lemma_dep_enters_ok(adj: Seq<Seq<Option<int>>>, m: int, row: Seq<Option<int>>)
    requires
        0 <= m < adj.len(),
        forall|i: int|
            0 <= i < row.len() ==> ((#[trigger] row[i]) matches Some(t) ==> 0 <= t < adj.len()),
    ensures
        forall|i: int|
            0 <= i < dep_enters(row).len() ==> {
                &&& (#[trigger] dep_enters(row)[i]).0 is Enter
                &&& 0 <= dep_enters(row)[i].1 < adj.len()
            },
    decreases row.len(),
{
    if row.len() > 0 {
        assert(forall|i: int|
            0 <= i < row.drop_first().len() ==> (#[trigger] row.drop_first()[i]) == row[i + 1]);
        lemma_dep_enters_ok(adj, m, row.drop_first());
    }
}

/// One run of the post-order traversal from the given stack: the
/// execution order is `sorted` extended by every module that exits.
pub open spec fn sort_run(
    adj: Seq<Seq<Option<int>>>,
    stack: Seq<(Action, int)>,
    entered: Seq<bool>,
    sorted: Seq<int>,
) -> Seq<int>
    decreases count_unentered(entered), stack.len()
        when sort_state_ok(adj, stack, entered)
        via sort_run_dec
{
    if stack.len() == 0 {
        sorted
    } else {
        let top = stack.last();
        let rest = stack.drop_last();
        if top.0 is Enter {
            if entered[top.1] {
                sort_run(adj, rest, entered, sorted)
            } else {
                sort_run(
                    adj,
                    rest + seq![(Action::Exit, top.1)] + dep_enters(adj[top.1]),
                    entered.update(top.1, true),
                    sorted,
                )
            }
        } else {
            sort_run(adj, rest, entered, sorted.push(top.1))
        }
    }
}

#[via_fn]
proof fn sort_run_dec(
    adj: Seq<Seq<Option<int>>>,
    stack: Seq<(Action, int)>,
    entered: Seq<bool>,
    sorted: Seq<int>,
) {
    if stack.len() > 0 {
        let top = stack.last();
        let rest = stack.drop_last();
        lemma_count_unentered_bounds(entered);
        if top.0 is Enter && !entered[top.1] {
            lemma_count_unentered_update(entered, top.1);
            lemma_count_unentered_bounds(entered.update(top.1, true));
            assert(forall|i: int|
                0 <= i < adj[top.1].len() ==> ((#[trigger] adj[top.1][i]) matches Some(t) ==> 0
                    <= t < adj.len()) || true);
        }
    }
}

proof fn lemma_dep_enters_contains(row: Seq<Option<int>>, d: int)
    requires
        exists|j: int| 0 <= j < row.len() && row[j] == Some(d),
    ensures
        dep_enters(row).contains((Action::Enter, d)),
    decreases row.len(),
{
    let j = choose|j: int| 0 <= j < row.len() && row[j] == Some(d);
    if j == 0 {
        let k = dep_enters(row).len() - 1;
        assert(dep_enters(row)[k] == (Action::Enter, d));
    } else {
        assert(row.drop_first()[j - 1] == Some(d));
        lemma_dep_enters_contains(row.drop_first(), d);
        let k = choose|k: int|
            0 <= k < dep_enters(row.drop_first()).len() && dep_enters(row.drop_first())[k] == (
            Action::Enter,
            d,
        );
        assert(dep_enters(row)[k] == (Action::Enter, d));
    }
}

/// A sequence of distinct ids drawn from `[0, n)` has at most `n`
/// members.
pub proof fn lemma_distinct_ids_bound(s: Seq<int>, n: int)
    requires
        s.no_duplicates(),
        forall|i: int| 0 <= i < s.len() ==> 0 <= #[trigger] s[i] < n,
        n >= 0,
    ensures
        s.len() <= n,
{
    s.unique_seq_to_set();
    vstd::set_lib::lemma_int_range(0, n);
    assert(s.to_set().subset_of(vstd::set_lib::set_int_range(0, n)));
    vstd::set_lib::lemma_len_subset(s.to_set(), vstd::set_lib::set_int_range(0, n));
}


/// The ids of the `Exit` entries on the stack, bottom to top: the
/// modules currently mid-traversal.
pub open spec fn stack_chain(stack: Seq<(Action, int)>) -> Seq<int>
    decreases stack.len(),
{
    if stack.len() == 0 {
        Seq::empty()
    } else if stack.last().0 is Exit {
        stack_chain(stack.drop_last()).push(stack.last().1)
    } else {
        stack_chain(stack.drop_last())
    }
}

/// Structural soundness of the traversal stack, scanned from the top
/// with `above` holding the ids of the `Enter` entries already seen:
/// every entry is a dependency of the nearest mid-traversal module
/// below it, and every dependency of a mid-traversal module is either
/// entered or still pending above it.
pub open spec fn stack_ok(
    adj: Seq<Seq<Option<int>>>,
    stack: Seq<(Action, int)>,
    entered: Seq<bool>,
    above: Set<int>,
) -> bool
    decreases stack.len(),
{
    if stack.len() == 0 {
        true
    } else {
        let top = stack.last();
        let rest = stack.drop_last();
        let c = stack_chain(rest);
        if top.0 is Enter {
            &&& (c.len() > 0 ==> dep_edge(adj, c.last(), top.1))
            &&& stack_ok(adj, rest, entered, above.insert(top.1))
        } else {
            &&& (c.len() > 0 ==> dep_edge(adj, c.last(), top.1))
            &&& (forall|d: int|
                #[trigger] dep_edge(adj, top.1, d) ==> (0 <= d < entered.len() && entered[d])
                    || above.contains(d))
            &&& stack_ok(adj, rest, entered, above)
        }
    }
}

/// Consecutive mid-traversal modules are joined by dependency edges.
pub open spec fn chain_edges(adj: Seq<Seq<Option<int>>>, chain: Seq<int>) -> bool {
    forall|i: int| 0 <= i < chain.len() - 1 ==> dep_edge(adj, #[trigger] chain[i], chain[i + 1])
}

/// A witness that the import graph is acyclic: a rank that strictly
/// drops along every dependency edge.
pub open spec fn rank_ok(adj: Seq<Seq<Option<int>>>, rank: Map<int, int>) -> bool {
    forall|m: int, d: int| #[trigger] dep_edge(adj, m, d) ==> rank[d] < rank[m]
}

/// Growing the entered set and shrinking the pending set (up to
/// entered ids) keeps the stack sound.
proof fn lemma_stack_ok_weaken(
    adj: Seq<Seq<Option<int>>>,
    stack: Seq<(Action, int)>,
    e1: Seq<bool>,
    e2: Seq<bool>,
    ab1: Set<int>,
    ab2: Set<int>,
)
    requires
        stack_ok(adj, stack, e1, ab1),
        e1.len() == e2.len(),
        forall|i: int| 0 <= i < e1.len() && e1[i] ==> #[trigger] e2[i],
        forall|x: int|
            #[trigger] ab1.contains(x) ==> ab2.contains(x) || (0 <= x < e2.len() && e2[x]),
    ensures
        stack_ok(adj, stack, e2, ab2),
    decreases stack.len(),
{
    if stack.len() > 0 {
        let top = stack.last();
        let rest = stack.drop_last();
        if top.0 is Enter {
            assert forall|x: int|
                #[trigger] ab1.insert(top.1).contains(x) implies ab2.insert(top.1).contains(x) || (
            0 <= x < e2.len() && e2[x]) by {
                if x != top.1 {
                    assert(ab1.contains(x));
                }
            }
            lemma_stack_ok_weaken(adj, rest, e1, e2, ab1.insert(top.1), ab2.insert(top.1));
        } else {
            lemma_stack_ok_weaken(adj, rest, e1, e2, ab1, ab2);
        }
    }
}

/// A block of `Enter` entries for dependencies of the topmost
/// mid-traversal module can be stacked on top without breaking
/// soundness, provided they were accounted as pending.
proof fn lemma_stack_ok_append_enters(
    adj: Seq<Seq<Option<int>>>,
    s: Seq<(Action, int)>,
    ext: Seq<(Action, int)>,
    entered: Seq<bool>,
    above: Set<int>,
)
    requires
        forall|i: int| 0 <= i < ext.len() ==> (#[trigger] ext[i]).0 is Enter,
        stack_chain(s).len() > 0,
        forall|i: int|
            0 <= i < ext.len() ==> dep_edge(adj, stack_chain(s).last(), (#[trigger] ext[i]).1),
        stack_ok(adj, s, entered, above.union(ext.map_values(|p: (Action, int)| p.1).to_set())),
    ensures
        stack_ok(adj, s + ext, entered, above),
        stack_chain(s + ext) == stack_chain(s),
    decreases ext.len(),
{
    if ext.len() == 0 {
        assert(s + ext =~= s);
        assert(above.union(ext.map_values(|p: (Action, int)| p.1).to_set()) =~= above);
    } else {
        let last = ext.last();
        let ext0 = ext.drop_last();
        let ids = ext.map_values(|p: (Action, int)| p.1);
        let ids0 = ext0.map_values(|p: (Action, int)| p.1);
        assert(ids =~= ids0.push(last.1));
        assert(above.union(ids.to_set()) =~= above.insert(last.1).union(ids0.to_set())) by {
            assert forall|x: int| ids.to_set().contains(x) implies ids0.to_set().contains(x) || x
                == last.1 by {
                let w = choose|w: int| 0 <= w < ids.len() && ids[w] == x;
                if w < ids0.len() {
                    assert(ids0[w] == x);
                }
            }
            assert forall|x: int| ids0.to_set().contains(x) implies ids.to_set().contains(x) by {
                let w = choose|w: int| 0 <= w < ids0.len() && ids0[w] == x;
                assert(ids[w] == x);
            }
            assert(ids.to_set().contains(last.1)) by {
                assert(ids[ids.len() - 1] == last.1);
            }
        }
        assert(forall|i: int| 0 <= i < ext0.len() ==> ext0[i] == ext[i]);
        lemma_stack_ok_append_enters(adj, s, ext0, entered, above.insert(last.1));
        let full = s + ext;
        assert(full.drop_last() =~= s + ext0);
        assert(full.last() == last);
        assert(stack_chain(full) == stack_chain(s + ext0));
        assert(stack_chain(s + ext0).len() > 0);
        assert(dep_edge(adj, stack_chain(s + ext0).last(), last.1));
        assert(stack_ok(adj, full, entered, above));
    }
}

/// With an acyclic-graph rank, the rank of every mid-traversal module
/// is strictly above the rank of the newest one.
proof fn lemma_chain_rank(
    adj: Seq<Seq<Option<int>>>,
    chain: Seq<int>,
    rank: Map<int, int>,
    i: int,
)
    requires
        chain_edges(adj, chain),
        rank_ok(adj, rank),
        0 <= i < chain.len() - 1,
    ensures
        rank[chain.last()] < rank[chain[i]],
    decreases chain.len() - i,
{
    assert(dep_edge(adj, chain[i], chain[i + 1]));
    if i + 1 < chain.len() - 1 {
        lemma_chain_rank(adj, chain, rank, i + 1);
    }
}

/// A stack of `Enter` entries alone is sound and has no
/// mid-traversal modules.
proof fn lemma_stack_ok_enters_only(
    adj: Seq<Seq<Option<int>>>,
    stack: Seq<(Action, int)>,
    entered: Seq<bool>,
    above: Set<int>,
)
    requires
        forall|i: int| 0 <= i < stack.len() ==> (#[trigger] stack[i]).0 is Enter,
    ensures
        stack_ok(adj, stack, entered, above),
        stack_chain(stack) == Seq::<int>::empty(),
    decreases stack.len(),
{
    if stack.len() > 0 {
        let rest = stack.drop_last();
        assert(forall|i: int| 0 <= i < rest.len() ==> (#[trigger] rest[i]).0 is Enter);
        lemma_stack_ok_enters_only(adj, rest, entered, above.insert(stack.last().1));
        lemma_stack_ok_enters_only(adj, rest, entered, above);
    }
}

/// An `Exit` entry's module is mid-traversal.
proof fn lemma_exit_in_chain(stack: Seq<(Action, int)>, d: int)
    requires
        stack.contains((Action::Exit, d)),
    ensures
        stack_chain(stack).contains(d),
    decreases stack.len(),
{
    let w = choose|w: int| 0 <= w < stack.len() && stack[w] == (Action::Exit, d);
    let rest = stack.drop_last();
    if w == stack.len() - 1 {
        assert(stack_chain(stack).last() == d);
    } else {
        assert(rest[w] == (Action::Exit, d));
        assert(rest.contains((Action::Exit, d)));
        lemma_exit_in_chain(rest, d);
        let w2 = choose|w2: int|
            0 <= w2 < stack_chain(rest).len() && stack_chain(rest)[w2] == d;
        if stack.last().0 is Exit {
            assert(stack_chain(stack)[w2] == d);
        }
        assert(stack_chain(stack).contains(d));
    }
}

/// Every pending dependency step of `row` names one of its resolved
/// targets.
proof fn lemma_dep_enter_is_edge(
    adj: Seq<Seq<Option<int>>>,
    m: int,
    row: Seq<Option<int>>,
    w: int,
)
    requires
        0 <= m < adj.len(),
        adj[m] == row,
        0 <= w < dep_enters(row).len(),
    ensures
        dep_edge(adj, m, dep_enters(row)[w].1),
    decreases row.len(),
{
    if row.len() > 0 {
        let rest = dep_enters(row.drop_first());
        if w < rest.len() {
            assert(forall|i: int|
                0 <= i < row.drop_first().len() ==> (#[trigger] row.drop_first()[i]) == row[i
                    + 1]);
            lemma_dep_enter_is_edge_inner(row, w);
        } else {
            assert(row[0] == Some(dep_enters(row)[w].1));
            assert(dep_edge(adj, m, dep_enters(row)[w].1)) by {
                assert(adj[m][0] == Some(dep_enters(row)[w].1));
            }
        }
    }
}

/// The target named by the `w`-th pending step occurs in `row`.
proof fn lemma_dep_enter_is_edge_inner(row: Seq<Option<int>>, w: int)
    requires
        0 <= w < dep_enters(row).len(),
    ensures
        exists|j: int| 0 <= j < row.len() && row[j] == Some(#[trigger] dep_enters(row)[w].1),
    decreases row.len(),
{
    if row.len() > 0 {
        let rest = dep_enters(row.drop_first());
        if w < rest.len() {
            lemma_dep_enter_is_edge_inner(row.drop_first(), w);
            let j = choose|j: int|
                0 <= j < row.drop_first().len() && row.drop_first()[j] == Some(
                    #[trigger] dep_enters(row.drop_first())[w].1,
                );
            assert(row[j + 1] == Some(dep_enters(row)[w].1));
        } else {
            assert(row[0] == Some(dep_enters(row)[w].1));
        }
    }
}

/// The initial traversal stack: the entries, the first on top.
pub open spec fn entry_stack(entries: Seq<int>) -> Seq<(Action, int)> {
    Seq::new(entries.len(), |i: int| (Action::Enter, entries[entries.len() - 1 - i]))
}

/// The execution order the traversal assigns for a graph with edges
/// `adj` and the given entries. This is a function of the resolved
/// import edges and the entry list alone.
pub open spec fn sort_spec(adj: Seq<Seq<Option<int>>>, entries: Seq<int>) -> Seq<int> {
    sort_run(adj, entry_stack(entries), Seq::new(adj.len(), |i: int| false), Seq::empty())
}

/// Determinism of the execution order: the order assigned by the
/// traversal is a function of the resolved import edges and the entry
/// list alone, so two builds that agree on those — whatever else
/// differs, and in whatever order their modules were discovered and
/// completed — yield the same order.
pub proof fn lemma_sort_order_deterministic(
    ms1: Seq<Module>,
    e1: Seq<int>,
    ms2: Seq<Module>,
    e2: Seq<int>,
)
    requires
        adjacency(ms1) == adjacency(ms2),
        e1 == e2,
    ensures
        sort_spec(adjacency(ms1), e1) == sort_spec(adjacency(ms2), e2),
{
}

/// Well-formedness of a registry for sorting: each module is stored at
/// its own id and every resolved import edge stays in range.
pub open spec fn wf_graph_edges(ms: Seq<Module>) -> bool {
    forall|i: int|
        0 <= i < ms.len() ==> (#[trigger] ms[i]).spec_id() == i && (forall|j: int|
            0 <= j < ms[i].spec_import_records().len() ==> ((
            #[trigger] ms[i].spec_import_records()[j])@.resolved_module matches Some(t) ==> 0 <= t
                < ms.len()))
}


impl Graph {
    pub fn new() -> (r: Graph)
        ensures
            r.modules@ == Seq::<Module>::empty(),
            r.entries@ == Seq::<ModuleId>::empty(),
            r.sorted_modules@ == Seq::<ModuleId>::empty(),
            r.symbols.inv(),
    {
        Graph {
            modules: Vec::new(),
            entries: Vec::new(),
            sorted_modules: Vec::new(),
            symbols: Symbols::new(Vec::new()),
        }
    }

    /// Assigns every reachable module its execution order by an
    /// iterative post-order depth-first traversal from the entries.
    /// The resulting order is a function of the resolved import edges
    /// and the entry list alone; each reachable module is ordered
    /// exactly once, dependencies of ordered modules are ordered, and
    /// cycles are broken silently.
    ///
    /// Evaluation-order invariant: on an acyclic graph (witnessed by
    /// any rank that strictly drops along every dependency edge),
    /// every ordered module's direct static dependencies stand
    /// strictly earlier in the execution order.
    #[verifier::loop_isolation(false)]
    #[verifier::rlimit(60)]
    pub fn sort_modules(&mut self)
        requires
            wf_graph_edges(old(self).modules@),
            forall|i: int|
                0 <= i < old(self).entries@.len() ==> (#[trigger] old(self).entries@[i])
                    < old(self).modules@.len(),
            old(self).modules@.len() < u32::MAX,
        ensures
            final(self).modules@.len() == old(self).modules@.len(),
            final(self).entries == old(self).entries,
            final(self).symbols == old(self).symbols,
            forall|i: int|
                0 <= i < final(self).modules@.len() ==> #[trigger] final(self).modules@[i] == old(self).modules@[i].with_exec_order(final(self).modules@[i].spec_exec_order()),
            final(self).sorted_modules@.map_values(|x: ModuleId| x as int) == sort_spec(
                adjacency(old(self).modules@),
                old(self).entries@.map_values(|e: ModuleId| e as int),
            ),
            final(self).sorted_modules@.no_duplicates(),
            forall|k: int|
                0 <= k < final(self).sorted_modules@.len() ==> (#[trigger] final(self).sorted_modules@[k]) < final(self).modules@.len() && final(self).modules@[final(self).sorted_modules@[k] as int].spec_exec_order() == k,
            forall|i: int|
                0 <= i < old(self).entries@.len() ==> final(self).sorted_modules@.contains(
                    #[trigger] old(self).entries@[i],
                ),
            forall|i: int|
                0 <= i < final(self).modules@.len() && !final(self).sorted_modules@.contains(
                    i as ModuleId,
                ) ==> #[trigger] final(self).modules@[i].spec_exec_order() == old(
                    self,
                ).modules@[i].spec_exec_order(),
            forall|k: int, d: ModuleId|
                0 <= k < final(self).sorted_modules@.len() && dep_edge(
                    adjacency(old(self).modules@),
                    final(self).sorted_modules@[k] as int,
                    d as int,
                ) ==> final(self).sorted_modules@.contains(d),
            forall|rank: Map<int, int>|
                #[trigger] rank_ok(adjacency(old(self).modules@), rank) ==> (forall|
                    k: int,
                    d: int,
                |
                    0 <= k < final(self).sorted_modules@.len() && #[trigger] dep_edge(
                        adjacency(old(self).modules@),
                        final(self).sorted_modules@[k] as int,
                        d,
                    ) ==> (exists|k2: int|
                        0 <= k2 < k && (#[trigger] final(self).sorted_modules@[k2]) as int
                            == d)),
    {
        let ghost adj = adjacency(self.modules@);
        let ghost entriesv = self.entries@.map_values(|e: ModuleId| e as int);
        let m_count = self.modules.len();

        // initial stack: entries reversed, so the first entry is on top
        let mut stack: Vec<(Action, ModuleId)> = Vec::new();
        let en = self.entries.len();
        let mut i: usize = en;
        while i > 0
            invariant
                0 <= i <= en,
                en == self.entries@.len(),
                stack@.len() == en - i,
                forall|j: int|
                    0 <= j < stack@.len() ==> #[trigger] stack@[j] == (
                        Action::Enter,
                        self.entries@[en - 1 - j],
                    ),
            decreases i,
        {
            i -= 1;
            let e = self.entries[i];
            stack.push((Action::Enter, e));
        }
        proof {
            assert(stack@.map_values(|p: (Action, ModuleId)| (p.0, p.1 as int)) =~= entry_stack(
                entriesv,
            ));
        }

        let mut entered: Vec<bool> = Vec::new();
        let mut j: usize = 0;
        while j < m_count
            invariant
                0 <= j <= m_count,
                entered@.len() == j,
                forall|k: int| 0 <= k < j ==> !(#[trigger] entered@[k]),
            decreases m_count - j,
        {
            entered.push(false);
            j += 1;
        }
        proof {
            assert(entered@ =~= Seq::new(adj.len(), |i: int| false));
        }

        let mut sorted: Vec<ModuleId> = Vec::new();
        let mut next_exec_order: u32 = 0;
        proof {
            let stackv = stack@.map_values(|p: (Action, ModuleId)| (p.0, p.1 as int));
            assert(sorted@.map_values(|x: ModuleId| x as int) =~= Seq::<int>::empty());
            assert(stackv == entry_stack(entriesv));
            assert(entered@ == Seq::new(adj.len(), |i: int| false));
            assert(sort_run(adj, stackv, entered@, Seq::<int>::empty()) == sort_spec(
                adj,
                entriesv,
            ));
            assert forall|i2: int| 0 <= i2 < entriesv.len() implies entered@[entriesv[i2]]
                || stackv.contains((Action::Enter, #[trigger] entriesv[i2])) by {
                let j = entriesv.len() - 1 - i2;
                assert(stackv[j] == (Action::Enter, entriesv[i2]));
            }
            assert(forall|i2: int| 0 <= i2 < stackv.len() ==> (#[trigger] stackv[i2]).0 is Enter);
            lemma_stack_ok_enters_only(adj, stackv, entered@, Set::<int>::empty());
        }

        while stack.len() > 0
            invariant
                self.modules@.len() == old(self).modules@.len(),
                self.entries == old(self).entries,
                self.symbols == old(self).symbols,
                adj == adjacency(old(self).modules@),
                entriesv == old(self).entries@.map_values(|e: ModuleId| e as int),
                entered@.len() == m_count == adj.len(),
                forall|i2: int|
                    0 <= i2 < self.modules@.len() ==> #[trigger] self.modules@[i2] == old(self).modules@[i2].with_exec_order(self.modules@[i2].spec_exec_order()),
                sort_state_ok(
                    adj,
                    stack@.map_values(|p: (Action, ModuleId)| (p.0, p.1 as int)),
                    entered@,
                ),
                sort_run(
                    adj,
                    stack@.map_values(|p: (Action, ModuleId)| (p.0, p.1 as int)),
                    entered@,
                    sorted@.map_values(|x: ModuleId| x as int),
                ) == sort_spec(adj, entriesv),
                next_exec_order == sorted@.len(),
                sorted@.len() <= m_count,
                sorted@.no_duplicates(),
                forall|k: int|
                    0 <= k < sorted@.len() ==> (#[trigger] sorted@[k]) < m_count
                        && self.modules@[sorted@[k] as int].spec_exec_order() == k && entered@[sorted@[k] as int],
                forall|i: int|
                    0 <= i < self.modules@.len() && !sorted@.contains(i as ModuleId)
                        ==> #[trigger] self.modules@[i].spec_exec_order() == old(
                        self,
                    ).modules@[i].spec_exec_order(),
                forall|w: int|
                    0 <= w < stack@.len() && (#[trigger] stack@[w]).0 is Exit ==> entered@[stack@[w].1 as int]
                        && !sorted@.contains(stack@[w].1),
                forall|w1: int, w2: int|
                    0 <= w1 < w2 < stack@.len() && (#[trigger] stack@[w1]).0 is Exit && (
                    #[trigger] stack@[w2]).0 is Exit ==> stack@[w1].1 != stack@[w2].1,
                forall|id: int|
                    0 <= id < m_count && #[trigger] entered@[id] ==> sorted@.map_values(
                        |x: ModuleId| x as int,
                    ).contains(id) || stack@.map_values(
                        |p: (Action, ModuleId)| (p.0, p.1 as int),
                    ).contains((Action::Exit, id)),
                forall|i2: int|
                    0 <= i2 < entriesv.len() ==> entered@[entriesv[i2]] || stack@.map_values(
                        |p: (Action, ModuleId)| (p.0, p.1 as int),
                    ).contains((Action::Enter, #[trigger] entriesv[i2])),
                forall|id: int, d: int|
                    0 <= id < m_count && entered@[id] && #[trigger] dep_edge(adj, id, d) ==>
                        entered@[d] || stack@.map_values(
                        |p: (Action, ModuleId)| (p.0, p.1 as int),
                    ).contains((Action::Enter, d)),
                stack_ok(
                    adj,
                    stack@.map_values(|p: (Action, ModuleId)| (p.0, p.1 as int)),
                    entered@,
                    Set::<int>::empty(),
                ),
                chain_edges(
                    adj,
                    stack_chain(stack@.map_values(|p: (Action, ModuleId)| (p.0, p.1 as int))),
                ),
                forall|rank: Map<int, int>|
                    #[trigger] rank_ok(adj, rank) ==> (forall|k: int, d: int|
                        0 <= k < sorted@.len() && #[trigger] dep_edge(adj, sorted@[k] as int, d)
                            ==> (exists|k2: int|
                            0 <= k2 < k && (#[trigger] sorted@[k2]) as int == d)),
            decreases count_unentered(entered@), stack@.len(),
        {
            let ghost pre_stack = stack@;
            let ghost pre_stackv = stack@.map_values(|p: (Action, ModuleId)| (p.0, p.1 as int));
            let ghost pre_entered = entered@;
            let ghost pre_sortedv = sorted@.map_values(|x: ModuleId| x as int);
            let top = stack.pop().unwrap();
            proof {
                assert(pre_stackv.last() == (top.0, top.1 as int));
                assert(stack@.map_values(|p: (Action, ModuleId)| (p.0, p.1 as int)) =~= pre_stackv.drop_last());
                lemma_count_unentered_bounds(entered@);
            }
            let id = top.1;
            proof {
                assert(stack_ok(adj, pre_stackv, pre_entered, Set::<int>::empty()));
            }
            match top.0 {
                Action::Enter => {
                    if !entered[id] {
                        entered.set(id, true);
                        stack.push((Action::Exit, id));
                        proof {
                            lemma_count_unentered_update(pre_entered, id as int);
                        }
                        // push dependencies in reverse declaration order
                        let ghost row = adj[id as int];
                        let ghost base = stack@.map_values(
                            |p: (Action, ModuleId)| (p.0, p.1 as int),
                        );
                        let recs = match &self.modules[id] {
                            Module::Normal(nm) => &nm.import_records,
                            Module::External(em) => &em.import_records,
                        };
                        let rn = recs.len();
                        proof {
                            assert(self.modules@[id as int].spec_import_records() == recs@);
                            assert(row =~= recs@.map_values(
                                |r: ImportRecord| r@.resolved_module,
                            ));
                        }
                        let mut ri: usize = rn;
                        while ri > 0
                            invariant
                                0 <= ri <= rn,
                                rn == recs@.len(),
                                recs@ == self.modules@[id as int].spec_import_records(),
                                row == recs@.map_values(|r: ImportRecord| r@.resolved_module),
                                row.len() == rn,
                                stack@.map_values(|p: (Action, ModuleId)| (p.0, p.1 as int))
                                    =~= base + dep_enters(row.skip(ri as int)),
                            decreases ri,
                        {
                            ri -= 1;
                            let ghost before = stack@.map_values(
                                |p: (Action, ModuleId)| (p.0, p.1 as int),
                            );
                            match recs[ri].resolved_module {
                                Some(t) => {
                                    stack.push((Action::Enter, t));
                                },
                                None => {},
                            }
                            proof {
                                assert(row.skip(ri as int).drop_first() =~= row.skip(ri + 1));
                                assert(row.skip(ri as int)[0] == row[ri as int]);
                                assert(row[ri as int] == recs@[ri as int]@.resolved_module);
                                match row[ri as int] {
                                    Some(t) => {
                                        assert(dep_enters(row.skip(ri as int)) =~= dep_enters(
                                            row.skip(ri + 1),
                                        ).push((Action::Enter, t)));
                                        assert(stack@.map_values(
                                            |p: (Action, ModuleId)| (p.0, p.1 as int),
                                        ) =~= before.push((Action::Enter, t as int)));
                                    },
                                    None => {
                                        assert(dep_enters(row.skip(ri as int)) =~= dep_enters(
                                            row.skip(ri + 1),
                                        ));
                                    },
                                }
                            }
                        }
                        proof {
                            assert(row.skip(0) =~= row);
                            assert(stack@.map_values(|p: (Action, ModuleId)| (p.0, p.1 as int))
                                =~= pre_stackv.drop_last() + seq![(Action::Exit, id as int)]
                                + dep_enters(row));
                            assert(entered@ =~= pre_entered.update(id as int, true));
                            lemma_dep_enters_ok(adj, id as int, row);
                            lemma_count_unentered_bounds(entered@);
                            assert(count_unentered(entered@) == count_unentered(pre_entered)
                                - 1);
                            assert forall|w: int|
                                0 <= w < stack@.len() && (#[trigger] stack@[w]).0 is Exit implies
                                entered@[stack@[w].1 as int] && !sorted@.contains(
                                stack@[w].1,
                            ) by {
                                let mapped = stack@.map_values(
                                    |p: (Action, ModuleId)| (p.0, p.1 as int),
                                );
                                let restn = pre_stackv.len() - 1;
                                if w < restn {
                                    assert(mapped[w] == pre_stackv[w]);
                                    assert(stack@[w].0 == pre_stack[w].0 && stack@[w].1
                                        == pre_stack[w].1);
                                    assert(pre_entered[pre_stack[w].1 as int]);
                                } else if w == restn {
                                    assert(mapped[w] == (Action::Exit, id as int));
                                    assert(stack@[w].1 == id);
                                } else {
                                    assert(mapped[w] == dep_enters(row)[w - restn - 1]);
                                    assert(mapped[w].0 is Enter);
                                    assert(stack@[w].0 is Enter);
                                }
                            }
                            assert forall|w1: int, w2: int|
                                0 <= w1 < w2 < stack@.len() && (#[trigger] stack@[w1]).0 is Exit
                                && (#[trigger] stack@[w2]).0 is Exit implies stack@[w1].1
                                != stack@[w2].1 by {
                                let mapped = stack@.map_values(
                                    |p: (Action, ModuleId)| (p.0, p.1 as int),
                                );
                                let restn = pre_stackv.len() - 1;
                                if w2 > restn {
                                    assert(mapped[w2] == dep_enters(row)[w2 - restn - 1]);
                                    assert(stack@[w2].0 is Enter);
                                } else if w2 == restn {
                                    assert(mapped[w2] == (Action::Exit, id as int));
                                    assert(stack@[w2].1 == id);
                                    assert(mapped[w1] == pre_stackv[w1]);
                                    assert(stack@[w1].0 == pre_stack[w1].0 && stack@[w1].1
                                        == pre_stack[w1].1);
                                    assert(pre_entered[pre_stack[w1].1 as int]);
                                    assert(!pre_entered[id as int]);
                                } else {
                                    assert(mapped[w1] == pre_stackv[w1]);
                                    assert(mapped[w2] == pre_stackv[w2]);
                                    assert(stack@[w1].0 == pre_stack[w1].0 && stack@[w1].1
                                        == pre_stack[w1].1);
                                    assert(stack@[w2].0 == pre_stack[w2].0 && stack@[w2].1
                                        == pre_stack[w2].1);
                                }
                            }
                            let newv = stack@.map_values(
                                |p: (Action, ModuleId)| (p.0, p.1 as int),
                            );
                            let restv = pre_stackv.drop_last();
                            assert forall|id2: int|
                                0 <= id2 < m_count && #[trigger] entered@[id2] implies sorted@.map_values(
                                |x: ModuleId| x as int,
                            ).contains(id2) || newv.contains((Action::Exit, id2)) by {
                                if id2 == id as int {
                                    assert(newv[restv.len() as int] == (Action::Exit, id as int));
                                    assert(newv.contains((Action::Exit, id as int)));
                                } else {
                                    assert(pre_entered[id2]);
                                    if !pre_sortedv.contains(id2) {
                                        let w = choose|w: int|
                                            0 <= w < pre_stackv.len() && pre_stackv[w] == (
                                            Action::Exit,
                                            id2,
                                        );
                                        assert(w < restv.len());
                                        assert(newv[w] == (Action::Exit, id2));
                                        assert(newv.contains((Action::Exit, id2)));
                                    }
                                }
                            }
                            assert forall|id2: int, d: int|
                                0 <= id2 < m_count && entered@[id2] && #[trigger] dep_edge(
                                    adj,
                                    id2,
                                    d,
                                ) implies entered@[d] || newv.contains((Action::Enter, d)) by {
                                if id2 == id as int {
                                    if !entered@[d] {
                                        lemma_dep_enters_contains(row, d);
                                        let k = choose|k: int|
                                            0 <= k < dep_enters(row).len() && dep_enters(row)[k]
                                                == (Action::Enter, d);
                                        assert(newv[restv.len() + 1 + k] == (Action::Enter, d));
                                        assert(newv.contains((Action::Enter, d)));
                                    }
                                } else {
                                    assert(pre_entered[id2]);
                                    if !entered@[d] {
                                        assert(!pre_entered[d]);
                                        let w = choose|w: int|
                                            0 <= w < pre_stackv.len() && pre_stackv[w] == (
                                            Action::Enter,
                                            d,
                                        );
                                        if w < restv.len() {
                                            assert(newv[w] == (Action::Enter, d));
                                            assert(newv.contains((Action::Enter, d)));
                                        } else {
                                            assert(pre_stackv[w] == pre_stackv.last());
                                            assert(d == id as int);
                                            assert(entered@[d]);
                                        }
                                    }
                                }
                            }
                            assert forall|i3: int|
                                0 <= i3 < entriesv.len() implies entered@[entriesv[i3]]
                                || stack@.map_values(
                                |p: (Action, ModuleId)| (p.0, p.1 as int),
                            ).contains((Action::Enter, #[trigger] entriesv[i3])) by {
                                let newv2 = stack@.map_values(
                                    |p: (Action, ModuleId)| (p.0, p.1 as int),
                                );
                                if !entered@[entriesv[i3]] {
                                    let w = choose|w: int|
                                        0 <= w < pre_stackv.len() && pre_stackv[w] == (
                                        Action::Enter,
                                        entriesv[i3],
                                    );
                                    if w < pre_stackv.len() - 1 {
                                        assert(newv2[w] == (Action::Enter, entriesv[i3]));
                                        assert(newv2.contains((Action::Enter, entriesv[i3])));
                                    } else {
                                        assert(pre_stackv[w] == pre_stackv.last());
                                        assert(entriesv[i3] == id as int);
                                        assert(entered@[entriesv[i3]]);
                                    }
                                }
                            }
                            // the stack stays sound and the chain gains
                            // this module as its newest member
                            let restv = pre_stackv.drop_last();
                            let newv3 = stack@.map_values(
                                |p: (Action, ModuleId)| (p.0, p.1 as int),
                            );
                            let s2a = restv + seq![(Action::Exit, id as int)];
                            let ext = dep_enters(row);
                            let ids = ext.map_values(|p: (Action, int)| p.1);
                            assert(stack_ok(adj, restv, pre_entered, Set::<int>::empty().insert(
                                id as int,
                            )));
                            lemma_stack_ok_weaken(
                                adj,
                                restv,
                                pre_entered,
                                entered@,
                                Set::<int>::empty().insert(id as int),
                                ids.to_set(),
                            );
                            assert(s2a.drop_last() =~= restv);
                            assert(stack_chain(s2a) == stack_chain(restv).push(id as int));
                            assert forall|d: int|
                                #[trigger] dep_edge(adj, id as int, d) implies (0 <= d
                                < entered@.len() && entered@[d]) || ids.to_set().contains(d) by {
                                lemma_dep_enters_contains(row, d);
                                let w = choose|w: int|
                                    0 <= w < ext.len() && ext[w] == (Action::Enter, d);
                                assert(ids[w] == d);
                                assert(ids.to_set().contains(d));
                            }
                            assert(stack_ok(adj, s2a, entered@, ids.to_set()));
                            assert(ids.to_set() =~= Set::<int>::empty().union(ids.to_set()));
                            lemma_dep_enters_ok(adj, id as int, row);
                            assert forall|w: int|
                                0 <= w < ext.len() implies dep_edge(
                                adj,
                                stack_chain(s2a).last(),
                                (#[trigger] ext[w]).1,
                            ) by {
                                assert(ext[w].0 is Enter);
                                lemma_dep_enter_is_edge(adj, id as int, row, w);
                            }
                            lemma_stack_ok_append_enters(
                                adj,
                                s2a,
                                ext,
                                entered@,
                                Set::<int>::empty(),
                            );
                            assert(newv3 =~= s2a + ext);
                            assert(stack_ok(adj, newv3, entered@, Set::<int>::empty()));
                            assert(stack_chain(newv3) == stack_chain(restv).push(id as int));
                            assert(stack_chain(pre_stackv) == stack_chain(restv));
                            assert(chain_edges(adj, stack_chain(newv3))) by {
                                let oldc = stack_chain(restv);
                                let newc = stack_chain(newv3);
                                assert(newc.drop_last() =~= oldc);
                                assert forall|i3: int|
                                    0 <= i3 < newc.len() - 1 implies dep_edge(
                                    adj,
                                    #[trigger] newc[i3],
                                    newc[i3 + 1],
                                ) by {
                                    if i3 < newc.len() - 2 {
                                        assert(newc[i3] == oldc[i3] && newc[i3 + 1] == oldc[i3
                                            + 1]);
                                    } else {
                                        assert(newc[i3] == oldc.last());
                                        assert(newc[i3 + 1] == id as int);
                                        assert(oldc.len() > 0);
                                    }
                                }
                            }
                        }
                    } else {
                        proof {
                            assert(stack@ =~= pre_stack.drop_last());
                            lemma_count_unentered_bounds(entered@);
                            assert(count_unentered(entered@) == count_unentered(pre_entered));
                            let newv = stack@.map_values(
                                |p: (Action, ModuleId)| (p.0, p.1 as int),
                            );
                            assert forall|id2: int|
                                0 <= id2 < m_count && #[trigger] entered@[id2] implies sorted@.map_values(
                                |x: ModuleId| x as int,
                            ).contains(id2) || newv.contains((Action::Exit, id2)) by {
                                if !pre_sortedv.contains(id2) {
                                    let w = choose|w: int|
                                        0 <= w < pre_stackv.len() && pre_stackv[w] == (
                                        Action::Exit,
                                        id2,
                                    );
                                    assert(w < newv.len());
                                    assert(newv[w] == (Action::Exit, id2));
                                    assert(newv.contains((Action::Exit, id2)));
                                }
                            }
                            assert forall|id2: int, d: int|
                                0 <= id2 < m_count && entered@[id2] && #[trigger] dep_edge(
                                    adj,
                                    id2,
                                    d,
                                ) implies entered@[d] || newv.contains((Action::Enter, d)) by {
                                if !entered@[d] {
                                    let w = choose|w: int|
                                        0 <= w < pre_stackv.len() && pre_stackv[w] == (
                                        Action::Enter,
                                        d,
                                    );
                                    if w < newv.len() {
                                        assert(newv[w] == (Action::Enter, d));
                                        assert(newv.contains((Action::Enter, d)));
                                    } else {
                                        assert(pre_stackv[w] == pre_stackv.last());
                                        assert(d == id as int);
                                    }
                                }
                            }
                            assert forall|i3: int|
                                0 <= i3 < entriesv.len() implies entered@[entriesv[i3]]
                                || stack@.map_values(
                                |p: (Action, ModuleId)| (p.0, p.1 as int),
                            ).contains((Action::Enter, #[trigger] entriesv[i3])) by {
                                let newv2 = stack@.map_values(
                                    |p: (Action, ModuleId)| (p.0, p.1 as int),
                                );
                                if !entered@[entriesv[i3]] {
                                    let w = choose|w: int|
                                        0 <= w < pre_stackv.len() && pre_stackv[w] == (
                                        Action::Enter,
                                        entriesv[i3],
                                    );
                                    if w < pre_stackv.len() - 1 {
                                        assert(newv2[w] == (Action::Enter, entriesv[i3]));
                                        assert(newv2.contains((Action::Enter, entriesv[i3])));
                                    } else {
                                        assert(pre_stackv[w] == pre_stackv.last());
                                        assert(entriesv[i3] == id as int);
                                        assert(entered@[entriesv[i3]]);
                                    }
                                }
                            }
                            let restv2 = pre_stackv.drop_last();
                            assert(stack_ok(adj, restv2, pre_entered, Set::<int>::empty().insert(
                                id as int,
                            )));
                            lemma_stack_ok_weaken(
                                adj,
                                restv2,
                                pre_entered,
                                entered@,
                                Set::<int>::empty().insert(id as int),
                                Set::<int>::empty(),
                            );
                            assert(stack@.map_values(|p: (Action, ModuleId)| (p.0, p.1 as int))
                                =~= restv2);
                            assert(stack_chain(restv2) == stack_chain(pre_stackv));
                        }
                    }
                },
                Action::Exit => {
                    let ghost pre_sorted_exec = sorted@;
                    let ghost pre_mods_order = self.modules@;
                    proof {
                        assert(stack@ =~= pre_stack.drop_last());
                        lemma_count_unentered_bounds(entered@);
                        assert(count_unentered(entered@) == count_unentered(pre_entered));
                        assert(stack@.len() == pre_stackv.len() - 1);
                        assert(!sorted@.contains(id));
                        assert(sorted@.push(id).no_duplicates());
                        lemma_distinct_ids_bound(
                            sorted@.push(id).map_values(|x: ModuleId| x as int),
                            m_count as int,
                        );
                        assert(sorted@.push(id).map_values(|x: ModuleId| x as int).len()
                            <= m_count);
                    }
                    let ghost pre_mods = self.modules@;
                    self.modules[id].set_exec_order(next_exec_order);
                    sorted.push(id);
                    next_exec_order = next_exec_order + 1;
                    proof {
                        assert(sorted@.map_values(|x: ModuleId| x as int) =~= pre_sortedv.push(
                            id as int,
                        ));
                        assert forall|i3: int|
                            0 <= i3 < self.modules@.len() implies #[trigger] self.modules@[i3]
                            == old(self).modules@[i3].with_exec_order(
                            self.modules@[i3].spec_exec_order(),
                        ) by {
                            if i3 == id as int {
                                let curm = pre_mods[i3];
                                let newm = self.modules@[i3];
                                assert(newm.with_exec_order(newm.spec_exec_order()) == curm
                                    .with_exec_order(newm.spec_exec_order()));
                                assert(newm == newm.with_exec_order(newm.spec_exec_order()));
                                assert(curm == old(self).modules@[i3].with_exec_order(
                                    curm.spec_exec_order(),
                                ));
                                assert(curm.with_exec_order(newm.spec_exec_order()) == old(
                                    self,
                                ).modules@[i3].with_exec_order(newm.spec_exec_order()));
                            } else {
                                assert(self.modules@[i3] == pre_mods[i3]);
                            }
                        }
                        let newv = stack@.map_values(|p: (Action, ModuleId)| (p.0, p.1 as int));
                        let sortedv = sorted@.map_values(|x: ModuleId| x as int);
                        assert forall|id2: int|
                            0 <= id2 < m_count && #[trigger] entered@[id2] implies sortedv.contains(
                            id2,
                        ) || newv.contains((Action::Exit, id2)) by {
                            if id2 == id as int {
                                assert(sortedv.last() == id as int);
                                assert(sortedv.contains(id as int));
                            } else if pre_sortedv.contains(id2) {
                                let w = choose|w: int|
                                    0 <= w < pre_sortedv.len() && pre_sortedv[w] == id2;
                                assert(sortedv[w] == id2);
                                assert(sortedv.contains(id2));
                            } else {
                                let w = choose|w: int|
                                    0 <= w < pre_stackv.len() && pre_stackv[w] == (
                                    Action::Exit,
                                    id2,
                                );
                                if w < newv.len() {
                                    assert(newv[w] == (Action::Exit, id2));
                                    assert(newv.contains((Action::Exit, id2)));
                                } else {
                                    assert(pre_stackv[w] == pre_stackv.last());
                                    assert(id2 == id as int);
                                }
                            }
                        }
                        assert forall|id2: int, d: int|
                            0 <= id2 < m_count && entered@[id2] && #[trigger] dep_edge(
                                adj,
                                id2,
                                d,
                            ) implies entered@[d] || newv.contains((Action::Enter, d)) by {
                            if !entered@[d] {
                                let w = choose|w: int|
                                    0 <= w < pre_stackv.len() && pre_stackv[w] == (
                                    Action::Enter,
                                    d,
                                );
                                assert(w < newv.len());
                                assert(newv[w] == (Action::Enter, d));
                                assert(newv.contains((Action::Enter, d)));
                            }
                        }
                        assert forall|i3: int|
                            0 <= i3 < entriesv.len() implies entered@[entriesv[i3]]
                            || newv.contains((Action::Enter, #[trigger] entriesv[i3])) by {
                            if !entered@[entriesv[i3]] {
                                let w = choose|w: int|
                                    0 <= w < pre_stackv.len() && pre_stackv[w] == (
                                    Action::Enter,
                                    entriesv[i3],
                                );
                                assert(w < newv.len());
                                assert(newv[w] == (Action::Enter, entriesv[i3]));
                                assert(newv.contains((Action::Enter, entriesv[i3])));
                            }
                        }
                        // the stack below stays sound; the chain loses
                        // its newest member
                        assert(newv =~= pre_stackv.drop_last());
                        assert(stack_ok(adj, newv, entered@, Set::<int>::empty()));
                        assert(stack_chain(pre_stackv) == stack_chain(newv).push(id as int));
                        assert(chain_edges(adj, stack_chain(newv))) by {
                            let oldc = stack_chain(pre_stackv);
                            let newc = stack_chain(newv);
                            assert(oldc.drop_last() =~= newc);
                            assert forall|i3: int|
                                0 <= i3 < newc.len() - 1 implies dep_edge(
                                adj,
                                #[trigger] newc[i3],
                                newc[i3 + 1],
                            ) by {
                                assert(newc[i3] == oldc[i3] && newc[i3 + 1] == oldc[i3 + 1]);
                            }
                        }
                        // every dependency of the module that just
                        // exited already has a position, or would close
                        // a cycle
                        assert forall|rank: Map<int, int>|
                            #[trigger] rank_ok(adj, rank) implies (forall|k: int, d: int|
                            0 <= k < sorted@.len() && #[trigger] dep_edge(
                                adj,
                                sorted@[k] as int,
                                d,
                            ) ==> (exists|k2: int|
                                0 <= k2 < k && (#[trigger] sorted@[k2]) as int == d)) by {
                            assert forall|k: int, d: int|
                                0 <= k < sorted@.len() && #[trigger] dep_edge(
                                    adj,
                                    sorted@[k] as int,
                                    d,
                                ) implies (exists|k2: int|
                                0 <= k2 < k && (#[trigger] sorted@[k2]) as int == d) by {
                                if k < sorted@.len() - 1 {
                                    assert(sorted@[k] == pre_sorted_exec[k]);
                                    assert(dep_edge(adj, pre_sorted_exec[k] as int, d));
                                    let k2 = choose|k2: int|
                                        0 <= k2 < k && (#[trigger] pre_sorted_exec[k2]) as int
                                            == d;
                                    assert((sorted@[k2]) as int == d);
                                } else {
                                    // k is the module that just exited
                                    assert(sorted@[k] == id);
                                    assert(entered@[d]) by {
                                        assert(dep_edge(adj, id as int, d));
                                    }
                                    if !pre_sortedv.contains(d) {
                                        assert(0 <= d < m_count);
                                        assert(pre_stackv.contains((Action::Exit, d))) by {
                                            assert(pre_entered[d]);
                                        }
                                        lemma_exit_in_chain(pre_stackv, d);
                                        let oldc = stack_chain(pre_stackv);
                                        let ci = choose|ci: int|
                                            0 <= ci < oldc.len() && oldc[ci] == d;
                                        assert(oldc.last() == id as int);
                                        if ci < oldc.len() - 1 {
                                            lemma_chain_rank(adj, oldc, rank, ci);
                                            assert(rank[id as int] < rank[d]);
                                            assert(rank[d] < rank[id as int]);
                                            assert(false);
                                        } else {
                                            assert(d == id as int);
                                            assert(rank[d] < rank[id as int]);
                                            assert(false);
                                        }
                                    }
                                    assert(pre_sortedv.contains(d));
                                    let k2 = choose|k2: int|
                                        0 <= k2 < pre_sortedv.len() && pre_sortedv[k2] == d;
                                    assert((sorted@[k2]) as int == d);
                                }
                            }
                        }
                        assert forall|w: int|
                            0 <= w < stack@.len() && (#[trigger] stack@[w]).0 is Exit implies
                            entered@[stack@[w].1 as int] && !sorted@.contains(stack@[w].1) by {
                            assert(stack@[w] == pre_stack[w]);
                            assert(pre_stack[w].1 != id) by {
                                assert(pre_stack[pre_stack.len() - 1].0 is Exit);
                                assert(pre_stack[pre_stack.len() - 1].1 == id);
                            }
                        }
                        assert forall|w1: int, w2: int|
                            0 <= w1 < w2 < stack@.len() && (#[trigger] stack@[w1]).0 is Exit && (
                            #[trigger] stack@[w2]).0 is Exit implies stack@[w1].1
                            != stack@[w2].1 by {
                            assert(stack@[w1] == pre_stack[w1]);
                            assert(stack@[w2] == pre_stack[w2]);
                        }
                        assert forall|i3: int|
                            0 <= i3 < self.modules@.len() && !sorted@.contains(
                                i3 as ModuleId,
                            ) implies #[trigger] self.modules@[i3].spec_exec_order() == old(
                            self,
                        ).modules@[i3].spec_exec_order() by {
                            assert(i3 != id as int) by {
                                assert(sorted@.last() == id);
                                assert(sorted@.contains(id));
                            }
                            assert(self.modules@[i3] == pre_mods_order[i3]);
                            assert(!pre_sorted_exec.contains(i3 as ModuleId)) by {
                                if pre_sorted_exec.contains(i3 as ModuleId) {
                                    let w = choose|w: int|
                                        0 <= w < pre_sorted_exec.len() && pre_sorted_exec[w]
                                            == i3 as ModuleId;
                                    assert(sorted@[w] == i3 as ModuleId);
                                    assert(sorted@.contains(i3 as ModuleId));
                                }
                            }
                        }
                    }
                },
            }
        }
        proof {
            assert forall|i2: int|
                0 <= i2 < old(self).entries@.len() implies sorted@.contains(
                #[trigger] old(self).entries@[i2],
            ) by {
                let sortedv = sorted@.map_values(|x: ModuleId| x as int);
                assert(entered@[entriesv[i2]]);
                assert(sortedv.contains(entriesv[i2]));
                let w = choose|w: int| 0 <= w < sortedv.len() && sortedv[w] == entriesv[i2];
                assert(sorted@[w] == old(self).entries@[i2]);
            }
        }
        self.sorted_modules = sorted;
    }

    /// Links the sorted graph: resolves every export and import
    /// binding and unions aliased symbols into canonical classes.
    pub fn link(&mut self) -> (r: Result<(), crate::error::Error>)
        requires
            crate::module::wf_linked(old(self).modules@),
            old(self).symbols.spec_tables().len() == old(self).modules@.len(),
            old(self).symbols.inv(),
            crate::module::wf_symbol_refs(old(self).modules@, old(self).symbols),
            old(self).sorted_modules@.no_duplicates(),
            forall|i: int|
                0 <= i < old(self).sorted_modules@.len() ==> (#[trigger] old(
                    self,
                ).sorted_modules@[i]) < old(self).modules@.len(),
        ensures
            final(self).symbols.inv(),
            final(self).modules@.len() == old(self).modules@.len(),
            final(self).entries == old(self).entries,
            final(self).sorted_modules == old(self).sorted_modules,
            forall|i: int|
                0 <= i < old(self).modules@.len() ==> crate::linker::same_linking_shape(
                    #[trigger] old(self).modules@[i],
                    final(self).modules@[i],
                ),
            crate::module::wf_linked(final(self).modules@),
            crate::module::wf_symbol_refs(final(self).modules@, final(self).symbols),
            r is Ok ==> crate::linker::imports_bound_upto(
                final(self).modules@,
                final(self).symbols,
                final(self).sorted_modules@,
                final(self).sorted_modules@.len() as int,
            ),
            r is Ok ==> crate::linker::star_closures_ok(
                final(self).modules@,
                final(self).sorted_modules@,
                final(self).sorted_modules@.len() as int,
            ),
            r matches Err(e) ==> crate::linker::link_failure(
                final(self).modules@,
                final(self).sorted_modules@,
                e,
            ),
    {
        crate::linker::Linker::link(self)
    }
}

} // verus!
