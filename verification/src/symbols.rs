//! Symbol tables and the cross-module alias forest.
//!
//! Each module owns a dense table of declared binding names. Linking
//! merges bindings across modules: the alias table is a union-find
//! forest over `SymbolRef`s whose canonical representative is the
//! binding every member of the class collapses to. Following the alias
//! chain from any reference terminates; this is enforced by a ghost
//! depth measure that strictly decreases along links.

use vstd::prelude::*;

use crate::ids::SymbolId;
use crate::ids::ReferenceId;
use crate::ids::SymbolRef;

verus! {

/// One module's symbol table: the name of every declared binding and
/// the recorded reference sites.
#[derive(Debug)]
pub struct SymbolMap {
    /// Name of each symbol, indexed by `SymbolId`.
    pub names: Vec<String>,
    /// For each reference site, the symbol it points at, if known.
    pub references: Vec<Option<SymbolId>>,
}

impl SymbolMap {
    pub fn new() -> (r: SymbolMap)
        ensures
            r.names@ == Seq::<String>::empty(),
            r.references@ == Seq::<Option<SymbolId>>::empty(),
    {
        SymbolMap { names: Vec::new(), references: Vec::new() }
    }

    /// Declares a fresh binding and returns its dense id.
    pub fn create_symbol(&mut self, name: String) -> (id: SymbolId)
        ensures
            id == old(self).names@.len(),
            final(self).names@ == old(self).names@.push(name),
            final(self).references@ == old(self).references@,
    {
        let id = self.names.len();
        self.names.push(name);
        id
    }

    /// Records a reference site, optionally bound to a symbol.
    pub fn create_reference(&mut self, id: Option<SymbolId>) -> (r: ReferenceId)
        ensures
            r == old(self).references@.len(),
            final(self).references@ == old(self).references@.push(id),
            final(self).names@ == old(self).names@,
    {
        let r = self.references.len();
        self.references.push(id);
        r
    }

    pub fn get_name(&self, id: SymbolId) -> (r: &String)
        requires
            id < self.names@.len(),
        ensures
            r == self.names@[id as int],
    {
        &self.names[id]
    }
}

/// The alias forest over the symbols of all modules.
///
/// `link_of(r)` is the reference `r` has been merged into, if any;
/// `root_of(r)` follows links to the canonical representative. The
/// ghost `depth` map strictly decreases along links, so every chain
/// terminates.
pub struct Symbols {
    /// Per-module symbol tables, indexed by `ModuleId`.
    tables: Vec<SymbolMap>,
    /// Per-module, per-symbol alias link, parallel to `tables`.
    links: Vec<Vec<Option<SymbolRef>>>,
    /// Termination measure: strictly decreases along alias links.
    depth: Ghost<Map<SymbolRef, nat>>,
}

impl Symbols {
    /// The per-module symbol tables, indexed by module id.
    pub closed spec fn spec_tables(&self) -> Seq<SymbolMap> {
        self.tables@
    }

    /// `r` denotes a symbol that exists in some module's table.
    pub closed spec fn valid_ref(&self, r: SymbolRef) -> bool {
        &&& r.owner < self.links@.len()
        &&& r.symbol < self.links@[r.owner as int]@.len()
    }

    /// The reference `r` has been merged into, if any.
    pub closed spec fn link_of(&self, r: SymbolRef) -> Option<SymbolRef> {
        self.links@[r.owner as int]@[r.symbol as int]
    }

    /// Structural well-formedness: tables and links are parallel, and
    /// every link points at a valid reference of strictly smaller depth.
    pub closed spec fn inv(&self) -> bool {
        &&& self.links@.len() == self.tables@.len()
        &&& forall|m: int|
            0 <= m < self.links@.len() ==> (#[trigger] self.links@[m])@.len()
                == self.tables@[m].names@.len()
        &&& forall|r: SymbolRef| self.valid_ref(r) ==> self.depth@.dom().contains(r)
        &&& forall|r: SymbolRef|
            self.valid_ref(r) && (#[trigger] self.link_of(r)) is Some ==> {
                let t = self.link_of(r)->Some_0;
                &&& self.valid_ref(t)
                &&& self.depth@.dom().contains(t)
                &&& self.depth@[t] < self.depth@[r]
            }
    }

    /// Ghost termination measure of `r`'s alias chain.
    pub closed spec fn depth_of(&self, r: SymbolRef) -> nat {
        self.depth@[r]
    }

    /// The canonical representative of `r`'s equivalence class.
    pub closed spec fn root_of(&self, r: SymbolRef) -> SymbolRef
        decreases self.depth_of(r)
            when self.inv() && self.valid_ref(r)
    {
        match self.link_of(r) {
            None => r,
            Some(t) => self.root_of(t),
        }
    }

    /// Two references have been merged into the same class.
    pub open spec fn equiv(&self, a: SymbolRef, b: SymbolRef) -> bool {
        self.root_of(a) == self.root_of(b)
    }

    /// In a well-formed forest, a reference is valid exactly when its
    /// owner module exists and its symbol id lies in that module's table.
    pub proof fn lemma_valid_ref_iff(&self, r: SymbolRef)
        requires
            self.inv(),
        ensures
            self.valid_ref(r) <==> (r.owner < self.spec_tables().len() && r.symbol
                < self.spec_tables()[r.owner as int].names@.len()),
    {
    }

    /// The number of symbols in one module's table.
    pub fn table_size(&self, owner: usize) -> (n: usize)
        requires
            owner < self.spec_tables().len(),
        ensures
            n == self.spec_tables()[owner as int].names@.len(),
    {
        self.tables[owner].names.len()
    }

    /// The number of per-module symbol tables.
    pub fn num_modules(&self) -> (n: usize)
        ensures
            n == self.spec_tables().len(),
    {
        self.tables.len()
    }

    /// A root is its own canonical representative; hence `root_of` is
    /// idempotent.
    pub proof fn lemma_root_is_root(&self, r: SymbolRef)
        requires
            self.inv(),
            self.valid_ref(r),
        ensures
            self.valid_ref(self.root_of(r)),
            self.link_of(self.root_of(r)) is None,
            self.root_of(self.root_of(r)) == self.root_of(r),
        decreases self.depth_of(r),
    {
        match self.link_of(r) {
            None => {},
            Some(t) => {
                self.lemma_root_is_root(t);
            },
        }
    }

    /// A reference that is not its own root lies strictly above its
    /// root in the depth measure.
    proof fn lemma_root_depth(&self, r: SymbolRef)
        requires
            self.inv(),
            self.valid_ref(r),
            self.root_of(r) != r,
        ensures
            self.depth@[self.root_of(r)] < self.depth@[r],
        decreases self.depth_of(r),
    {
        let t = self.link_of(r)->Some_0;
        if self.root_of(t) != t {
            self.lemma_root_depth(t);
        }
    }

    /// Builds the alias forest for the given tables, with every symbol
    /// its own class.
    pub fn new(tables: Vec<SymbolMap>) -> (r: Symbols)
        ensures
            r.inv(),
            r.spec_tables() == tables@,
            forall|x: SymbolRef| r.valid_ref(x) ==> #[trigger] r.root_of(x) == x,
    {
        let mut links: Vec<Vec<Option<SymbolRef>>> = Vec::new();
        let n = tables.len();
        let mut m: usize = 0;
        while m < n
            invariant
                0 <= m <= n,
                n == tables@.len(),
                links@.len() == m,
                forall|i: int|
                    0 <= i < m ==> (#[trigger] links@[i])@.len() == tables@[i].names@.len(),
                forall|i: int, j: int|
                    0 <= i < m && 0 <= j < links@[i]@.len() ==> (#[trigger] links@[i]@[j]) is None,
            decreases n - m,
        {
            let k = tables[m].names.len();
            let mut row: Vec<Option<SymbolRef>> = Vec::new();
            let mut j: usize = 0;
            while j < k
                invariant
                    0 <= j <= k,
                    row@.len() == j,
                    forall|i: int| 0 <= i < j ==> (#[trigger] row@[i]) is None,
                decreases k - j,
            {
                row.push(None);
                j += 1;
            }
            links.push(row);
            m += 1;
        }
        let r = Symbols { tables, links, depth: Ghost(Map::new(|x: SymbolRef| true, |x| 0nat)) };
        proof {
            assert forall|x: SymbolRef| r.valid_ref(x) implies #[trigger] r.root_of(x) == x by {
                assert(r.link_of(x) is None);
            }
        }
        r
    }

    /// The declared name of the binding `refer` points at.
    pub fn get_original_name(&self, refer: SymbolRef) -> (r: &String)
        requires
            self.inv(),
            self.valid_ref(refer),
        ensures
            r == self.spec_tables()[refer.owner as int].names@[refer.symbol as int],
    {
        self.tables[refer.owner].get_name(refer.symbol)
    }

    /// Records a reference site in `owner`'s table, bound to the given
    /// symbol if any. Reference sites do not affect the alias forest.
    pub fn create_reference(&mut self, owner: usize, id: Option<SymbolId>) -> (r: ReferenceId)
        requires
            old(self).inv(),
            owner < old(self).spec_tables().len(),
        ensures
            final(self).inv(),
            r == old(self).spec_tables()[owner as int].references@.len(),
            final(self).spec_tables().len() == old(self).spec_tables().len(),
            forall|m: int|
                0 <= m < final(self).spec_tables().len() && m != owner ==> #[trigger] final(self).spec_tables()[m] == old(self).spec_tables()[m],
            final(self).spec_tables()[owner as int].names@ == old(self).spec_tables()[owner as int].names@,
            final(self).spec_tables()[owner as int].references@ == old(self).spec_tables()[owner as int].references@.push(id),
            forall|x: SymbolRef| old(self).valid_ref(x) <==> final(self).valid_ref(x),
            forall|x: SymbolRef|
                old(self).valid_ref(x) ==> #[trigger] final(self).root_of(x) == old(self).root_of(x),
    {
        let ghost pre = *self;
        let tab = &mut self.tables[owner];
        let r = tab.create_reference(id);
        proof {
            assert(self.links@ == pre.links@);
            assert(self.depth@ == pre.depth@);
            assert(self.tables@.len() == pre.tables@.len());
            assert(self.tables@[owner as int].names@ == pre.tables@[owner as int].names@);
            assert(forall|m: int|
                0 <= m < self.tables@.len() && m != owner ==> #[trigger] self.tables@[m]
                    == pre.tables@[m]);
            assert forall|m: int|
                0 <= m < self.links@.len() implies (#[trigger] self.links@[m])@.len()
                == self.tables@[m].names@.len() by {
                if m == owner {
                } else {
                    assert(self.tables@[m] == pre.tables@[m]);
                }
            }
            assert forall|x: SymbolRef| self.valid_ref(x) implies self.depth@.dom().contains(
                x,
            ) by {
                assert(pre.valid_ref(x));
            }
            assert forall|x: SymbolRef|
                self.valid_ref(x) && (#[trigger] self.link_of(x)) is Some implies {
                let t = self.link_of(x)->Some_0;
                &&& self.valid_ref(t)
                &&& self.depth@.dom().contains(t)
                &&& self.depth@[t] < self.depth@[x]
            } by {
                assert(pre.valid_ref(x));
                assert(self.link_of(x) == pre.link_of(x));
                if pre.link_of(x) is Some {
                    let t = pre.link_of(x)->Some_0;
                    assert(pre.valid_ref(t));
                }
            }
            assert(self.inv());
            assert forall|x: SymbolRef| pre.valid_ref(x) implies #[trigger] self.root_of(x)
                == pre.root_of(x) by {
                pre.lemma_same_links_same_root(*self, x);
            }
        }
        r
    }

    /// Declares a fresh binding in `owner`'s table. Existing classes
    /// are untouched and the new symbol is its own class.
    pub fn create_symbol(&mut self, owner: usize, name: String) -> (id: SymbolId)
        requires
            old(self).inv(),
            owner < old(self).spec_tables().len(),
        ensures
            final(self).inv(),
            id == old(self).spec_tables()[owner as int].names@.len(),
            final(self).spec_tables().len() == old(self).spec_tables().len(),
            forall|m: int|
                0 <= m < final(self).spec_tables().len() && m != owner ==> #[trigger] final(self).spec_tables()[m] == old(self).spec_tables()[m],
            final(self).spec_tables()[owner as int].names@ == old(self).spec_tables()[owner as int].names@.push(name),
            final(self).spec_tables()[owner as int].references@ == old(self).spec_tables()[owner as int].references@,
            final(self).valid_ref((SymbolRef { owner, symbol: id })),
            forall|x: SymbolRef| old(self).valid_ref(x) ==> final(self).valid_ref(x),
            forall|x: SymbolRef|
                old(self).valid_ref(x) ==> #[trigger] final(self).root_of(x) == old(self).root_of(x),
            final(self).root_of((SymbolRef { owner, symbol: id })) == (SymbolRef {
                owner,
                symbol: id,
            }),
    {
        let ghost pre = *self;
        let tab = &mut self.tables[owner];
        let id = tab.create_symbol(name);
        let row = &mut self.links[owner];
        row.push(None);
        proof {
            let fresh = SymbolRef { owner, symbol: id };
            self.depth = Ghost(pre.depth@.insert(fresh, 0nat));
            assert(self.links@.len() == pre.links@.len());
            assert(self.links@[owner as int]@ == pre.links@[owner as int]@.push(None));
            assert(forall|m: int|
                0 <= m < self.links@.len() && m != owner ==> self.links@[m] == pre.links@[m]);
            assert(self.link_of(fresh) is None);
            assert forall|x: SymbolRef|
                pre.valid_ref(x) implies #[trigger] self.link_of(x) == pre.link_of(x)
                && self.valid_ref(x) by {}
            assert forall|x: SymbolRef|
                self.valid_ref(x) && (#[trigger] self.link_of(x)) is Some implies {
                let t = self.link_of(x)->Some_0;
                &&& self.valid_ref(t)
                &&& self.depth@.dom().contains(t)
                &&& self.depth@[t] < self.depth@[x]
            } by {
                assert(x != fresh);
                assert(pre.valid_ref(x));
                assert(self.link_of(x) == pre.link_of(x));
                let t = pre.link_of(x)->Some_0;
                assert(pre.valid_ref(t));
                assert(t != fresh);
                assert(self.depth@[t] == pre.depth@[t]);
                assert(self.depth@[x] == pre.depth@[x]);
            }
            assert(self.links@.len() == self.tables@.len());
            assert forall|m: int|
                0 <= m < self.links@.len() implies (#[trigger] self.links@[m])@.len()
                == self.tables@[m].names@.len() by {
                if m == owner {
                    assert(self.tables@[m].names@ == pre.tables@[m].names@.push(name));
                } else {
                    assert(self.tables@[m] == pre.tables@[m]);
                }
            }
            assert forall|r: SymbolRef| self.valid_ref(r) implies self.depth@.dom().contains(
                r,
            ) by {
                if r != fresh {
                    assert(pre.valid_ref(r));
                }
            }
            assert(self.inv());
            assert forall|x: SymbolRef| pre.valid_ref(x) implies #[trigger] self.root_of(x)
                == pre.root_of(x) by {
                pre.lemma_same_links_same_root(*self, x);
            }
            assert(self.link_of(fresh) is None);
        }
        id
    }

    /// Roots agree between two well-formed forests whose links agree on
    /// every reference valid in the first.
    proof fn lemma_same_links_same_root(&self, other: Symbols, r: SymbolRef)
        requires
            self.inv(),
            other.inv(),
            self.valid_ref(r),
            forall|x: SymbolRef|
                self.valid_ref(x) ==> other.valid_ref(x) && #[trigger] other.link_of(x)
                    == self.link_of(x),
        ensures
            other.root_of(r) == self.root_of(r),
        decreases self.depth_of(r),
    {
        assert(other.link_of(r) == self.link_of(r));
        match self.link_of(r) {
            None => {},
            Some(t) => {
                self.lemma_same_links_same_root(other, t);
            },
        }
    }

    /// The canonical representative of `target`'s class, without
    /// mutation; safe for concurrent readers once linking is complete.
    pub fn par_get_canonical_ref(&self, target: SymbolRef) -> (r: SymbolRef)
        requires
            self.inv(),
            self.valid_ref(target),
        ensures
            r == self.root_of(target),
    {
        let mut canonical = target;
        loop
            invariant
                self.inv(),
                self.valid_ref(canonical),
                self.root_of(canonical) == self.root_of(target),
            decreases self.depth_of(canonical),
        {
            let step = self.links[canonical.owner][canonical.symbol];
            match step {
                None => {
                    assert(self.link_of(canonical) is None);
                    return canonical;
                },
                Some(t) => {
                    assert(self.link_of(canonical) == Some(t));
                    canonical = t;
                },
            }
        }
    }

    /// After re-pointing `x` (a non-root) directly at its own root, the
    /// forest stays well-formed and every class keeps its root.
    proof fn lemma_compress_preserves_roots(pre: Symbols, post: Symbols, x: SymbolRef, r: SymbolRef)
        requires
            pre.inv(),
            pre.valid_ref(x),
            post.spec_tables() == pre.spec_tables(),
            post.depth@ == pre.depth@,
            post.links@.len() == pre.links@.len(),
            forall|m: int|
                0 <= m < post.links@.len() ==> (#[trigger] post.links@[m])@.len()
                    == pre.links@[m]@.len(),
            forall|y: SymbolRef|
                pre.valid_ref(y) && y != x ==> #[trigger] post.link_of(y) == pre.link_of(y),
            post.link_of(x) == (if pre.root_of(x) == x {
                pre.link_of(x)
            } else {
                Some(pre.root_of(x))
            }),
            post.inv(),
            pre.valid_ref(r),
        ensures
            post.root_of(r) == pre.root_of(r),
        decreases pre.depth_of(r),
    {
        if r == x {
            if pre.root_of(x) == x {
                // link unchanged; root still x
                match pre.link_of(r) {
                    None => {},
                    Some(t) => {
                        Self::lemma_compress_preserves_roots(pre, post, x, t);
                    },
                }
            } else {
                pre.lemma_root_is_root(x);
                assert(post.link_of(x) == Some(pre.root_of(x)));
                assert(post.link_of(pre.root_of(x)) == pre.link_of(pre.root_of(x)));
                assert(post.root_of(pre.root_of(x)) == pre.root_of(x));
            }
        } else {
            match pre.link_of(r) {
                None => {},
                Some(t) => {
                    Self::lemma_compress_preserves_roots(pre, post, x, t);
                },
            }
        }
    }

    /// The canonical representative of `target`'s class; compresses the
    /// path from `target` to its root. Class structure is unchanged.
    pub fn get_canonical_ref(&mut self, target: SymbolRef) -> (r: SymbolRef)
        requires
            old(self).inv(),
            old(self).valid_ref(target),
        ensures
            final(self).inv(),
            r == old(self).root_of(target),
            final(self).spec_tables() == old(self).spec_tables(),
            forall|x: SymbolRef| final(self).valid_ref(x) <==> old(self).valid_ref(x),
            forall|x: SymbolRef|
                old(self).valid_ref(x) ==> #[trigger] final(self).root_of(x) == old(self).root_of(x),
    {
        let ghost pre = *self;
        let root = self.par_get_canonical_ref(target);
        if root.owner != target.owner || root.symbol != target.symbol {
            proof {
                pre.lemma_root_depth(target);
                pre.lemma_root_is_root(target);
            }
            let row = &mut self.links[target.owner];
            row.set(target.symbol, Some(root));
            proof {
                assert(self.links@.len() == pre.links@.len());
                assert(self.links@[target.owner as int]@ == pre.links@[target.owner as int]@.update(
                    target.symbol as int,
                    Some(root),
                ));
                assert(forall|m: int|
                    0 <= m < self.links@.len() && m != target.owner ==> self.links@[m]
                        == pre.links@[m]);
                assert forall|y: SymbolRef|
                    pre.valid_ref(y) && y != target implies #[trigger] self.link_of(y)
                    == pre.link_of(y) by {}
                assert(self.link_of(target) == Some::<SymbolRef>(root));
                assert(forall|y: SymbolRef| self.valid_ref(y) <==> pre.valid_ref(y));
                assert(self.links@.len() == self.tables@.len());
                assert forall|m: int|
                    0 <= m < self.links@.len() implies (#[trigger] self.links@[m])@.len()
                    == self.tables@[m].names@.len() by {
                    if m != target.owner {
                        assert(self.links@[m] == pre.links@[m]);
                    }
                }
                assert(self.depth@ == pre.depth@);
                assert(self.tables@ == pre.tables@);
                assert forall|r: SymbolRef| self.valid_ref(r) implies self.depth@.dom().contains(
                    r,
                ) by {
                    assert(pre.valid_ref(r));
                    assert(pre.depth@.dom().contains(r));
                }
                assert forall|r: SymbolRef|
                    self.valid_ref(r) && (#[trigger] self.link_of(r)) is Some implies {
                    let t = self.link_of(r)->Some_0;
                    &&& self.valid_ref(t)
                    &&& self.depth@.dom().contains(t)
                    &&& self.depth@[t] < self.depth@[r]
                } by {
                    assert(pre.valid_ref(r));
                    if r == target {
                        assert(pre.root_of(target) == root);
                        assert(self.depth@[root] < self.depth@[target]);
                    } else {
                        assert(self.link_of(r) == pre.link_of(r));
                        let t = pre.link_of(r)->Some_0;
                        assert(pre.valid_ref(t));
                    }
                }
                assert(self.inv());
                assert forall|x: SymbolRef| pre.valid_ref(x) implies #[trigger] self.root_of(x)
                    == pre.root_of(x) by {
                    Self::lemma_compress_preserves_roots(pre, *self, target, x);
                }
            }
        }
        root
    }

    /// Merges `a`'s class into `b`'s by pointing `a`'s representative
    /// at `b`'s; idempotent when the classes are already one.
    pub fn union(&mut self, a: SymbolRef, b: SymbolRef)
        requires
            old(self).inv(),
            old(self).valid_ref(a),
            old(self).valid_ref(b),
        ensures
            final(self).inv(),
            final(self).spec_tables() == old(self).spec_tables(),
            forall|x: SymbolRef| final(self).valid_ref(x) <==> old(self).valid_ref(x),
            forall|x: SymbolRef|
                old(self).valid_ref(x) ==> #[trigger] final(self).root_of(x) == (if old(self).equiv(x, a) {
                    old(self).root_of(b)
                } else {
                    old(self).root_of(x)
                }),
    {
        let ghost pre0 = *self;
        let root_a = self.get_canonical_ref(a);
        let root_b = self.get_canonical_ref(b);
        let ghost pre = *self;
        proof {
            assert forall|x: SymbolRef| pre0.valid_ref(x) implies #[trigger] pre.root_of(x)
                == pre0.root_of(x) && pre.valid_ref(x) by {}
            assert(pre.root_of(a) == root_a);
            assert(pre.root_of(b) == root_b);
            pre.lemma_root_is_root(a);
            pre.lemma_root_is_root(b);
        }
        if root_a.owner == root_b.owner && root_a.symbol == root_b.symbol {
            proof {
                assert forall|x: SymbolRef| pre0.valid_ref(x) implies #[trigger] self.root_of(x)
                    == (if pre0.equiv(x, a) {
                    pre0.root_of(b)
                } else {
                    pre0.root_of(x)
                }) by {
                    assert(self.root_of(x) == pre0.root_of(x));
                }
            }
            return ;
        }
        proof {
            assert(pre.root_of(root_a) == root_a);
            assert(pre.root_of(root_b) == root_b);
            assert(pre.link_of(root_b) is None);
            assert(root_a != root_b);
        }
        let row = &mut self.links[root_a.owner];
        row.set(root_a.symbol, Some(root_b));
        proof {
            let bump = pre.depth@[root_b] + 1;
            self.depth = Ghost(
                Map::new(
                    |x: SymbolRef| pre.depth@.dom().contains(x),
                    |x: SymbolRef|
                        if pre.valid_ref(x) && pre.root_of(x) == root_a {
                            (pre.depth@[x] + bump) as nat
                        } else {
                            pre.depth@[x]
                        },
                ),
            );
            assert(self.links@.len() == pre.links@.len());
            assert(self.links@[root_a.owner as int]@ == pre.links@[root_a.owner as int]@.update(
                root_a.symbol as int,
                Some(root_b),
            ));
            assert(forall|m: int|
                0 <= m < self.links@.len() && m != root_a.owner ==> self.links@[m]
                    == pre.links@[m]);
            assert(self.tables@ == pre.tables@);
            assert forall|y: SymbolRef|
                pre.valid_ref(y) && y != root_a implies #[trigger] self.link_of(y) == pre.link_of(
                y,
            ) by {}
            assert(self.link_of(root_a) == Some::<SymbolRef>(root_b));
            assert(forall|y: SymbolRef| self.valid_ref(y) <==> pre.valid_ref(y));
            assert(self.depth@.dom() =~= pre.depth@.dom());
            assert(self.links@.len() == self.tables@.len());
            assert forall|m: int|
                0 <= m < self.links@.len() implies (#[trigger] self.links@[m])@.len()
                == self.tables@[m].names@.len() by {
                if m != root_a.owner {
                    assert(self.links@[m] == pre.links@[m]);
                }
            }
            assert forall|r: SymbolRef| self.valid_ref(r) implies self.depth@.dom().contains(
                r,
            ) by {
                assert(pre.valid_ref(r));
                assert(pre.depth@.dom().contains(r));
            }
            assert forall|r: SymbolRef|
                self.valid_ref(r) && (#[trigger] self.link_of(r)) is Some implies {
                let t = self.link_of(r)->Some_0;
                &&& self.valid_ref(t)
                &&& self.depth@.dom().contains(t)
                &&& self.depth@[t] < self.depth@[r]
            } by {
                assert(pre.valid_ref(r));
                if r == root_a {
                    assert(self.link_of(r) == Some::<SymbolRef>(root_b));
                    assert(pre.root_of(root_b) == root_b);
                    assert(self.depth@[root_b] == pre.depth@[root_b]);
                    assert(self.depth@[root_a] == pre.depth@[root_a] + bump);
                } else {
                    assert(self.link_of(r) == pre.link_of(r));
                    let t = pre.link_of(r)->Some_0;
                    assert(pre.valid_ref(t));
                    assert(pre.root_of(r) == pre.root_of(t));
                    if pre.root_of(r) == root_a {
                        assert(self.depth@[r] == pre.depth@[r] + bump);
                        assert(self.depth@[t] == pre.depth@[t] + bump);
                    } else {
                        assert(self.depth@[r] == pre.depth@[r]);
                        assert(self.depth@[t] == pre.depth@[t]);
                    }
                }
            }
            assert(self.inv());
            assert forall|x: SymbolRef| pre.valid_ref(x) implies #[trigger] self.root_of(x) == (
            if pre.root_of(x) == root_a {
                root_b
            } else {
                pre.root_of(x)
            }) by {
                Self::lemma_union_roots(pre, *self, root_a, root_b, x);
            }
            assert forall|x: SymbolRef| pre0.valid_ref(x) implies #[trigger] self.root_of(x)
                == (if pre0.equiv(x, a) {
                pre0.root_of(b)
            } else {
                pre0.root_of(x)
            }) by {
                assert(pre.valid_ref(x));
                assert(pre.root_of(x) == pre0.root_of(x));
            }
        }
    }

    /// After pointing root `ra` at root `rb`, every class rooted at
    /// `ra` is rooted at `rb` and every other class is unchanged.
    proof fn lemma_union_roots(
        pre: Symbols,
        post: Symbols,
        ra: SymbolRef,
        rb: SymbolRef,
        x: SymbolRef,
    )
        requires
            pre.inv(),
            post.inv(),
            pre.valid_ref(ra),
            pre.valid_ref(rb),
            ra != rb,
            pre.root_of(ra) == ra,
            pre.root_of(rb) == rb,
            pre.link_of(rb) is None,
            forall|y: SymbolRef| pre.valid_ref(y) ==> post.valid_ref(y),
            forall|y: SymbolRef|
                pre.valid_ref(y) && y != ra ==> #[trigger] post.link_of(y) == pre.link_of(y),
            post.link_of(ra) == Some(rb),
            pre.valid_ref(x),
        ensures
            post.root_of(x) == (if pre.root_of(x) == ra {
                rb
            } else {
                pre.root_of(x)
            }),
        decreases pre.depth_of(x),
    {
        if x == ra {
            assert(post.link_of(rb) == pre.link_of(rb));
            assert(post.root_of(rb) == rb);
            assert(post.root_of(ra) == rb);
        } else {
            assert(post.link_of(x) == pre.link_of(x));
            match pre.link_of(x) {
                None => {},
                Some(t) => {
                    assert(pre.root_of(x) == pre.root_of(t));
                    Self::lemma_union_roots(pre, post, ra, rb, t);
                },
            }
        }
    }
}

} // verus!
