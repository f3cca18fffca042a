//! Small association maps backed by vectors with unique keys.
//!
//! Keys are kept in insertion order, so every walk over a map is
//! deterministic — nothing in the pipeline may depend on an unordered
//! container's iteration order. `StrMap` keys entries by string,
//! `IdMap` by a dense integer handle; both are viewed as mathematical
//! `Map`s.

use vstd::prelude::*;

verus! {

/// Character-wise string equality.
pub fn str_eq(a: &str, b: &str) -> (r: bool)
    ensures
        r == (a@ == b@),
{
    let n: usize = a.unicode_len();
    let m: usize = b.unicode_len();
    if n != m {
        return false;
    }
    let mut i: usize = 0;
    while i < n
        invariant
            0 <= i <= n,
            n == a@.len(),
            n == b@.len(),
            forall|j: int| 0 <= j < i ==> a@[j] == b@[j],
        decreases n - i,
    {
        if a.get_char(i) != b.get_char(i) {
            return false;
        }
        i += 1;
    }
    proof {
        assert(a@ =~= b@);
    }
    true
}

/// The mathematical map described by an association list; later
/// entries override earlier ones.
pub open spec fn str_assoc_map<V>(s: Seq<(String, V)>) -> Map<Seq<char>, V>
    decreases s.len(),
{
    if s.len() == 0 {
        Map::empty()
    } else {
        str_assoc_map(s.drop_last()).insert(s.last().0@, s.last().1)
    }
}

/// No two entries share a key.
pub open spec fn str_unique_keys<V>(s: Seq<(String, V)>) -> bool {
    forall|i: int, j: int| 0 <= i < j < s.len() ==> s[i].0@ != s[j].0@
}

proof fn lemma_str_assoc_dom<V>(s: Seq<(String, V)>, k: Seq<char>)
    ensures
        str_assoc_map(s).dom().contains(k) <==> exists|i: int| 0 <= i < s.len() && s[i].0@ == k,
    decreases s.len(),
{
    if s.len() > 0 {
        lemma_str_assoc_dom(s.drop_last(), k);
        if s.last().0@ == k {
            assert(s[s.len() - 1].0@ == k);
        } else {
            if exists|i: int| 0 <= i < s.len() - 1 && s.drop_last()[i].0@ == k {
                let i = choose|i: int| 0 <= i < s.len() - 1 && s.drop_last()[i].0@ == k;
                assert(s[i].0@ == k);
            }
            if exists|i: int| 0 <= i < s.len() && s[i].0@ == k {
                let i = choose|i: int| 0 <= i < s.len() && s[i].0@ == k;
                assert(s.drop_last()[i].0@ == k);
            }
        }
    }
}

proof fn lemma_str_assoc_get<V>(s: Seq<(String, V)>, i: int)
    requires
        0 <= i < s.len(),
        forall|j: int| i < j < s.len() ==> s[j].0@ != s[i].0@,
    ensures
        str_assoc_map(s).dom().contains(s[i].0@),
        str_assoc_map(s)[s[i].0@] == s[i].1,
    decreases s.len(),
{
    if i == s.len() - 1 {
    } else {
        assert(s.drop_last()[i] == s[i]);
        lemma_str_assoc_get(s.drop_last(), i);
    }
}

proof fn lemma_str_assoc_update<V>(s: Seq<(String, V)>, i: int, p: (String, V))
    requires
        0 <= i < s.len(),
        str_unique_keys(s),
        p.0@ == s[i].0@,
    ensures
        str_assoc_map(s.update(i, p)) == str_assoc_map(s).insert(p.0@, p.1),
    decreases s.len(),
{
    let t = s.update(i, p);
    if i == s.len() - 1 {
        assert(t.drop_last() =~= s.drop_last());
        assert(str_assoc_map(t) == str_assoc_map(s.drop_last()).insert(p.0@, p.1));
        assert(str_assoc_map(s.drop_last()).insert(s.last().0@, s.last().1).insert(p.0@, p.1)
            =~= str_assoc_map(s.drop_last()).insert(p.0@, p.1));
    } else {
        assert(t.drop_last() =~= s.drop_last().update(i, p));
        assert(s.drop_last()[i] == s[i]);
        lemma_str_assoc_update(s.drop_last(), i, p);
        assert(t.last() == s.last());
        assert(str_assoc_map(t) == str_assoc_map(s.drop_last()).insert(p.0@, p.1).insert(
            s.last().0@,
            s.last().1,
        ));
        assert(s.last().0@ != p.0@);
        assert(str_assoc_map(s.drop_last()).insert(p.0@, p.1).insert(s.last().0@, s.last().1)
            =~= str_assoc_map(s.drop_last()).insert(s.last().0@, s.last().1).insert(p.0@, p.1));
    }
}


/// A key in the map is the key of some entry, and the map's value is
/// that of the last such entry.
pub proof fn lemma_str_assoc_last_entry<V>(s: Seq<(String, V)>, k: Seq<char>)
    requires
        str_assoc_map(s).dom().contains(k),
    ensures
        exists|i: int|
            0 <= i < s.len() && (#[trigger] s[i]).0@ == k && str_assoc_map(s)[k] == s[i].1,
    decreases s.len(),
{
    if s.len() > 0 {
        if s.last().0@ == k {
            assert((s[s.len() - 1]).0@ == k && str_assoc_map(s)[k] == s[s.len() - 1].1);
        } else {
            lemma_str_assoc_last_entry(s.drop_last(), k);
            let i = choose|i: int|
                0 <= i < s.drop_last().len() && (#[trigger] s.drop_last()[i]).0@ == k
                    && str_assoc_map(s.drop_last())[k] == s.drop_last()[i].1;
            assert((s[i]).0@ == k && str_assoc_map(s)[k] == s[i].1);
        }
    }
}

/// A key in the map is the key of some entry, and the map's value is
/// that of the last such entry.
pub proof fn lemma_id_assoc_last_entry<V>(s: Seq<(usize, V)>, k: int)
    requires
        id_assoc_map(s).dom().contains(k),
    ensures
        exists|i: int|
            0 <= i < s.len() && (#[trigger] s[i]).0 == k && id_assoc_map(s)[k] == s[i].1,
    decreases s.len(),
{
    if s.len() > 0 {
        if s.last().0 == k {
            assert((s[s.len() - 1]).0 == k && id_assoc_map(s)[k] == s[s.len() - 1].1);
        } else {
            lemma_id_assoc_last_entry(s.drop_last(), k);
            let i = choose|i: int|
                0 <= i < s.drop_last().len() && (#[trigger] s.drop_last()[i]).0 == k
                    && id_assoc_map(s.drop_last())[k] == s.drop_last()[i].1;
            assert((s[i]).0 == k && id_assoc_map(s)[k] == s[i].1);
        }
    }
}

/// A string-keyed map in insertion order.
#[derive(Debug)]
pub struct StrMap<V> {
    entries: Vec<(String, V)>,
}

impl<V> View for StrMap<V> {
    type V = Map<Seq<char>, V>;

    closed spec fn view(&self) -> Map<Seq<char>, V> {
        str_assoc_map(self.entries@)
    }
}

impl<V> StrMap<V> {
    /// The entries in insertion order, every key once.
    pub closed spec fn spec_entries(&self) -> Seq<(String, V)> {
        self.entries@
    }

    #[verifier::type_invariant]
    closed spec fn type_inv(&self) -> bool {
        str_unique_keys(self.entries@)
    }

    /// No-op whose postconditions let a caller that walks the entries
    /// relate them to the map: every entry is in the map, the map holds
    /// nothing else, and no key repeats.
    pub fn entries_facts(&self)
        ensures
            forall|i: int|
                0 <= i < self.spec_entries().len() ==> self@.dom().contains(
                    #[trigger] self.spec_entries()[i].0@,
                ) && self@[self.spec_entries()[i].0@] == self.spec_entries()[i].1,
            forall|k: Seq<char>|
                self@.dom().contains(k) ==> exists|i: int|
                    0 <= i < self.spec_entries().len() && #[trigger] self.spec_entries()[i].0@
                        == k,
            forall|i: int, j: int|
                0 <= i < j < self.spec_entries().len() ==> self.spec_entries()[i].0@
                    != self.spec_entries()[j].0@,
    {
        proof {
            use_type_invariant(self);
            assert forall|i: int| 0 <= i < self.entries@.len() implies self@.dom().contains(
                #[trigger] self.entries@[i].0@,
            ) && self@[self.entries@[i].0@] == self.entries@[i].1 by {
                lemma_str_assoc_get(self.entries@, i);
            }
            assert forall|k: Seq<char>| self@.dom().contains(k) implies exists|i: int|
                0 <= i < self.spec_entries().len() && #[trigger] self.spec_entries()[i].0@
                == k by {
                lemma_str_assoc_dom(self.entries@, k);
                let i = choose|i: int| 0 <= i < self.entries@.len() && self.entries@[i].0@ == k;
                assert(0 <= i < self.spec_entries().len() && self.spec_entries()[i].0@ == k);
            }
        }
    }

    /// The view is the map described by the entries.
    pub proof fn lemma_view(&self)
        ensures
            self@ == str_assoc_map(self.spec_entries()),
    {
    }

    pub fn new() -> (r: StrMap<V>)
        ensures
            r@ == Map::<Seq<char>, V>::empty(),
            r.spec_entries() == Seq::<(String, V)>::empty(),
    {
        StrMap { entries: Vec::new() }
    }

    /// The number of entries.
    pub fn len(&self) -> (n: usize)
        ensures
            n == self.spec_entries().len(),
    {
        self.entries.len()
    }

    /// The entry at position `i` in insertion order.
    pub fn entry_at(&self, i: usize) -> (r: &(String, V))
        requires
            i < self.spec_entries().len(),
        ensures
            r == self.spec_entries()[i as int],
    {
        &self.entries[i]
    }

    /// The value bound to `k`, if any.
    pub fn get(&self, k: &str) -> (r: Option<&V>)
        ensures
            match r {
                Some(v) => self@.dom().contains(k@) && *v == self@[k@],
                None => !self@.dom().contains(k@),
            },
    {
        proof {
            use_type_invariant(self);
        }
        let n = self.entries.len();
        let mut i: usize = 0;
        while i < n
            invariant
                0 <= i <= n,
                n == self.entries@.len(),
                str_unique_keys(self.entries@),
                self@ == str_assoc_map(self.entries@),
                forall|j: int| 0 <= j < i ==> self.entries@[j].0@ != k@,
            decreases n - i,
        {
            if str_eq(self.entries[i].0.as_str(), k) {
                proof {
                    lemma_str_assoc_get(self.entries@, i as int);
                }
                return Some(&self.entries[i].1);
            }
            i += 1;
        }
        proof {
            lemma_str_assoc_dom(self.entries@, k@);
        }
        None
    }

    /// True when `k` is bound.
    pub fn contains_key(&self, k: &str) -> (r: bool)
        ensures
            r == self@.dom().contains(k@),
    {
        self.get(k).is_some()
    }

    /// Binds `k` to `v`, replacing any earlier binding.
    pub fn insert(&mut self, k: String, v: V)
        ensures
            final(self)@ == old(self)@.insert(k@, v),
            final(self)@.dom().contains(k@),
            old(self)@.dom().contains(k@) ==> final(self).spec_entries().len() == old(
                self,
            ).spec_entries().len(),
            !old(self)@.dom().contains(k@) ==> final(self).spec_entries() == old(
                self,
            ).spec_entries().push((k, v)),
    {
        proof {
            use_type_invariant(&*self);
        }
        let ghost pre = self.entries@;
        let mut entries: Vec<(String, V)> = Vec::new();
        core::mem::swap(&mut self.entries, &mut entries);
        let n = entries.len();
        let mut i: usize = 0;
        let mut found: bool = false;
        while i < n && !found
            invariant
                0 <= i <= n,
                n == pre.len(),
                entries@ == pre,
                str_unique_keys(pre),
                forall|j: int| 0 <= j < i ==> pre[j].0@ != k@,
                found ==> i < n && pre[i as int].0@ == k@,
            decreases n - i + (if found { 0int } else { 1int }),
        {
            if str_eq(entries[i].0.as_str(), k.as_str()) {
                found = true;
            } else {
                i += 1;
            }
        }
        proof {
            lemma_str_assoc_dom(pre, k@);
        }
        if found {
            proof {
                lemma_str_assoc_update(pre, i as int, (k, v));
            }
            entries.set(i, (k, v));
        } else {
            entries.push((k, v));
            proof {
                assert(entries@.drop_last() =~= pre);
            }
        }
        core::mem::swap(&mut self.entries, &mut entries);
    }
}

/// The mathematical map described by an id-keyed association list.
pub open spec fn id_assoc_map<V>(s: Seq<(usize, V)>) -> Map<int, V>
    decreases s.len(),
{
    if s.len() == 0 {
        Map::empty()
    } else {
        id_assoc_map(s.drop_last()).insert(s.last().0 as int, s.last().1)
    }
}

/// No two entries share a key.
pub open spec fn id_unique_keys<V>(s: Seq<(usize, V)>) -> bool {
    forall|i: int, j: int| 0 <= i < j < s.len() ==> s[i].0 != s[j].0
}

proof fn lemma_id_assoc_dom<V>(s: Seq<(usize, V)>, k: int)
    ensures
        id_assoc_map(s).dom().contains(k) <==> exists|i: int| 0 <= i < s.len() && s[i].0 == k,
    decreases s.len(),
{
    if s.len() > 0 {
        lemma_id_assoc_dom(s.drop_last(), k);
        if s.last().0 == k {
            assert(s[s.len() - 1].0 == k);
        } else {
            if exists|i: int| 0 <= i < s.len() - 1 && s.drop_last()[i].0 == k {
                let i = choose|i: int| 0 <= i < s.len() - 1 && s.drop_last()[i].0 == k;
                assert(s[i].0 == k);
            }
            if exists|i: int| 0 <= i < s.len() && s[i].0 == k {
                let i = choose|i: int| 0 <= i < s.len() && s[i].0 == k;
                assert(s.drop_last()[i].0 == k);
            }
        }
    }
}

proof fn lemma_id_assoc_get<V>(s: Seq<(usize, V)>, i: int)
    requires
        0 <= i < s.len(),
        forall|j: int| i < j < s.len() ==> s[j].0 != s[i].0,
    ensures
        id_assoc_map(s).dom().contains(s[i].0 as int),
        id_assoc_map(s)[s[i].0 as int] == s[i].1,
    decreases s.len(),
{
    if i == s.len() - 1 {
    } else {
        assert(s.drop_last()[i] == s[i]);
        lemma_id_assoc_get(s.drop_last(), i);
    }
}

proof fn lemma_id_assoc_update<V>(s: Seq<(usize, V)>, i: int, p: (usize, V))
    requires
        0 <= i < s.len(),
        id_unique_keys(s),
        p.0 == s[i].0,
    ensures
        id_assoc_map(s.update(i, p)) == id_assoc_map(s).insert(p.0 as int, p.1),
    decreases s.len(),
{
    let t = s.update(i, p);
    if i == s.len() - 1 {
        assert(t.drop_last() =~= s.drop_last());
        assert(id_assoc_map(s.drop_last()).insert(s.last().0 as int, s.last().1).insert(
            p.0 as int,
            p.1,
        ) =~= id_assoc_map(s.drop_last()).insert(p.0 as int, p.1));
    } else {
        assert(t.drop_last() =~= s.drop_last().update(i, p));
        assert(s.drop_last()[i] == s[i]);
        lemma_id_assoc_update(s.drop_last(), i, p);
        assert(t.last() == s.last());
        assert(s.last().0 != p.0);
        assert(id_assoc_map(s.drop_last()).insert(p.0 as int, p.1).insert(
            s.last().0 as int,
            s.last().1,
        ) =~= id_assoc_map(s.drop_last()).insert(s.last().0 as int, s.last().1).insert(
            p.0 as int,
            p.1,
        ));
    }
}

/// A map keyed by a dense integer handle, in insertion order.
#[derive(Debug)]
pub struct IdMap<V> {
    entries: Vec<(usize, V)>,
}

impl<V> View for IdMap<V> {
    type V = Map<int, V>;

    closed spec fn view(&self) -> Map<int, V> {
        id_assoc_map(self.entries@)
    }
}

impl<V> IdMap<V> {
    /// The entries in insertion order, every key once.
    pub closed spec fn spec_entries(&self) -> Seq<(usize, V)> {
        self.entries@
    }

    #[verifier::type_invariant]
    closed spec fn type_inv(&self) -> bool {
        id_unique_keys(self.entries@)
    }

    /// No-op whose postconditions let a caller that walks the entries
    /// relate them to the map: every entry is in the map, the map holds
    /// nothing else, and no key repeats.
    pub fn entries_facts(&self)
        ensures
            forall|i: int|
                0 <= i < self.spec_entries().len() ==> self@.dom().contains(
                    #[trigger] self.spec_entries()[i].0 as int,
                ) && self@[self.spec_entries()[i].0 as int] == self.spec_entries()[i].1,
            forall|k: int|
                self@.dom().contains(k) ==> exists|i: int|
                    0 <= i < self.spec_entries().len() && #[trigger] self.spec_entries()[i].0 == k,
            forall|i: int, j: int|
                0 <= i < j < self.spec_entries().len() ==> self.spec_entries()[i].0
                    != self.spec_entries()[j].0,
    {
        proof {
            use_type_invariant(self);
            assert forall|i: int| 0 <= i < self.entries@.len() implies self@.dom().contains(
                #[trigger] self.entries@[i].0 as int,
            ) && self@[self.entries@[i].0 as int] == self.entries@[i].1 by {
                lemma_id_assoc_get(self.entries@, i);
            }
            assert forall|k: int| self@.dom().contains(k) implies exists|i: int|
                0 <= i < self.spec_entries().len() && #[trigger] self.spec_entries()[i].0
                == k by {
                lemma_id_assoc_dom(self.entries@, k);
                let i = choose|i: int| 0 <= i < self.entries@.len() && self.entries@[i].0 == k;
                assert(0 <= i < self.spec_entries().len() && self.spec_entries()[i].0 == k);
            }
        }
    }

    /// The view is the map described by the entries.
    pub proof fn lemma_view(&self)
        ensures
            self@ == id_assoc_map(self.spec_entries()),
    {
    }

    pub fn new() -> (r: IdMap<V>)
        ensures
            r@ == Map::<int, V>::empty(),
            r.spec_entries() == Seq::<(usize, V)>::empty(),
    {
        IdMap { entries: Vec::new() }
    }

    /// The number of entries.
    pub fn len(&self) -> (n: usize)
        ensures
            n == self.spec_entries().len(),
    {
        self.entries.len()
    }

    /// The entry at position `i` in insertion order.
    pub fn entry_at(&self, i: usize) -> (r: &(usize, V))
        requires
            i < self.spec_entries().len(),
        ensures
            r == self.spec_entries()[i as int],
    {
        &self.entries[i]
    }

    /// The value bound to `k`, if any.
    pub fn get(&self, k: usize) -> (r: Option<&V>)
        ensures
            match r {
                Some(v) => self@.dom().contains(k as int) && *v == self@[k as int],
                None => !self@.dom().contains(k as int),
            },
    {
        proof {
            use_type_invariant(self);
        }
        let n = self.entries.len();
        let mut i: usize = 0;
        while i < n
            invariant
                0 <= i <= n,
                n == self.entries@.len(),
                id_unique_keys(self.entries@),
                self@ == id_assoc_map(self.entries@),
                forall|j: int| 0 <= j < i ==> self.entries@[j].0 != k,
            decreases n - i,
        {
            if self.entries[i].0 == k {
                proof {
                    lemma_id_assoc_get(self.entries@, i as int);
                }
                return Some(&self.entries[i].1);
            }
            i += 1;
        }
        proof {
            lemma_id_assoc_dom(self.entries@, k as int);
        }
        None
    }

    /// True when `k` is bound.
    pub fn contains_key(&self, k: usize) -> (r: bool)
        ensures
            r == self@.dom().contains(k as int),
    {
        self.get(k).is_some()
    }

    /// Binds `k` to `v`, replacing any earlier binding.
    pub fn insert(&mut self, k: usize, v: V)
        ensures
            final(self)@ == old(self)@.insert(k as int, v),
            final(self)@.dom().contains(k as int),
            !old(self)@.dom().contains(k as int) ==> final(self).spec_entries() == old(
                self,
            ).spec_entries().push((k, v)),
    {
        proof {
            use_type_invariant(&*self);
        }
        let ghost pre = self.entries@;
        let mut entries: Vec<(usize, V)> = Vec::new();
        core::mem::swap(&mut self.entries, &mut entries);
        let n = entries.len();
        let mut i: usize = 0;
        let mut found: bool = false;
        while i < n && !found
            invariant
                0 <= i <= n,
                n == pre.len(),
                entries@ == pre,
                id_unique_keys(pre),
                forall|j: int| 0 <= j < i ==> pre[j].0 != k,
                found ==> i < n && pre[i as int].0 == k,
            decreases n - i + (if found { 0int } else { 1int }),
        {
            if entries[i].0 == k {
                found = true;
            } else {
                i += 1;
            }
        }
        proof {
            lemma_id_assoc_dom(pre, k as int);
        }
        if found {
            proof {
                lemma_id_assoc_update(pre, i as int, (k, v));
            }
            entries.set(i, (k, v));
        } else {
            entries.push((k, v));
            proof {
                assert(entries@.drop_last() =~= pre);
            }
        }
        core::mem::swap(&mut self.entries, &mut entries);
    }
}

} // verus!
