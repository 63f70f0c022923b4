use vstd::prelude::*;

use crate::bytesutil::{clone_bytes, cmp_bytes, eq_bytes, lemma_lex_irrefl, lemma_lex_trans, lex_lt};

verus! {

/// The pair sequence of a vector of byte-vector pairs, as mathematical sequences.
pub open spec fn pairs_view(v: Seq<(Vec<u8>, Vec<u8>)>) -> Seq<(Seq<u8>, Seq<u8>)> {
    v.map_values(|p: (Vec<u8>, Vec<u8>)| (p.0@, p.1@))
}

/// The mapping a sequence of pairs denotes, later pairs overwriting earlier
/// ones for the same key.
pub open spec fn pairs_as_map(ps: Seq<(Seq<u8>, Seq<u8>)>) -> Map<Seq<u8>, Seq<u8>>
    decreases ps.len(),
{
    if ps.len() == 0 {
        Map::empty()
    } else {
        pairs_as_map(ps.drop_last()).insert(ps.last().0, ps.last().1)
    }
}

/// An ordered mapping from canonical path bytes to hex digest bytes.
/// Keys are kept strictly sorted, so iteration order is deterministic
/// and every key occurs exactly once.
#[derive(Debug)]
pub struct DigestTable {
    entries: Vec<(Vec<u8>, Vec<u8>)>,
}

/// How a path's digest compares against the locked baseline.
#[derive(Debug, PartialEq, Eq, Clone, Copy, Structural)]
pub enum ChangeStatus {
    Unchanged,
    Modified,
    Added,
    Removed,
}

/// The classification of every path whose state differs from the baseline.
/// Keys occur at most once; unchanged paths are absent.
#[derive(Debug)]
pub struct ChangeSet {
    entries: Vec<(Vec<u8>, ChangeStatus)>,
}

impl View for DigestTable {
    type V = Map<Seq<u8>, Seq<u8>>;

    closed spec fn view(&self) -> Map<Seq<u8>, Seq<u8>> {
        Map::new(
            |k: Seq<u8>|
                exists|i: int|
                    0 <= i < self.entries@.len() && (#[trigger] self.entries@[i]).0@ == k,
            |k: Seq<u8>|
                self.entries@[choose|i: int|
                    0 <= i < self.entries@.len() && (#[trigger] self.entries@[i]).0@ == k].1@,
        )
    }
}

impl DigestTable {
    /// Keys strictly increase in lexicographic order.
    pub closed spec fn wf(&self) -> bool {
        forall|i: int, j: int|
            0 <= i < j < self.entries@.len() ==> lex_lt(
                (#[trigger] self.entries@[i]).0@,
                (#[trigger] self.entries@[j]).0@,
            )
    }

    /// The entries in key order.
    pub closed spec fn entries_view(&self) -> Seq<(Seq<u8>, Seq<u8>)> {
        pairs_view(self.entries@)
    }

    proof fn lemma_distinct(&self)
        requires
            self.wf(),
        ensures
            forall|i: int, j: int|
                0 <= i < self.entries@.len() && 0 <= j < self.entries@.len() && i != j ==> (
                #[trigger] self.entries@[i]).0@ != (#[trigger] self.entries@[j]).0@,
    {
        assert forall|i: int, j: int|
            0 <= i < self.entries@.len() && 0 <= j < self.entries@.len() && i != j implies (
        #[trigger] self.entries@[i]).0@ != (#[trigger] self.entries@[j]).0@ by {
            if self.entries@[i].0@ == self.entries@[j].0@ {
                lemma_lex_irrefl(self.entries@[i].0@);
            }
        }
    }

    proof fn lemma_index_maps(&self, i: int)
        requires
            self.wf(),
            0 <= i < self.entries@.len(),
        ensures
            self@.contains_key(self.entries@[i].0@),
            self@[self.entries@[i].0@] == self.entries@[i].1@,
    {
        self.lemma_distinct();
        assert(self.entries@[i].0@ == self.entries@[i].0@);
        let k = self.entries@[i].0@;
        let j = choose|j: int|
            0 <= j < self.entries@.len() && (#[trigger] self.entries@[j]).0@ == k;
        assert(j == i);
    }

    /// An empty table.
    pub fn new() -> (t: DigestTable)
        ensures
            t.wf(),
            t@ == Map::<Seq<u8>, Seq<u8>>::empty(),
            t.entries_view() == Seq::<(Seq<u8>, Seq<u8>)>::empty(),
    {
        let t = DigestTable { entries: Vec::new() };
        proof {
            assert(t@ =~= Map::<Seq<u8>, Seq<u8>>::empty());
            assert(t.entries_view() =~= Seq::<(Seq<u8>, Seq<u8>)>::empty());
        }
        t
    }

    /// The number of distinct paths recorded.
    pub fn len(&self) -> (n: usize)
        ensures
            n == self.entries_view().len(),
    {
        self.entries.len()
    }

    /// Whether no path is recorded; equivalent to the empty mapping.
    pub fn is_empty(&self) -> (r: bool)
        ensures
            r <==> self@ == Map::<Seq<u8>, Seq<u8>>::empty(),
    {
        let r = self.entries.len() == 0;
        proof {
            if self.entries@.len() == 0 {
                assert(self@ =~= Map::<Seq<u8>, Seq<u8>>::empty());
            } else {
                assert(self@.contains_key(self.entries@[0].0@));
            }
        }
        r
    }

    /// Entries are strictly ascending in key order.
    pub proof fn lemma_entries_sorted(&self)
        requires
            self.wf(),
        ensures
            forall|i: int, j: int|
                0 <= i < j < self.entries_view().len() ==> lex_lt(
                    (#[trigger] self.entries_view()[i]).0,
                    (#[trigger] self.entries_view()[j]).0,
                ),
    {
        assert forall|i: int, j: int| 0 <= i < j < self.entries_view().len() implies lex_lt(
            (#[trigger] self.entries_view()[i]).0,
            (#[trigger] self.entries_view()[j]).0,
        ) by {
            assert(self.entries_view()[i].0 == self.entries@[i].0@);
            assert(self.entries_view()[j].0 == self.entries@[j].0@);
        }
    }

    proof fn lemma_prefix_as_map(&self, n: int)
        requires
            self.wf(),
            0 <= n <= self.entries@.len(),
        ensures
            forall|k: Seq<u8>|
                #[trigger] pairs_as_map(self.entries_view().subrange(0, n)).contains_key(k)
                    <==> exists|i: int| 0 <= i < n && (#[trigger] self.entries@[i]).0@ == k,
            forall|i: int|
                0 <= i < n ==> pairs_as_map(self.entries_view().subrange(0, n))[(
                #[trigger] self.entries@[i]).0@] == self.entries@[i].1@,
        decreases n,
    {
        self.lemma_distinct();
        let ev = self.entries_view();
        if n == 0 {
            assert(ev.subrange(0, 0) =~= Seq::<(Seq<u8>, Seq<u8>)>::empty());
        } else {
            self.lemma_prefix_as_map(n - 1);
            assert(ev.subrange(0, n).drop_last() =~= ev.subrange(0, n - 1));
            assert(ev.subrange(0, n).last() == ev[n - 1]);
            assert(ev[n - 1] == (self.entries@[n - 1].0@, self.entries@[n - 1].1@));
            assert(pairs_as_map(ev.subrange(0, n)) == pairs_as_map(ev.subrange(0, n - 1)).insert(
                self.entries@[n - 1].0@,
                self.entries@[n - 1].1@,
            ));
            assert forall|i: int|
                0 <= i < n implies pairs_as_map(ev.subrange(0, n))[(
            #[trigger] self.entries@[i]).0@] == self.entries@[i].1@ by {
                if i < n - 1 {
                    assert(self.entries@[i].0@ != self.entries@[n - 1].0@);
                }
            }
        }
    }

    /// A table's entry sequence denotes the table's own mapping.
    pub proof fn lemma_entries_as_map(&self)
        requires
            self.wf(),
        ensures
            pairs_as_map(self.entries_view()) == self@,
    {
        let len = self.entries@.len() as int;
        self.lemma_prefix_as_map(len);
        assert(self.entries_view().subrange(0, len) =~= self.entries_view());
        let pam = pairs_as_map(self.entries_view());
        assert forall|k: Seq<u8>| true implies #[trigger] pam.contains_key(k) == self@.contains_key(
            k,
        ) by {
            if pam.contains_key(k) {
                let i = choose|i: int|
                    0 <= i < len && (#[trigger] self.entries@[i]).0@ == k;
                self.lemma_index_maps(i);
            }
            if self@.contains_key(k) {
                let i = choose|i: int|
                    0 <= i < self.entries@.len() && (#[trigger] self.entries@[i]).0@ == k;
                assert(pam.contains_key(k));
            }
        }
        assert forall|k: Seq<u8>| pam.contains_key(k) implies #[trigger] pam[k] == self@[k] by {
            let i = choose|i: int|
                0 <= i < len && (#[trigger] self.entries@[i]).0@ == k;
            self.lemma_index_maps(i);
        }
        assert(pam =~= self@);
    }

    /// The entries in ascending key order, as fresh vectors.
    pub fn entries_vec(&self) -> (v: Vec<(Vec<u8>, Vec<u8>)>)
        ensures
            pairs_view(v@) == self.entries_view(),
    {
        let mut v: Vec<(Vec<u8>, Vec<u8>)> = Vec::new();
        let n = self.entries.len();
        let mut i: usize = 0;
        while i < n
            invariant
                i <= n,
                n == self.entries@.len(),
                v@.len() == i,
                forall|j: int|
                    0 <= j < i ==> (#[trigger] v@[j]).0@ == self.entries@[j].0@ && v@[j].1@
                        == self.entries@[j].1@,
            decreases n - i,
        {
            let k = clone_bytes(&self.entries[i].0);
            let val = clone_bytes(&self.entries[i].1);
            v.push((k, val));
            i = i + 1;
        }
        proof {
            assert(pairs_view(v@) =~= self.entries_view());
        }
        v
    }

    /// The digest recorded for a path, if any.
    pub fn get(&self, key: &Vec<u8>) -> (r: Option<&Vec<u8>>)
        requires
            self.wf(),
        ensures
            match r {
                Some(v) => self@.contains_key(key@) && v@ == self@[key@],
                None => !self@.contains_key(key@),
            },
    {
        let n = self.entries.len();
        let mut i: usize = 0;
        while i < n
            invariant
                i <= n,
                n == self.entries@.len(),
                self.wf(),
                forall|j: int| 0 <= j < i ==> (#[trigger] self.entries@[j]).0@ != key@,
            decreases n - i,
        {
            if eq_bytes(&self.entries[i].0, key) {
                proof {
                    self.lemma_index_maps(i as int);
                }
                return Some(&self.entries[i].1);
            }
            i = i + 1;
        }
        proof {
            if self@.contains_key(key@) {
                let j = choose|j: int|
                    0 <= j < self.entries@.len() && (#[trigger] self.entries@[j]).0@ == key@;
                assert(self.entries@[j].0@ != key@);
            }
        }
        None
    }

    /// Records `value` for `key`, overwriting any earlier digest for the same path.
    pub fn insert(&mut self, key: Vec<u8>, value: Vec<u8>)
        requires
            old(self).wf(),
        ensures
            final(self).wf(),
            final(self)@ == old(self)@.insert(key@, value@),
    {
        let n = self.entries.len();
        let mut i: usize = 0;
        while i < n
            invariant
                i <= n,
                n == self.entries@.len(),
                self == old(self),
                self.wf(),
                forall|j: int| 0 <= j < i ==> lex_lt((#[trigger] self.entries@[j]).0@, key@),
            ensures
                i <= n,
                self == old(self),
                n == self.entries@.len(),
                forall|j: int| 0 <= j < i ==> lex_lt((#[trigger] self.entries@[j]).0@, key@),
                i < n ==> !lex_lt(self.entries@[i as int].0@, key@),
            decreases n - i,
        {
            let c = cmp_bytes(&self.entries[i].0, &key);
            if c != -1 {
                break ;
            }
            i = i + 1;
        }
        if i < n {
            let c = cmp_bytes(&self.entries[i].0, &key);
            if c == 0 {
                let ghost oe = self.entries@;
                let old_pair = self.entries.remove(i);
                let k0 = old_pair.0;
                self.entries.insert(i, (k0, value));
                proof {
                    let ne = self.entries@;
                    assert(ne.len() == oe.len());
                    assert forall|j: int| 0 <= j < ne.len() && j != i implies #[trigger] ne[j]
                        == oe[j] by {
                        if j < i {
                            assert(oe.remove(i as int)[j] == oe[j]);
                        } else {
                            assert(oe.remove(i as int)[j - 1] == oe[j]);
                        }
                    }
                    assert(ne[i as int].0@ == key@);
                    assert(ne[i as int].1 == value);
                    self.lemma_view_after_update(*old(self), i as int, key@, value@);
                }
            } else {
                self.insert_fresh_at(i, key, value);
            }
        } else {
            self.insert_fresh_at(i, key, value);
        }
    }

    proof fn lemma_view_after_update(&self, old_t: DigestTable, i: int, key: Seq<u8>, value: Seq<u8>)
        requires
            old_t.wf(),
            self.entries@.len() == old_t.entries@.len(),
            0 <= i < old_t.entries@.len(),
            old_t.entries@[i].0@ == key,
            forall|j: int|
                0 <= j < self.entries@.len() && j != i ==> #[trigger] self.entries@[j]
                    == old_t.entries@[j],
            self.entries@[i].0@ == key,
            self.entries@[i].1@ == value,
        ensures
            self.wf(),
            self@ == old_t@.insert(key, value),
    {
        assert forall|a: int, b: int| 0 <= a < b < self.entries@.len() implies lex_lt(
            (#[trigger] self.entries@[a]).0@,
            (#[trigger] self.entries@[b]).0@,
        ) by {
            assert(self.entries@[a].0@ == old_t.entries@[a].0@);
            assert(self.entries@[b].0@ == old_t.entries@[b].0@);
        }
        self.lemma_distinct();
        old_t.lemma_distinct();
        assert forall|p: Seq<u8>| true implies #[trigger] self@.contains_key(p)
            == old_t@.insert(key, value).contains_key(p) by {
            if p == key {
                assert(self.entries@[i].0@ == p);
                assert(self@.contains_key(p));
            } else {
                if self@.contains_key(p) {
                    let j = choose|j: int|
                        0 <= j < self.entries@.len() && (#[trigger] self.entries@[j]).0@ == p;
                    assert(old_t.entries@[j].0@ == p);
                    assert(old_t@.contains_key(p));
                }
                if old_t@.contains_key(p) {
                    let j = choose|j: int|
                        0 <= j < old_t.entries@.len() && (#[trigger] old_t.entries@[j]).0@ == p;
                    assert(self.entries@[j].0@ == p);
                    assert(self@.contains_key(p));
                }
            }
        }
        assert forall|p: Seq<u8>| self@.contains_key(p) implies #[trigger] self@[p] == old_t@.insert(
            key,
            value,
        )[p] by {
            let j = choose|j: int|
                0 <= j < self.entries@.len() && (#[trigger] self.entries@[j]).0@ == p;
            self.lemma_index_maps(j);
            if p == key {
                assert(j == i);
            } else {
                assert(j != i);
                old_t.lemma_index_maps(j);
            }
        }
        assert(self@ =~= old_t@.insert(key, value));
    }

    fn insert_fresh_at(&mut self, i: usize, key: Vec<u8>, value: Vec<u8>)
        requires
            old(self).wf(),
            i <= old(self).entries@.len(),
            forall|j: int| 0 <= j < i ==> lex_lt((#[trigger] old(self).entries@[j]).0@, key@),
            i < old(self).entries@.len() ==> lex_lt(key@, old(self).entries@[i as int].0@),
        ensures
            final(self).wf(),
            final(self)@ == old(self)@.insert(key@, value@),
    {
        let ghost oe = self.entries@;
        let ghost key_s = key@;
        let ghost value_s = value@;
        self.entries.insert(i, (key, value));
        proof {
            let ne = self.entries@;
            assert(ne.len() == oe.len() + 1);
            assert forall|j: int| 0 <= j < i implies #[trigger] ne[j] == oe[j] by {}
            assert(ne[i as int].0@ == key_s);
            assert(ne[i as int].1@ == value_s);
            assert forall|j: int| i < j < ne.len() implies #[trigger] ne[j] == oe[j - 1] by {}
            // the new key lies strictly between its neighbours
            assert forall|b: int| i < b < ne.len() implies lex_lt(key_s, (#[trigger] ne[b]).0@) by {
                assert(ne[b] == oe[b - 1]);
                if b - 1 > i {
                    lemma_lex_trans(key_s, oe[i as int].0@, oe[b - 1].0@);
                }
            }
            assert forall|a: int, b: int| 0 <= a < b < ne.len() implies lex_lt(
                (#[trigger] ne[a]).0@,
                (#[trigger] ne[b]).0@,
            ) by {
                if b < i {
                } else if b == i {
                    assert(ne[a] == oe[a]);
                } else if a == i {
                    assert(lex_lt(key_s, ne[b].0@));
                } else if a < i {
                    assert(lex_lt(key_s, ne[b].0@));
                    lemma_lex_trans(oe[a].0@, key_s, ne[b].0@);
                } else {
                    assert(ne[a] == oe[a - 1]);
                    assert(ne[b] == oe[b - 1]);
                }
            }
            // key is fresh
            assert forall|j: int| 0 <= j < oe.len() implies (#[trigger] oe[j]).0@ != key_s by {
                if j < i {
                    lemma_lex_irrefl(key_s);
                    if oe[j].0@ == key_s {
                        assert(lex_lt(key_s, key_s));
                    }
                } else if j == i {
                    lemma_lex_irrefl(key_s);
                    if oe[j].0@ == key_s {
                        assert(lex_lt(key_s, key_s));
                    }
                } else {
                    lemma_lex_trans(key_s, oe[i as int].0@, oe[j].0@);
                    lemma_lex_irrefl(key_s);
                    if oe[j].0@ == key_s {
                        assert(lex_lt(key_s, key_s));
                    }
                }
            }
            self.lemma_view_after_fresh_insert(*old(self), i as int, key_s, value_s);
        }
    }

    proof fn lemma_view_after_fresh_insert(
        &self,
        old_t: DigestTable,
        i: int,
        key: Seq<u8>,
        value: Seq<u8>,
    )
        requires
            self.wf(),
            old_t.wf(),
            0 <= i <= old_t.entries@.len(),
            self.entries@.len() == old_t.entries@.len() + 1,
            forall|j: int| 0 <= j < i ==> #[trigger] self.entries@[j] == old_t.entries@[j],
            forall|j: int|
                i < j < self.entries@.len() ==> #[trigger] self.entries@[j] == old_t.entries@[j
                    - 1],
            self.entries@[i].0@ == key,
            self.entries@[i].1@ == value,
            forall|j: int| 0 <= j < old_t.entries@.len() ==> (#[trigger] old_t.entries@[j]).0@ != key,
        ensures
            self@ == old_t@.insert(key, value),
    {
        self.lemma_distinct();
        assert forall|p: Seq<u8>| true implies #[trigger] self@.contains_key(p)
            == old_t@.insert(key, value).contains_key(p) by {
            if p == key {
                assert(self.entries@[i].0@ == p);
            } else {
                if self@.contains_key(p) {
                    let j = choose|j: int|
                        0 <= j < self.entries@.len() && (#[trigger] self.entries@[j]).0@ == p;
                    if j < i {
                        assert(old_t.entries@[j].0@ == p);
                    } else {
                        assert(j != i);
                        assert(old_t.entries@[j - 1].0@ == p);
                    }
                    assert(old_t@.contains_key(p));
                }
                if old_t@.contains_key(p) {
                    let j = choose|j: int|
                        0 <= j < old_t.entries@.len() && (#[trigger] old_t.entries@[j]).0@ == p;
                    if j < i {
                        assert(self.entries@[j].0@ == p);
                    } else {
                        assert(self.entries@[j + 1].0@ == p);
                    }
                    assert(self@.contains_key(p));
                }
            }
        }
        assert forall|p: Seq<u8>| self@.contains_key(p) implies #[trigger] self@[p] == old_t@.insert(
            key,
            value,
        )[p] by {
            let j = choose|j: int|
                0 <= j < self.entries@.len() && (#[trigger] self.entries@[j]).0@ == p;
            self.lemma_index_maps(j);
            if p == key {
                assert(j == i);
            } else {
                assert(j != i);
                if j < i {
                    old_t.lemma_index_maps(j);
                } else {
                    old_t.lemma_index_maps(j - 1);
                }
            }
        }
        assert(self@ =~= old_t@.insert(key, value));
    }
}

impl View for ChangeSet {
    type V = Map<Seq<u8>, ChangeStatus>;

    closed spec fn view(&self) -> Map<Seq<u8>, ChangeStatus> {
        Map::new(
            |k: Seq<u8>|
                exists|i: int|
                    0 <= i < self.entries@.len() && (#[trigger] self.entries@[i]).0@ == k,
            |k: Seq<u8>|
                self.entries@[choose|i: int|
                    0 <= i < self.entries@.len() && (#[trigger] self.entries@[i]).0@ == k].1,
        )
    }
}

impl ChangeSet {
    /// The recorded classifications in insertion order.
    pub closed spec fn entries_view(&self) -> Seq<(Seq<u8>, ChangeStatus)> {
        self.entries@.map_values(|p: (Vec<u8>, ChangeStatus)| (p.0@, p.1))
    }

    /// Every path occurs at most once.
    pub closed spec fn wf(&self) -> bool {
        forall|i: int, j: int|
            0 <= i < self.entries@.len() && 0 <= j < self.entries@.len() && i != j ==> (
            #[trigger] self.entries@[i]).0@ != (#[trigger] self.entries@[j]).0@
    }

    proof fn lemma_index_maps(&self, i: int)
        requires
            self.wf(),
            0 <= i < self.entries@.len(),
        ensures
            self@.contains_key(self.entries@[i].0@),
            self@[self.entries@[i].0@] == self.entries@[i].1,
    {
        let k = self.entries@[i].0@;
        let j = choose|j: int|
            0 <= j < self.entries@.len() && (#[trigger] self.entries@[j]).0@ == k;
        assert(j == i);
    }

    fn new() -> (c: ChangeSet)
        ensures
            c.wf(),
            c@ == Map::<Seq<u8>, ChangeStatus>::empty(),
    {
        let c = ChangeSet { entries: Vec::new() };
        proof {
            assert(c@ =~= Map::<Seq<u8>, ChangeStatus>::empty());
        }
        c
    }

    /// How many paths changed in some way.
    pub fn len(&self) -> (n: usize)
        ensures
            n == self.entries_view().len(),
    {
        self.entries.len()
    }

    /// Whether nothing changed; equivalent to the empty mapping.
    pub fn is_empty(&self) -> (r: bool)
        ensures
            r <==> self@ == Map::<Seq<u8>, ChangeStatus>::empty(),
    {
        let r = self.entries.len() == 0;
        proof {
            if self.entries@.len() == 0 {
                assert(self@ =~= Map::<Seq<u8>, ChangeStatus>::empty());
            } else {
                assert(self@.contains_key(self.entries@[0].0@));
            }
        }
        r
    }

    /// The classification recorded for a path, if any.
    pub fn get(&self, key: &Vec<u8>) -> (r: Option<ChangeStatus>)
        requires
            self.wf(),
        ensures
            match r {
                Some(s) => self@.contains_key(key@) && s == self@[key@],
                None => !self@.contains_key(key@),
            },
    {
        let n = self.entries.len();
        let mut i: usize = 0;
        while i < n
            invariant
                i <= n,
                n == self.entries@.len(),
                self.wf(),
                forall|j: int| 0 <= j < i ==> (#[trigger] self.entries@[j]).0@ != key@,
            decreases n - i,
        {
            if eq_bytes(&self.entries[i].0, key) {
                proof {
                    self.lemma_index_maps(i as int);
                }
                return Some(self.entries[i].1);
            }
            i = i + 1;
        }
        proof {
            if self@.contains_key(key@) {
                let j = choose|j: int|
                    0 <= j < self.entries@.len() && (#[trigger] self.entries@[j]).0@ == key@;
                assert(self.entries@[j].0@ != key@);
            }
        }
        None
    }

    /// The path at a position, for iteration in insertion order.
    pub fn key_at(&self, i: usize) -> (k: &Vec<u8>)
        requires
            self.wf(),
            i < self.entries_view().len(),
        ensures
            self@.contains_key(k@),
            self@[k@] == self.entries_view()[i as int].1,
            k@ == self.entries_view()[i as int].0,
    {
        proof {
            self.lemma_index_maps(i as int);
        }
        &self.entries[i].0
    }

    /// The classification at a position, for iteration in insertion order.
    pub fn status_at(&self, i: usize) -> (s: ChangeStatus)
        requires
            self.wf(),
            i < self.entries_view().len(),
        ensures
            s == self.entries_view()[i as int].1,
    {
        self.entries[i].1
    }

    fn push_new(&mut self, key: Vec<u8>, status: ChangeStatus)
        requires
            old(self).wf(),
            !old(self)@.contains_key(key@),
        ensures
            final(self).wf(),
            final(self)@ == old(self)@.insert(key@, status),
    {
        let ghost oe = self.entries@;
        let ghost key_s = key@;
        self.entries.push((key, status));
        proof {
            let ne = self.entries@;
            assert(ne.len() == oe.len() + 1);
            assert forall|j: int| 0 <= j < oe.len() implies #[trigger] ne[j] == oe[j] by {}
            assert(ne[oe.len() as int].0@ == key_s);
            assert forall|j: int| 0 <= j < oe.len() implies (#[trigger] oe[j]).0@ != key_s by {
                if oe[j].0@ == key_s {
                    assert(old(self)@.contains_key(key_s));
                }
            }
            assert forall|p: Seq<u8>| true implies #[trigger] self@.contains_key(p) == old(
                self,
            )@.insert(key_s, status).contains_key(p) by {
                if p == key_s {
                    assert(ne[oe.len() as int].0@ == p);
                } else {
                    if self@.contains_key(p) {
                        let j = choose|j: int|
                            0 <= j < ne.len() && (#[trigger] ne[j]).0@ == p;
                        assert(oe[j].0@ == p);
                        assert(old(self)@.contains_key(p));
                    }
                    if old(self)@.contains_key(p) {
                        let j = choose|j: int|
                            0 <= j < oe.len() && (#[trigger] oe[j]).0@ == p;
                        assert(ne[j].0@ == p);
                    }
                }
            }
            assert forall|p: Seq<u8>| self@.contains_key(p) implies #[trigger] self@[p] == old(
                self,
            )@.insert(key_s, status)[p] by {
                let j = choose|j: int|
                    0 <= j < ne.len() && (#[trigger] ne[j]).0@ == p;
                self.lemma_index_maps(j);
                if p != key_s {
                    assert(j != oe.len());
                    old(self).lemma_index_maps(j);
                }
            }
            assert(self@ =~= old(self)@.insert(key_s, status));
        }
    }
}

/// Whether an entry of the current table is correctly reflected in the change set.
spec fn cur_entry_classified(
    e: (Vec<u8>, Vec<u8>),
    locked: Map<Seq<u8>, Seq<u8>>,
    out: Map<Seq<u8>, ChangeStatus>,
) -> bool {
    if !locked.contains_key(e.0@) {
        out.contains_key(e.0@) && out[e.0@] == ChangeStatus::Added
    } else if locked[e.0@] != e.1@ {
        out.contains_key(e.0@) && out[e.0@] == ChangeStatus::Modified
    } else {
        !out.contains_key(e.0@)
    }
}

/// Classifies every path of the current and locked tables.
///
/// Every path of either table receives at most one classification, and a
/// path recorded with the same digest in both tables receives none:
/// a path only in `current` is `Added`, a path only in `locked` is `Removed`,
/// a path in both with differing digests is `Modified`, and `Unchanged`
/// never appears in the result.
pub fn compare_hashes(current: &DigestTable, locked: &DigestTable) -> (c: ChangeSet)
    requires
        current.wf(),
        locked.wf(),
    ensures
        c.wf(),
        forall|p: Seq<u8>|
            #[trigger] c@.contains_key(p) ==> current@.contains_key(p) || locked@.contains_key(p),
        forall|p: Seq<u8>|
            current@.contains_key(p) && !locked@.contains_key(p) ==> c@.contains_key(p) && c@[p]
                == ChangeStatus::Added,
        forall|p: Seq<u8>|
            locked@.contains_key(p) && !current@.contains_key(p) ==> c@.contains_key(p) && c@[p]
                == ChangeStatus::Removed,
        forall|p: Seq<u8>|
            current@.contains_key(p) && locked@.contains_key(p) && current@[p] != locked@[p]
                ==> c@.contains_key(p) && c@[p] == ChangeStatus::Modified,
        forall|p: Seq<u8>|
            current@.contains_key(p) && locked@.contains_key(p) && current@[p] == locked@[p]
                ==> !c@.contains_key(p),
        forall|p: Seq<u8>| #[trigger] c@.contains_key(p) ==> c@[p] != ChangeStatus::Unchanged,
{
    let mut out = ChangeSet::new();
    let n1 = current.entries.len();
    let mut i: usize = 0;
    while i < n1
        invariant
            i <= n1,
            n1 == current.entries@.len(),
            current.wf(),
            locked.wf(),
            out.wf(),
            forall|p: Seq<u8>|
                #[trigger] out@.contains_key(p) ==> exists|j: int|
                    0 <= j < i && (#[trigger] current.entries@[j]).0@ == p,
            forall|j: int|
                0 <= j < i ==> cur_entry_classified(
                    #[trigger] current.entries@[j],
                    locked@,
                    out@,
                ),
        decreases n1 - i,
    {
        proof {
            current.lemma_distinct();
            current.lemma_index_maps(i as int);
        }
        let entry_key = &current.entries[i].0;
        let entry_hash = &current.entries[i].1;
        match locked.get(entry_key) {
            Some(locked_hash) => {
                if !eq_bytes(entry_hash, locked_hash) {
                    let key_copy = clone_bytes(entry_key);
                    out.push_new(key_copy, ChangeStatus::Modified);
                }
            },
            None => {
                let key_copy = clone_bytes(entry_key);
                out.push_new(key_copy, ChangeStatus::Added);
            },
        }
        i = i + 1;
    }
    let ghost after_first = out@;
    proof {
        assert forall|p: Seq<u8>| current@.contains_key(p) implies cur_key_classified(
            *current,
            p,
            locked@,
            out@,
        ) by {
            let j = choose|j: int|
                0 <= j < current.entries@.len() && (#[trigger] current.entries@[j]).0@ == p;
            current.lemma_index_maps(j);
        }
    }
    let n2 = locked.entries.len();
    let mut k: usize = 0;
    while k < n2
        invariant
            k <= n2,
            n2 == locked.entries@.len(),
            current.wf(),
            locked.wf(),
            out.wf(),
            forall|p: Seq<u8>|
                current@.contains_key(p) ==> cur_key_classified(*current, p, locked@, out@),
            forall|p: Seq<u8>|
                #[trigger] out@.contains_key(p) ==> current@.contains_key(p) || exists|j: int|
                    0 <= j < k && (#[trigger] locked.entries@[j]).0@ == p,
            forall|j: int|
                0 <= j < k && !current@.contains_key((#[trigger] locked.entries@[j]).0@)
                    ==> out@.contains_key(locked.entries@[j].0@) && out@[locked.entries@[j].0@]
                    == ChangeStatus::Removed,
        decreases n2 - k,
    {
        proof {
            locked.lemma_distinct();
            locked.lemma_index_maps(k as int);
        }
        let entry_key = &locked.entries[k].0;
        match current.get(entry_key) {
            Some(_) => {},
            None => {
                let key_copy = clone_bytes(entry_key);
                out.push_new(key_copy, ChangeStatus::Removed);
            },
        }
        k = k + 1;
    }
    proof {
        assert forall|p: Seq<u8>|
            locked@.contains_key(p) && !current@.contains_key(p) implies out@.contains_key(p)
            && out@[p] == ChangeStatus::Removed by {
            let j = choose|j: int|
                0 <= j < locked.entries@.len() && (#[trigger] locked.entries@[j]).0@ == p;
        }
        assert forall|p: Seq<u8>| current@.contains_key(p) implies {
            &&& !locked@.contains_key(p) ==> out@.contains_key(p) && out@[p]
                == ChangeStatus::Added
            &&& locked@.contains_key(p) && current@[p] != locked@[p] ==> out@.contains_key(p)
                && out@[p] == ChangeStatus::Modified
            &&& locked@.contains_key(p) && current@[p] == locked@[p] ==> !out@.contains_key(p)
        } by {
            assert(cur_key_classified(*current, p, locked@, out@));
        }
    }
    out
}

/// Whether a key of the current table is correctly reflected in the change set.
spec fn cur_key_classified(
    current: DigestTable,
    p: Seq<u8>,
    locked: Map<Seq<u8>, Seq<u8>>,
    out: Map<Seq<u8>, ChangeStatus>,
) -> bool {
    if !locked.contains_key(p) {
        out.contains_key(p) && out[p] == ChangeStatus::Added
    } else if locked[p] != current@[p] {
        out.contains_key(p) && out[p] == ChangeStatus::Modified
    } else {
        !out.contains_key(p)
    }
}

} // verus!
