//! Keyed in-memory tables with mathematical map views.
//!
//! Three association-list tables back the signature store: type string to
//! id set (the two type indices), type string to id list (the crate index),
//! and id to signature record (the function table). Each table's contract
//! speaks of a `Map` view; key uniqueness and value well-formedness are
//! internal invariants.

use vstd::prelude::*;

verus! {

// ------------------------------------------------------------------
// String key -> set of ids
// ------------------------------------------------------------------

/// Keys of an association list are pairwise distinct.
pub open spec fn sid_keys_unique(s: Seq<(String, Vec<u64>)>) -> bool {
    forall|i: int, j: int|
        0 <= i < j < s.len() ==> (#[trigger] s[i]).0@ != (#[trigger] s[j]).0@
}

/// The map denoted by an association list whose values are read as sets.
pub open spec fn id_set_view(s: Seq<(String, Vec<u64>)>) -> Map<Seq<char>, Set<u64>>
    decreases s.len(),
{
    if s.len() == 0 {
        Map::empty()
    } else {
        id_set_view(s.drop_last()).insert(s.last().0@, s.last().1@.to_set())
    }
}

/// The set stored under a key, or the empty set where the key is absent.
pub open spec fn set_or_empty(m: Map<Seq<char>, Set<u64>>, k: Seq<char>) -> Set<u64> {
    if m.contains_key(k) {
        m[k]
    } else {
        Set::empty()
    }
}

/// The map after taking one id out of one key's set, dropping the key when
/// its set empties; absent keys and absent ids leave the map unchanged.
pub open spec fn set_remove_model(m: Map<Seq<char>, Set<u64>>, k: Seq<char>, id: u64) -> Map<
    Seq<char>,
    Set<u64>,
> {
    if m.contains_key(k) {
        if m[k].remove(id) == Set::<u64>::empty() {
            m.remove(k)
        } else {
            m.insert(k, m[k].remove(id))
        }
    } else {
        m
    }
}

proof fn lemma_sid_view_contains(s: Seq<(String, Vec<u64>)>, k: Seq<char>)
    ensures
        id_set_view(s).contains_key(k) <==> (exists|i: int|
            0 <= i < s.len() && (#[trigger] s[i]).0@ == k),
    decreases s.len(),
{
    if s.len() > 0 {
        lemma_sid_view_contains(s.drop_last(), k);
        if s.last().0@ == k {
            assert(s[s.len() - 1].0@ == k);
        } else {
            if id_set_view(s).contains_key(k) {
                let i = choose|i: int| 0 <= i < s.drop_last().len() && (#[trigger] s.drop_last()[i]).0@ == k;
                assert(s[i].0@ == k);
            }
            if exists|i: int| 0 <= i < s.len() && (#[trigger] s[i]).0@ == k {
                let i = choose|i: int| 0 <= i < s.len() && (#[trigger] s[i]).0@ == k;
                assert(s.drop_last()[i].0@ == k);
            }
        }
    }
}

proof fn lemma_sid_view_at(s: Seq<(String, Vec<u64>)>, i: int)
    requires
        sid_keys_unique(s),
        0 <= i < s.len(),
    ensures
        id_set_view(s).contains_key(s[i].0@),
        id_set_view(s)[s[i].0@] == s[i].1@.to_set(),
    decreases s.len(),
{
    if i == s.len() - 1 {
    } else {
        assert(sid_keys_unique(s.drop_last())) by {
            assert(forall|a: int, b: int|
                0 <= a < b < s.drop_last().len() ==> (#[trigger] s.drop_last()[a]).0@ != (
                #[trigger] s.drop_last()[b]).0@) by {
                assert(forall|a: int|
                    0 <= a < s.drop_last().len() ==> #[trigger] s.drop_last()[a] == s[a]);
            }
        }
        lemma_sid_view_at(s.drop_last(), i);
        assert(s.drop_last()[i] == s[i]);
        assert(s[i].0@ != s.last().0@);
    }
}

proof fn lemma_sid_view_update(s: Seq<(String, Vec<u64>)>, i: int, w: Vec<u64>)
    requires
        sid_keys_unique(s),
        0 <= i < s.len(),
    ensures
        id_set_view(s.update(i, (s[i].0, w))) == id_set_view(s).insert(s[i].0@, w@.to_set()),
    decreases s.len(),
{
    let t = s.update(i, (s[i].0, w));
    if i == s.len() - 1 {
        assert(t.drop_last() =~= s.drop_last());
        assert(id_set_view(t) =~= id_set_view(s).insert(s[i].0@, w@.to_set()));
    } else {
        assert(sid_keys_unique(s.drop_last())) by {
            assert(forall|a: int|
                0 <= a < s.drop_last().len() ==> #[trigger] s.drop_last()[a] == s[a]);
        }
        lemma_sid_view_update(s.drop_last(), i, w);
        assert(t.drop_last() =~= s.drop_last().update(i, (s[i].0, w)));
        assert(t.last() == s.last());
        lemma_sid_view_at(s, i);
        assert(id_set_view(t) =~= id_set_view(s).insert(s[i].0@, w@.to_set()));
    }
}

proof fn lemma_sid_view_remove(s: Seq<(String, Vec<u64>)>, i: int)
    requires
        sid_keys_unique(s),
        0 <= i < s.len(),
    ensures
        id_set_view(s.remove(i)) == id_set_view(s).remove(s[i].0@),
        sid_keys_unique(s.remove(i)),
    decreases s.len(),
{
    let t = s.remove(i);
    assert(forall|a: int| 0 <= a < i ==> #[trigger] t[a] == s[a]);
    assert(forall|a: int| i <= a < t.len() ==> #[trigger] t[a] == s[a + 1]);
    assert(sid_keys_unique(t));
    if i == s.len() - 1 {
        assert(t =~= s.drop_last());
        lemma_sid_view_contains(s.drop_last(), s[i].0@);
        assert(forall|a: int|
            0 <= a < s.drop_last().len() ==> (#[trigger] s.drop_last()[a]).0@ != s[i].0@);
        assert(!id_set_view(s.drop_last()).contains_key(s[i].0@));
        assert(id_set_view(t) =~= id_set_view(s).remove(s[i].0@));
    } else {
        assert(sid_keys_unique(s.drop_last())) by {
            assert(forall|a: int|
                0 <= a < s.drop_last().len() ==> #[trigger] s.drop_last()[a] == s[a]);
        }
        lemma_sid_view_remove(s.drop_last(), i);
        assert(t.drop_last() =~= s.drop_last().remove(i));
        assert(t.last() == s.last());
        assert(s[i].0@ != s.last().0@);
        assert(id_set_view(t) =~= id_set_view(s).remove(s[i].0@));
    }
}

/// Whether a plain id vector holds an id.
pub fn ids_contain(v: &Vec<u64>, id: u64) -> (r: bool)
    ensures
        r == v@.contains(id),
{
    let mut i: usize = 0;
    while i < v.len()
        invariant
            i <= v@.len(),
            forall|j: int| 0 <= j < i ==> v@[j] != id,
        decreases v@.len() - i,
    {
        if v[i] == id {
            return true;
        }
        i = i + 1;
    }
    false
}

/// Index of the string key in an association list, scanning from the front.
fn find_sid(entries: &Vec<(String, Vec<u64>)>, key: &String) -> (r: Option<usize>)
    ensures
        (match r {
            Some(i) => i < entries@.len() && entries@[i as int].0@ == key@,
            None => forall|j: int| 0 <= j < entries@.len() ==> (#[trigger] entries@[j]).0@ != key@,
        }),
{
    let mut i: usize = 0;
    while i < entries.len()
        invariant
            i <= entries@.len(),
            forall|j: int| 0 <= j < i ==> (#[trigger] entries@[j]).0@ != key@,
        decreases entries@.len() - i,
    {
        if entries[i].0 == *key {
            return Some(i);
        }
        i = i + 1;
    }
    None
}

/// A mapping from type string to the set of ids stored under it, kept as an
/// association list of duplicate-free, non-empty id vectors.
pub struct IdSetTable {
    entries: Vec<(String, Vec<u64>)>,
}

impl View for IdSetTable {
    type V = Map<Seq<char>, Set<u64>>;

    closed spec fn view(&self) -> Map<Seq<char>, Set<u64>> {
        id_set_view(self.entries@)
    }
}

impl IdSetTable {
    /// Keys are distinct and every stored id vector is duplicate-free and
    /// non-empty, so that an absent key and an empty set are one thing.
    pub closed spec fn wf(&self) -> bool {
        &&& sid_keys_unique(self.entries@)
        &&& forall|i: int|
            0 <= i < self.entries@.len() ==> (#[trigger] self.entries@[i]).1@.no_duplicates()
        &&& forall|i: int| 0 <= i < self.entries@.len() ==> (#[trigger] self.entries@[i]).1@.len() > 0
    }

    pub fn new() -> (r: Self)
        ensures
            r.wf(),
            r@ == Map::<Seq<char>, Set<u64>>::empty(),
    {
        IdSetTable { entries: Vec::new() }
    }

    /// The id vector under a key; `None` exactly where the key is absent.
    pub fn get(&self, key: &String) -> (r: Option<&Vec<u64>>)
        requires
            self.wf(),
        ensures
            (match r {
                Some(v) => self@.contains_key(key@) && v@.to_set() == self@[key@]
                    && v@.no_duplicates() && v@.len() > 0,
                None => !self@.contains_key(key@),
            }),
    {
        match find_sid(&self.entries, key) {
            Some(i) => {
                proof {
                    lemma_sid_view_at(self.entries@, i as int);
                }
                Some(&self.entries[i].1)
            },
            None => {
                proof {
                    lemma_sid_view_contains(self.entries@, key@);
                }
                None
            },
        }
    }

    /// Put one id into one key's set, creating the entry where absent.
    pub fn push_id(&mut self, key: &String, id: u64)
        requires
            old(self).wf(),
        ensures
            final(self).wf(),
            final(self)@ == old(self)@.insert(
                key@,
                set_or_empty(old(self)@, key@).insert(id),
            ),
    {
        let ghost s0 = self.entries@;
        match find_sid(&self.entries, key) {
            Some(i) => {
                proof {
                    lemma_sid_view_at(s0, i as int);
                }
                if ids_contain(&self.entries[i].1, id) {
                    proof {
                        assert(set_or_empty(self@, key@).insert(id) =~= self@[key@]);
                        assert(self@.insert(key@, self@[key@]) =~= self@);
                    }
                } else {
                    let ghost w0 = self.entries@[i as int].1@;
                    self.entries[i].1.push(id);
                    proof {
                        let w = self.entries@[i as int].1;
                        assert(self.entries@ =~= s0.update(i as int, (s0[i as int].0, w)));
                        lemma_sid_view_update(s0, i as int, w);
                        assert(w@ == w0.push(id));
                        assert forall|x: u64| w@.contains(x) <==> (w0.contains(x) || x == id) by {
                            if w@.contains(x) {
                                let a = choose|a: int| 0 <= a < w@.len() && w@[a] == x;
                                if a < w0.len() {
                                    assert(w0[a] == x);
                                }
                            }
                            if w0.contains(x) {
                                let a = choose|a: int| 0 <= a < w0.len() && w0[a] == x;
                                assert(w@[a] == x);
                            }
                            assert(w@[w0.len() as int] == id);
                        }
                        assert(w@.to_set() =~= id_set_view(s0)[key@].insert(id));
                        assert(w@.no_duplicates());
                        assert(forall|a: int|
                            0 <= a < self.entries@.len() ==> (#[trigger] self.entries@[a]).0
                                == s0[a].0);
                    }
                }
            },
            None => {
                proof {
                    lemma_sid_view_contains(s0, key@);
                }
                let mut v: Vec<u64> = Vec::new();
                v.push(id);
                let k = key.clone();
                self.entries.push((k, v));
                proof {
                    assert(self.entries@.drop_last() =~= s0);
                    let w = self.entries@.last().1@;
                    assert(w.len() == 1 && w[0] == id);
                    assert forall|x: u64| w.contains(x) <==> x == id by {
                        if w.contains(x) {
                            let a = choose|a: int| 0 <= a < w.len() && w[a] == x;
                            assert(a == 0);
                        }
                        assert(w[0] == id);
                    }
                    assert(self.entries@.last().1@.to_set() =~= set_or_empty(
                        id_set_view(s0),
                        key@,
                    ).insert(id));
                    assert(forall|a: int| 0 <= a < s0.len() ==> #[trigger] self.entries@[a] == s0[a]);
                }
            },
        }
    }

    /// Take one id out of one key's set, dropping the entry when it empties.
    /// Returns whether the id was found under the key.
    pub fn remove_id(&mut self, key: &String, id: u64) -> (found: bool)
        requires
            old(self).wf(),
        ensures
            final(self).wf(),
            found == (old(self)@.contains_key(key@) && old(self)@[key@].contains(id)),
            final(self)@ == set_remove_model(old(self)@, key@, id),
    {
        let ghost s0 = self.entries@;
        match find_sid(&self.entries, key) {
            Some(i) => {
                proof {
                    lemma_sid_view_at(s0, i as int);
                }
                match find_id_at(&self.entries, i, id) {
                    Some(j) => {
                        let ghost w0 = self.entries@[i as int].1@;
                        let _ = self.entries[i].1.remove(j);
                        proof {
                            let w = self.entries@[i as int].1;
                            assert(w@ == w0.remove(j as int));
                            lemma_remove_value(w0, j as int);
                            assert(w@.to_set() =~= w0.to_set().remove(id));
                            assert(self.entries@ =~= s0.update(i as int, (s0[i as int].0, w)));
                            lemma_sid_view_update(s0, i as int, w);
                            assert(sid_keys_unique(self.entries@)) by {
                                assert(forall|a: int|
                                    0 <= a < s0.len() ==> (#[trigger] self.entries@[a]).0@
                                        == s0[a].0@);
                            }
                        }
                        if self.entries[i].1.len() == 0 {
                            let ghost t = self.entries@;
                            let _ = self.entries.remove(i);
                            proof {
                                assert(id_set_view(s0)[key@].remove(id) =~= Set::<u64>::empty());
                                lemma_sid_view_remove(t, i as int);
                                assert(self.entries@ == t.remove(i as int));
                                assert(id_set_view(t) == id_set_view(s0).insert(
                                    key@,
                                    Set::<u64>::empty(),
                                ));
                                assert(self@ =~= id_set_view(s0).remove(key@));
                                assert(forall|a: int|
                                    0 <= a < self.entries@.len() ==> #[trigger] self.entries@[a]
                                        == (if a < i { t[a] } else { t[a + 1] }));
                                assert(forall|a: int|
                                    0 <= a < t.len() && a != i ==> #[trigger] t[a] == s0[a]);
                            }
                            true
                        } else {
                            proof {
                                let w = self.entries@[i as int].1;
                                assert(id_set_view(s0)[key@].remove(id) != Set::<u64>::empty())
                                    by {
                                    assert(w@.to_set().contains(w@[0]));
                                }
                                assert(forall|a: int|
                                    0 <= a < s0.len() && a != i ==> #[trigger] self.entries@[a]
                                        == s0[a]);
                            }
                            true
                        }
                    },
                    None => {
                        proof {
                            assert(!id_set_view(s0)[key@].contains(id));
                            assert(id_set_view(s0)[key@].remove(id) =~= id_set_view(s0)[key@]);
                            assert(id_set_view(s0)[key@].remove(id) != Set::<u64>::empty()) by {
                                let w = s0[i as int].1;
                                assert(w@.to_set().contains(w@[0]));
                            }
                            assert(self@.insert(key@, self@[key@]) =~= self@);
                        }
                        false
                    },
                }
            },
            None => {
                proof {
                    lemma_sid_view_contains(s0, key@);
                }
                false
            },
        }
    }

    /// All keys currently present, each once, in storage order.
    pub fn keys(&self) -> (r: Vec<String>)
        requires
            self.wf(),
        ensures
            r.deep_view().no_duplicates(),
            forall|k: Seq<char>| r.deep_view().contains(k) <==> self@.contains_key(k),
    {
        let mut r: Vec<String> = Vec::new();
        let mut i: usize = 0;
        while i < self.entries.len()
            invariant
                self.wf(),
                i <= self.entries@.len(),
                r.deep_view().len() == i,
                forall|j: int| 0 <= j < i ==> r.deep_view()[j] == (#[trigger] self.entries@[j]).0@,
            decreases self.entries@.len() - i,
        {
            r.push(self.entries[i].0.clone());
            i = i + 1;
        }
        proof {
            assert forall|k: Seq<char>| r.deep_view().contains(k) <==> self@.contains_key(k) by {
                lemma_sid_view_contains(self.entries@, k);
                if r.deep_view().contains(k) {
                    let j = choose|j: int| 0 <= j < r.deep_view().len() && r.deep_view()[j] == k;
                    assert(self.entries@[j].0@ == k);
                }
                if self@.contains_key(k) {
                    let j = choose|j: int|
                        0 <= j < self.entries@.len() && (#[trigger] self.entries@[j]).0@ == k;
                    assert(r.deep_view()[j] == k);
                }
            }
            assert forall|a: int, b: int|
                0 <= a < b < r.deep_view().len() implies r.deep_view()[a] != r.deep_view()[b] by {
                assert(r.deep_view()[a] == (#[trigger] self.entries@[a]).0@);
                assert(r.deep_view()[b] == (#[trigger] self.entries@[b]).0@);
            }
            assert(r.deep_view().no_duplicates());
        }
        r
    }
}

/// Index of an id inside the id vector of entry `i`.
fn find_id_at(entries: &Vec<(String, Vec<u64>)>, i: usize, id: u64) -> (r: Option<usize>)
    requires
        i < entries@.len(),
    ensures
        (match r {
            Some(j) => j < entries@[i as int].1@.len() && entries@[i as int].1@[j as int] == id,
            None => !entries@[i as int].1@.contains(id),
        }),
{
    let v = &entries[i].1;
    let mut j: usize = 0;
    while j < v.len()
        invariant
            j <= v@.len(),
            v@ == entries@[i as int].1@,
            forall|a: int| 0 <= a < j ==> v@[a] != id,
        decreases v@.len() - j,
    {
        if v[j] == id {
            return Some(j);
        }
        j = j + 1;
    }
    None
}

/// Removing the one position holding a value from a duplicate-free sequence
/// takes exactly that value out of its set of elements.
proof fn lemma_remove_value(s: Seq<u64>, j: int)
    requires
        s.no_duplicates(),
        0 <= j < s.len(),
    ensures
        s.remove(j).to_set() == s.to_set().remove(s[j]),
        s.remove(j).no_duplicates(),
{
    let t = s.remove(j);
    assert(forall|a: int| 0 <= a < j ==> #[trigger] t[a] == s[a]);
    assert(forall|a: int| j <= a < t.len() ==> #[trigger] t[a] == s[a + 1]);
    assert(t.no_duplicates());
    assert forall|x: u64| t.to_set().contains(x) <==> s.to_set().remove(s[j]).contains(x) by {
        if t.contains(x) {
            let a = choose|a: int| 0 <= a < t.len() && t[a] == x;
            if a < j {
                assert(s[a] == x);
            } else {
                assert(s[a + 1] == x);
            }
        }
        if s.contains(x) && x != s[j] {
            let a = choose|a: int| 0 <= a < s.len() && s[a] == x;
            if a < j {
                assert(t[a] == x);
            } else {
                assert(a > j);
                assert(t[a - 1] == x);
            }
        }
    }
    assert(t.to_set() =~= s.to_set().remove(s[j]));
}


// ------------------------------------------------------------------
// String key -> list of ids (the crate index)
// ------------------------------------------------------------------

/// The map denoted by an association list whose values are read as sequences.
pub open spec fn id_list_view(s: Seq<(String, Vec<u64>)>) -> Map<Seq<char>, Seq<u64>>
    decreases s.len(),
{
    if s.len() == 0 {
        Map::empty()
    } else {
        id_list_view(s.drop_last()).insert(s.last().0@, s.last().1@)
    }
}

proof fn lemma_lid_view_contains(s: Seq<(String, Vec<u64>)>, k: Seq<char>)
    ensures
        id_list_view(s).contains_key(k) <==> (exists|i: int|
            0 <= i < s.len() && (#[trigger] s[i]).0@ == k),
    decreases s.len(),
{
    if s.len() > 0 {
        lemma_lid_view_contains(s.drop_last(), k);
        if s.last().0@ == k {
            assert(s[s.len() - 1].0@ == k);
        } else {
            if id_list_view(s).contains_key(k) {
                let i = choose|i: int|
                    0 <= i < s.drop_last().len() && (#[trigger] s.drop_last()[i]).0@ == k;
                assert(s[i].0@ == k);
            }
            if exists|i: int| 0 <= i < s.len() && (#[trigger] s[i]).0@ == k {
                let i = choose|i: int| 0 <= i < s.len() && (#[trigger] s[i]).0@ == k;
                assert(s.drop_last()[i].0@ == k);
            }
        }
    }
}

proof fn lemma_lid_view_at(s: Seq<(String, Vec<u64>)>, i: int)
    requires
        sid_keys_unique(s),
        0 <= i < s.len(),
    ensures
        id_list_view(s).contains_key(s[i].0@),
        id_list_view(s)[s[i].0@] == s[i].1@,
    decreases s.len(),
{
    if i == s.len() - 1 {
    } else {
        assert(sid_keys_unique(s.drop_last())) by {
            assert(forall|a: int|
                0 <= a < s.drop_last().len() ==> #[trigger] s.drop_last()[a] == s[a]);
        }
        lemma_lid_view_at(s.drop_last(), i);
        assert(s.drop_last()[i] == s[i]);
        assert(s[i].0@ != s.last().0@);
    }
}

proof fn lemma_lid_view_remove(s: Seq<(String, Vec<u64>)>, i: int)
    requires
        sid_keys_unique(s),
        0 <= i < s.len(),
    ensures
        id_list_view(s.remove(i)) == id_list_view(s).remove(s[i].0@),
        sid_keys_unique(s.remove(i)),
    decreases s.len(),
{
    let t = s.remove(i);
    assert(forall|a: int| 0 <= a < i ==> #[trigger] t[a] == s[a]);
    assert(forall|a: int| i <= a < t.len() ==> #[trigger] t[a] == s[a + 1]);
    assert(sid_keys_unique(t));
    if i == s.len() - 1 {
        assert(t =~= s.drop_last());
        lemma_lid_view_contains(s.drop_last(), s[i].0@);
        assert(forall|a: int|
            0 <= a < s.drop_last().len() ==> (#[trigger] s.drop_last()[a]).0@ != s[i].0@);
        assert(!id_list_view(s.drop_last()).contains_key(s[i].0@));
        assert(id_list_view(t) =~= id_list_view(s).remove(s[i].0@));
    } else {
        assert(sid_keys_unique(s.drop_last())) by {
            assert(forall|a: int|
                0 <= a < s.drop_last().len() ==> #[trigger] s.drop_last()[a] == s[a]);
        }
        lemma_lid_view_remove(s.drop_last(), i);
        assert(t.drop_last() =~= s.drop_last().remove(i));
        assert(t.last() == s.last());
        assert(s[i].0@ != s.last().0@);
        assert(id_list_view(t) =~= id_list_view(s).remove(s[i].0@));
    }
}

/// A mapping from crate name to the ordered list of ids its most recent
/// ingestion contributed.
pub struct IdListTable {
    entries: Vec<(String, Vec<u64>)>,
}

impl View for IdListTable {
    type V = Map<Seq<char>, Seq<u64>>;

    closed spec fn view(&self) -> Map<Seq<char>, Seq<u64>> {
        id_list_view(self.entries@)
    }
}

impl IdListTable {
    pub closed spec fn wf(&self) -> bool {
        sid_keys_unique(self.entries@)
    }

    pub fn new() -> (r: Self)
        ensures
            r.wf(),
            r@ == Map::<Seq<char>, Seq<u64>>::empty(),
    {
        IdListTable { entries: Vec::new() }
    }

    pub fn contains_key(&self, key: &String) -> (r: bool)
        requires
            self.wf(),
        ensures
            r == self@.contains_key(key@),
    {
        let r = find_sid(&self.entries, key);
        proof {
            lemma_lid_view_contains(self.entries@, key@);
            if r is Some {
                let i = r->0;
                assert(self.entries@[i as int].0@ == key@);
            }
        }
        r.is_some()
    }

    /// The id list recorded for a key; `None` exactly where the key is absent.
    pub fn get(&self, key: &String) -> (r: Option<&Vec<u64>>)
        requires
            self.wf(),
        ensures
            (match r {
                Some(v) => self@.contains_key(key@) && v@ == self@[key@],
                None => !self@.contains_key(key@),
            }),
    {
        match find_sid(&self.entries, key) {
            Some(i) => {
                proof {
                    lemma_lid_view_at(self.entries@, i as int);
                }
                Some(&self.entries[i].1)
            },
            None => {
                proof {
                    lemma_lid_view_contains(self.entries@, key@);
                }
                None
            },
        }
    }

    /// Record a key's id list; the key must be new.
    pub fn insert_new(&mut self, key: &String, ids: Vec<u64>)
        requires
            old(self).wf(),
            !old(self)@.contains_key(key@),
        ensures
            final(self).wf(),
            final(self)@ == old(self)@.insert(key@, ids@),
    {
        let ghost s0 = self.entries@;
        let k = key.clone();
        self.entries.push((k, ids));
        proof {
            lemma_lid_view_contains(s0, key@);
            assert(self.entries@.drop_last() =~= s0);
            assert(forall|a: int| 0 <= a < s0.len() ==> #[trigger] self.entries@[a] == s0[a]);
            assert forall|a: int, b: int|
                0 <= a < b < self.entries@.len() implies (#[trigger] self.entries@[a]).0@ != (
            #[trigger] self.entries@[b]).0@ by {
                if b == s0.len() {
                    if self.entries@[a].0@ == key@ {
                        assert(s0[a].0@ == key@);
                    }
                }
            }
        }
    }

    /// Take a key's entry out, handing back its id list.
    pub fn take(&mut self, key: &String) -> (r: Option<Vec<u64>>)
        requires
            old(self).wf(),
        ensures
            final(self).wf(),
            (match r {
                Some(v) => old(self)@.contains_key(key@) && v@ == old(self)@[key@]
                    && final(self)@ == old(self)@.remove(key@),
                None => !old(self)@.contains_key(key@) && final(self)@ == old(self)@,
            }),
    {
        let ghost s0 = self.entries@;
        match find_sid(&self.entries, key) {
            Some(i) => {
                proof {
                    lemma_lid_view_at(s0, i as int);
                    lemma_lid_view_remove(s0, i as int);
                }
                let pair = self.entries.remove(i);
                Some(pair.1)
            },
            None => {
                proof {
                    lemma_lid_view_contains(s0, key@);
                }
                None
            },
        }
    }
}

// ------------------------------------------------------------------
// Id -> signature record (the function table)
// ------------------------------------------------------------------

/// Keys of an id-keyed association list are pairwise distinct.
pub open spec fn fid_keys_unique(s: Seq<(u64, crate::detail::FnDetail)>) -> bool {
    forall|i: int, j: int|
        0 <= i < j < s.len() ==> (#[trigger] s[i]).0 != (#[trigger] s[j]).0
}

/// The map denoted by an id-keyed association list of records.
pub open spec fn fn_table_view(s: Seq<(u64, crate::detail::FnDetail)>) -> Map<
    u64,
    crate::detail::FnDetailView,
>
    decreases s.len(),
{
    if s.len() == 0 {
        Map::empty()
    } else {
        fn_table_view(s.drop_last()).insert(s.last().0, s.last().1@)
    }
}

proof fn lemma_fid_view_contains(s: Seq<(u64, crate::detail::FnDetail)>, k: u64)
    ensures
        fn_table_view(s).contains_key(k) <==> (exists|i: int|
            0 <= i < s.len() && (#[trigger] s[i]).0 == k),
    decreases s.len(),
{
    if s.len() > 0 {
        lemma_fid_view_contains(s.drop_last(), k);
        if s.last().0 == k {
            assert(s[s.len() - 1].0 == k);
        } else {
            if fn_table_view(s).contains_key(k) {
                let i = choose|i: int|
                    0 <= i < s.drop_last().len() && (#[trigger] s.drop_last()[i]).0 == k;
                assert(s[i].0 == k);
            }
            if exists|i: int| 0 <= i < s.len() && (#[trigger] s[i]).0 == k {
                let i = choose|i: int| 0 <= i < s.len() && (#[trigger] s[i]).0 == k;
                assert(s.drop_last()[i].0 == k);
            }
        }
    }
}

proof fn lemma_fid_view_at(s: Seq<(u64, crate::detail::FnDetail)>, i: int)
    requires
        fid_keys_unique(s),
        0 <= i < s.len(),
    ensures
        fn_table_view(s).contains_key(s[i].0),
        fn_table_view(s)[s[i].0] == s[i].1@,
    decreases s.len(),
{
    if i == s.len() - 1 {
    } else {
        assert(fid_keys_unique(s.drop_last())) by {
            assert(forall|a: int|
                0 <= a < s.drop_last().len() ==> #[trigger] s.drop_last()[a] == s[a]);
        }
        lemma_fid_view_at(s.drop_last(), i);
        assert(s.drop_last()[i] == s[i]);
        assert(s[i].0 != s.last().0);
    }
}

proof fn lemma_fid_view_remove(s: Seq<(u64, crate::detail::FnDetail)>, i: int)
    requires
        fid_keys_unique(s),
        0 <= i < s.len(),
    ensures
        fn_table_view(s.remove(i)) == fn_table_view(s).remove(s[i].0),
        fid_keys_unique(s.remove(i)),
    decreases s.len(),
{
    let t = s.remove(i);
    assert(forall|a: int| 0 <= a < i ==> #[trigger] t[a] == s[a]);
    assert(forall|a: int| i <= a < t.len() ==> #[trigger] t[a] == s[a + 1]);
    assert(fid_keys_unique(t));
    if i == s.len() - 1 {
        assert(t =~= s.drop_last());
        lemma_fid_view_contains(s.drop_last(), s[i].0);
        assert(forall|a: int|
            0 <= a < s.drop_last().len() ==> (#[trigger] s.drop_last()[a]).0 != s[i].0);
        assert(!fn_table_view(s.drop_last()).contains_key(s[i].0));
        assert(fn_table_view(t) =~= fn_table_view(s).remove(s[i].0));
    } else {
        assert(fid_keys_unique(s.drop_last())) by {
            assert(forall|a: int|
                0 <= a < s.drop_last().len() ==> #[trigger] s.drop_last()[a] == s[a]);
        }
        lemma_fid_view_remove(s.drop_last(), i);
        assert(t.drop_last() =~= s.drop_last().remove(i));
        assert(t.last() == s.last());
        assert(s[i].0 != s.last().0);
        assert(fn_table_view(t) =~= fn_table_view(s).remove(s[i].0));
    }
}

fn find_fid(entries: &Vec<(u64, crate::detail::FnDetail)>, key: u64) -> (r: Option<usize>)
    ensures
        (match r {
            Some(i) => i < entries@.len() && entries@[i as int].0 == key,
            None => forall|j: int| 0 <= j < entries@.len() ==> (#[trigger] entries@[j]).0 != key,
        }),
{
    let mut i: usize = 0;
    while i < entries.len()
        invariant
            i <= entries@.len(),
            forall|j: int| 0 <= j < i ==> (#[trigger] entries@[j]).0 != key,
        decreases entries@.len() - i,
    {
        if entries[i].0 == key {
            return Some(i);
        }
        i = i + 1;
    }
    None
}

/// The canonical id-to-record table.
pub struct FnTable {
    entries: Vec<(u64, crate::detail::FnDetail)>,
}

impl View for FnTable {
    type V = Map<u64, crate::detail::FnDetailView>;

    closed spec fn view(&self) -> Map<u64, crate::detail::FnDetailView> {
        fn_table_view(self.entries@)
    }
}

impl FnTable {
    pub closed spec fn wf(&self) -> bool {
        fid_keys_unique(self.entries@)
    }

    pub fn new() -> (r: Self)
        ensures
            r.wf(),
            r@ == Map::<u64, crate::detail::FnDetailView>::empty(),
    {
        FnTable { entries: Vec::new() }
    }

    /// The record stored under an id; `None` exactly where the id is absent.
    pub fn get(&self, id: u64) -> (r: Option<&crate::detail::FnDetail>)
        requires
            self.wf(),
        ensures
            (match r {
                Some(d) => self@.contains_key(id) && d@ == self@[id],
                None => !self@.contains_key(id),
            }),
    {
        match find_fid(&self.entries, id) {
            Some(i) => {
                proof {
                    lemma_fid_view_at(self.entries@, i as int);
                }
                Some(&self.entries[i].1)
            },
            None => {
                proof {
                    lemma_fid_view_contains(self.entries@, id);
                }
                None
            },
        }
    }

    /// Store a record under a fresh id.
    pub fn insert_new(&mut self, id: u64, d: crate::detail::FnDetail)
        requires
            old(self).wf(),
            !old(self)@.contains_key(id),
        ensures
            final(self).wf(),
            final(self)@ == old(self)@.insert(id, d@),
    {
        let ghost s0 = self.entries@;
        self.entries.push((id, d));
        proof {
            lemma_fid_view_contains(s0, id);
            assert(self.entries@.drop_last() =~= s0);
            assert(forall|a: int| 0 <= a < s0.len() ==> #[trigger] self.entries@[a] == s0[a]);
            assert forall|a: int, b: int|
                0 <= a < b < self.entries@.len() implies (#[trigger] self.entries@[a]).0 != (
            #[trigger] self.entries@[b]).0 by {
                if b == s0.len() {
                    if self.entries@[a].0 == id {
                        assert(s0[a].0 == id);
                    }
                }
            }
        }
    }

    /// Take an id's record out of the table.
    pub fn take(&mut self, id: u64) -> (r: Option<crate::detail::FnDetail>)
        requires
            old(self).wf(),
        ensures
            final(self).wf(),
            (match r {
                Some(d) => old(self)@.contains_key(id) && d@ == old(self)@[id] && final(self)@
                    == old(self)@.remove(id),
                None => !old(self)@.contains_key(id) && final(self)@ == old(self)@,
            }),
    {
        let ghost s0 = self.entries@;
        match find_fid(&self.entries, id) {
            Some(i) => {
                proof {
                    lemma_fid_view_at(s0, i as int);
                    lemma_fid_view_remove(s0, i as int);
                }
                let pair = self.entries.remove(i);
                Some(pair.1)
            },
            None => {
                proof {
                    lemma_fid_view_contains(s0, id);
                }
                None
            },
        }
    }
}

} // verus!

