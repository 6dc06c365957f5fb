//! A store held in memory: entries kept sorted by key.
use vstd::prelude::*;
use crate::lex::{bytes_equal, lemma_lex_irrefl, lemma_lex_total, lemma_lex_trans, lex_less, lex_lt};
use crate::storage::{
    in_range, is_range_of, kvs_view, lookup, opt_view, strip_prefix, Order, ReadonlyStorage,
    Storage, KV,
};

verus! {

/// The index of the first entry whose key is not below `key`.
fn lower_bound(entries: &Vec<KV>, key: &[u8]) -> (r: usize)
    ensures
        r <= entries@.len(),
        forall|j: int| 0 <= j < r ==> lex_lt(#[trigger] kvs_view(entries@)[j].0, key@),
        r < entries@.len() ==> !lex_lt(kvs_view(entries@)[r as int].0, key@),
{
    let ghost s = kvs_view(entries@);
    let mut i: usize = 0;
    while i < entries.len()
        invariant
            i <= entries@.len(),
            s == kvs_view(entries@),
            forall|j: int| 0 <= j < i ==> lex_lt(#[trigger] s[j].0, key@),
        decreases entries@.len() - i,
    {
        if !lex_less(entries[i].0.as_slice(), key) {
            return i;
        }
        i += 1;
    }
    i
}

/// Entries sorted by strictly increasing key, holding exactly the map `m`.
spec fn entries_wf(s: Seq<(Seq<u8>, Seq<u8>)>, m: Map<Seq<u8>, Seq<u8>>) -> bool {
    &&& forall|i: int, j: int| #![trigger s[i], s[j]] 0 <= i < j < s.len() ==> lex_lt(s[i].0, s[j].0)
    &&& forall|i: int| #![trigger s[i]] 0 <= i < s.len() ==> m.contains_key(s[i].0) && m[s[i].0] == s[i].1
    &&& forall|k: Seq<u8>| #![trigger m.contains_key(k)] m.contains_key(k)
        ==> exists|i: int| 0 <= i < s.len() && #[trigger] s[i].0 == k
}

/// An in-memory store.
pub struct MemoryStorage {
    entries: Vec<KV>,
    model: Ghost<Map<Seq<u8>, Seq<u8>>>,
}

/// The name under which tests usually meet the in-memory store.
pub type MockStorage = MemoryStorage;

impl MemoryStorage {
    #[verifier::type_invariant]
    closed spec fn well_formed(&self) -> bool {
        entries_wf(kvs_view(self.entries@), self.model@)
    }

    /// An empty store.
    pub fn new() -> (r: Self)
        ensures
            r.view() == Map::<Seq<u8>, Seq<u8>>::empty(),
    {
        MemoryStorage { entries: Vec::new(), model: Ghost(Map::empty()) }
    }

    /// The entries in ascending key order that lie in `[start, end)`.
    fn scan(&self, start: Option<&[u8]>, end: Option<&[u8]>) -> (r: Vec<KV>)
        ensures
            is_range_of(self.view(), opt_view(start), opt_view(end), Order::Ascending, kvs_view(r@)),
    {
        proof {
            use_type_invariant(self);
        }
        let ghost s = kvs_view(self.entries@);
        let ghost m = self.model@;
        let mut out: Vec<KV> = Vec::new();
        let mut i: usize = 0;
        while i < self.entries.len()
            invariant
                i <= self.entries@.len(),
                s == kvs_view(self.entries@),
                m == self.model@,
                self.well_formed(),
                is_range_of(
                    Map::new(
                        |k: Seq<u8>| m.contains_key(k) && exists|j: int| 0 <= j < i && #[trigger] s[j].0 == k,
                        |k: Seq<u8>| m[k],
                    ),
                    opt_view(start),
                    opt_view(end),
                    Order::Ascending,
                    kvs_view(out@),
                ),
                forall|a: int, j: int|
                    #![trigger kvs_view(out@)[a], s[j]]
                    0 <= a < out@.len() && i <= j < s.len() ==> lex_lt(kvs_view(out@)[a].0, s[j].0),
            decreases self.entries@.len() - i,
        {
            let ghost before = kvs_view(out@);
            let k = &self.entries[i].0;
            let inside = match start {
                Some(st) => !lex_less(k.as_slice(), st),
                None => true,
            } && match end {
                Some(e) => lex_less(k.as_slice(), e),
                None => true,
            };
            if inside {
                let kc = vstd::slice::slice_to_vec(k.as_slice());
                let vc = vstd::slice::slice_to_vec(self.entries[i].1.as_slice());
                let ghost item = (kc@, vc@);
                out.push((kc, vc));
                assert(kvs_view(out@) =~= before.push(item));
            }
            let ghost after = kvs_view(out@);
            let ghost m_old = Map::new(
                |k: Seq<u8>| m.contains_key(k) && exists|j: int| 0 <= j < i && #[trigger] s[j].0 == k,
                |k: Seq<u8>| m[k],
            );
            let ghost m_new = Map::new(
                |k: Seq<u8>| m.contains_key(k) && exists|j: int| 0 <= j < i + 1 && #[trigger] s[j].0 == k,
                |k: Seq<u8>| m[k],
            );
            proof {
                assert forall|a: int, b: int| 0 <= a < b < after.len() implies lex_lt(#[trigger] after[a].0, #[trigger] after[b].0) by {
                    if b == before.len() {
                        assert(after[a] == before[a]);
                        assert(after[b].0 == s[i as int].0);
                    } else {
                        assert(after[a] == before[a] && after[b] == before[b]);
                    }
                }
                assert forall|a: int| 0 <= a < after.len() implies m_new.contains_key(#[trigger] after[a].0) && m_new[after[a].0] == after[a].1 && in_range(after[a].0, opt_view(start), opt_view(end)) by {
                    if a < before.len() {
                        assert(after[a] == before[a]);
                        assert(m_old.contains_key(before[a].0));
                        let j = choose|j: int| 0 <= j < i && #[trigger] s[j].0 == before[a].0;
                        assert(s[j].0 == after[a].0);
                        assert(m_new.contains_key(after[a].0));
                    } else {
                        assert(s[i as int].0 == after[a].0);
                    }
                }
                assert forall|k: Seq<u8>| m_new.contains_key(k) && in_range(k, opt_view(start), opt_view(end)) implies exists|a: int| 0 <= a < after.len() && #[trigger] after[a].0 == k by {
                    let j = choose|j: int| 0 <= j < i + 1 && #[trigger] s[j].0 == k;
                    if j < i {
                        assert(m_old.contains_key(k));
                        let a = choose|a: int| 0 <= a < before.len() && #[trigger] before[a].0 == k;
                        assert(after[a] == before[a]);
                    } else {
                        assert(after[before.len() as int].0 == k);
                    }
                }
                assert forall|a: int, j: int|
                    #![trigger after[a], s[j]]
                    0 <= a < after.len() && i + 1 <= j < s.len() implies lex_lt(after[a].0, s[j].0) by {
                    if a < before.len() {
                        assert(after[a] == before[a]);
                    } else {
                        assert(after[a].0 == s[i as int].0);
                    }
                }
            }
            i += 1;
        }
        proof {
            let m_fin = Map::new(
                |k: Seq<u8>| m.contains_key(k) && exists|j: int| 0 <= j < i && #[trigger] s[j].0 == k,
                |k: Seq<u8>| m[k],
            );
            assert forall|k: Seq<u8>| #[trigger] m_fin.contains_key(k) == m.contains_key(k) by {
                if m.contains_key(k) {
                    let j = choose|j: int| 0 <= j < s.len() && #[trigger] s[j].0 == k;
                }
            }
            assert(m_fin =~= m);
        }
        out
    }
}

impl ReadonlyStorage for MemoryStorage {
    closed spec fn view(&self) -> Map<Seq<u8>, Seq<u8>> {
        self.model@
    }

    open spec fn root_view(&self) -> Map<Seq<u8>, Seq<u8>> {
        self.view()
    }

    open spec fn root_prefix(&self) -> Seq<u8> {
        Seq::empty()
    }

    proof fn lemma_view_of_root(&self) {
        assert forall|k: Seq<u8>| #[trigger] (Seq::<u8>::empty() + k) == k by {
            assert(Seq::<u8>::empty() + k =~= k);
        }
        assert(self.view() =~= strip_prefix(self.root_view(), self.root_prefix()));
    }

    fn get(&self, key: &[u8]) -> (r: Option<Vec<u8>>) {
        proof {
            use_type_invariant(self);
        }
        let ghost s = kvs_view(self.entries@);
        let i = lower_bound(&self.entries, key);
        if i < self.entries.len() && bytes_equal(self.entries[i].0.as_slice(), key) {
            assert(s[i as int].0 == key@);
            return Some(vstd::slice::slice_to_vec(self.entries[i].1.as_slice()));
        }
        proof {
            if self.model@.contains_key(key@) {
                let j = choose|j: int| 0 <= j < s.len() && #[trigger] s[j].0 == key@;
                lemma_lex_irrefl(key@);
                if j > i {
                    lemma_lex_total(s[i as int].0, key@);
                }
            }
        }
        None
    }

    fn range(&self, start: Option<&[u8]>, end: Option<&[u8]>, order: Order) -> (r: Vec<KV>) {
        let asc = self.scan(start, end);
        match order {
            Order::Ascending => asc,
            Order::Descending => {
                let ghost a = kvs_view(asc@);
                let mut out: Vec<KV> = Vec::new();
                let mut i: usize = asc.len();
                while i > 0
                    invariant
                        i <= asc@.len(),
                        a == kvs_view(asc@),
                        out@.len() == asc@.len() - i,
                        forall|j: int| 0 <= j < out@.len() ==> #[trigger] kvs_view(out@)[j] == a[a.len() - 1 - j],
                    decreases i,
                {
                    i -= 1;
                    let kc = vstd::slice::slice_to_vec(asc[i].0.as_slice());
                    let vc = vstd::slice::slice_to_vec(asc[i].1.as_slice());
                    let ghost before = out@;
                    let ghost item = (kc@, vc@);
                    out.push((kc, vc));
                    assert(kvs_view(out@) =~= kvs_view(before).push(item));
                }
                proof {
                    let o = kvs_view(out@);
                    let n = a.len();
                    assert(o =~= a.reverse());
                    assert forall|x: int, y: int| 0 <= x < y < o.len() implies lex_lt(#[trigger] o[y].0, #[trigger] o[x].0) by {
                        assert(o[x] == a[n - 1 - x] && o[y] == a[n - 1 - y]);
                    }
                    assert forall|x: int| 0 <= x < o.len() implies #[trigger] o[x] == a[n - 1 - x] by {}
                    assert forall|k: Seq<u8>| self.view().contains_key(k) && in_range(k, opt_view(start), opt_view(end)) implies exists|x: int| 0 <= x < o.len() && #[trigger] o[x].0 == k by {
                        let j = choose|j: int| 0 <= j < a.len() && #[trigger] a[j].0 == k;
                        assert(o[n - 1 - j] == a[j]);
                    }
                }
                out
            }
        }
    }
}

impl Storage for MemoryStorage {
    fn set(&mut self, key: &[u8], value: &[u8]) {
        let mut taken = MemoryStorage::new();
        std::mem::swap(self, &mut taken);
        proof {
            use_type_invariant(&taken);
        }
        let MemoryStorage { entries, model } = taken;
        let mut entries = entries;
        let ghost s = kvs_view(entries@);
        let ghost m = model@;
        let i = lower_bound(&entries, key);
        let ghost new_model = m.insert(key@, value@);
        if i < entries.len() && bytes_equal(entries[i].0.as_slice(), key) {
            let kc = vstd::slice::slice_to_vec(key);
            let vc = vstd::slice::slice_to_vec(value);
            let ghost item = (kc@, vc@);
            entries.set(i, (kc, vc));
            proof {
                let s2 = kvs_view(entries@);
                assert(s2 =~= s.update(i as int, item));
                assert forall|a: int| #![trigger s2[a]] 0 <= a < s2.len() implies new_model.contains_key(s2[a].0) && new_model[s2[a].0] == s2[a].1 by {
                    if a != i {
                        assert(s2[a] == s[a]);
                        if a < i {
                            assert(lex_lt(s[a].0, s[i as int].0));
                        } else {
                            assert(lex_lt(s[i as int].0, s[a].0));
                        }
                        lemma_lex_irrefl(key@);
                    }
                }
                assert forall|k: Seq<u8>| new_model.contains_key(k) implies exists|a: int| 0 <= a < s2.len() && #[trigger] s2[a].0 == k by {
                    if k != key@ {
                        let a = choose|a: int| 0 <= a < s.len() && #[trigger] s[a].0 == k;
                        assert(s2[a] == s[a]);
                    } else {
                        assert(s2[i as int].0 == k);
                    }
                }
                assert forall|a: int, b: int| #![trigger s2[a], s2[b]] 0 <= a < b < s2.len() implies lex_lt(s2[a].0, s2[b].0) by {
                    assert(s2[a].0 == s[a].0 && s2[b].0 == s[b].0);
                }
            }
        } else {
            let kc = vstd::slice::slice_to_vec(key);
            let vc = vstd::slice::slice_to_vec(value);
            let ghost item = (kc@, vc@);
            entries.insert(i, (kc, vc));
            proof {
                let s2 = kvs_view(entries@);
                assert(s2 =~= s.insert(i as int, item));
                if i < s.len() {
                    lemma_lex_total(s[i as int].0, key@);
                }
                assert forall|a: int| i <= a < s.len() implies lex_lt(key@, #[trigger] s[a].0) by {
                    if a > i {
                        lemma_lex_trans(key@, s[i as int].0, s[a].0);
                    }
                }
                assert forall|a: int| #![trigger s2[a]] 0 <= a < s2.len() implies new_model.contains_key(s2[a].0) && new_model[s2[a].0] == s2[a].1 by {
                    if a < i {
                        assert(s2[a] == s[a]);
                        lemma_lex_irrefl(key@);
                    } else if a > i {
                        assert(s2[a] == s[a - 1]);
                        lemma_lex_irrefl(key@);
                    }
                }
                assert forall|k: Seq<u8>| new_model.contains_key(k) implies exists|a: int| 0 <= a < s2.len() && #[trigger] s2[a].0 == k by {
                    if k != key@ {
                        let a = choose|a: int| 0 <= a < s.len() && #[trigger] s[a].0 == k;
                        if a < i {
                            assert(s2[a] == s[a]);
                        } else {
                            assert(s2[a + 1] == s[a]);
                        }
                    } else {
                        assert(s2[i as int].0 == k);
                    }
                }
                assert forall|a: int, b: int| #![trigger s2[a], s2[b]] 0 <= a < b < s2.len() implies lex_lt(s2[a].0, s2[b].0) by {
                    if b < i {
                        assert(s2[a] == s[a] && s2[b] == s[b]);
                    } else if b == i {
                        assert(s2[a] == s[a]);
                    } else if a < i {
                        assert(s2[a] == s[a] && s2[b] == s[b - 1]);
                        lemma_lex_trans(s[a].0, key@, s[b - 1].0);
                    } else if a == i {
                        assert(s2[b] == s[b - 1]);
                    } else {
                        assert(s2[a] == s[a - 1] && s2[b] == s[b - 1]);
                    }
                }
            }
        }
        assert(entries_wf(kvs_view(entries@), new_model));
        *self = MemoryStorage { entries, model: Ghost(new_model) };
    }

    fn remove(&mut self, key: &[u8]) {
        let mut taken = MemoryStorage::new();
        std::mem::swap(self, &mut taken);
        proof {
            use_type_invariant(&taken);
        }
        let MemoryStorage { entries, model } = taken;
        let mut entries = entries;
        let ghost s = kvs_view(entries@);
        let ghost m = model@;
        let i = lower_bound(&entries, key);
        let ghost new_model = m.remove(key@);
        if i < entries.len() && bytes_equal(entries[i].0.as_slice(), key) {
            entries.remove(i);
            proof {
                let s2 = kvs_view(entries@);
                assert(s2 =~= s.remove(i as int));
                assert forall|a: int| #![trigger s2[a]] 0 <= a < s2.len() implies new_model.contains_key(s2[a].0) && new_model[s2[a].0] == s2[a].1 by {
                    lemma_lex_irrefl(key@);
                    if a < i {
                        assert(s2[a] == s[a]);
                    } else {
                        assert(s2[a] == s[a + 1]);
                        assert(lex_lt(s[i as int].0, s[a + 1].0));
                    }
                }
                assert forall|k: Seq<u8>| new_model.contains_key(k) implies exists|a: int| 0 <= a < s2.len() && #[trigger] s2[a].0 == k by {
                    let a = choose|a: int| 0 <= a < s.len() && #[trigger] s[a].0 == k;
                    if a < i {
                        assert(s2[a] == s[a]);
                    } else {
                        assert(s2[a - 1] == s[a]);
                    }
                }
                assert forall|a: int, b: int| #![trigger s2[a], s2[b]] 0 <= a < b < s2.len() implies lex_lt(s2[a].0, s2[b].0) by {
                    if b < i {
                        assert(s2[a] == s[a] && s2[b] == s[b]);
                    } else if a < i {
                        assert(s2[a] == s[a] && s2[b] == s[b + 1]);
                    } else {
                        assert(s2[a] == s[a + 1] && s2[b] == s[b + 1]);
                    }
                }
            }
        } else {
            proof {
                if m.contains_key(key@) {
                    let j = choose|j: int| 0 <= j < s.len() && #[trigger] s[j].0 == key@;
                    lemma_lex_irrefl(key@);
                    if j > i {
                        lemma_lex_total(s[i as int].0, key@);
                    }
                }
                assert(new_model =~= m);
            }
        }
        assert(entries_wf(kvs_view(entries@), new_model));
        *self = MemoryStorage { entries, model: Ghost(new_model) };
    }
}

} // verus!
