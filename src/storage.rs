//! The key-value store interface, stated over a map from keys to values.
use vstd::prelude::*;
use crate::lex::{lemma_lex_asym, lemma_lex_irrefl, lex_lt};

verus! {

/// Direction of a range scan.
#[derive(Clone, Copy, Debug, PartialEq, Eq, Structural)]
pub enum Order {
    Ascending,
    Descending,
}

/// A key and its value, as handed out by a range scan.
pub type KV = (Vec<u8>, Vec<u8>);

/// The byte string behind an optional slice.
pub open spec fn opt_view(o: Option<&[u8]>) -> Option<Seq<u8>> {
    match o {
        Some(s) => Some(s@),
        None => None,
    }
}

/// The pairs of a scan result, as byte strings.
pub open spec fn kvs_view(r: Seq<KV>) -> Seq<(Seq<u8>, Seq<u8>)> {
    r.map_values(|kv: KV| (kv.0@, kv.1@))
}

/// `k` lies in the half-open interval `[start, end)`; `None` leaves a side open.
pub open spec fn in_range(k: Seq<u8>, start: Option<Seq<u8>>, end: Option<Seq<u8>>) -> bool {
    &&& match start {
        Some(s) => !lex_lt(k, s),
        None => true,
    }
    &&& match end {
        Some(e) => lex_lt(k, e),
        None => true,
    }
}

/// `s` lists, each once and in the given order, exactly the entries of `m`
/// whose keys lie in `[start, end)`.
pub open spec fn is_range_of(
    m: Map<Seq<u8>, Seq<u8>>,
    start: Option<Seq<u8>>,
    end: Option<Seq<u8>>,
    order: Order,
    s: Seq<(Seq<u8>, Seq<u8>)>,
) -> bool {
    &&& forall|i: int, j: int|
        #![trigger s[i], s[j]]
        0 <= i < j < s.len() ==> match order {
            Order::Ascending => lex_lt(s[i].0, s[j].0),
            Order::Descending => lex_lt(s[j].0, s[i].0),
        }
    &&& forall|i: int|
        #![trigger s[i]]
        0 <= i < s.len() ==> m.contains_key(s[i].0) && m[s[i].0] == s[i].1 && in_range(
            s[i].0,
            start,
            end,
        )
    &&& forall|k: Seq<u8>|
        #![trigger m.contains_key(k)]
        m.contains_key(k) && in_range(k, start, end) ==> exists|i: int|
            0 <= i < s.len() && #[trigger] s[i].0 == k
}

/// What `get` owes: the value stored under `key`, if any.
pub open spec fn lookup(m: Map<Seq<u8>, Seq<u8>>, key: Seq<u8>, r: Option<Vec<u8>>) -> bool {
    match r {
        Some(v) => m.contains_key(key) && m[key] == v@,
        None => !m.contains_key(key),
    }
}

/// The entries of `m` under prefix `p`, keyed by what follows the prefix.
pub open spec fn strip_prefix(m: Map<Seq<u8>, Seq<u8>>, p: Seq<u8>) -> Map<Seq<u8>, Seq<u8>> {
    Map::new(|k: Seq<u8>| m.contains_key(p + k), |k: Seq<u8>| m[p + k])
}

/// Taking prefix `p` and then prefix `q` is taking prefix `p + q`.
pub proof fn lemma_strip_twice(m: Map<Seq<u8>, Seq<u8>>, p: Seq<u8>, q: Seq<u8>)
    ensures
        strip_prefix(strip_prefix(m, p), q) == strip_prefix(m, p + q),
{
    assert forall|j: Seq<u8>| #[trigger] (p + (q + j)) == (p + q) + j by {
        assert(p + (q + j) =~= (p + q) + j);
    }
    assert(strip_prefix(strip_prefix(m, p), q) =~= strip_prefix(m, p + q));
}

/// A store that can be read: point lookups and ordered range scans.
///
/// A store may be a view into another: `root_view` is then the flat store at
/// the bottom of the chain, and `root_prefix` what is put before this store's
/// keys there.
pub trait ReadonlyStorage {
    /// The entries of the store.
    spec fn view(&self) -> Map<Seq<u8>, Seq<u8>>;

    /// The entries of the flat store at the bottom of the chain of views.
    spec fn root_view(&self) -> Map<Seq<u8>, Seq<u8>>;

    /// What is put before this store's keys in the flat store at the bottom.
    spec fn root_prefix(&self) -> Seq<u8>;

    /// The store's entries are those of the bottom store under its prefix.
    proof fn lemma_view_of_root(&self)
        ensures
            self.view() == strip_prefix(self.root_view(), self.root_prefix()),
    ;

    fn get(&self, key: &[u8]) -> (r: Option<Vec<u8>>)
        ensures
            lookup(self.view(), key@, r),
    ;

    fn range(&self, start: Option<&[u8]>, end: Option<&[u8]>, order: Order) -> (r: Vec<KV>)
        ensures
            is_range_of(self.view(), opt_view(start), opt_view(end), order, kvs_view(r@)),
    ;
}

/// A store that can also be written.
pub trait Storage: ReadonlyStorage {
    fn set(&mut self, key: &[u8], value: &[u8])
        ensures
            final(self).view() == old(self).view().insert(key@, value@),
            final(self).root_prefix() == old(self).root_prefix(),
            final(self).root_view() == old(self).root_view().insert(
                old(self).root_prefix() + key@,
                value@,
            ),
    ;

    fn remove(&mut self, key: &[u8])
        ensures
            final(self).view() == old(self).view().remove(key@),
            final(self).root_prefix() == old(self).root_prefix(),
            final(self).root_view() == old(self).root_view().remove(old(self).root_prefix() + key@),
    ;
}

/// After `set(k, v)`, `get(k)` finds `v`.
pub proof fn lemma_set_then_get(m: Map<Seq<u8>, Seq<u8>>, k: Seq<u8>, v: Seq<u8>)
    ensures
        m.insert(k, v).contains_key(k),
        m.insert(k, v)[k] == v,
{
}

/// Removing a key twice leaves the store as removing it once.
pub proof fn lemma_remove_idempotent(m: Map<Seq<u8>, Seq<u8>>, k: Seq<u8>)
    ensures
        m.remove(k).remove(k) == m.remove(k),
{
    assert(m.remove(k).remove(k) =~= m.remove(k));
}

proof fn lemma_reverse_flips(
    m: Map<Seq<u8>, Seq<u8>>,
    start: Option<Seq<u8>>,
    end: Option<Seq<u8>>,
    order: Order,
    s: Seq<(Seq<u8>, Seq<u8>)>,
)
    requires
        is_range_of(m, start, end, order, s),
    ensures
        is_range_of(
            m,
            start,
            end,
            match order {
                Order::Ascending => Order::Descending,
                Order::Descending => Order::Ascending,
            },
            s.reverse(),
        ),
{
    let r = s.reverse();
    let n = s.len();
    assert forall|i: int, j: int| 0 <= i < j < r.len() implies match order {
        Order::Ascending => lex_lt(r[j].0, r[i].0),
        Order::Descending => lex_lt(r[i].0, r[j].0),
    } by {
        assert(r[i] == s[n - 1 - i]);
        assert(r[j] == s[n - 1 - j]);
    }
    assert forall|i: int| 0 <= i < r.len() implies m.contains_key(#[trigger] r[i].0) && m[r[i].0]
        == r[i].1 && in_range(r[i].0, start, end) by {
        assert(r[i] == s[n - 1 - i]);
    }
    assert forall|k: Seq<u8>| m.contains_key(k) && in_range(k, start, end) implies exists|i: int|
        0 <= i < r.len() && #[trigger] r[i].0 == k by {
        let i = choose|i: int| 0 <= i < s.len() && #[trigger] s[i].0 == k;
        assert(r[n - 1 - i] == s[i]);
    }
}

proof fn lemma_ascending_unique(
    m: Map<Seq<u8>, Seq<u8>>,
    start: Option<Seq<u8>>,
    end: Option<Seq<u8>>,
    s: Seq<(Seq<u8>, Seq<u8>)>,
    t: Seq<(Seq<u8>, Seq<u8>)>,
)
    requires
        is_range_of(m, start, end, Order::Ascending, s),
        is_range_of(m, start, end, Order::Ascending, t),
    ensures
        s == t,
    decreases s.len(),
{
    if s.len() == 0 {
        if t.len() > 0 {
            assert(m.contains_key(t[0].0));
        }
        assert(s =~= t);
    } else {
        assert(m.contains_key(s[0].0));
        let j = choose|j: int| 0 <= j < t.len() && #[trigger] t[j].0 == s[0].0;
        assert(m.contains_key(t[0].0));
        let i = choose|i: int| 0 <= i < s.len() && #[trigger] s[i].0 == t[0].0;
        if j != 0 {
            assert(lex_lt(t[0].0, t[j].0));
            if i != 0 {
                assert(lex_lt(s[0].0, s[i].0));
                lemma_lex_asym(s[0].0, t[0].0);
            } else {
                lemma_lex_irrefl(t[0].0);
            }
        }
        let k0 = s[0].0;
        assert(t[0].0 == k0);
        let m2 = m.remove(k0);
        let s2 = s.drop_first();
        let t2 = t.drop_first();
        assert forall|a: int| 0 <= a < s2.len() implies m2.contains_key(#[trigger] s2[a].0) && m2[s2[a].0]
            == s2[a].1 && in_range(s2[a].0, start, end) by {
            assert(s2[a] == s[a + 1]);
            assert(lex_lt(s[0].0, s[a + 1].0));
            lemma_lex_irrefl(k0);
        }
        assert forall|a: int| 0 <= a < t2.len() implies m2.contains_key(#[trigger] t2[a].0) && m2[t2[a].0]
            == t2[a].1 && in_range(t2[a].0, start, end) by {
            assert(t2[a] == t[a + 1]);
            assert(lex_lt(t[0].0, t[a + 1].0));
            lemma_lex_irrefl(k0);
        }
        assert forall|k: Seq<u8>| m2.contains_key(k) && in_range(k, start, end) implies exists|a: int|
            0 <= a < s2.len() && #[trigger] s2[a].0 == k by {
            assert(m.contains_key(k));
            let a = choose|a: int| 0 <= a < s.len() && #[trigger] s[a].0 == k;
            assert(s2[a - 1] == s[a]);
        }
        assert forall|k: Seq<u8>| m2.contains_key(k) && in_range(k, start, end) implies exists|a: int|
            0 <= a < t2.len() && #[trigger] t2[a].0 == k by {
            assert(m.contains_key(k));
            let a = choose|a: int| 0 <= a < t.len() && #[trigger] t[a].0 == k;
            assert(t2[a - 1] == t[a]);
        }
        assert forall|a: int, b: int| 0 <= a < b < s2.len() implies lex_lt(
            #[trigger] s2[a].0,
            #[trigger] s2[b].0,
        ) by {
            assert(s2[a] == s[a + 1] && s2[b] == s[b + 1]);
        }
        assert forall|a: int, b: int| 0 <= a < b < t2.len() implies lex_lt(
            #[trigger] t2[a].0,
            #[trigger] t2[b].0,
        ) by {
            assert(t2[a] == t[a + 1] && t2[b] == t[b + 1]);
        }
        lemma_ascending_unique(m2, start, end, s2, t2);
        assert(s[0] == t[0]);
        assert(s =~= t2.insert(0, t[0]));
        assert(t =~= t2.insert(0, t[0]));
    }
}

/// A descending scan lists the same entries as an ascending scan over the
/// same bounds, in reverse.
pub proof fn lemma_range_symmetry(
    m: Map<Seq<u8>, Seq<u8>>,
    start: Option<Seq<u8>>,
    end: Option<Seq<u8>>,
    asc: Seq<(Seq<u8>, Seq<u8>)>,
    desc: Seq<(Seq<u8>, Seq<u8>)>,
)
    requires
        is_range_of(m, start, end, Order::Ascending, asc),
        is_range_of(m, start, end, Order::Descending, desc),
    ensures
        desc == asc.reverse(),
{
    lemma_reverse_flips(m, start, end, Order::Descending, desc);
    lemma_ascending_unique(m, start, end, asc, desc.reverse());
    assert(desc =~= desc.reverse().reverse());
}

} // verus!
