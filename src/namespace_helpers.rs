//! Reading and writing one namespace of a store: keys are prefixed on the way
//! in and range scans are translated into the prefixed key space.
use vstd::prelude::*;
use crate::lex::{
    has_prefix, lemma_lex_common_prefix, lemma_lex_empty, lemma_lex_between,
    lemma_lex_proper_prefix, lemma_lex_trans, lemma_upper_bound, lex_lt, upper_bound,
};
use crate::storage::{
    in_range, is_range_of, kvs_view, lookup, opt_view, strip_prefix, Order, ReadonlyStorage,
    Storage, KV,
};

verus! {

/// The physical lower bound of a scan under prefix `p`.
pub open spec fn physical_start(p: Seq<u8>, start: Option<Seq<u8>>) -> Option<Seq<u8>> {
    match start {
        Some(s) => Some(p + s),
        None => Some(p),
    }
}

/// The physical upper bound of a scan under prefix `p`.
pub open spec fn physical_end(p: Seq<u8>, end: Option<Seq<u8>>) -> Option<Seq<u8>> {
    match end {
        Some(e) => Some(p + e),
        None => upper_bound(p),
    }
}

/// A physical key lies within the translated bounds exactly when it carries
/// the prefix and what follows lies within the logical bounds.
pub proof fn lemma_physical_range(
    p: Seq<u8>,
    k: Seq<u8>,
    start: Option<Seq<u8>>,
    end: Option<Seq<u8>>,
)
    ensures
        in_range(k, physical_start(p, start), physical_end(p, end)) <==> (has_prefix(k, p)
            && in_range(k.skip(p.len() as int), start, end)),
{
    let s0 = match start {
        Some(s) => s,
        None => Seq::<u8>::empty(),
    };
    assert(p + Seq::<u8>::empty() =~= p);
    lemma_upper_bound(p, k);
    if has_prefix(k, p) {
        let l = k.skip(p.len() as int);
        assert(k =~= p + l);
        lemma_lex_common_prefix(p, l, s0);
        lemma_lex_empty(l);
        if let Some(e) = end {
            lemma_lex_common_prefix(p, l, e);
        }
    }
    if in_range(k, physical_start(p, start), physical_end(p, end)) {
        if lex_lt(k, p) {
            if s0.len() > 0 {
                assert(has_prefix(p + s0, p));
                lemma_lex_proper_prefix(p, p + s0);
                lemma_lex_trans(k, p, p + s0);
            }
        }
        if let Some(e) = end {
            lemma_lex_between(p, k, e);
        }
    }
}

/// `namespace ++ key`.
pub fn concat(namespace: &[u8], key: &[u8]) -> (r: Vec<u8>)
    ensures
        r@ == namespace@ + key@,
{
    let mut out: Vec<u8> = Vec::new();
    let mut i: usize = 0;
    while i < namespace.len()
        invariant
            i <= namespace.len(),
            out@ == namespace@.take(i as int),
        decreases namespace.len() - i,
    {
        out.push(namespace[i]);
        assert(namespace@.take(i + 1) =~= namespace@.take(i as int).push(namespace@[i as int]));
        i += 1;
    }
    let mut j: usize = 0;
    while j < key.len()
        invariant
            i == namespace.len(),
            j <= key.len(),
            out@ == namespace@ + key@.take(j as int),
        decreases key.len() - j,
    {
        out.push(key[j]);
        assert(key@.take(j + 1) =~= key@.take(j as int).push(key@[j as int]));
        j += 1;
    }
    assert(namespace@.take(i as int) =~= namespace@);
    assert(key@.take(j as int) =~= key@);
    out
}

/// What follows the namespace in a physical key.
pub fn trim(namespace: &[u8], key: &[u8]) -> (r: Vec<u8>)
    requires
        namespace.len() <= key.len(),
    ensures
        r@ == key@.skip(namespace.len() as int),
{
    let mut out: Vec<u8> = Vec::with_capacity(key.len() - namespace.len());
    let mut i: usize = namespace.len();
    while i < key.len()
        invariant
            namespace.len() <= i <= key.len(),
            out@ == key@.subrange(namespace.len() as int, i as int),
        decreases key.len() - i,
    {
        out.push(key[i]);
        assert(key@.subrange(namespace.len() as int, i + 1) =~= key@.subrange(
            namespace.len() as int,
            i as int,
        ).push(key@[i as int]));
        i += 1;
    }
    assert(key@.subrange(namespace.len() as int, i as int) =~= key@.skip(namespace.len() as int));
    out
}

/// The least key above every key that starts with `namespace`, or `None`
/// when the namespace holds only 0xFF bytes and no key bounds it.
pub fn namespace_upper_bound(namespace: &[u8]) -> (r: Option<Vec<u8>>)
    ensures
        match r {
            Some(v) => upper_bound(namespace@) == Some(v@),
            None => upper_bound(namespace@) is None,
        },
{
    let mut copy = vstd::slice::slice_to_vec(namespace);
    while copy.len() > 0 && copy[copy.len() - 1] == 0xFFu8
        invariant
            upper_bound(copy@) == upper_bound(namespace@),
        decreases copy.len(),
    {
        copy.pop();
    }
    if copy.len() == 0 {
        None
    } else {
        let last = copy.pop().unwrap();
        copy.push(last + 1);
        Some(copy)
    }
}

/// Reads `key` in the namespace.
pub fn get_with_prefix<S: ReadonlyStorage + ?Sized>(storage: &S, namespace: &[u8], key: &[u8]) -> (r:
    Option<Vec<u8>>)
    ensures
        lookup(strip_prefix(storage.view(), namespace@), key@, r),
{
    let k = concat(namespace, key);
    storage.get(k.as_slice())
}

/// Writes `key` in the namespace.
pub fn set_with_prefix<S: Storage + ?Sized>(
    storage: &mut S,
    namespace: &[u8],
    key: &[u8],
    value: &[u8],
)
    ensures
        final(storage).view() == old(storage).view().insert(namespace@ + key@, value@),
        final(storage).root_prefix() == old(storage).root_prefix(),
        final(storage).root_view() == old(storage).root_view().insert(
            old(storage).root_prefix() + (namespace@ + key@),
            value@,
        ),
{
    let k = concat(namespace, key);
    storage.set(k.as_slice(), value);
}

/// Deletes `key` in the namespace.
pub fn remove_with_prefix<S: Storage + ?Sized>(storage: &mut S, namespace: &[u8], key: &[u8])
    ensures
        final(storage).view() == old(storage).view().remove(namespace@ + key@),
        final(storage).root_prefix() == old(storage).root_prefix(),
        final(storage).root_view() == old(storage).root_view().remove(
            old(storage).root_prefix() + (namespace@ + key@),
        ),
{
    let k = concat(namespace, key);
    storage.remove(k.as_slice());
}

/// Removing one prefixed key or inserting it changes the namespace's entries
/// at that key alone.
pub proof fn lemma_strip_update(m: Map<Seq<u8>, Seq<u8>>, p: Seq<u8>, k: Seq<u8>, v: Seq<u8>)
    ensures
        strip_prefix(m.insert(p + k, v), p) == strip_prefix(m, p).insert(k, v),
        strip_prefix(m.remove(p + k), p) == strip_prefix(m, p).remove(k),
{
    assert forall|j: Seq<u8>| (#[trigger] (p + j)) == p + k implies j == k by {
        assert(j =~= (p + j).skip(p.len() as int));
        assert(k =~= (p + k).skip(p.len() as int));
    }
    assert(strip_prefix(m.insert(p + k, v), p) =~= strip_prefix(m, p).insert(k, v));
    assert(strip_prefix(m.remove(p + k), p) =~= strip_prefix(m, p).remove(k));
}

/// Scans the namespace over `[start, end)`; keys come back without the prefix.
pub fn range_with_prefix<S: ReadonlyStorage + ?Sized>(
    storage: &S,
    namespace: &[u8],
    start: Option<&[u8]>,
    end: Option<&[u8]>,
    order: Order,
) -> (r: Vec<KV>)
    ensures
        is_range_of(
            strip_prefix(storage.view(), namespace@),
            opt_view(start),
            opt_view(end),
            order,
            kvs_view(r@),
        ),
{
    let ghost p = namespace@;
    let ghost m = storage.view();
    let start_key = match start {
        Some(s) => concat(namespace, s),
        None => vstd::slice::slice_to_vec(namespace),
    };
    let end_key = match end {
        Some(e) => Some(concat(namespace, e)),
        None => namespace_upper_bound(namespace),
    };
    let raw = match &end_key {
        Some(e) => storage.range(Some(start_key.as_slice()), Some(e.as_slice()), order),
        None => storage.range(Some(start_key.as_slice()), None, order),
    };
    let ghost ps = physical_start(p, opt_view(start));
    let ghost pe = physical_end(p, opt_view(end));
    let ghost rs = kvs_view(raw@);
    assert(start_key@ == ps.unwrap());
    assert(is_range_of(m, ps, pe, order, rs));
    assert forall|i: int| 0 <= i < rs.len() implies has_prefix(#[trigger] rs[i].0, p) && in_range(
        rs[i].0.skip(p.len() as int),
        opt_view(start),
        opt_view(end),
    ) by {
        lemma_physical_range(p, rs[i].0, opt_view(start), opt_view(end));
    }
    let mut out: Vec<KV> = Vec::with_capacity(raw.len());
    let mut i: usize = 0;
    while i < raw.len()
        invariant
            i <= raw.len(),
            rs == kvs_view(raw@),
            forall|j: int| 0 <= j < rs.len() ==> has_prefix(#[trigger] rs[j].0, p),
            p == namespace@,
            out@.len() == i,
            forall|j: int|
                0 <= j < i ==> #[trigger] kvs_view(out@)[j] == (rs[j].0.skip(p.len() as int), rs[j].1),
        decreases raw.len() - i,
    {
        assert(has_prefix(rs[i as int].0, p));
        let k = trim(namespace, raw[i].0.as_slice());
        let v = vstd::slice::slice_to_vec(raw[i].1.as_slice());
        let ghost before = out@;
        let ghost item = (k@, v@);
        out.push((k, v));
        assert(kvs_view(out@) =~= kvs_view(before).push(item));
        i += 1;
    }
    let ghost os = kvs_view(out@);
    let ghost sm = strip_prefix(m, p);
    assert forall|a: int, b: int| 0 <= a < b < os.len() implies match order {
        Order::Ascending => lex_lt(#[trigger] os[a].0, #[trigger] os[b].0),
        Order::Descending => lex_lt(os[b].0, os[a].0),
    } by {
        assert(os[a] == (rs[a].0.skip(p.len() as int), rs[a].1));
        assert(os[b] == (rs[b].0.skip(p.len() as int), rs[b].1));
        assert(has_prefix(rs[a].0, p));
        assert(has_prefix(rs[b].0, p));
        assert(rs[a].0 =~= p + os[a].0);
        assert(rs[b].0 =~= p + os[b].0);
        lemma_lex_common_prefix(p, os[a].0, os[b].0);
        lemma_lex_common_prefix(p, os[b].0, os[a].0);
    }
    assert forall|a: int| 0 <= a < os.len() implies sm.contains_key(#[trigger] os[a].0)
        && sm[os[a].0] == os[a].1 && in_range(os[a].0, opt_view(start), opt_view(end)) by {
        assert(os[a] == (rs[a].0.skip(p.len() as int), rs[a].1));
        assert(has_prefix(rs[a].0, p));
        assert(rs[a].0 =~= p + os[a].0);
    }
    assert forall|k: Seq<u8>| sm.contains_key(k) && in_range(
        k,
        opt_view(start),
        opt_view(end),
    ) implies exists|a: int| 0 <= a < os.len() && #[trigger] os[a].0 == k by {
        let pk = p + k;
        assert(has_prefix(pk, p));
        assert(pk.skip(p.len() as int) =~= k);
        lemma_physical_range(p, pk, opt_view(start), opt_view(end));
        assert(m.contains_key(pk));
        assert(in_range(pk, ps, pe));
        assert(exists|a: int| 0 <= a < rs.len() && #[trigger] rs[a].0 == pk);
        let a = choose|a: int| 0 <= a < rs.len() && #[trigger] rs[a].0 == pk;
        assert(os[a] == (rs[a].0.skip(p.len() as int), rs[a].1));
        assert(os[a].0 == k);
    }
    out
}

} // verus!
