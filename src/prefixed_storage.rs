//! Views of a store confined to one namespace, which can be nested.
use vstd::prelude::*;
use crate::length_prefixed::{
    encode_many, encode_one, lemma_encode_many_first, segments_fit, segments_view,
    to_length_prefixed, to_length_prefixed_nested, MAX_SEGMENT_LEN,
};
use crate::namespace_helpers::{
    get_with_prefix, lemma_strip_update, range_with_prefix, remove_with_prefix, set_with_prefix,
};
use crate::storage::{lemma_strip_twice, strip_prefix, Order, ReadonlyStorage, Storage, KV};

verus! {

/// Opens a writable view of `storage` confined to `namespace`.
pub fn prefixed<'a, S: Storage>(storage: &'a mut S, namespace: &[u8]) -> (r: PrefixedStorage<'a, S>)
    requires
        namespace.len() <= MAX_SEGMENT_LEN,
    ensures
        r.prefix() == encode_one(namespace@),
        r.inner() == *old(storage),
        *final(r.storage) == *final(storage),
{
    PrefixedStorage::new(storage, namespace)
}

/// Opens a read-only view of `storage` confined to `namespace`.
pub fn prefixed_read<'a, S: ReadonlyStorage>(storage: &'a S, namespace: &[u8]) -> (r:
    ReadonlyPrefixedStorage<'a, S>)
    requires
        namespace.len() <= MAX_SEGMENT_LEN,
    ensures
        r.prefix() == encode_one(namespace@),
        r.inner() == *storage,
{
    ReadonlyPrefixedStorage::new(storage, namespace)
}

/// A writable view of a store in which every key carries a fixed prefix.
pub struct PrefixedStorage<'a, S: Storage> {
    /// The wrapped store.
    pub storage: &'a mut S,
    /// The prefix put before every key.
    pub prefix: Vec<u8>,
}

impl<'a, S: Storage> PrefixedStorage<'a, S> {
    /// The prefix put before every key.
    pub open spec fn prefix(&self) -> Seq<u8> {
        self.prefix@
    }

    /// The wrapped store.
    pub open spec fn inner(&self) -> S {
        *self.storage
    }

    pub fn new(storage: &'a mut S, namespace: &[u8]) -> (r: Self)
        requires
            namespace.len() <= MAX_SEGMENT_LEN,
        ensures
            r.prefix() == encode_one(namespace@),
            r.inner() == *old(storage),
            *final(r.storage) == *final(storage),
    {
        PrefixedStorage { storage, prefix: to_length_prefixed(namespace) }
    }

    /// A view nested through every namespace of the list in turn.
    pub fn multilevel(storage: &'a mut S, namespaces: &[&[u8]]) -> (r: Self)
        requires
            segments_fit(segments_view(namespaces@)),
        ensures
            r.prefix() == encode_many(segments_view(namespaces@)),
            r.inner() == *old(storage),
            *final(r.storage) == *final(storage),
    {
        PrefixedStorage { storage, prefix: to_length_prefixed_nested(namespaces) }
    }

    /// Gives up the view and hands back the wrapped store.
    pub fn into_inner(self) -> (r: &'a mut S)
        ensures
            *r == self.inner(),
            *final(r) == *final(self.storage),
    {
        self.storage
    }
}

impl<'a, S: Storage> ReadonlyStorage for PrefixedStorage<'a, S> {
    open spec fn view(&self) -> Map<Seq<u8>, Seq<u8>> {
        strip_prefix(self.inner().view(), self.prefix())
    }

    open spec fn root_view(&self) -> Map<Seq<u8>, Seq<u8>> {
        self.inner().root_view()
    }

    open spec fn root_prefix(&self) -> Seq<u8> {
        self.inner().root_prefix() + self.prefix()
    }

    proof fn lemma_view_of_root(&self) {
        self.inner().lemma_view_of_root();
        lemma_strip_twice(self.inner().root_view(), self.inner().root_prefix(), self.prefix());
    }

    fn get(&self, key: &[u8]) -> (r: Option<Vec<u8>>) {
        get_with_prefix(&*self.storage, self.prefix.as_slice(), key)
    }

    fn range(&self, start: Option<&[u8]>, end: Option<&[u8]>, order: Order) -> (r: Vec<KV>) {
        range_with_prefix(&*self.storage, self.prefix.as_slice(), start, end, order)
    }
}

impl<'a, S: Storage> Storage for PrefixedStorage<'a, S> {
    fn set(&mut self, key: &[u8], value: &[u8])
        ensures
            final(self).prefix() == old(self).prefix(),
            final(self).inner().view() == old(self).inner().view().insert(
                old(self).prefix() + key@,
                value@,
            ),
            *final(final(self).storage) == *final(old(self).storage),
    {
        set_with_prefix(self.storage, self.prefix.as_slice(), key, value);
        proof {
            assert(old(self).inner().root_prefix() + (self.prefix@ + key@) =~= old(self).root_prefix() + key@);
            lemma_strip_update(old(self).inner().view(), self.prefix@, key@, value@);
        }
    }

    fn remove(&mut self, key: &[u8])
        ensures
            final(self).prefix() == old(self).prefix(),
            final(self).inner().view() == old(self).inner().view().remove(old(self).prefix() + key@),
            *final(final(self).storage) == *final(old(self).storage),
    {
        remove_with_prefix(self.storage, self.prefix.as_slice(), key);
        proof {
            assert(old(self).inner().root_prefix() + (self.prefix@ + key@) =~= old(self).root_prefix() + key@);
            lemma_strip_update(old(self).inner().view(), self.prefix@, key@, Seq::empty());
        }
    }
}

/// A read-only view of a store in which every key carries a fixed prefix.
pub struct ReadonlyPrefixedStorage<'a, S: ReadonlyStorage> {
    storage: &'a S,
    prefix: Vec<u8>,
}

impl<'a, S: ReadonlyStorage> ReadonlyPrefixedStorage<'a, S> {
    /// The prefix put before every key.
    pub closed spec fn prefix(&self) -> Seq<u8> {
        self.prefix@
    }

    /// The wrapped store.
    pub closed spec fn inner(&self) -> S {
        *self.storage
    }

    pub fn new(storage: &'a S, namespace: &[u8]) -> (r: Self)
        requires
            namespace.len() <= MAX_SEGMENT_LEN,
        ensures
            r.prefix() == encode_one(namespace@),
            r.inner() == *storage,
    {
        ReadonlyPrefixedStorage { storage, prefix: to_length_prefixed(namespace) }
    }

    /// A view nested through every namespace of the list in turn.
    pub fn multilevel(storage: &'a S, namespaces: &[&[u8]]) -> (r: Self)
        requires
            segments_fit(segments_view(namespaces@)),
        ensures
            r.prefix() == encode_many(segments_view(namespaces@)),
            r.inner() == *storage,
    {
        ReadonlyPrefixedStorage { storage, prefix: to_length_prefixed_nested(namespaces) }
    }
}

impl<'a, S: ReadonlyStorage> ReadonlyStorage for ReadonlyPrefixedStorage<'a, S> {
    open spec fn view(&self) -> Map<Seq<u8>, Seq<u8>> {
        strip_prefix(self.inner().view(), self.prefix())
    }

    open spec fn root_view(&self) -> Map<Seq<u8>, Seq<u8>> {
        self.inner().root_view()
    }

    open spec fn root_prefix(&self) -> Seq<u8> {
        self.inner().root_prefix() + self.prefix()
    }

    proof fn lemma_view_of_root(&self) {
        self.inner().lemma_view_of_root();
        lemma_strip_twice(self.inner().root_view(), self.inner().root_prefix(), self.prefix());
    }

    fn get(&self, key: &[u8]) -> (r: Option<Vec<u8>>) {
        get_with_prefix(self.storage, self.prefix.as_slice(), key)
    }

    fn range(&self, start: Option<&[u8]>, end: Option<&[u8]>, order: Order) -> (r: Vec<KV>) {
        range_with_prefix(self.storage, self.prefix.as_slice(), start, end, order)
    }
}

/// A view for namespaces `[a, b]` and a view for `b` nested in one for `a`
/// are the same view: both write a key to the same physical key, and both
/// see the same entries of any store, so a value written through one is read
/// back through the other.
pub proof fn lemma_nested_equals_multilevel(
    m: Map<Seq<u8>, Seq<u8>>,
    a: Seq<u8>,
    b: Seq<u8>,
    k: Seq<u8>,
    v: Seq<u8>,
)
    ensures
        encode_many(seq![a, b]) + k == encode_one(a) + (encode_one(b) + k),
        strip_prefix(strip_prefix(m, encode_one(a)), encode_one(b)) == strip_prefix(
            m,
            encode_many(seq![a, b]),
        ),
        strip_prefix(strip_prefix(m.insert(encode_many(seq![a, b]) + k, v), encode_one(a)), encode_one(b))[k] == v,
        strip_prefix(strip_prefix(m.insert(encode_many(seq![a, b]) + k, v), encode_one(a)), encode_one(b)).contains_key(k),
{
    let ns = seq![a, b];
    lemma_encode_many_first(ns);
    let rest = ns.drop_first();
    lemma_encode_many_first(rest);
    assert(rest.drop_first().len() == 0);
    assert(encode_many(rest.drop_first()) =~= Seq::<u8>::empty());
    let ea = encode_one(a);
    let eb = encode_one(b);
    assert(encode_many(ns) =~= ea + eb);
    assert forall|j: Seq<u8>| #[trigger] (ea + (eb + j)) == (ea + eb) + j by {
        assert(ea + (eb + j) =~= (ea + eb) + j);
    }
    assert(strip_prefix(strip_prefix(m, ea), eb) =~= strip_prefix(m, ea + eb));
    let m2 = m.insert(encode_many(ns) + k, v);
    assert(strip_prefix(strip_prefix(m2, ea), eb) =~= strip_prefix(m2, ea + eb));
}

} // verus!
