//! Length-prefixed encoding of namespaces into key prefixes: each segment is
//! a two-byte big-endian length followed by its bytes.
use vstd::prelude::*;
use crate::lex::has_prefix;

verus! {

/// The largest length a namespace segment can have.
pub const MAX_SEGMENT_LEN: usize = 0xFFFF;

/// One segment: its length as two big-endian bytes, then its bytes.
pub open spec fn encode_one(ns: Seq<u8>) -> Seq<u8> {
    seq![(ns.len() / 256) as u8, (ns.len() % 256) as u8] + ns
}

/// The segments encoded one after the other, in order.
pub open spec fn encode_many(nss: Seq<Seq<u8>>) -> Seq<u8>
    decreases nss.len(),
{
    if nss.len() == 0 {
        Seq::empty()
    } else {
        encode_many(nss.drop_last()) + encode_one(nss.last())
    }
}

/// Every segment fits a two-byte length.
pub open spec fn segments_fit(nss: Seq<Seq<u8>>) -> bool {
    forall|i: int| 0 <= i < nss.len() ==> (#[trigger] nss[i]).len() <= MAX_SEGMENT_LEN
}

/// `a` is the list `b` cut short (or `b` itself).
pub open spec fn is_list_prefix(a: Seq<Seq<u8>>, b: Seq<Seq<u8>>) -> bool {
    a.len() <= b.len() && b.take(a.len() as int) == a
}

/// The byte strings behind a list of slices.
pub open spec fn segments_view(nss: Seq<&[u8]>) -> Seq<Seq<u8>> {
    nss.map_values(|s: &[u8]| s@)
}

/// Encodes one namespace as a key prefix.
pub fn to_length_prefixed(namespace: &[u8]) -> (r: Vec<u8>)
    requires
        namespace.len() <= MAX_SEGMENT_LEN,
    ensures
        r@ == encode_one(namespace@),
{
    let mut out: Vec<u8> = Vec::with_capacity(namespace.len() + 2);
    push_segment(&mut out, namespace);
    assert(out@ =~= encode_one(namespace@));
    out
}

/// Encodes a list of nested namespaces as one key prefix.
pub fn to_length_prefixed_nested(namespaces: &[&[u8]]) -> (r: Vec<u8>)
    requires
        segments_fit(segments_view(namespaces@)),
    ensures
        r@ == encode_many(segments_view(namespaces@)),
{
    let ghost nss = segments_view(namespaces@);
    let mut out: Vec<u8> = Vec::new();
    let mut i: usize = 0;
    while i < namespaces.len()
        invariant
            i <= namespaces.len(),
            nss == segments_view(namespaces@),
            segments_fit(nss),
            out@ == encode_many(nss.take(i as int)),
        decreases namespaces.len() - i,
    {
        assert(nss[i as int].len() <= MAX_SEGMENT_LEN);
        push_segment(&mut out, namespaces[i]);
        assert(nss.take(i + 1).drop_last() =~= nss.take(i as int));
        i += 1;
    }
    assert(nss.take(i as int) =~= nss);
    out
}

fn push_segment(out: &mut Vec<u8>, segment: &[u8])
    requires
        segment.len() <= MAX_SEGMENT_LEN,
    ensures
        final(out)@ == old(out)@ + encode_one(segment@),
{
    let n = segment.len();
    out.push((n / 256) as u8);
    out.push((n % 256) as u8);
    let mut i: usize = 0;
    while i < n
        invariant
            n == segment.len(),
            i <= n,
            out@ == old(out)@ + seq![(n / 256) as u8, (n % 256) as u8] + segment@.take(i as int),
        decreases n - i,
    {
        out.push(segment[i]);
        assert(segment@.take(i + 1) =~= segment@.take(i as int).push(segment@[i as int]));
        i += 1;
    }
    assert(segment@.take(n as int) =~= segment@);
    assert(out@ =~= old(out)@ + encode_one(segment@));
}

/// Encoding a list that is split in two gives the two encodings one after
/// the other.
pub proof fn lemma_encode_many_append(a: Seq<Seq<u8>>, b: Seq<Seq<u8>>)
    ensures
        encode_many(a + b) == encode_many(a) + encode_many(b),
    decreases b.len(),
{
    if b.len() == 0 {
        assert(a + b =~= a);
        assert(encode_many(a) + encode_many(b) =~= encode_many(a));
    } else {
        lemma_encode_many_append(a, b.drop_last());
        assert((a + b).drop_last() =~= a + b.drop_last());
        assert(encode_many(a + b) =~= encode_many(a) + encode_many(b));
    }
}

/// A nonempty list encodes as its first segment followed by the rest.
pub proof fn lemma_encode_many_first(nss: Seq<Seq<u8>>)
    requires
        nss.len() > 0,
    ensures
        encode_many(nss) == encode_one(nss[0]) + encode_many(nss.drop_first()),
{
    lemma_encode_many_append(seq![nss[0]], nss.drop_first());
    assert(seq![nss[0]] + nss.drop_first() =~= nss);
    assert(seq![nss[0]].drop_last() =~= Seq::<Seq<u8>>::empty());
    assert(encode_many(seq![nss[0]].drop_last()) =~= Seq::<u8>::empty());
    assert(encode_many(seq![nss[0]]) =~= encode_one(nss[0]));
}

proof fn lemma_segments_differ(a: Seq<u8>, b: Seq<u8>, ra: Seq<u8>, rb: Seq<u8>)
    requires
        a != b,
        a.len() <= MAX_SEGMENT_LEN,
        b.len() <= MAX_SEGMENT_LEN,
    ensures
        exists|j: int|
            0 <= j < (encode_one(a) + ra).len() && j < (encode_one(b) + rb).len() && (encode_one(
                a,
            ) + ra)[j] != (encode_one(b) + rb)[j],
{
    let x = encode_one(a) + ra;
    let y = encode_one(b) + rb;
    if a.len() != b.len() {
        if x[0] == y[0] && x[1] == y[1] {
            assert(a.len() == 256 * (a.len() / 256) + a.len() % 256);
            assert(b.len() == 256 * (b.len() / 256) + b.len() % 256);
        }
        if x[0] != y[0] {
            assert(0 < x.len() && 0 < y.len());
        } else {
            assert(x[1] != y[1]);
        }
    } else {
        if forall|k: int| 0 <= k < a.len() ==> a[k] == b[k] {
            assert(a =~= b);
        }
        let k = choose|k: int| 0 <= k < a.len() && a[k] != b[k];
        assert(x[2 + k] == a[k]);
        assert(y[2 + k] == b[k]);
    }
}

/// Distinct namespace lists, neither of which nests the other, encode to
/// prefixes neither of which is a prefix of the other: their key spaces
/// cannot overlap.
pub proof fn lemma_prefix_free(n1: Seq<Seq<u8>>, n2: Seq<Seq<u8>>)
    requires
        segments_fit(n1),
        segments_fit(n2),
        !is_list_prefix(n1, n2),
        !is_list_prefix(n2, n1),
    ensures
        !has_prefix(encode_many(n2), encode_many(n1)),
        !has_prefix(encode_many(n1), encode_many(n2)),
    decreases n1.len(),
{
    if n1.len() == 0 {
        assert(n2.take(0) =~= n1);
    } else if n2.len() == 0 {
        assert(n1.take(0) =~= n2);
    } else {
        lemma_encode_many_first(n1);
        lemma_encode_many_first(n2);
        let e1 = encode_many(n1);
        let e2 = encode_many(n2);
        if n1[0] == n2[0] {
            let t1 = n1.drop_first();
            let t2 = n2.drop_first();
            if is_list_prefix(t1, t2) {
                assert forall|i: int| 0 <= i < n1.len() implies #[trigger] n2[i] == n1[i] by {
                    if i > 0 {
                        assert(t2.take(t1.len() as int)[i - 1] == t1[i - 1]);
                    }
                }
                assert(n2.take(n1.len() as int) =~= n1);
            }
            if is_list_prefix(t2, t1) {
                assert forall|i: int| 0 <= i < n2.len() implies #[trigger] n1[i] == n2[i] by {
                    if i > 0 {
                        assert(t1.take(t2.len() as int)[i - 1] == t2[i - 1]);
                    }
                }
                assert(n1.take(n2.len() as int) =~= n2);
            }
            assert(segments_fit(t1)) by {
                assert forall|i: int| 0 <= i < t1.len() implies (#[trigger] t1[i]).len()
                    <= MAX_SEGMENT_LEN by {
                    assert(t1[i] == n1[i + 1]);
                }
            }
            assert(segments_fit(t2)) by {
                assert forall|i: int| 0 <= i < t2.len() implies (#[trigger] t2[i]).len()
                    <= MAX_SEGMENT_LEN by {
                    assert(t2[i] == n2[i + 1]);
                }
            }
            lemma_prefix_free(t1, t2);
            let h = encode_one(n1[0]);
            let r1 = encode_many(t1);
            let r2 = encode_many(t2);
            if has_prefix(e2, e1) {
                assert forall|j: int| 0 <= j < r1.len() implies #[trigger] r2[j] == r1[j] by {
                    assert(e2[h.len() + j] == e1[h.len() + j]);
                }
            }
            if has_prefix(e1, e2) {
                assert forall|j: int| 0 <= j < r2.len() implies #[trigger] r1[j] == r2[j] by {
                    assert(e2[h.len() + j] == e1[h.len() + j]);
                }
            }
        } else {
            assert(n1[0].len() <= MAX_SEGMENT_LEN);
            assert(n2[0].len() <= MAX_SEGMENT_LEN);
            lemma_segments_differ(
                n1[0],
                n2[0],
                encode_many(n1.drop_first()),
                encode_many(n2.drop_first()),
            );
        }
    }
}

proof fn lemma_nested_longer(a: Seq<Seq<u8>>, b: Seq<Seq<u8>>)
    requires
        is_list_prefix(a, b),
        a != b,
    ensures
        encode_many(a).len() < encode_many(b).len(),
{
    let rest = b.skip(a.len() as int);
    assert(a + rest =~= b);
    lemma_encode_many_append(a, rest);
    assert(encode_one(rest.last()).len() >= 2);
}

/// Distinct namespace lists never encode to the same prefix.
pub proof fn lemma_encode_many_injective(n1: Seq<Seq<u8>>, n2: Seq<Seq<u8>>)
    requires
        segments_fit(n1),
        segments_fit(n2),
        n1 != n2,
    ensures
        encode_many(n1) != encode_many(n2),
{
    if is_list_prefix(n1, n2) {
        lemma_nested_longer(n1, n2);
    } else if is_list_prefix(n2, n1) {
        lemma_nested_longer(n2, n1);
    } else {
        lemma_prefix_free(n1, n2);
    }
}

} // verus!
