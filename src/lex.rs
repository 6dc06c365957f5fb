//! Lexicographic order on byte strings, the order in which a store's keys
//! are scanned, and the facts about it that key prefixing relies on.
use vstd::prelude::*;

verus! {

/// `a < b` in lexicographic order, comparing from position `i` on.
pub open spec fn lex_lt_from(a: Seq<u8>, b: Seq<u8>, i: int) -> bool
    decreases a.len() - i,
{
    if i >= a.len() {
        i < b.len()
    } else if i >= b.len() {
        false
    } else if a[i] != b[i] {
        a[i] < b[i]
    } else {
        lex_lt_from(a, b, i + 1)
    }
}

/// Strict lexicographic order on byte strings: a proper prefix comes first.
pub open spec fn lex_lt(a: Seq<u8>, b: Seq<u8>) -> bool {
    lex_lt_from(a, b, 0)
}

/// `p` is a prefix of `k`.
pub open spec fn has_prefix(k: Seq<u8>, p: Seq<u8>) -> bool {
    p.len() <= k.len() && forall|j: int| 0 <= j < p.len() ==> #[trigger] k[j] == p[j]
}

/// The smallest byte string above every string that starts with `p`: trailing
/// 0xFF bytes are dropped and the last other byte is raised by one. `None` when
/// `p` holds only 0xFF bytes, so that no string bounds them all.
pub open spec fn upper_bound(p: Seq<u8>) -> Option<Seq<u8>>
    decreases p.len(),
{
    if p.len() == 0 {
        None
    } else if p.last() == 0xFFu8 {
        upper_bound(p.drop_last())
    } else {
        Some(p.drop_last().push((p.last() + 1) as u8))
    }
}

proof fn lemma_from_shift(a: Seq<u8>, b: Seq<u8>, i: int)
    requires
        0 <= i <= a.len(),
        i <= b.len(),
        forall|j: int| 0 <= j < i ==> a[j] == b[j],
    ensures
        lex_lt(a, b) == lex_lt_from(a, b, i),
    decreases i,
{
    if i > 0 {
        lemma_from_shift(a, b, i - 1);
    }
}

proof fn lemma_from_irrefl(a: Seq<u8>, i: int)
    requires
        0 <= i,
    ensures
        !lex_lt_from(a, a, i),
    decreases a.len() - i,
{
    if i < a.len() {
        lemma_from_irrefl(a, i + 1);
    }
}

proof fn lemma_from_asym(a: Seq<u8>, b: Seq<u8>, i: int)
    requires
        lex_lt_from(a, b, i),
    ensures
        !lex_lt_from(b, a, i),
    decreases a.len() - i,
{
    if i < a.len() && i < b.len() && a[i] == b[i] {
        lemma_from_asym(a, b, i + 1);
    }
}

proof fn lemma_from_trans(a: Seq<u8>, b: Seq<u8>, c: Seq<u8>, i: int)
    requires
        lex_lt_from(a, b, i),
        lex_lt_from(b, c, i),
    ensures
        lex_lt_from(a, c, i),
    decreases a.len() - i,
{
    if i < a.len() && i < b.len() && i < c.len() && a[i] == b[i] && b[i] == c[i] {
        lemma_from_trans(a, b, c, i + 1);
    }
}

proof fn lemma_from_total(a: Seq<u8>, b: Seq<u8>, i: int)
    requires
        0 <= i <= a.len(),
        i <= b.len(),
    ensures
        lex_lt_from(a, b, i) || lex_lt_from(b, a, i) || (a.len() == b.len() && forall|j: int|
            i <= j < a.len() ==> a[j] == b[j]),
    decreases a.len() - i,
{
    if i < a.len() && i < b.len() && a[i] == b[i] {
        lemma_from_total(a, b, i + 1);
    }
}

pub proof fn lemma_lex_irrefl(a: Seq<u8>)
    ensures
        !lex_lt(a, a),
{
    lemma_from_irrefl(a, 0);
}

pub proof fn lemma_lex_asym(a: Seq<u8>, b: Seq<u8>)
    requires
        lex_lt(a, b),
    ensures
        !lex_lt(b, a),
{
    lemma_from_asym(a, b, 0);
}

pub proof fn lemma_lex_trans(a: Seq<u8>, b: Seq<u8>, c: Seq<u8>)
    requires
        lex_lt(a, b),
        lex_lt(b, c),
    ensures
        lex_lt(a, c),
{
    lemma_from_trans(a, b, c, 0);
}

pub proof fn lemma_lex_total(a: Seq<u8>, b: Seq<u8>)
    ensures
        lex_lt(a, b) || lex_lt(b, a) || a == b,
{
    lemma_from_total(a, b, 0);
    if a.len() == b.len() && forall|j: int| 0 <= j < a.len() ==> a[j] == b[j] {
        assert(a =~= b);
    }
}

/// Nothing is below the empty string.
pub proof fn lemma_lex_empty(a: Seq<u8>)
    ensures
        !lex_lt(a, Seq::<u8>::empty()),
{
}

/// A proper prefix comes first.
pub proof fn lemma_lex_proper_prefix(p: Seq<u8>, k: Seq<u8>)
    requires
        has_prefix(k, p),
        p.len() < k.len(),
    ensures
        lex_lt(p, k),
{
    lemma_from_shift(p, k, p.len() as int);
}

proof fn lemma_from_offset(p: Seq<u8>, a: Seq<u8>, b: Seq<u8>, j: int)
    requires
        0 <= j,
    ensures
        lex_lt_from(p + a, p + b, p.len() + j) == lex_lt_from(a, b, j),
    decreases a.len() - j,
{
    if j < a.len() && j < b.len() && a[j] == b[j] {
        lemma_from_offset(p, a, b, j + 1);
    }
}

/// A common prefix does not change the order.
pub proof fn lemma_lex_common_prefix(p: Seq<u8>, a: Seq<u8>, b: Seq<u8>)
    ensures
        lex_lt(p + a, p + b) == lex_lt(a, b),
{
    lemma_from_shift(p + a, p + b, p.len() as int);
    lemma_from_offset(p, a, b, 0);
}

proof fn lemma_from_between(p: Seq<u8>, k: Seq<u8>, x: Seq<u8>, i: int)
    requires
        0 <= i <= p.len(),
        i <= k.len(),
        forall|j: int| 0 <= j < i ==> k[j] == p[j],
        !lex_lt_from(k, p, i),
        lex_lt_from(k, p + x, i),
    ensures
        has_prefix(k, p),
    decreases p.len() - i,
{
    if i < p.len() {
        assert((p + x)[i] == p[i]);
        lemma_from_between(p, k, x, i + 1);
    }
}

/// A key at or above `p` and below `p + x` starts with `p`.
pub proof fn lemma_lex_between(p: Seq<u8>, k: Seq<u8>, x: Seq<u8>)
    requires
        !lex_lt(k, p),
        lex_lt(k, p + x),
    ensures
        has_prefix(k, p),
{
    lemma_from_between(p, k, x, 0);
}

/// What `upper_bound` bounds: exactly the strings that start with `p`, among
/// those at or above `p`.
pub proof fn lemma_upper_bound(p: Seq<u8>, k: Seq<u8>)
    ensures
        match upper_bound(p) {
            Some(u) => (has_prefix(k, p) ==> lex_lt(k, u)) && (!lex_lt(k, p) && lex_lt(k, u)
                ==> has_prefix(k, p)),
            None => !lex_lt(k, p) ==> has_prefix(k, p),
        },
    decreases p.len(),
{
    if p.len() == 0 {
    } else {
        let q = p.drop_last();
        let m = q.len() as int;
        if p.last() == 0xFFu8 {
            lemma_upper_bound(q, k);
            if !lex_lt(k, p) {
                if lex_lt(k, q) {
                    lemma_lex_proper_prefix(q, p);
                    lemma_lex_trans(k, q, p);
                }
                if has_prefix(k, q) {
                    lemma_from_shift(k, p, m);
                    assert(has_prefix(k, p));
                }
            }
        } else {
            let u = q.push((p.last() + 1) as u8);
            if has_prefix(k, p) {
                lemma_from_shift(k, u, m);
            }
            if !lex_lt(k, p) && lex_lt(k, u) {
                lemma_walk_below(p, u, k, 0);
            }
        }
    }
}

proof fn lemma_walk_below(p: Seq<u8>, u: Seq<u8>, k: Seq<u8>, i: int)
    requires
        p.len() > 0,
        p.last() != 0xFFu8,
        u == p.drop_last().push((p.last() + 1) as u8),
        0 <= i < p.len(),
        i <= k.len(),
        forall|j: int| 0 <= j < i ==> k[j] == p[j],
        !lex_lt_from(k, p, i),
        lex_lt_from(k, u, i),
    ensures
        has_prefix(k, p),
    decreases p.len() - i,
{
    if i + 1 < p.len() {
        assert(u[i] == p[i]);
        lemma_walk_below(p, u, k, i + 1);
    } else {
        assert(u.len() == i + 1);
        assert(u[i] == p[i] + 1);
        assert(!lex_lt_from(k, u, i + 1));
        assert(i < k.len());
        assert(k[i] == p[i]);
    }
}

/// `lex_less(a, b)` decides `lex_lt`.
pub fn lex_less(a: &[u8], b: &[u8]) -> (r: bool)
    ensures
        r == lex_lt(a@, b@),
{
    let mut i: usize = 0;
    while i < a.len() && i < b.len() && a[i] == b[i]
        invariant
            i <= a.len(),
            i <= b.len(),
            lex_lt(a@, b@) == lex_lt_from(a@, b@, i as int),
        decreases a.len() - i,
    {
        i += 1;
    }
    if i >= a.len() {
        i < b.len()
    } else if i >= b.len() {
        false
    } else {
        a[i] < b[i]
    }
}

/// `bytes_equal(a, b)` decides equality of two byte strings.
pub fn bytes_equal(a: &[u8], b: &[u8]) -> (r: bool)
    ensures
        r == (a@ == b@),
{
    if a.len() != b.len() {
        return false;
    }
    let mut i: usize = 0;
    while i < a.len()
        invariant
            i <= a.len(),
            a.len() == b.len(),
            forall|j: int| 0 <= j < i ==> a@[j] == b@[j],
        decreases a.len() - i,
    {
        if a[i] != b[i] {
            return false;
        }
        i += 1;
    }
    assert(a@ =~= b@);
    true
}

} // verus!
