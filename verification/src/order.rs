//! Orders on byte strings and on map keys, and insertion into sorted
//! association lists.

use vstd::prelude::*;
use vstd::utf8::encode_utf8;

verus! {

/// Lexicographic "strictly less" on byte strings: a proper prefix is smaller.
pub open spec fn bytes_lt(a: Seq<u8>, b: Seq<u8>) -> bool
    decreases a.len(),
{
    if b.len() == 0 {
        false
    } else if a.len() == 0 {
        true
    } else if a[0] != b[0] {
        a[0] < b[0]
    } else {
        bytes_lt(a.drop_first(), b.drop_first())
    }
}

/// Result of comparing two values.
#[derive(PartialEq, Eq, Structural, Debug, Clone, Copy)]
pub enum Cmp {
    Less,
    Equal,
    Greater,
}

pub proof fn lemma_bytes_lt_irreflexive(a: Seq<u8>)
    ensures
        !bytes_lt(a, a),
    decreases a.len(),
{
    if a.len() > 0 {
        lemma_bytes_lt_irreflexive(a.drop_first());
    }
}

pub proof fn lemma_bytes_lt_total(a: Seq<u8>, b: Seq<u8>)
    ensures
        a != b ==> (bytes_lt(a, b) || bytes_lt(b, a)),
        !(bytes_lt(a, b) && bytes_lt(b, a)),
    decreases a.len(),
{
    if a.len() > 0 && b.len() > 0 {
        lemma_bytes_lt_total(a.drop_first(), b.drop_first());
        if a[0] == b[0] && a.drop_first() == b.drop_first() {
            assert(a =~= seq![a[0]] + a.drop_first());
            assert(b =~= seq![b[0]] + b.drop_first());
        }
    } else if a.len() == 0 && b.len() == 0 {
        assert(a =~= b);
    }
}

pub proof fn lemma_bytes_lt_transitive(a: Seq<u8>, b: Seq<u8>, c: Seq<u8>)
    requires
        bytes_lt(a, b),
        bytes_lt(b, c),
    ensures
        bytes_lt(a, c),
    decreases a.len(),
{
    if a.len() > 0 && a[0] == b[0] && b[0] == c[0] {
        lemma_bytes_lt_transitive(a.drop_first(), b.drop_first(), c.drop_first());
    }
}

/// Compares two byte strings lexicographically.
pub fn compare_bytes(a: &[u8], b: &[u8]) -> (r: Cmp)
    ensures
        r == Cmp::Less <==> bytes_lt(a@, b@),
        r == Cmp::Equal <==> a@ == b@,
        r == Cmp::Greater <==> bytes_lt(b@, a@),
{
    let mut i: usize = 0;
    while i < a.len() && i < b.len() && a[i] == b[i]
        invariant
            i <= a.len(),
            i <= b.len(),
            a@.subrange(0, i as int) == b@.subrange(0, i as int),
        decreases a.len() - i,
    {
        assert(a@.subrange(0, i + 1) =~= a@.subrange(0, i as int).push(a@[i as int]));
        assert(b@.subrange(0, i + 1) =~= b@.subrange(0, i as int).push(b@[i as int]));
        i += 1;
    }
    proof {
        lemma_bytes_lt_common_prefix(a@, b@, i as int);
        lemma_bytes_lt_common_prefix(b@, a@, i as int);
        lemma_bytes_lt_total(a@, b@);
    }
    if i < a.len() && i < b.len() {
        if a[i] < b[i] {
            Cmp::Less
        } else {
            Cmp::Greater
        }
    } else if a.len() == b.len() {
        proof {
            assert(a@ =~= a@.subrange(0, i as int));
            assert(b@ =~= b@.subrange(0, i as int));
        }
        Cmp::Equal
    } else if a.len() < b.len() {
        Cmp::Less
    } else {
        Cmp::Greater
    }
}

/// Comparing two byte strings that share a prefix of length `i` comes down to
/// what follows it.
pub proof fn lemma_bytes_lt_common_prefix(a: Seq<u8>, b: Seq<u8>, i: int)
    requires
        0 <= i <= a.len(),
        i <= b.len(),
        a.subrange(0, i) == b.subrange(0, i),
    ensures
        bytes_lt(a, b) == bytes_lt(a.subrange(i, a.len() as int), b.subrange(i, b.len() as int)),
    decreases i,
{
    if i > 0 {
        assert(a[0] == a.subrange(0, i)[0]);
        assert(b[0] == b.subrange(0, i)[0]);
        assert(a.drop_first().subrange(0, i - 1) =~= a.subrange(0, i).drop_first());
        assert(b.drop_first().subrange(0, i - 1) =~= b.subrange(0, i).drop_first());
        lemma_bytes_lt_common_prefix(a.drop_first(), b.drop_first(), i - 1);
        assert(a.drop_first().subrange(i - 1, a.len() - 1) =~= a.subrange(i, a.len() as int));
        assert(b.drop_first().subrange(i - 1, b.len() - 1) =~= b.subrange(i, b.len() as int));
    } else {
        assert(a.subrange(0, a.len() as int) =~= a);
        assert(b.subrange(0, b.len() as int) =~= b);
    }
}

/// Map keys are ordered as Rust orders `String`s: by their UTF-8 bytes.
pub open spec fn key_lt(a: Seq<char>, b: Seq<char>) -> bool {
    bytes_lt(encode_utf8(a), encode_utf8(b))
}

/// The order on map keys as a function value.
pub open spec fn key_order() -> spec_fn(Seq<char>, Seq<char>) -> bool {
    |a: Seq<char>, b: Seq<char>| key_lt(a, b)
}

/// `lt` is a strict total order.
pub open spec fn strict_total<K>(lt: spec_fn(K, K) -> bool) -> bool {
    &&& forall|a: K| !#[trigger] lt(a, a)
    &&& forall|a: K, b: K, c: K| #[trigger] lt(a, b) && #[trigger] lt(b, c) ==> lt(a, c)
    &&& forall|a: K, b: K| a != b ==> #[trigger] lt(a, b) || #[trigger] lt(b, a)
}

/// The keys of an association list strictly increase.
pub open spec fn sorted_by<K, V>(s: Seq<(K, V)>, lt: spec_fn(K, K) -> bool) -> bool {
    forall|i: int, j: int| 0 <= i < j < s.len() ==> lt(#[trigger] s[i].0, #[trigger] s[j].0)
}

/// No key occurs twice in an association list.
pub open spec fn unique_keys<K, V>(s: Seq<(K, V)>) -> bool {
    forall|i: int, j: int| 0 <= i < j < s.len() ==> #[trigger] s[i].0 != #[trigger] s[j].0
}

/// Whether some entry has key `k`.
pub open spec fn has_key<K, V>(s: Seq<(K, V)>, k: K) -> bool {
    exists|i: int| 0 <= i < s.len() && #[trigger] s[i].0 == k
}

/// The value of the first entry with key `k`.
pub open spec fn assoc_get<K, V>(s: Seq<(K, V)>, k: K) -> Option<V>
    decreases s.len(),
{
    if s.len() == 0 {
        None
    } else if s[0].0 == k {
        Some(s[0].1)
    } else {
        assoc_get(s.drop_first(), k)
    }
}

/// Insertion into an association list kept in `lt` order: an entry with key
/// `k` has its value replaced, otherwise `(k, v)` goes before the first entry
/// whose key is not less than `k`.
pub open spec fn assoc_insert<K, V>(s: Seq<(K, V)>, k: K, v: V, lt: spec_fn(K, K) -> bool) -> Seq<
    (K, V),
>
    decreases s.len(),
{
    if s.len() == 0 {
        seq![(k, v)]
    } else if s[0].0 == k {
        seq![(k, v)] + s.drop_first()
    } else if lt(s[0].0, k) {
        seq![s[0]] + assoc_insert(s.drop_first(), k, v, lt)
    } else {
        seq![(k, v)] + s
    }
}

/// Inserting the entries of `s` one after another, from the first to the last,
/// into an empty list.
pub open spec fn assoc_from_seq<K, V>(s: Seq<(K, V)>, lt: spec_fn(K, K) -> bool) -> Seq<(K, V)>
    decreases s.len(),
{
    if s.len() == 0 {
        seq![]
    } else {
        let last = s.last();
        assoc_insert(assoc_from_seq(s.drop_last(), lt), last.0, last.1, lt)
    }
}

pub proof fn lemma_sorted_unique<K, V>(s: Seq<(K, V)>, lt: spec_fn(K, K) -> bool)
    requires
        strict_total(lt),
        sorted_by(s, lt),
    ensures
        unique_keys(s),
{
    assert forall|i: int, j: int| 0 <= i < j < s.len() implies #[trigger] s[i].0 != #[trigger] s[j].0 by {
        assert(lt(s[i].0, s[j].0));
    }
}

/// What an insertion holds, when no key occurs twice.
pub proof fn lemma_assoc_insert_contains<K, V>(
    s: Seq<(K, V)>,
    k: K,
    v: V,
    lt: spec_fn(K, K) -> bool,
)
    requires
        unique_keys(s),
        !has_key(s, k) || (strict_total(lt) && sorted_by(s, lt)),
    ensures
        unique_keys(assoc_insert(s, k, v, lt)),
        forall|x: (K, V)| #[trigger]
            assoc_insert(s, k, v, lt).contains(x) <==> (x == (k, v) || (s.contains(x) && x.0 != k)),
    decreases s.len(),
{
    let r = assoc_insert(s, k, v, lt);
    if s.len() == 0 {
        assert forall|x: (K, V)| #[trigger] r.contains(x) <==> (x == (k, v) || (s.contains(x) && x.0 != k)) by {
            if r.contains(x) {
                let i = choose|i: int| 0 <= i < r.len() && r[i] == x;
                assert(i == 0);
            }
            if x == (k, v) {
                assert(r[0] == x);
            }
        }
    } else {
        let t = s.drop_first();
        assert(unique_keys(t)) by {
            assert forall|i: int, j: int| 0 <= i < j < t.len() implies #[trigger] t[i].0 != #[trigger] t[j].0 by {
                assert(t[i] == s[i + 1]);
                assert(t[j] == s[j + 1]);
            }
        }
        assert(s =~= seq![s[0]] + t);
        assert forall|x: (K, V)| s.contains(x) <==> (x == s[0] || #[trigger] t.contains(x)) by {
            if s.contains(x) {
                let i = choose|i: int| 0 <= i < s.len() && s[i] == x;
                if i > 0 {
                    assert(t[i - 1] == x);
                }
            }
            if t.contains(x) {
                let i = choose|i: int| 0 <= i < t.len() && t[i] == x;
                assert(s[i + 1] == x);
            }
            if x == s[0] {
                assert(s[0] == x);
            }
        }
        assert forall|x: (K, V)| #[trigger] t.contains(x) implies x.0 != s[0].0 by {
            if t.contains(x) {
                let i = choose|i: int| 0 <= i < t.len() && t[i] == x;
                assert(s[i + 1] == x);
            }
        }
        if s[0].0 == k {
            assert(r =~= seq![(k, v)] + t);
            assert forall|i: int, j: int| 0 <= i < j < r.len() implies #[trigger] r[i].0 != #[trigger] r[j].0 by {
                if i == 0 {
                    assert(r[j] == s[j]);
                } else {
                    assert(r[i] == s[i]);
                    assert(r[j] == s[j]);
                }
            }
            assert forall|x: (K, V)| #[trigger] r.contains(x) <==> (x == (k, v) || (s.contains(x) && x.0 != k)) by {
                if r.contains(x) {
                    let i = choose|i: int| 0 <= i < r.len() && r[i] == x;
                    if i > 0 {
                        assert(t[i - 1] == x);
                    }
                }
                if x == (k, v) {
                    assert(r[0] == x);
                }
                if s.contains(x) && x.0 != k {
                    assert(t.contains(x));
                    let i = choose|i: int| 0 <= i < t.len() && t[i] == x;
                    assert(r[i + 1] == x);
                }
            }
        } else if lt(s[0].0, k) {
            assert(!has_key(t, k) || (strict_total(lt) && sorted_by(t, lt))) by {
                if has_key(t, k) {
                    let i = choose|i: int| 0 <= i < t.len() && #[trigger] t[i].0 == k;
                    assert(s[i + 1].0 == k);
                    assert(has_key(s, k));
                    assert forall|a: int, b: int| 0 <= a < b < t.len() implies lt(#[trigger] t[a].0, #[trigger] t[b].0) by {
                        assert(t[a] == s[a + 1]);
                        assert(t[b] == s[b + 1]);
                    }
                }
            }
            lemma_assoc_insert_contains(t, k, v, lt);
            let rt = assoc_insert(t, k, v, lt);
            assert(r =~= seq![s[0]] + rt);
            assert forall|x: (K, V)| #![trigger r.contains(x)] #![trigger rt.contains(x)] r.contains(x) <==> (x == s[0] || rt.contains(x)) by {
                if r.contains(x) {
                    let i = choose|i: int| 0 <= i < r.len() && r[i] == x;
                    if i > 0 {
                        assert(rt[i - 1] == x);
                    }
                }
                if rt.contains(x) {
                    let i = choose|i: int| 0 <= i < rt.len() && rt[i] == x;
                    assert(r[i + 1] == x);
                }
                if x == s[0] {
                    assert(r[0] == x);
                }
            }
            assert forall|x: (K, V)| #[trigger] r.contains(x) <==> (x == (k, v) || (s.contains(x) && x.0 != k)) by {
                assert(r.contains(x) <==> (x == s[0] || rt.contains(x)));
                assert(rt.contains(x) <==> (x == (k, v) || (t.contains(x) && x.0 != k)));
                assert(s.contains(x) <==> (x == s[0] || t.contains(x)));
            }
            assert forall|i: int, j: int| 0 <= i < j < r.len() implies #[trigger] r[i].0 != #[trigger] r[j].0 by {
                if i == 0 {
                    assert(r[j] == rt[j - 1]);
                    assert(rt.contains(rt[j - 1]));
                } else {
                    assert(r[i] == rt[i - 1]);
                    assert(r[j] == rt[j - 1]);
                }
            }
        } else {
            assert(r =~= seq![(k, v)] + s);
            assert forall|i: int, j: int| 0 <= i < j < r.len() implies #[trigger] r[i].0 != #[trigger] r[j].0 by {
                if i == 0 {
                    assert(r[j] == s[j - 1]);
                    if s[j - 1].0 == k {
                        assert(has_key(s, k));
                        if j - 1 > 0 {
                            assert(lt(s[0].0, s[j - 1].0));
                        }
                        assert(lt(k, s[0].0));
                    }
                } else {
                    assert(r[i] == s[i - 1]);
                    assert(r[j] == s[j - 1]);
                }
            }
            assert forall|x: (K, V)| #[trigger] r.contains(x) <==> (x == (k, v) || (s.contains(x) && x.0 != k)) by {
                if r.contains(x) {
                    let i = choose|i: int| 0 <= i < r.len() && r[i] == x;
                    if i > 0 {
                        assert(s[i - 1] == x);
                    }
                }
                if x == (k, v) {
                    assert(r[0] == x);
                }
                if s.contains(x) && x.0 != k {
                    let i = choose|i: int| 0 <= i < s.len() && s[i] == x;
                    assert(r[i + 1] == x);
                }
                if r.contains(x) && x != (k, v) {
                    let i = choose|i: int| 0 <= i < r.len() && r[i] == x;
                    assert(i > 0);
                    assert(s[i - 1] == x);
                    if x.0 == k {
                        assert(has_key(s, k));
                        if i - 1 > 0 {
                            assert(lt(s[0].0, s[i - 1].0));
                        }
                        assert(lt(k, s[0].0));
                    }
                }
            }
        }
    }
}

/// Reading back after an insertion.
pub proof fn lemma_assoc_get_insert<K, V>(
    s: Seq<(K, V)>,
    k: K,
    v: V,
    lt: spec_fn(K, K) -> bool,
    k2: K,
)
    ensures
        assoc_get(assoc_insert(s, k, v, lt), k2) == if k2 == k {
            Some(v)
        } else {
            assoc_get(s, k2)
        },
    decreases s.len(),
{
    let r = assoc_insert(s, k, v, lt);
    if s.len() == 0 {
        assert(r[0] == (k, v));
        assert(r.drop_first() =~= Seq::<(K, V)>::empty());
    } else if s[0].0 == k {
        assert(r[0] == (k, v));
        assert(r.drop_first() =~= s.drop_first());
        assert(assoc_get(r, k2) == if k2 == k { Some(v) } else { assoc_get(r.drop_first(), k2) });
        assert(k2 != k ==> assoc_get(s, k2) == assoc_get(s.drop_first(), k2));
    } else if lt(s[0].0, k) {
        lemma_assoc_get_insert(s.drop_first(), k, v, lt, k2);
        assert(r[0] == s[0]);
        assert(r.drop_first() =~= assoc_insert(s.drop_first(), k, v, lt));
        assert(assoc_get(r, k2) == if k2 == s[0].0 { Some(s[0].1) } else { assoc_get(r.drop_first(), k2) });
    } else {
        assert(r[0] == (k, v));
        assert(r.drop_first() =~= s);
        assert(assoc_get(r, k2) == if k2 == k { Some(v) } else { assoc_get(r.drop_first(), k2) });
    }
}

/// An insertion keeps an association list in order.
pub proof fn lemma_assoc_insert_sorted<K, V>(
    s: Seq<(K, V)>,
    k: K,
    v: V,
    lt: spec_fn(K, K) -> bool,
)
    requires
        strict_total(lt),
        sorted_by(s, lt),
    ensures
        sorted_by(assoc_insert(s, k, v, lt), lt),
        forall|x: (K, V)| #[trigger] assoc_insert(s, k, v, lt).contains(x) ==> x == (k, v) || s.contains(x),
    decreases s.len(),
{
    let r = assoc_insert(s, k, v, lt);
    if s.len() == 0 {
        assert forall|x: (K, V)| #[trigger] r.contains(x) implies x == (k, v) || s.contains(x) by {
            let i = choose|i: int| 0 <= i < r.len() && r[i] == x;
        }
    } else {
        let t = s.drop_first();
        assert(sorted_by(t, lt)) by {
            assert forall|a: int, b: int| 0 <= a < b < t.len() implies lt(#[trigger] t[a].0, #[trigger] t[b].0) by {
                assert(t[a] == s[a + 1]);
                assert(t[b] == s[b + 1]);
            }
        }
        if s[0].0 == k {
            assert forall|a: int, b: int| 0 <= a < b < r.len() implies lt(#[trigger] r[a].0, #[trigger] r[b].0) by {
                assert(r[b] == s[b]);
                if a > 0 {
                    assert(r[a] == s[a]);
                }
            }
            assert forall|x: (K, V)| #[trigger] r.contains(x) implies x == (k, v) || s.contains(x) by {
                let i = choose|i: int| 0 <= i < r.len() && r[i] == x;
                if i > 0 {
                    assert(s[i] == x);
                }
            }
        } else if lt(s[0].0, k) {
            lemma_assoc_insert_sorted(t, k, v, lt);
            let rt = assoc_insert(t, k, v, lt);
            assert(r =~= seq![s[0]] + rt);
            assert forall|x: (K, V)| #[trigger] r.contains(x) implies x == (k, v) || s.contains(x) by {
                let i = choose|i: int| 0 <= i < r.len() && r[i] == x;
                if i > 0 {
                    assert(rt[i - 1] == x);
                    assert(rt.contains(x));
                    if x != (k, v) {
                        let j = choose|j: int| 0 <= j < t.len() && t[j] == x;
                        assert(s[j + 1] == x);
                    }
                }
            }
            assert forall|a: int, b: int| 0 <= a < b < r.len() implies lt(#[trigger] r[a].0, #[trigger] r[b].0) by {
                if a == 0 {
                    assert(r[b] == rt[b - 1]);
                    assert(rt.contains(rt[b - 1]));
                    if rt[b - 1] == (k, v) {
                    } else {
                        let j = choose|j: int| 0 <= j < t.len() && t[j] == rt[b - 1];
                        assert(s[j + 1] == rt[b - 1]);
                    }
                } else {
                    assert(r[a] == rt[a - 1]);
                    assert(r[b] == rt[b - 1]);
                }
            }
        } else {
            assert(lt(k, s[0].0));
            assert(r =~= seq![(k, v)] + s);
            assert forall|a: int, b: int| 0 <= a < b < r.len() implies lt(#[trigger] r[a].0, #[trigger] r[b].0) by {
                if a == 0 {
                    assert(r[b] == s[b - 1]);
                    if b - 1 > 0 {
                        assert(lt(s[0].0, s[b - 1].0));
                    }
                } else {
                    assert(r[a] == s[a - 1]);
                    assert(r[b] == s[b - 1]);
                }
            }
            assert forall|x: (K, V)| #[trigger] r.contains(x) implies x == (k, v) || s.contains(x) by {
                let i = choose|i: int| 0 <= i < r.len() && r[i] == x;
                if i > 0 {
                    assert(s[i - 1] == x);
                }
            }
        }
    }
}

/// Two ordered association lists with the same entries are equal.
pub proof fn lemma_sorted_same_entries_eq<K, V>(
    a: Seq<(K, V)>,
    b: Seq<(K, V)>,
    lt: spec_fn(K, K) -> bool,
)
    requires
        strict_total(lt),
        sorted_by(a, lt),
        sorted_by(b, lt),
        forall|x: (K, V)| a.contains(x) <==> b.contains(x),
    ensures
        a == b,
    decreases a.len(),
{
    if a.len() == 0 {
        if b.len() > 0 {
            assert(b.contains(b[0]));
        }
        assert(a =~= b);
    } else {
        assert(a.contains(a[0]));
        assert(b.len() > 0);
        assert(b.contains(b[0]));
        let j = choose|j: int| 0 <= j < b.len() && b[j] == a[0];
        let i = choose|i: int| 0 <= i < a.len() && a[i] == b[0];
        if j > 0 {
            assert(lt(b[0].0, b[j].0));
            if i > 0 {
                assert(lt(a[0].0, a[i].0));
            }
            assert(false);
        }
        assert(a[0] == b[0]);
        let ta = a.drop_first();
        let tb = b.drop_first();
        assert(sorted_by(ta, lt)) by {
            assert forall|p: int, q: int| 0 <= p < q < ta.len() implies lt(#[trigger] ta[p].0, #[trigger] ta[q].0) by {
                assert(ta[p] == a[p + 1]);
                assert(ta[q] == a[q + 1]);
            }
        }
        assert(sorted_by(tb, lt)) by {
            assert forall|p: int, q: int| 0 <= p < q < tb.len() implies lt(#[trigger] tb[p].0, #[trigger] tb[q].0) by {
                assert(tb[p] == b[p + 1]);
                assert(tb[q] == b[q + 1]);
            }
        }
        assert forall|x: (K, V)| ta.contains(x) <==> tb.contains(x) by {
            if ta.contains(x) {
                let p = choose|p: int| 0 <= p < ta.len() && ta[p] == x;
                assert(a[p + 1] == x);
                assert(lt(a[0].0, a[p + 1].0));
                assert(b.contains(x));
                let q = choose|q: int| 0 <= q < b.len() && b[q] == x;
                if q == 0 {
                    assert(false);
                }
                assert(tb[q - 1] == x);
            }
            if tb.contains(x) {
                let p = choose|p: int| 0 <= p < tb.len() && tb[p] == x;
                assert(b[p + 1] == x);
                assert(lt(b[0].0, b[p + 1].0));
                assert(a.contains(x));
                let q = choose|q: int| 0 <= q < a.len() && a[q] == x;
                if q == 0 {
                    assert(false);
                }
                assert(ta[q - 1] == x);
            }
        }
        lemma_sorted_same_entries_eq(ta, tb, lt);
        assert(a =~= seq![a[0]] + ta);
        assert(b =~= seq![b[0]] + tb);
    }
}

/// Building a list by insertions keeps exactly the entries given, when no key
/// is given twice.
pub proof fn lemma_assoc_from_seq_entries<K, V>(s: Seq<(K, V)>, lt: spec_fn(K, K) -> bool)
    requires
        unique_keys(s),
    ensures
        unique_keys(assoc_from_seq(s, lt)),
        forall|x: (K, V)| #[trigger] assoc_from_seq(s, lt).contains(x) <==> s.contains(x),
    decreases s.len(),
{
    if s.len() > 0 {
        let init = s.drop_last();
        let last = s.last();
        assert(unique_keys(init)) by {
            assert forall|i: int, j: int| 0 <= i < j < init.len() implies #[trigger] init[i].0 != #[trigger] init[j].0 by {
                assert(init[i] == s[i]);
                assert(init[j] == s[j]);
            }
        }
        lemma_assoc_from_seq_entries(init, lt);
        let f = assoc_from_seq(init, lt);
        assert(!has_key(f, last.0)) by {
            if has_key(f, last.0) {
                let i = choose|i: int| 0 <= i < f.len() && #[trigger] f[i].0 == last.0;
                assert(f.contains(f[i]));
                assert(init.contains(f[i]));
                let j = choose|j: int| 0 <= j < init.len() && init[j] == f[i];
                assert(s[j] == init[j]);
                assert(s[j].0 == s[s.len() - 1].0);
            }
        }
        lemma_assoc_insert_contains(f, last.0, last.1, lt);
        assert forall|x: (K, V)| #[trigger] assoc_from_seq(s, lt).contains(x) <==> s.contains(x) by {
            assert(s =~= init.push(last));
            if s.contains(x) {
                let i = choose|i: int| 0 <= i < s.len() && s[i] == x;
                if i < s.len() - 1 {
                    assert(init[i] == x);
                    assert(init.contains(x));
                    assert(x.0 != last.0);
                }
            }
            if init.contains(x) {
                let i = choose|i: int| 0 <= i < init.len() && init[i] == x;
                assert(s[i] == x);
            }
            assert(s[s.len() - 1] == last);
        }
    }
}

/// Building a list by insertions yields an ordered list.
pub proof fn lemma_assoc_from_seq_sorted<K, V>(s: Seq<(K, V)>, lt: spec_fn(K, K) -> bool)
    requires
        strict_total(lt),
    ensures
        sorted_by(assoc_from_seq(s, lt), lt),
    decreases s.len(),
{
    if s.len() > 0 {
        lemma_assoc_from_seq_sorted(s.drop_last(), lt);
        lemma_assoc_insert_sorted(assoc_from_seq(s.drop_last(), lt), s.last().0, s.last().1, lt);
    }
}

/// The order on map keys is a strict total order.
pub proof fn lemma_key_order_strict_total()
    ensures
        strict_total(key_order()),
{
    assert forall|a: Seq<char>| !#[trigger] key_order()(a, a) by {
        lemma_bytes_lt_irreflexive(encode_utf8(a));
    }
    assert forall|a: Seq<char>, b: Seq<char>, c: Seq<char>|
        #[trigger] key_order()(a, b) && #[trigger] key_order()(b, c) implies key_order()(a, c) by {
        lemma_bytes_lt_transitive(encode_utf8(a), encode_utf8(b), encode_utf8(c));
    }
    assert forall|a: Seq<char>, b: Seq<char>| a != b implies #[trigger] key_order()(a, b)
        || #[trigger] key_order()(b, a) by {
        vstd::utf8::encode_utf8_decode_utf8(a);
        vstd::utf8::encode_utf8_decode_utf8(b);
        lemma_bytes_lt_total(encode_utf8(a), encode_utf8(b));
    }
}

} // verus!
