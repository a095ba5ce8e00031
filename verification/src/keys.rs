use vstd::prelude::*;

verus! {

/// How one key stands to another in the order of the pattern index.
#[derive(Clone, Copy, Debug, PartialEq, Eq, Structural)]
pub enum Order {
    Before,
    Same,
    After,
}

/// At index `k`, where both keys have agreed so far, `a` comes first: it
/// ends there and `b` goes on, or its byte is the smaller one.
pub open spec fn parts_at(a: Seq<u8>, b: Seq<u8>, k: int) -> bool {
    &&& 0 <= k <= a.len()
    &&& k <= b.len()
    &&& a.take(k) == b.take(k)
    &&& (k == a.len() && k < b.len()) || (k < a.len() && k < b.len() && a[k] < b[k])
}

/// `a` comes strictly before `b`, byte by byte: the order in which the
/// pattern index takes its keys.
pub open spec fn precedes(a: Seq<u8>, b: Seq<u8>) -> bool {
    exists|k: int| #[trigger] parts_at(a, b, k)
}

/// The keys of `keys` stand in strictly ascending order.
pub open spec fn ascending(keys: Seq<Seq<u8>>) -> bool {
    forall|i: int, j: int| 0 <= i < j < keys.len() ==> precedes(#[trigger] keys[i], #[trigger] keys[j])
}

/// No key comes before itself.
pub proof fn lemma_precedes_irreflexive(a: Seq<u8>)
    ensures
        !precedes(a, a),
{
}

/// Two keys that have agreed up to `k` agree at every index below `k`.
proof fn lemma_agree_below(a: Seq<u8>, b: Seq<u8>, k: int, t: int)
    requires
        0 <= t < k <= a.len(),
        k <= b.len(),
        a.take(k) == b.take(k),
    ensures
        a[t] == b[t],
{
    assert(a.take(k)[t] == a[t]);
    assert(b.take(k)[t] == b[t]);
}

/// Of two keys, at most one comes before the other.
pub proof fn lemma_precedes_asymmetric(a: Seq<u8>, b: Seq<u8>)
    requires
        precedes(a, b),
    ensures
        !precedes(b, a),
{
    let k = choose|k: int| #[trigger] parts_at(a, b, k);
    if precedes(b, a) {
        let m = choose|m: int| #[trigger] parts_at(b, a, m);
        if k < m {
            lemma_agree_below(b, a, m, k);
        } else if m < k {
            lemma_agree_below(a, b, k, m);
        }
    }
}

/// The order is transitive.
pub proof fn lemma_precedes_transitive(a: Seq<u8>, b: Seq<u8>, c: Seq<u8>)
    requires
        precedes(a, b),
        precedes(b, c),
    ensures
        precedes(a, c),
{
    let k = choose|k: int| #[trigger] parts_at(a, b, k);
    let m = choose|m: int| #[trigger] parts_at(b, c, m);
    let n = if k <= m { k } else { m };
    assert(a.take(n) == c.take(n)) by {
        assert forall|t: int| 0 <= t < n implies a.take(n)[t] == c.take(n)[t] by {
            lemma_agree_below(a, b, k, t);
            lemma_agree_below(b, c, m, t);
        }
    }
    if k < m {
        lemma_agree_below(b, c, m, k);
    } else if m < k {
        lemma_agree_below(a, b, k, m);
    }
    assert(parts_at(a, c, n));
}

/// Compares two keys byte by byte.
pub fn order_of(a: &[u8], b: &[u8]) -> (o: Order)
    ensures
        o == Order::Before <==> precedes(a@, b@),
        o == Order::Same <==> a@ == b@,
        o == Order::After <==> precedes(b@, a@),
{
    let mut k: usize = 0;
    while k < a.len() && k < b.len() && a[k] == b[k]
        invariant
            k <= a.len(),
            k <= b.len(),
            a@.take(k as int) == b@.take(k as int),
        decreases a.len() - k,
    {
        assert(a@.take(k + 1) == a@.take(k as int).push(a@[k as int]));
        assert(b@.take(k + 1) == b@.take(k as int).push(b@[k as int]));
        k = k + 1;
    }
    let o = if k == a.len() {
        if k == b.len() {
            assert(a@ == a@.take(k as int));
            assert(b@ == b@.take(k as int));
            Order::Same
        } else {
            assert(parts_at(a@, b@, k as int));
            Order::Before
        }
    } else if k == b.len() {
        assert(parts_at(b@, a@, k as int));
        Order::After
    } else if a[k] < b[k] {
        assert(parts_at(a@, b@, k as int));
        Order::Before
    } else {
        assert(parts_at(b@, a@, k as int));
        Order::After
    };
    proof {
        lemma_precedes_irreflexive(a@);
        if precedes(a@, b@) {
            lemma_precedes_asymmetric(a@, b@);
        }
        if precedes(b@, a@) {
            lemma_precedes_asymmetric(b@, a@);
        }
    }
    o
}

} // verus!
