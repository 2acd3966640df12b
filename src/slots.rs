use vstd::prelude::*;

verus! {

/// A live entry of the slot array.
pub struct KVPair<K, V> {
    pub key: K,
    pub value: V,
}

/// Position `j` of a linear probe that starts at `s` in an array of length `n`
/// (for `0 <= s < n` and `0 <= j < n`): `(s + j) mod n`.
pub open spec fn probe(s: int, j: int, n: int) -> int {
    if s + j < n {
        s + j
    } else {
        s + j - n
    }
}

/// How many probe steps lead from `s` to `p` in an array of length `n`.
pub open spec fn dist(s: int, p: int, n: int) -> int {
    if p >= s {
        p - s
    } else {
        p + n - s
    }
}

/// A slot that is occupied or tombstoned, as opposed to vacant.
pub open spec fn nonvacant<K, V>(d: Seq<Option<KVPair<K, V>>>, t: Set<usize>, i: int) -> bool {
    d[i] is Some || t.contains(i as usize)
}

/// The number of non-vacant slots among the first `k`.
pub open spec fn count_nonvacant<K, V>(d: Seq<Option<KVPair<K, V>>>, t: Set<usize>, k: int) -> nat
    decreases k,
{
    if k <= 0 {
        0
    } else {
        count_nonvacant(d, t, k - 1) + if nonvacant(d, t, k - 1) {
            1nat
        } else {
            0nat
        }
    }
}

pub proof fn lemma_count_zero<K, V>(d: Seq<Option<KVPair<K, V>>>, t: Set<usize>, k: int)
    requires
        forall|i: int| 0 <= i < k ==> !nonvacant(d, t, i),
    ensures
        count_nonvacant(d, t, k) == 0,
    decreases k,
{
    if k > 0 {
        lemma_count_zero(d, t, k - 1);
    }
}

/// Fewer non-vacant slots than slots means that one of them is vacant.
pub proof fn lemma_vacant_exists<K, V>(d: Seq<Option<KVPair<K, V>>>, t: Set<usize>, k: int)
    requires
        0 <= k,
        count_nonvacant(d, t, k) < k,
    ensures
        exists|i: int| 0 <= i < k && !nonvacant(d, t, i),
    decreases k,
{
    if nonvacant(d, t, k - 1) {
        lemma_vacant_exists(d, t, k - 1);
        let i = choose|i: int| 0 <= i < k - 1 && !nonvacant(d, t, i);
        assert(0 <= i < k && !nonvacant(d, t, i));
    } else {
        assert(!nonvacant(d, t, k - 1));
    }
}

pub proof fn lemma_count_same<K, V>(
    d1: Seq<Option<KVPair<K, V>>>,
    t1: Set<usize>,
    d2: Seq<Option<KVPair<K, V>>>,
    t2: Set<usize>,
    k: int,
)
    requires
        forall|i: int| 0 <= i < k ==> nonvacant(d1, t1, i) == nonvacant(d2, t2, i),
    ensures
        count_nonvacant(d1, t1, k) == count_nonvacant(d2, t2, k),
    decreases k,
{
    if k > 0 {
        lemma_count_same(d1, t1, d2, t2, k - 1);
    }
}

/// Filling one vacant slot adds one to the count.
pub proof fn lemma_count_fill<K, V>(
    d1: Seq<Option<KVPair<K, V>>>,
    t1: Set<usize>,
    d2: Seq<Option<KVPair<K, V>>>,
    t2: Set<usize>,
    p: int,
    k: int,
)
    requires
        0 <= p < k,
        forall|i: int| 0 <= i < k && i != p ==> nonvacant(d1, t1, i) == nonvacant(d2, t2, i),
        !nonvacant(d1, t1, p),
        nonvacant(d2, t2, p),
    ensures
        count_nonvacant(d2, t2, k) == count_nonvacant(d1, t1, k) + 1,
    decreases k,
{
    if k - 1 == p {
        lemma_count_same(d1, t1, d2, t2, k - 1);
    } else {
        lemma_count_fill(d1, t1, d2, t2, p, k - 1);
    }
}

/// The first slot without an entry on the probe from `start`: every slot
/// passed on the way holds an entry.
pub fn first_free<K, V>(d: &Vec<Option<KVPair<K, V>>>, start: usize) -> (p: usize)
    requires
        start < d@.len(),
        exists|q: int| 0 <= q < d@.len() && d@[q] is None,
    ensures
        p < d@.len(),
        d@[p as int] is None,
        forall|j: int|
            0 <= j < dist(start as int, p as int, d@.len() as int) ==> (#[trigger] d@[probe(
                start as int,
                j,
                d@.len() as int,
            )]) is Some,
{
    let n = d.len();
    let mut i: usize = 0;
    let mut pos: usize = start;
    while i < n
        invariant
            n == d@.len(),
            start < n,
            i <= n,
            pos == probe(start as int, i as int, n as int),
            forall|j: int| 0 <= j < i ==> (#[trigger] d@[probe(start as int, j, n as int)]) is Some,
        decreases n - i,
    {
        if d[pos].is_none() {
            return pos;
        }
        i = i + 1;
        pos = if pos + 1 == n {
            0
        } else {
            pos + 1
        };
    }
    proof {
        let q = choose|q: int| 0 <= q < d@.len() && d@[q] is None;
        let k = dist(start as int, q, n as int);
        assert(probe(start as int, k, n as int) == q);
        assert(d@[probe(start as int, k, n as int)] is Some);
    }
    start
}

} // verus!
