//! Ordering scored items: highest key first, ties kept in input order.

use vstd::prelude::*;

verus! {

/// Item `a` comes before item `b`: a higher key, or an equal key and an
/// earlier position.
pub open spec fn ranks_before(keys: Seq<u128>, a: int, b: int) -> bool {
    keys[a] > keys[b] || (keys[a] == keys[b] && a < b)
}

/// `order` lists positions of `keys` from the best down, sorted by
/// `ranks_before`.
pub open spec fn sorted_by_rank(keys: Seq<u128>, order: Seq<usize>) -> bool {
    &&& forall|i: int| 0 <= i < order.len() ==> (#[trigger] order[i]) < keys.len()
    &&& forall|i: int, j: int| 0 <= i < j < order.len() ==> ranks_before(keys, #[trigger] order[i] as int, #[trigger] order[j] as int)
}

/// `order` is the first `min(limit, n)` positions of the ranking of `keys`:
/// sorted, and every position left out ranks after every position kept.
pub open spec fn is_top_ranking(keys: Seq<u128>, order: Seq<usize>, limit: nat) -> bool {
    &&& keys.len() <= usize::MAX
    &&& order.len() == if limit < keys.len() { limit } else { keys.len() }
    &&& sorted_by_rank(keys, order)
    &&& forall|p: int, i: int|
        0 <= p < keys.len() && !order.contains(p as usize) && 0 <= i < order.len() ==> #[trigger] ranks_before(
            keys,
            order[i] as int,
            p,
        )
}

/// The top ranking is unique: two orders that both are the top `limit`
/// positions of `keys` are equal, so a contract that asks for one pins the
/// result down.
pub proof fn lemma_top_ranking_unique(keys: Seq<u128>, o1: Seq<usize>, o2: Seq<usize>, limit: nat)
    requires
        is_top_ranking(keys, o1, limit),
        is_top_ranking(keys, o2, limit),
    ensures
        o1 == o2,
{
    assert forall|i: int| 0 <= i < o1.len() implies o1[i] == o2[i] by {
        lemma_same_prefix(keys, o1, o2, limit, i);
    }
    assert(o1 =~= o2);
}

proof fn lemma_same_prefix(keys: Seq<u128>, o1: Seq<usize>, o2: Seq<usize>, limit: nat, i: int)
    requires
        is_top_ranking(keys, o1, limit),
        is_top_ranking(keys, o2, limit),
        0 <= i < o1.len(),
    ensures
        o1[i] == o2[i],
    decreases i,
{
    if i > 0 {
        lemma_same_prefix(keys, o1, o2, limit, i - 1);
    }
    assert forall|j: int| 0 <= j < i implies o1[j] == o2[j] by {
        if j < i {
            lemma_same_prefix(keys, o1, o2, limit, j);
        }
    }
    let a = o1[i];
    let b = o2[i];
    if a != b {
        if o1.contains(b) {
            let j = choose|j: int| 0 <= j < o1.len() && o1[j] == b;
            if j < i {
                assert(o2[j] == b);
                assert(ranks_before(keys, o2[j] as int, o2[i] as int));
            } else {
                assert(ranks_before(keys, o1[i] as int, o1[j] as int));
                if o2.contains(a) {
                    let m = choose|m: int| 0 <= m < o2.len() && o2[m] == a;
                    if m < i {
                        assert(o1[m] == a);
                        assert(ranks_before(keys, o1[m] as int, o1[i] as int));
                    } else {
                        assert(ranks_before(keys, o2[i] as int, o2[m] as int));
                    }
                } else {
                    assert(ranks_before(keys, o2[i] as int, a as int));
                }
            }
        } else {
            assert(ranks_before(keys, o1[i] as int, b as int));
            if o2.contains(a) {
                let m = choose|m: int| 0 <= m < o2.len() && o2[m] == a;
                if m < i {
                    assert(o1[m] == a);
                    assert(ranks_before(keys, o1[m] as int, o1[i] as int));
                } else {
                    assert(ranks_before(keys, o2[i] as int, o2[m] as int));
                }
            } else {
                assert(ranks_before(keys, o2[i] as int, a as int));
            }
        }
    }
}

/// The positions of `keys` from the highest key down, equal keys in input
/// order, cut to `limit`.
pub fn top_positions(keys: &Vec<u128>, limit: usize) -> (r: Vec<usize>)
    ensures
        is_top_ranking(keys@, r@, limit as nat),
{
    let ghost k = keys@;
    let n = keys.len();
    let mut out: Vec<usize> = Vec::new();
    let mut i: usize = 0;
    while i < n
        invariant
            n == k.len(),
            k == keys@,
            i <= n,
            out@.len() == i,
            sorted_by_rank(k, out@),
            forall|m: int| 0 <= m < out@.len() ==> (#[trigger] out@[m]) < i,
            forall|p: int| 0 <= p < i ==> #[trigger] out@.contains(p as usize),
        decreases n - i,
    {
        let key = keys[i];
        let mut pos: usize = 0;
        while pos < out.len() && keys[out[pos]] >= key
            invariant
                pos <= out@.len(),
                k == keys@,
                sorted_by_rank(k, out@),
                i < n == k.len(),
                key == k[i as int],
                forall|m: int| 0 <= m < pos ==> k[#[trigger] out@[m] as int] >= k[i as int],
            decreases out@.len() - pos,
        {
            pos = pos + 1;
        }
        let ghost before = out@;
        out.insert(pos, i);
        assert(out@ == before.insert(pos as int, i));
        proof {
            assert forall|m: int| 0 <= m < out@.len() implies (#[trigger] out@[m]) < i + 1 by {
                if m < pos {
                    assert(out@[m] == before[m]);
                } else if m > pos {
                    assert(out@[m] == before[m - 1]);
                }
            }
            assert forall|a: int, b: int| 0 <= a < b < out@.len() implies ranks_before(k, #[trigger] out@[a] as int, #[trigger] out@[b] as int) by {
                if b < pos {
                    assert(out@[a] == before[a] && out@[b] == before[b]);
                } else if b == pos {
                    assert(out@[a] == before[a]);
                    assert(before[a] < i);
                } else if a > pos {
                    assert(out@[a] == before[a - 1] && out@[b] == before[b - 1]);
                } else if a == pos {
                    assert(out@[b] == before[b - 1]);
                    if pos < before.len() {
                        assert(k[before[pos as int] as int] < k[i as int]);
                        if b - 1 > pos {
                            assert(ranks_before(k, before[pos as int] as int, before[b - 1] as int));
                        }
                    }
                } else {
                    assert(out@[a] == before[a] && out@[b] == before[b - 1]);
                }
            }
            assert forall|p: int| 0 <= p < i + 1 implies #[trigger] out@.contains(p as usize) by {
                if p == i {
                    assert(out@[pos as int] == i);
                } else {
                    assert(before.contains(p as usize));
                    let m = choose|m: int| 0 <= m < before.len() && before[m] == p as usize;
                    if m < pos {
                        assert(out@[m] == p as usize);
                    } else {
                        assert(out@[m + 1] == p as usize);
                    }
                }
            }
        }
        i = i + 1;
    }
    let ghost full = out@;
    if limit < out.len() {
        out.truncate(limit);
    }
    proof {
        assert(out@ == full.take(out@.len() as int));
        assert forall|p: int, m: int|
            0 <= p < k.len() && !out@.contains(p as usize) && 0 <= m < out@.len() implies #[trigger] ranks_before(
            k,
            out@[m] as int,
            p,
        ) by {
            assert(full.contains(p as usize));
            let q = choose|q: int| 0 <= q < full.len() && full[q] == p as usize;
            if q < out@.len() {
                assert(out@[q] == p as usize);
            }
            assert(full[m] == out@[m]);
            assert(m < q);
        }
    }
    out
}

} // verus!
