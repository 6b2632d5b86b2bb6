//! Lexicographic order on texts (by code point, the order of `str`'s `Ord`)
//! and a stable sort of strings.

use vstd::prelude::*;
use crate::text::chars_of;

verus! {

/// `a` sorts strictly before `b`.
pub open spec fn lex_lt(a: Seq<char>, b: Seq<char>) -> bool
    decreases a.len(),
{
    if a.len() == 0 {
        b.len() > 0
    } else if b.len() == 0 {
        false
    } else if a[0] != b[0] {
        a[0] < b[0]
    } else {
        lex_lt(a.drop_first(), b.drop_first())
    }
}

pub open spec fn lex_le(a: Seq<char>, b: Seq<char>) -> bool {
    lex_lt(a, b) || a == b
}

pub proof fn lemma_lex_irrefl(a: Seq<char>)
    ensures
        !lex_lt(a, a),
    decreases a.len(),
{
    if a.len() > 0 {
        lemma_lex_irrefl(a.drop_first());
    }
}

pub proof fn lemma_lex_trans(a: Seq<char>, b: Seq<char>, c: Seq<char>)
    requires
        lex_lt(a, b),
        lex_lt(b, c),
    ensures
        lex_lt(a, c),
    decreases a.len(),
{
    if a.len() > 0 && b.len() > 0 && c.len() > 0 && a[0] == b[0] && b[0] == c[0] {
        lemma_lex_trans(a.drop_first(), b.drop_first(), c.drop_first());
    }
}

pub proof fn lemma_lex_total(a: Seq<char>, b: Seq<char>)
    ensures
        lex_lt(a, b) || lex_lt(b, a) || a == b,
    decreases a.len(),
{
    if a.len() > 0 && b.len() > 0 {
        if a[0] == b[0] {
            lemma_lex_total(a.drop_first(), b.drop_first());
            if a.drop_first() == b.drop_first() {
                assert(a =~= seq![a[0]] + a.drop_first());
                assert(b =~= seq![b[0]] + b.drop_first());
            }
        }
    } else if a.len() == 0 && b.len() == 0 {
        assert(a =~= b);
    }
}

/// Whether `a` sorts strictly before `b`.
pub fn str_less(a: &str, b: &str) -> (r: bool)
    ensures
        r == lex_lt(a@, b@),
{
    let x = chars_of(a);
    let y = chars_of(b);
    let mut i: usize = 0;
    assert(x@.skip(0) =~= x@);
    assert(y@.skip(0) =~= y@);
    while i < x.len() && i < y.len() && x[i] == y[i]
        invariant
            x@ == a@,
            y@ == b@,
            i <= x@.len(),
            i <= y@.len(),
            lex_lt(a@, b@) == lex_lt(x@.skip(i as int), y@.skip(i as int)),
        decreases x@.len() - i,
    {
        assert(x@.skip(i as int).drop_first() =~= x@.skip(i + 1));
        assert(y@.skip(i as int).drop_first() =~= y@.skip(i + 1));
        i = i + 1;
    }
    if i == x.len() {
        i < y.len()
    } else if i == y.len() {
        false
    } else {
        x[i] < y[i]
    }
}

/// Position `a` comes before position `b`: a smaller text, or an equal text
/// at an earlier position.
pub open spec fn lex_before(keys: Seq<Seq<char>>, a: int, b: int) -> bool {
    lex_lt(keys[a], keys[b]) || (keys[a] == keys[b] && a < b)
}

/// `order` is a permutation of the positions of `keys` in sorted order.
pub open spec fn is_sorted_order(keys: Seq<Seq<char>>, order: Seq<usize>) -> bool {
    &&& order.len() == keys.len()
    &&& forall|i: int| 0 <= i < order.len() ==> (#[trigger] order[i]) < keys.len()
    &&& forall|p: int| 0 <= p < keys.len() ==> #[trigger] order.contains(p as usize)
    &&& forall|i: int, j: int| 0 <= i < j < order.len() ==> lex_before(keys, #[trigger] order[i] as int, #[trigger] order[j] as int)
}

pub open spec fn str_views(v: Seq<String>) -> Seq<Seq<char>> {
    v.map_values(|s: String| s@)
}

/// The positions of `keys` in sorted order, equal texts in input order.
pub fn sorted_order(keys: &Vec<String>) -> (r: Vec<usize>)
    ensures
        is_sorted_order(str_views(keys@), r@),
{
    let ghost k = str_views(keys@);
    let n = keys.len();
    let mut out: Vec<usize> = Vec::new();
    let mut i: usize = 0;
    while i < n
        invariant
            n == k.len(),
            k == str_views(keys@),
            i <= n,
            out@.len() == i,
            forall|m: int| 0 <= m < out@.len() ==> (#[trigger] out@[m]) < i,
            forall|p: int| 0 <= p < i ==> #[trigger] out@.contains(p as usize),
            forall|a: int, b: int| 0 <= a < b < out@.len() ==> lex_before(k, #[trigger] out@[a] as int, #[trigger] out@[b] as int),
        decreases n - i,
    {
        let mut pos: usize = 0;
        while pos < out.len() && !str_less(keys[i].as_str(), keys[out[pos]].as_str())
            invariant
                pos <= out@.len(),
                k == str_views(keys@),
                i < n == k.len(),
                forall|m: int| 0 <= m < out@.len() ==> (#[trigger] out@[m]) < i,
                forall|m: int| 0 <= m < pos ==> !lex_lt(k[i as int], k[#[trigger] out@[m] as int]),
            decreases out@.len() - pos,
        {
            pos = pos + 1;
        }
        let ghost before = out@;
        out.insert(pos, i);
        proof {
            assert forall|m: int| 0 <= m < out@.len() implies (#[trigger] out@[m]) < i + 1 by {
                if m < pos {
                    assert(out@[m] == before[m]);
                } else if m > pos {
                    assert(out@[m] == before[m - 1]);
                }
            }
            assert forall|a: int, b: int| 0 <= a < b < out@.len() implies lex_before(k, #[trigger] out@[a] as int, #[trigger] out@[b] as int) by {
                if b < pos {
                    assert(out@[a] == before[a] && out@[b] == before[b]);
                } else if b == pos {
                    assert(out@[a] == before[a]);
                    lemma_lex_total(k[i as int], k[before[a] as int]);
                } else if a > pos {
                    assert(out@[a] == before[a - 1] && out@[b] == before[b - 1]);
                } else if a == pos {
                    assert(out@[b] == before[b - 1]);
                    assert(lex_lt(k[i as int], k[before[pos as int] as int]));
                    if b - 1 > pos {
                        assert(lex_before(k, before[pos as int] as int, before[b - 1] as int));
                        if lex_lt(k[before[pos as int] as int], k[before[b - 1] as int]) {
                            lemma_lex_trans(k[i as int], k[before[pos as int] as int], k[before[b - 1] as int]);
                        }
                    }
                } else {
                    assert(out@[a] == before[a] && out@[b] == before[b - 1]);
                }
            }
            assert forall|p: int| 0 <= p < i + 1 implies #[trigger] out@.contains(p as usize) by {
                if p == i {
                    assert(out@[pos as int] == i);
                } else {
                    assert(before.contains(p as usize));
                    let m = choose|m: int| 0 <= m < before.len() && before[m] == p as usize;
                    if m < pos {
                        assert(out@[m] == p as usize);
                    } else {
                        assert(out@[m + 1] == p as usize);
                    }
                }
            }
        }
        i = i + 1;
    }
    out
}

/// The strings in ascending order (a stable sort).
pub fn sort_strings(v: &Vec<String>) -> (r: Vec<String>)
    ensures
        exists|order: Seq<usize>|
            #[trigger] is_sorted_order(str_views(v@), order) && str_views(r@) =~= order.map_values(
                |p: usize| v@[p as int]@,
            ),
        forall|i: int, j: int| 0 <= i < j < r@.len() ==> lex_le(#[trigger] r@[i]@, #[trigger] r@[j]@),
        r@.len() == v@.len(),
        str_views(r@) == sorted_texts(str_views(v@)),
{
    let order = sorted_order(v);
    let ghost k = str_views(v@);
    let mut out: Vec<String> = Vec::new();
    let mut j: usize = 0;
    while j < order.len()
        invariant
            j <= order@.len(),
            k == str_views(v@),
            is_sorted_order(k, order@),
            out@.len() == j,
            forall|m: int| 0 <= m < j ==> (#[trigger] out@[m])@ == v@[order@[m] as int]@,
        decreases order@.len() - j,
    {
        let s = v[order[j]].clone();
        out.push(s);
        j = j + 1;
    }
    assert(str_views(out@) =~= order@.map_values(|p: usize| v@[p as int]@));
    proof {
        let chosen = choose|o: Seq<usize>| is_sorted_order(k, o);
        lemma_sorted_order_unique(k, order@, chosen);
        assert(sorted_texts(k) =~= order@.map_values(|p: usize| v@[p as int]@));
    }
    assert forall|a: int, b: int| 0 <= a < b < out@.len() implies lex_le(#[trigger] out@[a]@, #[trigger] out@[b]@) by {
        assert(lex_before(k, order@[a] as int, order@[b] as int));
    }
    out
}

proof fn lemma_lex_before_asym(keys: Seq<Seq<char>>, a: int, b: int)
    requires
        lex_before(keys, a, b),
    ensures
        !lex_before(keys, b, a),
{
    if lex_lt(keys[a], keys[b]) {
        if lex_lt(keys[b], keys[a]) {
            lemma_lex_trans(keys[a], keys[b], keys[a]);
            lemma_lex_irrefl(keys[a]);
        }
        if keys[b] == keys[a] {
            lemma_lex_irrefl(keys[a]);
        }
    } else {
        lemma_lex_irrefl(keys[a]);
    }
}

/// The sorted order of a sequence of texts is unique.
pub proof fn lemma_sorted_order_unique(keys: Seq<Seq<char>>, o1: Seq<usize>, o2: Seq<usize>)
    requires
        is_sorted_order(keys, o1),
        is_sorted_order(keys, o2),
    ensures
        o1 == o2,
{
    assert forall|i: int| 0 <= i < o1.len() implies o1[i] == o2[i] by {
        lemma_sorted_prefix(keys, o1, o2, i);
    }
    assert(o1 =~= o2);
}

proof fn lemma_sorted_prefix(keys: Seq<Seq<char>>, o1: Seq<usize>, o2: Seq<usize>, i: int)
    requires
        is_sorted_order(keys, o1),
        is_sorted_order(keys, o2),
        0 <= i < o1.len(),
    ensures
        o1[i] == o2[i],
    decreases i,
{
    assert forall|j: int| 0 <= j < i implies o1[j] == o2[j] by {
        lemma_sorted_prefix(keys, o1, o2, j);
    }
    let a = o1[i];
    let b = o2[i];
    if a != b {
        assert(o2[i] < keys.len());
        assert(o1.contains((b as int) as usize));
        let j = choose|j: int| 0 <= j < o1.len() && o1[j] == b;
        assert(o1[i] < keys.len());
        assert(o2.contains((a as int) as usize));
        let m = choose|m: int| 0 <= m < o2.len() && o2[m] == a;
        if j < i {
            assert(o2[j] == b);
            assert(lex_before(keys, o2[j] as int, o2[i] as int));
            lemma_lex_before_asym(keys, b as int, b as int);
        } else if m < i {
            assert(o1[m] == a);
            assert(lex_before(keys, o1[m] as int, o1[i] as int));
            lemma_lex_before_asym(keys, a as int, a as int);
        } else {
            assert(lex_before(keys, o1[i] as int, o1[j] as int));
            assert(lex_before(keys, o2[i] as int, o2[m] as int));
            lemma_lex_before_asym(keys, a as int, b as int);
        }
    }
}

/// A sorted order names each position once.
pub proof fn lemma_sorted_order_distinct(keys: Seq<Seq<char>>, order: Seq<usize>)
    requires
        is_sorted_order(keys, order),
    ensures
        forall|a: int, b: int| 0 <= a < order.len() && 0 <= b < order.len() && a != b ==> order[a] != order[b],
{
    assert forall|a: int, b: int| 0 <= a < order.len() && 0 <= b < order.len() && a != b implies order[a] != order[b] by {
        if order[a] == order[b] {
            lemma_lex_irrefl(keys[order[a] as int]);
            if a < b {
                assert(lex_before(keys, order[a] as int, order[b] as int));
            } else {
                assert(lex_before(keys, order[b] as int, order[a] as int));
            }
        }
    }
}

/// The texts in ascending order.
pub open spec fn sorted_texts(v: Seq<Seq<char>>) -> Seq<Seq<char>> {
    let order = choose|order: Seq<usize>| is_sorted_order(v, order);
    order.map_values(|p: usize| v[p as int])
}

/// A sorted copy holds every string of the original.
pub proof fn lemma_sorted_keeps(v: Seq<String>, r: Seq<String>)
    requires
        v.len() <= usize::MAX,
        exists|order: Seq<usize>|
            #[trigger] is_sorted_order(str_views(v), order) && str_views(r) =~= order.map_values(|p: usize| v[p as int]@),
    ensures
        forall|w: int| 0 <= w < v.len() ==> crate::store::string_views(r).contains(#[trigger] v[w]@),
{
    let order = choose|order: Seq<usize>|
        #[trigger] is_sorted_order(str_views(v), order) && str_views(r) =~= order.map_values(|p: usize| v[p as int]@);
    assert forall|w: int| 0 <= w < v.len() implies crate::store::string_views(r).contains(#[trigger] v[w]@) by {
        assert(str_views(v).len() == v.len());
        assert(order.contains(w as usize));
        assert(exists|q: int| 0 <= q < order.len() && order[q] == w as usize);
        let q = choose|q: int| 0 <= q < order.len() && order[q] == w as usize;
        assert(order[q] as int == w);
        let mapped = order.map_values(|p: usize| v[p as int]@);
        assert(str_views(r) == mapped);
        assert(mapped[q] == v[w]@);
        assert(str_views(r)[q] == v[w]@);
        assert(crate::store::string_views(r)[q] == r[q]@);
        assert(str_views(r)[q] == r[q]@);
    }
}

} // verus!
