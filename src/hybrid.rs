//! Lexical search and reciprocal rank fusion of ranked result lists.

use vstd::prelude::*;
use crate::ranking::{is_top_ranking, top_positions};
use crate::store::{chunk_pos, chunk_views, lemma_chunk_pos, str_eq, unique_ids, Chunk, ChunkModel};
use vstd::arithmetic::div_mod::lemma_div_is_ordered_by_denominator;
use crate::text::{chars_of, contains, contains_seq, is_space, is_space_char, occurs_at};

verus! {

/// Scores are fixed-point numbers in units of 10^-12.
pub const SCORE_SCALE: u128 = 1_000_000_000_000;

/// A fragment with a relevance score (in units of 10^-12).
#[derive(Debug)]
pub struct SearchResult {
    pub chunk: Chunk,
    pub score: u128,
}

impl SearchResult {
    pub fn new(chunk: Chunk, score: u128) -> (r: SearchResult)
        ensures
            r.chunk@ == chunk@,
            r.score == score,
    {
        SearchResult { chunk, score }
    }
}

/// The lower-case form of a text.
pub uninterp spec fn lower_of(s: Seq<char>) -> Seq<char>;

/// Relies on `str::to_lowercase`: the result depends on the characters alone.
#[verifier::external_body]
fn lowercase(s: &str) -> (r: String)
    ensures
        r@ == lower_of(s@),
{
    s.to_lowercase()
}

/// Shortest query token that counts, in characters.
pub const MIN_TOKEN_CHARS: usize = 2;

/// Splitting at white space: the finished tokens (those long enough) and the
/// current unfinished word.
pub open spec fn words_state(s: Seq<char>) -> (Seq<Seq<char>>, Seq<char>)
    decreases s.len(),
{
    if s.len() == 0 {
        (Seq::empty(), Seq::empty())
    } else {
        let (done, cur) = words_state(s.drop_last());
        if is_space_char(s.last()) {
            (if cur.len() >= MIN_TOKEN_CHARS { done.push(cur) } else { done }, Seq::empty())
        } else {
            (done, cur.push(s.last()))
        }
    }
}

/// The words of a query with at least two characters, in order.
pub open spec fn query_tokens(s: Seq<char>) -> Seq<Seq<char>> {
    let (done, cur) = words_state(s);
    if cur.len() >= MIN_TOKEN_CHARS {
        done.push(cur)
    } else {
        done
    }
}

/// How many distinct tokens occur in `text`: a token repeated in the query
/// counts once.
pub open spec fn count_found(text: Seq<char>, tokens: Seq<Seq<char>>) -> nat
    decreases tokens.len(),
{
    if tokens.len() == 0 {
        0
    } else {
        count_found(text, tokens.drop_last()) + if contains_seq(text, tokens.last()) && !tokens.drop_last().contains(
            tokens.last(),
        ) {
            1nat
        } else {
            0nat
        }
    }
}

/// How many distinct tokens there are.
pub open spec fn distinct_count(tokens: Seq<Seq<char>>) -> nat
    decreases tokens.len(),
{
    if tokens.len() == 0 {
        0
    } else {
        distinct_count(tokens.drop_last()) + if !tokens.drop_last().contains(tokens.last()) { 1nat } else { 0nat }
    }
}

/// The lexical ranking key of a fragment's content for a lower-cased query
/// `lq`, over the common denominator `2 * tokens`: twice the number of
/// distinct tokens found, plus the token count when the whole query occurs
/// verbatim.
pub open spec fn text_key(content: Seq<char>, lq: Seq<char>) -> nat {
    let lc = lower_of(content);
    let ts = query_tokens(lq);
    2 * count_found(lc, ts) + if contains_seq(lc, lq) { ts.len() } else { 0 }
}

/// The score for a key: `distinct found / tokens`, plus one half for the verbatim
/// query, in units of 10^-12.
pub open spec fn text_score(key: nat, tokens: nat) -> int {
    (key * SCORE_SCALE) as int / (2 * tokens) as int
}

/// Positions of the fragments in which at least one token occurs.
pub open spec fn text_candidates(chunks: Seq<ChunkModel>, lq: Seq<char>) -> Seq<int>
    decreases chunks.len(),
{
    if chunks.len() == 0 {
        Seq::empty()
    } else {
        let prev = text_candidates(chunks.drop_last(), lq);
        if count_found(lower_of(chunks.last().content), query_tokens(lq)) > 0 {
            prev.push(chunks.len() - 1)
        } else {
            prev
        }
    }
}

pub open spec fn candidate_keys(chunks: Seq<ChunkModel>, cands: Seq<int>, lq: Seq<char>) -> Seq<u128> {
    cands.map_values(|p: int| text_key(chunks[p].content, lq) as u128)
}

fn query_words(s: &Vec<char>) -> (r: Vec<Vec<char>>)
    ensures
        crate::text::views(r@) == query_tokens(s@),
{
    let mut done: Vec<Vec<char>> = Vec::new();
    let mut cur: Vec<char> = Vec::new();
    let mut i: usize = 0;
    while i < s.len()
        invariant
            i <= s@.len(),
            (crate::text::views(done@), cur@) == words_state(s@.take(i as int)),
        decreases s@.len() - i,
    {
        let c = s[i];
        let ghost prev = words_state(s@.take(i as int));
        assert(s@.take(i + 1).drop_last() == s@.take(i as int));
        assert(s@.take(i + 1).last() == c);
        if is_space(c) {
            if cur.len() >= MIN_TOKEN_CHARS {
                let ghost before = crate::text::views(done@);
                let w = cur;
                done.push(w);
                assert(crate::text::views(done@) =~= before.push(prev.1));
            }
            cur = Vec::new();
            assert(cur@ =~= Seq::<char>::empty());
        } else {
            cur.push(c);
        }
        i = i + 1;
    }
    assert(s@.take(s@.len() as int) == s@);
    if cur.len() >= MIN_TOKEN_CHARS {
        let ghost before = crate::text::views(done@);
        done.push(cur);
        assert(crate::text::views(done@) =~= before.push(cur@));
    }
    done
}

fn same_chars(a: &Vec<char>, b: &Vec<char>) -> (r: bool)
    ensures
        r == (a@ == b@),
{
    if a.len() != b.len() {
        return false;
    }
    let mut i: usize = 0;
    while i < a.len()
        invariant
            a@.len() == b@.len(),
            i <= a@.len(),
            forall|k: int| 0 <= k < i ==> a@[k] == b@[k],
        decreases a@.len() - i,
    {
        if a[i] != b[i] {
            assert(a@[i as int] != b@[i as int]);
            return false;
        }
        i = i + 1;
    }
    assert(a@ =~= b@);
    true
}

/// Whether token `i` already occurs among the tokens before it.
fn seen_before(tokens: &Vec<Vec<char>>, i: usize) -> (r: bool)
    requires
        i < tokens@.len(),
    ensures
        r == crate::text::views(tokens@).take(i as int).contains(tokens@[i as int]@),
{
    let ghost ts = crate::text::views(tokens@);
    let mut j: usize = 0;
    while j < i
        invariant
            j <= i < tokens@.len(),
            ts == crate::text::views(tokens@),
            forall|q: int| 0 <= q < j ==> ts[q] != tokens@[i as int]@,
        decreases i - j,
    {
        if same_chars(&tokens[j], &tokens[i]) {
            assert(ts.take(i as int)[j as int] == tokens@[i as int]@);
            return true;
        }
        j = j + 1;
    }
    assert forall|q: int| 0 <= q < ts.take(i as int).len() implies ts.take(i as int)[q] != tokens@[i as int]@ by {
        assert(ts.take(i as int)[q] == ts[q]);
    }
    false
}

fn count_tokens_found(text: &Vec<char>, tokens: &Vec<Vec<char>>) -> (r: usize)
    ensures
        r == count_found(text@, crate::text::views(tokens@)),
        r <= tokens@.len(),
{
    let ghost ts = crate::text::views(tokens@);
    let mut n: usize = 0;
    let mut i: usize = 0;
    while i < tokens.len()
        invariant
            i <= tokens@.len(),
            ts == crate::text::views(tokens@),
            n == count_found(text@, ts.take(i as int)),
            n <= i,
        decreases tokens@.len() - i,
    {
        assert(ts.take(i + 1).drop_last() =~= ts.take(i as int));
        assert(ts.take(i + 1).last() == tokens@[i as int]@);
        if contains(text, &tokens[i]) && !seen_before(tokens, i) {
            n = n + 1;
        }
        i = i + 1;
    }
    assert(ts.take(i as int) =~= ts);
    n
}

/// `r` is the result of lexical search over `cs` for `query`.
pub open spec fn is_text_search(cs: Seq<ChunkModel>, query: Seq<char>, limit: nat, r: Seq<SearchResult>) -> bool {
    let lq = lower_of(query);
    let ts = query_tokens(lq);
    let cands = text_candidates(cs, lq);
    let keys = candidate_keys(cs, cands, lq);
    &&& ts.len() == 0 ==> r.len() == 0
    &&& ts.len() > 0 ==> exists|order: Seq<usize>|
        #![trigger is_top_ranking(keys, order, limit)]
        {
            &&& is_top_ranking(keys, order, limit)
            &&& r.len() == order.len()
            &&& forall|i: int|
                0 <= i < r.len() ==> (#[trigger] r[i]).chunk@ == cs[cands[order[i] as int]] && r[i].score
                    == text_score(keys[order[i] as int] as nat, ts.len())
        }
}

/// `r` is the reciprocal rank fusion of the ranked lists `lists`.
pub open spec fn is_fusion(lists: Seq<Seq<ChunkModel>>, k: nat, limit: nat, r: Seq<SearchResult>) -> bool {
    let occ = occurrences(lists);
    let entries = fused_entries(occ);
    let keys = fused_keys(occ, k);
    exists|order: Seq<usize>|
        #![trigger is_top_ranking(keys, order, limit)]
        {
            &&& is_top_ranking(keys, order, limit)
            &&& r.len() == order.len()
            &&& forall|i: int|
                0 <= i < r.len() ==> (#[trigger] r[i]).chunk@ == entries[order[i] as int] && r[i].score
                    == keys[order[i] as int]
        }
}

/// The fragments of a result list, in order.
pub open spec fn result_chunks(r: Seq<SearchResult>) -> Seq<ChunkModel> {
    r.map_values(|x: SearchResult| x.chunk@)
}

/// Lexical search: fragments in which at least one query token (a word of
/// the lower-cased query with two or more characters) occurs in the
/// lower-cased content, best key first, equal keys in input order, at most
/// `limit` of them.
pub fn text_search(chunks: &[Chunk], query: &str, limit: usize) -> (r: Vec<SearchResult>)
    ensures
        is_text_search(chunk_views(chunks@), query@, limit as nat, r@),
{
    let ghost cs = chunk_views(chunks@);
    let lq_string = lowercase(query);
    let lq = chars_of(lq_string.as_str());
    let ghost lqs = lower_of(query@);
    let tokens = query_words(&lq);
    let ghost ts = query_tokens(lqs);
    if tokens.len() == 0 {
        return Vec::new();
    }
    let mut cands: Vec<usize> = Vec::new();
    let mut keys: Vec<u128> = Vec::new();
    let mut i: usize = 0;
    while i < chunks.len()
        invariant
            i <= chunks@.len(),
            cs == chunk_views(chunks@),
            lq@ == lqs,
            crate::text::views(tokens@) == ts,
            ts == query_tokens(lqs),
            cands@.len() == keys@.len(),
            cands@.map_values(|p: usize| p as int) == text_candidates(cs.take(i as int), lqs),
            keys@ == candidate_keys(cs, text_candidates(cs.take(i as int), lqs), lqs),
            forall|j: int| 0 <= j < cands@.len() ==> (#[trigger] cands@[j]) < i,
            forall|j: int| 0 <= j < keys@.len() ==> (#[trigger] keys@[j]) <= 3 * tokens@.len(),
        decreases chunks@.len() - i,
    {
        let lc_string = lowercase(chunks[i].content.as_str());
        let lc = chars_of(lc_string.as_str());
        let found = count_tokens_found(&lc, &tokens);
        let ghost prev = text_candidates(cs.take(i as int), lqs);
        assert(cs.take(i + 1).drop_last() =~= cs.take(i as int));
        assert(cs.take(i + 1).last() == chunks@[i as int]@);
        if found > 0 {
            let phrase = contains(&lc, &lq);
            let t = tokens.len() as u128;
            let key: u128 = 2 * (found as u128) + if phrase { t } else { 0 };
            let ghost before_c = cands@;
            let ghost before_k = keys@;
            cands.push(i);
            keys.push(key);
            assert(cands@.map_values(|p: usize| p as int) =~= before_c.map_values(|p: usize| p as int).push(i as int));
            assert(cs.take(i as int).len() == i);
            assert(keys@ =~= candidate_keys(cs, prev.push(i as int), lqs));
        } else {
            assert(candidate_keys(cs, prev, lqs) =~= candidate_keys(cs, text_candidates(cs.take(i + 1), lqs), lqs));
        }
        i = i + 1;
    }
    assert(cs.take(i as int) =~= cs);
    let ghost cands_spec = text_candidates(cs, lqs);
    let ghost keys_spec = candidate_keys(cs, cands_spec, lqs);
    let order = top_positions(&keys, limit);
    let mut out: Vec<SearchResult> = Vec::new();
    let t = tokens.len() as u128;
    assert(forall|m: int| 0 <= m < keys@.len() ==> (#[trigger] keys@[m]) <= 3 * t);
    let mut j: usize = 0;
    while j < order.len()
        invariant
            j <= order@.len(),
            keys@ == keys_spec,
            cs == chunk_views(chunks@),
            cands@.map_values(|p: usize| p as int) == cands_spec,
            cands@.len() == keys@.len(),
            forall|m: int| 0 <= m < cands@.len() ==> (#[trigger] cands@[m]) < chunks@.len(),
            forall|m: int| 0 <= m < keys@.len() ==> (#[trigger] keys@[m]) <= 3 * t,
            t <= usize::MAX,
            is_top_ranking(keys@, order@, limit as nat),
            t == ts.len(),
            t > 0,
            ts == query_tokens(lqs),
            out@.len() == j,
            forall|m: int|
                0 <= m < j ==> (#[trigger] out@[m]).chunk@ == cs[cands_spec[order@[m] as int]]
                    && out@[m].score == text_score(keys_spec[order@[m] as int] as nat, ts.len()),
        decreases order@.len() - j,
    {
        let p = order[j];
        let c = cands[p];
        assert(cands_spec[p as int] == c as int);
        let key = keys[p];
        assert(key * SCORE_SCALE <= 3 * (usize::MAX as u128) * SCORE_SCALE) by (nonlinear_arith)
            requires
                key <= 3 * t,
                t <= usize::MAX,
        ;
        let score = key * SCORE_SCALE / (2 * t);
        out.push(SearchResult::new(chunks[c].duplicate(), score));
        j = j + 1;
    }
    assert(exists|order: Seq<usize>|
        #![trigger is_top_ranking(keys_spec, order, limit as nat)]
        {
            &&& is_top_ranking(keys_spec, order, limit as nat)
            &&& out@.len() == order.len()
            &&& forall|i: int|
                0 <= i < out@.len() ==> (#[trigger] out@[i]).chunk@ == cs[cands_spec[order[i] as int]]
                    && out@[i].score == text_score(keys_spec[order[i] as int] as nat, ts.len())
        }) by {
        assert(is_top_ranking(keys_spec, order@, limit as nat));
    }
    out
}

/// The fragments of each ranked list.
pub open spec fn list_views(lists: Seq<Vec<SearchResult>>) -> Seq<Seq<ChunkModel>> {
    lists.map_values(|l: Vec<SearchResult>| l@.map_values(|x: SearchResult| x.chunk@))
}

/// The entries of one ranked list with their 0-based ranks.
pub open spec fn list_entries(l: Seq<ChunkModel>) -> Seq<(ChunkModel, nat)> {
    Seq::new(l.len(), |r: int| (l[r], r as nat))
}

/// The entries of all lists, list after list.
pub open spec fn occurrences(lists: Seq<Seq<ChunkModel>>) -> Seq<(ChunkModel, nat)>
    decreases lists.len(),
{
    if lists.len() == 0 {
        Seq::empty()
    } else {
        occurrences(lists.drop_last()) + list_entries(lists.last())
    }
}

/// What one entry at rank `r` adds to its fragment's fused score:
/// `1 / (k + r + 1)` in units of 10^-12.
pub open spec fn rrf_gain(k: nat, r: nat) -> int {
    SCORE_SCALE as int / (k + r + 1) as int
}

/// The distinct fragments in order of first occurrence, each as first seen.
pub open spec fn fused_entries(occ: Seq<(ChunkModel, nat)>) -> Seq<ChunkModel>
    decreases occ.len(),
{
    if occ.len() == 0 {
        Seq::empty()
    } else {
        let e = fused_entries(occ.drop_last());
        if chunk_pos(e, occ.last().0.id) >= 0 {
            e
        } else {
            e.push(occ.last().0)
        }
    }
}

/// The fused score of identity `id`: the sum of its entries' gains.
pub open spec fn id_total(occ: Seq<(ChunkModel, nat)>, id: Seq<char>, k: nat) -> int
    decreases occ.len(),
{
    if occ.len() == 0 {
        0
    } else {
        id_total(occ.drop_last(), id, k) + if occ.last().0.id == id { rrf_gain(k, occ.last().1) } else { 0 }
    }
}

/// A score held in a `u128`, which saturates.
pub open spec fn capped(x: int) -> u128 {
    if x > u128::MAX { u128::MAX } else { x as u128 }
}

pub open spec fn fused_keys(occ: Seq<(ChunkModel, nat)>, k: nat) -> Seq<u128> {
    fused_entries(occ).map_values(|c: ChunkModel| capped(id_total(occ, c.id, k)))
}

proof fn lemma_rrf_gain_bounds(k: nat, r: nat)
    ensures
        0 <= rrf_gain(k, r) <= SCORE_SCALE,
{
    lemma_div_is_ordered_by_denominator(SCORE_SCALE as int, 1, (k + r + 1) as int);
    assert(SCORE_SCALE as int / 1 == SCORE_SCALE);
    vstd::arithmetic::div_mod::lemma_div_pos_is_pos(SCORE_SCALE as int, (k + r + 1) as int);
}

proof fn lemma_fused_unique(occ: Seq<(ChunkModel, nat)>)
    ensures
        unique_ids(fused_entries(occ)),
    decreases occ.len(),
{
    if occ.len() > 0 {
        let e = fused_entries(occ.drop_last());
        lemma_fused_unique(occ.drop_last());
        lemma_chunk_pos(e, occ.last().0.id);
        if chunk_pos(e, occ.last().0.id) < 0 {
            let f = e.push(occ.last().0);
            assert forall|i: int, j: int| 0 <= i < f.len() && 0 <= j < f.len() && i != j implies f[i].id != f[j].id by {
                if i < e.len() && j < e.len() {
                    assert(f[i] == e[i] && f[j] == e[j]);
                } else if i < e.len() {
                    assert(f[i] == e[i]);
                } else {
                    assert(f[j] == e[j]);
                }
            }
        }
    }
}

/// An identity absent from the fused entries has not occurred.
proof fn lemma_fused_absent(occ: Seq<(ChunkModel, nat)>, id: Seq<char>, k: nat)
    requires
        chunk_pos(fused_entries(occ), id) < 0,
    ensures
        id_total(occ, id, k) == 0,
    decreases occ.len(),
{
    if occ.len() > 0 {
        let e = fused_entries(occ.drop_last());
        lemma_chunk_pos(e, id);
        lemma_chunk_pos(fused_entries(occ), id);
        if chunk_pos(e, occ.last().0.id) >= 0 {
            lemma_chunk_pos(e, occ.last().0.id);
        } else {
            let f = e.push(occ.last().0);
            assert(f[f.len() - 1].id == occ.last().0.id);
            assert forall|i: int| 0 <= i < e.len() implies e[i].id != id by {
                assert(f[i] == e[i]);
            }
            lemma_chunk_pos(e, id);
            if chunk_pos(e, id) >= 0 {
                assert(f[chunk_pos(e, id)] == e[chunk_pos(e, id)]);
            }
        }
        lemma_fused_absent(occ.drop_last(), id, k);
    }
}

proof fn lemma_id_total_nonneg(occ: Seq<(ChunkModel, nat)>, id: Seq<char>, k: nat)
    ensures
        id_total(occ, id, k) >= 0,
    decreases occ.len(),
{
    if occ.len() > 0 {
        lemma_id_total_nonneg(occ.drop_last(), id, k);
        lemma_rrf_gain_bounds(k, occ.last().1);
    }
}

pub proof fn lemma_id_total_append(s1: Seq<(ChunkModel, nat)>, s2: Seq<(ChunkModel, nat)>, id: Seq<char>, k: nat)
    ensures
        id_total(s1 + s2, id, k) == id_total(s1, id, k) + id_total(s2, id, k),
    decreases s2.len(),
{
    if s2.len() == 0 {
        assert(s1 + s2 =~= s1);
    } else {
        assert((s1 + s2).drop_last() =~= s1 + s2.drop_last());
        assert((s1 + s2).last() == s2.last());
        lemma_id_total_append(s1, s2.drop_last(), id, k);
    }
}

/// In a list with unique identities, an identity at rank `r` scores its one
/// gain; an absent one scores nothing.
/// Identity `id` occurs at most once in the list.
pub open spec fn at_most_once(l: Seq<ChunkModel>, id: Seq<char>) -> bool {
    forall|i: int, j: int| 0 <= i < l.len() && 0 <= j < l.len() && l[i].id == id && l[j].id == id ==> i == j
}

pub proof fn lemma_id_total_list(l: Seq<ChunkModel>, id: Seq<char>, k: nat)
    requires
        at_most_once(l, id),
    ensures
        forall|r: int| 0 <= r < l.len() && l[r].id == id ==> id_total(list_entries(l), id, k) == rrf_gain(k, r as nat),
        (forall|j: int| 0 <= j < l.len() ==> l[j].id != id) ==> id_total(list_entries(l), id, k) == 0,
    decreases l.len(),
{
    if l.len() > 0 {
        let init = l.drop_last();
        assert(list_entries(l).drop_last() =~= list_entries(init));
        assert(at_most_once(init, id)) by {
            assert forall|i: int, j: int| 0 <= i < init.len() && 0 <= j < init.len() && init[i].id == id && init[j].id == id implies i == j by {
                assert(init[i] == l[i] && init[j] == l[j]);
            }
        }
        lemma_id_total_list(init, id, k);
        assert(list_entries(l).last() == (l[l.len() - 1], (l.len() - 1) as nat));
        assert forall|r: int| 0 <= r < l.len() && l[r].id == id implies id_total(list_entries(l), id, k) == rrf_gain(k, r as nat) by {
            if r < l.len() - 1 {
                assert(init[r] == l[r]);
                assert(l[l.len() - 1].id != id);
            } else {
                assert forall|j: int| 0 <= j < init.len() implies init[j].id != id by {
                    assert(init[j] == l[j]);
                }
            }
        }
        if forall|j: int| 0 <= j < l.len() ==> l[j].id != id {
            assert forall|j: int| 0 <= j < init.len() implies init[j].id != id by {
                assert(init[j] == l[j]);
            }
        }
    }
}

/// Rank dominance of the fusion of two lists, in which `x` and `y` each occur
/// at most once per list: a fragment found in both lists gets a higher fused
/// score than a fragment found in only one of them, at a rank no better than the better
/// of the first one's ranks. Every gain must be at least one unit, which
/// holds while `k` plus a list's length stays within the scale.
pub proof fn lemma_rrf_dominance(
    a: Seq<ChunkModel>,
    b: Seq<ChunkModel>,
    k: nat,
    x: Seq<char>,
    y: Seq<char>,
    ra: int,
    rb: int,
    ry: int,
)
    requires
        at_most_once(a, x),
        at_most_once(b, x),
        at_most_once(a, y),
        at_most_once(b, y),
        0 <= ra < a.len() && a[ra].id == x,
        0 <= rb < b.len() && b[rb].id == x,
        0 <= ry,
        (ry < a.len() && a[ry].id == y && forall|j: int| 0 <= j < b.len() ==> b[j].id != y) || (ry < b.len()
            && b[ry].id == y && forall|j: int| 0 <= j < a.len() ==> a[j].id != y),
        ry >= ra || ry >= rb,
        k + a.len() <= SCORE_SCALE,
        k + b.len() <= SCORE_SCALE,
    ensures
        id_total(occurrences(seq![a, b]), x, k) > id_total(occurrences(seq![a, b]), y, k),
{
    let lists = seq![a, b];
    assert(lists.drop_last() =~= seq![a]);
    assert(seq![a].drop_last() =~= Seq::<Seq<ChunkModel>>::empty());
    assert(seq![a].last() == a);
    assert(lists.last() == b);
    assert(occurrences(Seq::<Seq<ChunkModel>>::empty()) == Seq::<(ChunkModel, nat)>::empty());
    assert(occurrences(seq![a]) == Seq::<(ChunkModel, nat)>::empty() + list_entries(a));
    assert(occurrences(lists) == occurrences(seq![a]) + list_entries(b));
    assert(Seq::<(ChunkModel, nat)>::empty() + list_entries(a) =~= list_entries(a));
    lemma_id_total_append(list_entries(a), list_entries(b), x, k);
    lemma_id_total_append(list_entries(a), list_entries(b), y, k);
    lemma_id_total_list(a, x, k);
    lemma_id_total_list(b, x, k);
    lemma_id_total_list(a, y, k);
    lemma_id_total_list(b, y, k);
    let s = SCORE_SCALE as int;
    let d = k + ry + 1;
    let tx = id_total(occurrences(lists), x, k);
    let ty = id_total(occurrences(lists), y, k);
    assert(tx == id_total(list_entries(a), x, k) + id_total(list_entries(b), x, k));
    assert(ty == id_total(list_entries(a), y, k) + id_total(list_entries(b), y, k));
    assert(id_total(list_entries(a), x, k) == rrf_gain(k, ra as nat));
    assert(id_total(list_entries(b), x, k) == rrf_gain(k, rb as nat));
    if ry < a.len() && a[ry].id == y && forall|j: int| 0 <= j < b.len() ==> b[j].id != y {
        assert(ty == rrf_gain(k, ry as nat));
    } else {
        assert(ty == rrf_gain(k, ry as nat));
    }
    // The better of x's two ranks gains at least as much as y's rank, and the
    // other still gains at least one unit.
    if ry >= ra {
        lemma_div_is_ordered_by_denominator(s, k + ra + 1, d);
        lemma_div_is_ordered_by_denominator(s, k + rb + 1, s);
        assert(s / s == 1) by (nonlinear_arith) requires s > 0;
    } else {
        lemma_div_is_ordered_by_denominator(s, k + rb + 1, d);
        lemma_div_is_ordered_by_denominator(s, k + ra + 1, s);
        assert(s / s == 1) by (nonlinear_arith) requires s > 0;
    }
}

/// The fused entry for identity `id`, given that it occurs.
proof fn lemma_fused_has(occ: Seq<(ChunkModel, nat)>, id: Seq<char>)
    requires
        exists|i: int| 0 <= i < occ.len() && (#[trigger] occ[i]).0.id == id,
    ensures
        chunk_pos(fused_entries(occ), id) >= 0,
    decreases occ.len(),
{
    let e = fused_entries(occ.drop_last());
    lemma_chunk_pos(e, id);
    lemma_chunk_pos(fused_entries(occ), id);
    if occ.last().0.id == id {
        if chunk_pos(e, id) < 0 {
            let f = e.push(occ.last().0);
            assert(f[f.len() - 1].id == id);
        } else {
            assert(fused_entries(occ) == e);
        }
    } else {
        let i = choose|i: int| 0 <= i < occ.len() && (#[trigger] occ[i]).0.id == id;
        assert(occ.drop_last()[i] == occ[i]);
        lemma_fused_has(occ.drop_last(), id);
        if chunk_pos(e, occ.last().0.id) < 0 {
            let f = e.push(occ.last().0);
            assert(f[chunk_pos(e, id)] == e[chunk_pos(e, id)]);
        }
    }
}

/// Rank dominance in the fused result of two lists: under the conditions of
/// `lemma_rrf_dominance`, the fragment found in both lists is returned
/// whenever the other one is, and ahead of it.
pub proof fn lemma_rrf_dominance_in_result(
    a: Seq<ChunkModel>,
    b: Seq<ChunkModel>,
    k: nat,
    limit: nat,
    r: Seq<SearchResult>,
    x: Seq<char>,
    y: Seq<char>,
    ra: int,
    rb: int,
    ry: int,
)
    requires
        is_fusion(seq![a, b], k, limit, r),
        at_most_once(a, x),
        at_most_once(b, x),
        at_most_once(a, y),
        at_most_once(b, y),
        0 <= ra < a.len() && a[ra].id == x,
        0 <= rb < b.len() && b[rb].id == x,
        0 <= ry,
        (ry < a.len() && a[ry].id == y && forall|j: int| 0 <= j < b.len() ==> b[j].id != y) || (ry < b.len()
            && b[ry].id == y && forall|j: int| 0 <= j < a.len() ==> a[j].id != y),
        ry >= ra || ry >= rb,
        k + a.len() <= SCORE_SCALE,
        k + b.len() <= SCORE_SCALE,
    ensures
        forall|j: int| 0 <= j < r.len() && (#[trigger] r[j]).chunk@.id == y ==> exists|i: int|
            0 <= i < j && (#[trigger] r[i]).chunk@.id == x,
{
    let lists = seq![a, b];
    let occ = occurrences(lists);
    let entries = fused_entries(occ);
    let keys = fused_keys(occ, k);
    lemma_rrf_dominance(a, b, k, x, y, ra, rb, ry);
    // Both totals stay far below the largest u128.
    assert(seq![a].last() == a);
    assert(lists.last() == b);
    assert(lists.drop_last() =~= seq![a]);
    assert(seq![a].drop_last() =~= Seq::<Seq<ChunkModel>>::empty());
    assert(occurrences(Seq::<Seq<ChunkModel>>::empty()) == Seq::<(ChunkModel, nat)>::empty());
    assert(occurrences(seq![a]) == Seq::<(ChunkModel, nat)>::empty() + list_entries(a));
    assert(Seq::<(ChunkModel, nat)>::empty() + list_entries(a) =~= list_entries(a));
    assert(occ == list_entries(a) + list_entries(b));
    lemma_id_total_append(list_entries(a), list_entries(b), x, k);
    lemma_id_total_append(list_entries(a), list_entries(b), y, k);
    lemma_id_total_list(a, x, k);
    lemma_id_total_list(b, x, k);
    lemma_id_total_list(a, y, k);
    lemma_id_total_list(b, y, k);
    lemma_rrf_gain_bounds(k, ra as nat);
    lemma_rrf_gain_bounds(k, rb as nat);
    lemma_rrf_gain_bounds(k, ry as nat);
    let tx = id_total(occ, x, k);
    let ty = id_total(occ, y, k);
    assert(tx <= 2 * SCORE_SCALE);
    assert(ty <= 2 * SCORE_SCALE);
    lemma_id_total_nonneg(occ, y, k);
    // x occurs, so it has a fused entry.
    assert(occ[ra] == (a[ra], ra as nat));
    lemma_fused_has(occ, x);
    lemma_chunk_pos(entries, x);
    let px = chunk_pos(entries, x);
    assert(keys[px] == capped(tx));
    let order = choose|order: Seq<usize>|
        #![trigger is_top_ranking(keys, order, limit)]
        {
            &&& is_top_ranking(keys, order, limit)
            &&& r.len() == order.len()
            &&& forall|i: int|
                0 <= i < r.len() ==> (#[trigger] r[i]).chunk@ == entries[order[i] as int] && r[i].score
                    == keys[order[i] as int]
        };
    assert forall|j: int| 0 <= j < r.len() && (#[trigger] r[j]).chunk@.id == y implies exists|i: int|
        0 <= i < j && (#[trigger] r[i]).chunk@.id == x by {
        let py = order[j] as int;
        assert(r[j].chunk@ == entries[py]);
        assert(keys[py] == capped(id_total(occ, entries[py].id, k)));
        assert(keys[py] == capped(ty));
        assert(keys[px] > keys[py]);
        if order.contains(px as usize) {
            let i = choose|i: int| 0 <= i < order.len() && order[i] == px as usize;
            if i > j {
                assert(crate::ranking::ranks_before(keys, order[j] as int, order[i] as int));
            }
            if i == j {
                assert(entries[px].id == x);
            }
            assert(r[i].chunk@ == entries[px]);
            assert(r[i].chunk@.id == x);
        } else {
            assert(crate::ranking::ranks_before(keys, order[j] as int, px));
        }
    }
}

proof fn lemma_contains_extend(s: Seq<char>, t: Seq<char>)
    requires
        s.len() > 0,
        contains_seq(s.drop_last(), t),
    ensures
        contains_seq(s, t),
{
    let p = s.drop_last();
    let i = choose|i: int| occurs_at(p, t, i);
    assert(s.subrange(i, i + t.len()) =~= p.subrange(i, i + t.len()));
    assert(occurs_at(s, t, i));
}

proof fn lemma_contains_trans(a: Seq<char>, b: Seq<char>, c: Seq<char>)
    requires
        contains_seq(a, b),
        contains_seq(b, c),
    ensures
        contains_seq(a, c),
{
    let i = choose|i: int| occurs_at(a, b, i);
    let j = choose|j: int| occurs_at(b, c, j);
    assert(a.subrange(i + j, i + j + c.len()) =~= b.subrange(j, j + c.len())) by {
        assert(a.subrange(i, i + b.len()) == b);
        assert forall|k: int| 0 <= k < c.len() implies #[trigger] a.subrange(i + j, i + j + c.len())[k] == b.subrange(j, j + c.len())[k] by {
            assert(a[i + j + k] == a.subrange(i, i + b.len())[j + k]);
        }
    }
    assert(occurs_at(a, c, i + j));
}

/// Every finished token is a piece of the text, and the unfinished word is
/// its end.
proof fn lemma_words_state(s: Seq<char>)
    ensures
        forall|i: int| 0 <= i < words_state(s).0.len() ==> contains_seq(s, #[trigger] words_state(s).0[i]),
        words_state(s).1.len() <= s.len(),
        words_state(s).1 == s.subrange(s.len() - words_state(s).1.len(), s.len() as int),
    decreases s.len(),
{
    if s.len() > 0 {
        let p = s.drop_last();
        lemma_words_state(p);
        let (done, cur) = words_state(p);
        assert forall|i: int| 0 <= i < done.len() implies contains_seq(s, done[i]) by {
            assert(contains_seq(p, done[i]));
            lemma_contains_extend(s, done[i]);
        }
        if is_space_char(s.last()) {
            if cur.len() >= MIN_TOKEN_CHARS {
                assert(occurs_at(p, cur, p.len() - cur.len()));
                lemma_contains_extend(s, cur);
                let d2 = done.push(cur);
                assert forall|i: int| 0 <= i < d2.len() implies contains_seq(s, d2[i]) by {
                    if i < done.len() {
                        assert(d2[i] == done[i]);
                    }
                }
            }
            assert(s.subrange(s.len() as int, s.len() as int) =~= Seq::<char>::empty());
        } else {
            assert(cur.push(s.last()) =~= s.subrange(s.len() - (cur.len() + 1), s.len() as int)) by {
                assert forall|k: int| 0 <= k < cur.len() implies #[trigger] cur[k] == s[s.len() - (cur.len() + 1) + k] by {
                    assert(cur[k] == p.subrange(p.len() - cur.len(), p.len() as int)[k]);
                }
            }
        }
    }
}

/// Every query token occurs in the query.
pub proof fn lemma_tokens_in_query(lq: Seq<char>)
    ensures
        forall|i: int| 0 <= i < query_tokens(lq).len() ==> contains_seq(lq, #[trigger] query_tokens(lq)[i]),
{
    lemma_words_state(lq);
    let (done, cur) = words_state(lq);
    if cur.len() >= MIN_TOKEN_CHARS {
        assert(occurs_at(lq, cur, lq.len() - cur.len()));
        let ts = done.push(cur);
        assert forall|i: int| 0 <= i < ts.len() implies contains_seq(lq, ts[i]) by {
            if i < done.len() {
                assert(ts[i] == done[i]);
            }
        }
    }
}

proof fn lemma_count_found_all(text: Seq<char>, tokens: Seq<Seq<char>>)
    requires
        forall|i: int| 0 <= i < tokens.len() ==> contains_seq(text, #[trigger] tokens[i]),
    ensures
        count_found(text, tokens) == distinct_count(tokens),
    decreases tokens.len(),
{
    if tokens.len() > 0 {
        let init = tokens.drop_last();
        assert forall|i: int| 0 <= i < init.len() implies contains_seq(text, #[trigger] init[i]) by {
            assert(init[i] == tokens[i]);
        }
        lemma_count_found_all(text, init);
        assert(contains_seq(text, tokens[tokens.len() - 1]));
    }
}

/// A fragment whose lower-cased content holds the whole lower-cased query
/// outranks, in lexical search, every fragment whose content does not.
pub proof fn lemma_phrase_outranks(a: Seq<char>, b: Seq<char>, lq: Seq<char>)
    requires
        query_tokens(lq).len() > 0,
        contains_seq(lower_of(a), lq),
        !contains_seq(lower_of(b), lq),
    ensures
        text_key(a, lq) > text_key(b, lq),
{
    let ts = query_tokens(lq);
    lemma_tokens_in_query(lq);
    assert forall|i: int| 0 <= i < ts.len() implies contains_seq(lower_of(a), #[trigger] ts[i]) by {
        lemma_contains_trans(lower_of(a), lq, ts[i]);
    }
    lemma_count_found_all(lower_of(a), ts);
    lemma_count_found_bound(lower_of(b), ts);
}

/// The phrase bonus in numbers: with `T` query tokens of which `D` are
/// distinct, a fragment holding the whole query has key `2D + T`, and one
/// holding every token but not the whole query has key `2D`; their scores
/// differ by exactly one half.
pub proof fn lemma_phrase_bonus_exact(a: Seq<char>, b: Seq<char>, lq: Seq<char>)
    requires
        query_tokens(lq).len() > 0,
        contains_seq(lower_of(a), lq),
        forall|i: int| 0 <= i < query_tokens(lq).len() ==> contains_seq(lower_of(b), #[trigger] query_tokens(lq)[i]),
        !contains_seq(lower_of(b), lq),
    ensures
        text_key(a, lq) == 2 * distinct_count(query_tokens(lq)) + query_tokens(lq).len(),
        text_key(b, lq) == 2 * distinct_count(query_tokens(lq)),
        text_key(a, lq) == text_key(b, lq) + query_tokens(lq).len(),
        text_score(text_key(a, lq), query_tokens(lq).len()) == text_score(text_key(b, lq), query_tokens(lq).len())
            + SCORE_SCALE / 2,
{
    let ts = query_tokens(lq);
    let t = ts.len();
    lemma_tokens_in_query(lq);
    assert forall|i: int| 0 <= i < ts.len() implies contains_seq(lower_of(a), #[trigger] ts[i]) by {
        lemma_contains_trans(lower_of(a), lq, ts[i]);
    }
    lemma_count_found_all(lower_of(a), ts);
    lemma_count_found_all(lower_of(b), ts);
    let kb = text_key(b, lq);
    assert(((kb + t) * SCORE_SCALE) as int / (2 * t) as int == (kb * SCORE_SCALE) as int / (2 * t) as int + SCORE_SCALE / 2) by {
        let s = SCORE_SCALE as int;
        let q = (2 * t) as int;
        assert((kb + t) * s == kb * s + (s / 2) * q) by (nonlinear_arith)
            requires
                s == 1_000_000_000_000,
                q == 2 * t,
        ;
        vstd::arithmetic::div_mod::lemma_hoist_over_denominator((kb * s) as int, s / 2, q as nat);
    }
}

pub proof fn lemma_count_found_bound(text: Seq<char>, tokens: Seq<Seq<char>>)
    ensures
        count_found(text, tokens) <= distinct_count(tokens),
        distinct_count(tokens) <= tokens.len(),
    decreases tokens.len(),
{
    if tokens.len() > 0 {
        lemma_count_found_bound(text, tokens.drop_last());
    }
}

/// Position of the fragment with identity `id`.
fn position_of(entries: &Vec<Chunk>, id: &String) -> (r: Option<usize>)
    ensures
        match r {
            Some(p) => p as int == chunk_pos(chunk_views(entries@), id@),
            None => chunk_pos(chunk_views(entries@), id@) == -1,
        },
{
    let ghost s = chunk_views(entries@);
    let mut i = entries.len();
    assert(s.take(i as int) =~= s);
    while i > 0
        invariant
            i <= entries@.len(),
            s == chunk_views(entries@),
            chunk_pos(s, id@) == chunk_pos(s.take(i as int), id@),
        decreases i,
    {
        let ghost t = s.take(i as int);
        assert(t.drop_last() =~= s.take(i - 1));
        assert(t.last() == entries@[i - 1]@);
        if str_eq(entries[i - 1].id.as_str(), id.as_str()) {
            return Some(i - 1);
        }
        i = i - 1;
    }
    None
}

/// Reciprocal rank fusion: each entry at 0-based rank `r` of a list adds
/// `1 / (k + r + 1)` to its fragment's fused score (in units of 10^-12,
/// saturating); a fragment keeps the data of its first occurrence. The result
/// is the fused fragments by descending score, ties in order of first
/// occurrence, at most `limit` of them. The scores of the inputs are not read.
/// Scores are fixed-point, so each gain must be at least one unit: `k` plus
/// each list's length stays within `SCORE_SCALE`.
pub fn reciprocal_rank_fusion(k: u64, limit: usize, result_lists: Vec<Vec<SearchResult>>) -> (r: Vec<SearchResult>)
    requires
        forall|i: int| 0 <= i < result_lists@.len() ==> k + (#[trigger] result_lists@[i])@.len() <= SCORE_SCALE,
    ensures
        is_fusion(list_views(result_lists@), k as nat, limit as nat, r@),
{
    let ghost lv = list_views(result_lists@);
    let ghost kk = k as nat;
    let mut entries: Vec<Chunk> = Vec::new();
    let mut scores: Vec<u128> = Vec::new();
    let mut li: usize = 0;
    assert(lv.take(0) =~= Seq::<Seq<ChunkModel>>::empty());
    assert(chunk_views(entries@) =~= Seq::<ChunkModel>::empty());
    assert(scores@ =~= Seq::<u128>::empty());
    while li < result_lists.len()
        invariant
            li <= result_lists@.len(),
            lv == list_views(result_lists@),
            kk == k as nat,
            chunk_views(entries@) == fused_entries(occurrences(lv.take(li as int))),
            scores@ == fused_keys(occurrences(lv.take(li as int)), kk),
        decreases result_lists@.len() - li,
    {
        let list = &result_lists[li];
        let ghost base = occurrences(lv.take(li as int));
        let ghost l = lv[li as int];
        assert(l == list@.map_values(|x: SearchResult| x.chunk@));
        let mut r: usize = 0;
        assert(base + list_entries(l).take(0) =~= base);
        while r < list.len()
            invariant
                r <= list@.len(),
                l == list@.map_values(|x: SearchResult| x.chunk@),
                kk == k as nat,
                chunk_views(entries@) == fused_entries(base + list_entries(l).take(r as int)),
                scores@ == fused_keys(base + list_entries(l).take(r as int), kk),
            decreases list@.len() - r,
        {
            let ghost occ = base + list_entries(l).take(r as int);
            let ghost occ2 = base + list_entries(l).take(r + 1);
            assert(occ2.drop_last() =~= occ);
            assert(occ2.last() == (list@[r as int].chunk@, r as nat));
            let c = &list[r].chunk;
            let gain: u128 = SCORE_SCALE / (k as u128 + r as u128 + 1);
            assert(gain == rrf_gain(kk, r as nat));
            let ghost e = fused_entries(occ);
            proof {
                lemma_chunk_pos(e, c@.id);
            }
            let found_at = position_of(&entries, &c.id);
            let found = found_at.is_some();
            let pos: usize = match found_at {
                Some(q) => q,
                None => 0,
            };
            if found {
                let p = pos;
                assert(chunk_pos(e, c@.id) == p);
                let old_score = scores[p];
                let ghost before = scores@;
                scores.set(p, old_score.saturating_add(gain));
                proof {
                    assert(fused_entries(occ2) == e);
                    lemma_fused_unique(occ);
                    lemma_rrf_gain_bounds(kk, r as nat);
                    assert forall|j: int| 0 <= j < e.len() implies #[trigger] scores@[j] == capped(id_total(occ2, e[j].id, kk)) by {
                        if j != p {
                            assert(scores@[j] == before[j]);
                            assert(e[j].id != c@.id);
                        } else {
                            assert(id_total(occ2, e[j].id, kk) == id_total(occ, e[j].id, kk) + gain);
                            assert(id_total(occ, e[j].id, kk) >= 0) by {
                                lemma_id_total_nonneg(occ, e[j].id, kk);
                            }
                        }
                    }
                    assert(scores@ =~= fused_keys(occ2, kk));
                }
            } else {
                let ghost before = scores@;
                let ghost before_e = chunk_views(entries@);
                let dup = c.duplicate();
                entries.push(dup);
                scores.push(gain);
                proof {
                    assert(chunk_pos(e, c@.id) == -1);
                    let e2 = e.push(c@);
                    assert(fused_entries(occ2) == e2);
                    assert(chunk_views(entries@) =~= e2);
                    lemma_fused_absent(occ, c@.id, kk);
                    lemma_rrf_gain_bounds(kk, r as nat);
                    assert forall|j: int| 0 <= j < e2.len() implies #[trigger] scores@[j] == capped(id_total(occ2, e2[j].id, kk)) by {
                        if j < e.len() {
                            assert(scores@[j] == before[j]);
                            assert(e2[j] == e[j]);
                            assert(e[j].id != c@.id);
                        }
                    }
                    assert(scores@ =~= fused_keys(occ2, kk));
                }
            }
            r = r + 1;
        }
        proof {
            assert(list_entries(l).take(list@.len() as int) =~= list_entries(l));
            assert(lv.take(li + 1).drop_last() =~= lv.take(li as int));
            assert(lv.take(li + 1).last() == l);
        }
        li = li + 1;
    }
    assert(lv.take(li as int) =~= lv);
    let ghost occ = occurrences(lv);
    let ghost fe = fused_entries(occ);
    let ghost keys = fused_keys(occ, kk);
    let order = top_positions(&scores, limit);
    let mut out: Vec<SearchResult> = Vec::new();
    let mut j: usize = 0;
    while j < order.len()
        invariant
            j <= order@.len(),
            chunk_views(entries@) == fe,
            scores@ == keys,
            entries@.len() == fe.len(),
            keys.len() == fe.len(),
            is_top_ranking(keys, order@, limit as nat),
            out@.len() == j,
            forall|m: int|
                0 <= m < j ==> (#[trigger] out@[m]).chunk@ == fe[order@[m] as int] && out@[m].score == keys[order@[m] as int],
        decreases order@.len() - j,
    {
        let p = order[j];
        assert(order@[j as int] < keys.len());
        out.push(SearchResult::new(entries[p].duplicate(), scores[p]));
        j = j + 1;
    }
    assert(is_top_ranking(keys, order@, limit as nat));
    out
}

/// The ranking step of a hybrid query, given the vector ranking of the
/// query (best first, at least `2 * limit` long when the index allows) and
/// all fragments of the index: with fusion off, the vector ranking cut to
/// `limit`; with fusion on, the fusion (constant `k`) of the vector ranking
/// and a lexical search for `2 * limit` fragments, cut to `limit`.
pub fn hybrid_rank(
    fusion: bool,
    k: u64,
    limit: usize,
    vector_results: Vec<SearchResult>,
    all_chunks: &[Chunk],
    query: &str,
) -> (r: Vec<SearchResult>)
    requires
        2 * limit <= usize::MAX,
        k + vector_results@.len() <= SCORE_SCALE,
        k + 2 * limit <= SCORE_SCALE,
    ensures
        !fusion ==> result_chunks(r@) == result_chunks(vector_results@).take(
            if limit < vector_results@.len() { limit as int } else { vector_results@.len() as int },
        ),
        fusion ==> exists|t: Seq<SearchResult>|
            #![trigger is_text_search(chunk_views(all_chunks@), query@, 2 * limit as nat, t)]
            is_text_search(chunk_views(all_chunks@), query@, 2 * limit as nat, t) && is_fusion(
                seq![result_chunks(vector_results@), result_chunks(t)],
                k as nat,
                limit as nat,
                r@,
            ),
{
    if !fusion {
        let mut v = vector_results;
        let ghost before = result_chunks(v@);
        if limit < v.len() {
            v.truncate(limit);
        }
        assert(result_chunks(v@) =~= before.take(
            if limit < before.len() { limit as int } else { before.len() as int },
        ));
        return v;
    }
    let text = text_search(all_chunks, query, 2 * limit);
    let ghost t = text@;
    let ghost vv = result_chunks(vector_results@);
    let mut lists: Vec<Vec<SearchResult>> = Vec::new();
    lists.push(vector_results);
    lists.push(text);
    assert(list_views(lists@) =~= seq![vv, result_chunks(t)]);
    assert forall|i: int| 0 <= i < lists@.len() implies k + (#[trigger] lists@[i])@.len() <= SCORE_SCALE by {
        assert(lists@[0]@.len() == vv.len());
        assert(lists@[1]@ == t);
    }
    let r = reciprocal_rank_fusion(k, limit, lists);
    assert(is_text_search(chunk_views(all_chunks@), query@, 2 * limit as nat, t));
    r
}

} // verus!
