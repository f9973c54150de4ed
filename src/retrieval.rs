use vstd::prelude::*;
use crate::score::{meets, meets_threshold, rank, score_rank};

verus! {

/// A candidate as the contracts see it: its path and its similarity
/// (a binary32 bit pattern).
pub type Candidate = (Seq<char>, u32);

/// One ranked image: its path and its similarity as a binary32 bit pattern.
#[derive(Debug)]
pub struct RetrievalResult {
    pub path: String,
    pub similarity: u32,
}

impl View for RetrievalResult {
    type V = Candidate;

    open spec fn view(&self) -> Candidate {
        (self.path@, self.similarity)
    }
}

impl RetrievalResult {
    /// Builds a result from a path and a similarity.
    pub fn new(path: String, similarity: u32) -> (r: RetrievalResult)
        ensures
            r@ == (path@, similarity),
    {
        RetrievalResult { path, similarity }
    }

    /// A field-by-field copy.
    pub fn duplicate(&self) -> (r: RetrievalResult)
        ensures
            r@ == self@,
    {
        RetrievalResult { path: self.path.clone(), similarity: self.similarity }
    }
}

/// Views of a sequence of results.
pub open spec fn result_views(s: Seq<RetrievalResult>) -> Seq<Candidate> {
    s.map_values(|r: RetrievalResult| r@)
}

/// The candidates of a batch: each path paired with the score at its position.
pub open spec fn candidates(paths: Seq<String>, scores: Seq<u32>) -> Seq<Candidate> {
    Seq::new(paths.len(), |i: int| (paths[i]@, scores[i]))
}

/// The candidates whose similarity reaches the threshold, in their order.
pub open spec fn passing(cands: Seq<Candidate>, threshold: u32) -> Seq<Candidate> {
    cands.filter(|c: Candidate| meets(c.1, threshold))
}

/// What the accumulator holds after the batches are filtered one by one.
pub open spec fn accumulated(batches: Seq<Seq<Candidate>>, threshold: u32) -> Seq<Candidate>
    decreases batches.len(),
{
    if batches.len() == 0 {
        Seq::empty()
    } else {
        accumulated(batches.drop_last(), threshold) + passing(batches.last(), threshold)
    }
}

/// The batches laid end to end.
pub open spec fn joined(batches: Seq<Seq<Candidate>>) -> Seq<Candidate>
    decreases batches.len(),
{
    if batches.len() == 0 {
        Seq::empty()
    } else {
        joined(batches.drop_last()) + batches.last()
    }
}

/// Appends to `acc`, in order, every candidate of the batch whose similarity
/// reaches `threshold`; the others are dropped.
pub fn filter_batch(acc: &mut Vec<RetrievalResult>, paths: &Vec<String>, scores: &Vec<u32>, threshold: u32)
    requires
        paths.len() == scores.len(),
    ensures
        result_views(final(acc)@) == result_views(old(acc)@) + passing(candidates(paths@, scores@), threshold),
{
    let ghost cands = candidates(paths@, scores@);
    let ghost start = result_views(acc@);
    let mut i: usize = 0;
    while i < paths.len()
        invariant
            paths.len() == scores.len(),
            i <= paths.len(),
            cands == candidates(paths@, scores@),
            result_views(acc@) == start + passing(cands.take(i as int), threshold),
        decreases paths.len() - i,
    {
        let ghost before = acc@;
        assert(cands.take(i + 1) =~= cands.take(i as int).push(cands[i as int]));
        proof {
            cands.take(i as int).lemma_filter_push(cands[i as int], |c: Candidate| meets(c.1, threshold));
        }
        if meets_threshold(scores[i], threshold) {
            acc.push(RetrievalResult::new(paths[i].clone(), scores[i]));
            assert(result_views(acc@) =~= result_views(before).push(cands[i as int]));
        } else {
            assert(result_views(acc@) =~= result_views(before));
        }
        i = i + 1;
    }
    assert(cands.take(paths.len() as int) =~= cands);
}

/// Filtering batch by batch and filtering all candidates at once give the
/// same accumulated sequence, however the candidates are cut into batches.
pub proof fn lemma_batch_invariance(batches: Seq<Seq<Candidate>>, threshold: u32)
    ensures
        accumulated(batches, threshold) == passing(joined(batches), threshold),
    decreases batches.len(),
{
    if batches.len() == 0 {
        assert(passing(Seq::empty(), threshold) =~= Seq::empty());
    } else {
        lemma_batch_invariance(batches.drop_last(), threshold);
        Seq::filter_distributes_over_add(joined(batches.drop_last()), batches.last(), |c: Candidate| meets(c.1, threshold));
    }
}

/// A candidate is kept exactly when its similarity reaches the threshold:
/// nothing below it appears and nothing at or above it is missing.
pub proof fn lemma_threshold_filtering(cands: Seq<Candidate>, threshold: u32, c: Candidate)
    ensures
        passing(cands, threshold).contains(c) <==> (cands.contains(c) && meets(c.1, threshold)),
{
    let p = |x: Candidate| meets(x.1, threshold);
    if cands.contains(c) && meets(c.1, threshold) {
        let i = choose|i: int| 0 <= i < cands.len() && cands[i] == c;
        cands.lemma_filter_contains(p, i);
    }
    if passing(cands, threshold).contains(c) {
        let i = choose|i: int| 0 <= i < cands.filter(p).len() && cands.filter(p)[i] == c;
        cands.lemma_filter_pred(p, i);
        cands.lemma_filter_contains_rev(p, c);
    }
}

/// The candidate at position `i` ranks ahead of the one at position `j`:
/// a higher similarity, or an equal one and an earlier position.
pub open spec fn ranks_before(cands: Seq<Candidate>, i: int, j: int) -> bool {
    rank(cands[i].1) > rank(cands[j].1) || (rank(cands[i].1) == rank(cands[j].1) && i < j)
}

/// `order` lists every position of `cands` once, best first: descending
/// similarity, ties in input order.
pub open spec fn is_ranking(cands: Seq<Candidate>, order: Seq<usize>) -> bool {
    &&& order.len() == cands.len()
    &&& forall|k: int| 0 <= k < order.len() ==> order[k] < cands.len()
    &&& forall|a: int, b: int| 0 <= a < b < order.len() ==> ranks_before(cands, order[a] as int, order[b] as int)
    &&& forall|i: usize| i < cands.len() ==> #[trigger] order.contains(i)
}

/// `result` is the first `top_k` candidates of the ranking of `cands`
/// (all of them when there are fewer).
pub open spec fn is_top_k(cands: Seq<Candidate>, top_k: nat, result: Seq<Candidate>) -> bool {
    exists|order: Seq<usize>|
        #[trigger] is_ranking(cands, order) && result.len() == (if top_k < cands.len() { top_k } else { cands.len() })
            && forall|t: int| 0 <= t < result.len() ==> result[t] == cands[order[t] as int]
}

/// A ranking is unique: two orders that both rank `cands` are equal, so
/// `is_top_k` fixes the selection exactly.
pub proof fn lemma_ranking_unique(cands: Seq<Candidate>, o1: Seq<usize>, o2: Seq<usize>)
    requires
        is_ranking(cands, o1),
        is_ranking(cands, o2),
    ensures
        o1 == o2,
{
    assert forall|t: int| 0 <= t < o1.len() implies o1[t] == o2[t] by {
        lemma_rankings_agree_at(cands, o1, o2, t);
    }
    assert(o1 =~= o2);
}

proof fn lemma_rankings_agree_at(cands: Seq<Candidate>, o1: Seq<usize>, o2: Seq<usize>, t: int)
    requires
        is_ranking(cands, o1),
        is_ranking(cands, o2),
        0 <= t < o1.len(),
    ensures
        o1[t] == o2[t],
    decreases t,
{
    assert forall|u: int| 0 <= u < t implies o1[u] == o2[u] by {
        lemma_rankings_agree_at(cands, o1, o2, u);
    }
    let x = o1[t];
    let y = o2[t];
    if x != y {
        assert(o1.contains(y));
        let k = choose|k: int| 0 <= k < o1.len() && o1[k] == y;
        if k < t {
            assert(o2[k] == y);
            assert(ranks_before(cands, o2[k] as int, o2[t] as int));
        }
        assert(ranks_before(cands, o1[t] as int, o1[k] as int));
        assert(o2.contains(x));
        let j = choose|j: int| 0 <= j < o2.len() && o2[j] == x;
        if j < t {
            assert(o1[j] == x);
            assert(ranks_before(cands, o1[j] as int, o1[t] as int));
        }
        assert(ranks_before(cands, o2[t] as int, o2[j] as int));
    }
}

/// The positions of `results`, best first: descending similarity, equal
/// similarities in input order, NaN last.
pub fn ranking_order(results: &Vec<RetrievalResult>) -> (r: Vec<usize>)
    ensures
        is_ranking(result_views(results@), r@),
{
    let ghost cands = result_views(results@);
    let mut order: Vec<usize> = Vec::new();
    let mut i: usize = 0;
    while i < results.len()
        invariant
            i <= results.len(),
            cands == result_views(results@),
            cands.len() == results.len(),
            order.len() == i,
            forall|k: int| 0 <= k < order.len() ==> order@[k] < i,
            forall|a: int, b: int| 0 <= a < b < order.len() ==> ranks_before(cands, order@[a] as int, order@[b] as int),
            forall|x: usize| x < i ==> #[trigger] order@.contains(x),
        decreases results.len() - i,
    {
        let key = score_rank(results[i].similarity);
        assert(cands[i as int].1 == results@[i as int].similarity);
        let mut p: usize = 0;
        while p < order.len() && score_rank(results[order[p]].similarity) >= key
            invariant
                p <= order.len(),
                order.len() == i,
                i < results.len(),
                cands == result_views(results@),
                key == rank(cands[i as int].1),
                forall|k: int| 0 <= k < order.len() ==> order@[k] < i,
                forall|a: int| 0 <= a < p ==> rank(cands[order@[a] as int].1) >= key,
            decreases order.len() - p,
        {
            assert(cands[order@[p as int] as int].1 == results@[order@[p as int] as int].similarity);
            p = p + 1;
        }
        if p < order.len() {
            assert(cands[order@[p as int] as int].1 == results@[order@[p as int] as int].similarity);
        }
        let ghost prev = order@;
        order.insert(p, i);
        assert(order@ == prev.insert(p as int, i));
        assert forall|a: int, b: int| 0 <= a < b < order.len() implies ranks_before(cands, order@[a] as int, order@[b] as int) by {
            if b == p {
                assert(order@[a] == prev[a]);
            } else if a == p {
                assert(order@[b] == prev[b - 1]);
                if b - 1 > p {
                    assert(ranks_before(cands, prev[p as int] as int, prev[b - 1] as int));
                }
            } else if a < p && b < p {
                assert(order@[a] == prev[a]);
                assert(order@[b] == prev[b]);
            } else if a < p {
                assert(order@[a] == prev[a]);
                assert(order@[b] == prev[b - 1]);
            } else {
                assert(order@[a] == prev[a - 1]);
                assert(order@[b] == prev[b - 1]);
            }
        }
        assert forall|x: usize| x < i + 1 implies #[trigger] order@.contains(x) by {
            if x == i {
                assert(order@[p as int] == x);
            } else {
                assert(prev.contains(x));
                let k = choose|k: int| 0 <= k < prev.len() && prev[k] == x;
                if k < p {
                    assert(order@[k] == x);
                } else {
                    assert(order@[k + 1] == x);
                }
            }
        }
        i = i + 1;
    }
    order
}

/// The best `top_k` of `results` (all of them when there are fewer), in
/// descending similarity, equal similarities in input order, NaN last.
pub fn rank_results(results: &Vec<RetrievalResult>, top_k: usize) -> (r: Vec<RetrievalResult>)
    ensures
        is_top_k(result_views(results@), top_k as nat, result_views(r@)),
{
    let ghost cands = result_views(results@);
    let order = ranking_order(results);
    let n: usize = if top_k < results.len() { top_k } else { results.len() };
    let mut r: Vec<RetrievalResult> = Vec::new();
    let mut t: usize = 0;
    while t < n
        invariant
            n <= results.len(),
            cands == result_views(results@),
            is_ranking(cands, order@),
            t <= n,
            r.len() == t,
            forall|u: int| 0 <= u < t ==> (#[trigger] result_views(r@)[u]) == cands[order@[u] as int],
        decreases n - t,
    {
        let ghost before = r@;
        r.push(results[order[t]].duplicate());
        assert forall|u: int| 0 <= u < t + 1 implies (#[trigger] result_views(r@)[u]) == cands[order@[u] as int] by {
            if u < t {
                assert(r@[u] == before[u]);
                assert(result_views(before)[u] == cands[order@[u] as int]);
            }
        }
        t = t + 1;
    }
    assert(is_ranking(cands, order@));
    r
}

/// The top-`top_k` selection has `min(top_k, |candidates|)` entries and is
/// sorted by descending similarity.
pub proof fn lemma_top_k_shape(cands: Seq<Candidate>, top_k: nat, result: Seq<Candidate>)
    requires
        is_top_k(cands, top_k, result),
    ensures
        result.len() == if top_k < cands.len() { top_k } else { cands.len() },
        forall|a: int, b: int| 0 <= a < b < result.len() ==> rank(result[a].1) >= rank(result[b].1),
{
    let order = choose|order: Seq<usize>|
        #[trigger] is_ranking(cands, order) && result.len() == (if top_k < cands.len() { top_k } else { cands.len() })
            && forall|t: int| 0 <= t < result.len() ==> result[t] == cands[order[t] as int];
    assert forall|a: int, b: int| 0 <= a < b < result.len() implies rank(result[a].1) >= rank(result[b].1) by {
        assert(ranks_before(cands, order[a] as int, order[b] as int));
    }
}

/// Filters the candidates by `threshold` and keeps the best `top_k`.
pub fn retrieve(paths: &Vec<String>, scores: &Vec<u32>, threshold: u32, top_k: usize) -> (r: Vec<RetrievalResult>)
    requires
        paths.len() == scores.len(),
    ensures
        is_top_k(passing(candidates(paths@, scores@), threshold), top_k as nat, result_views(r@)),
{
    let mut acc: Vec<RetrievalResult> = Vec::new();
    filter_batch(&mut acc, paths, scores, threshold);
    assert(result_views(Seq::<RetrievalResult>::empty()) =~= Seq::<Candidate>::empty());
    assert(result_views(acc@) =~= passing(candidates(paths@, scores@), threshold));
    rank_results(&acc, top_k)
}

/// The batches are consecutive ranges `[start, end)` that cover `0..n` in
/// order, each of `batch_size` items but possibly the last, none empty.
pub open spec fn is_partition(bounds: Seq<(usize, usize)>, n: nat, batch_size: nat) -> bool {
    &&& (bounds.len() == 0 <==> n == 0)
    &&& bounds.len() > 0 ==> bounds[0].0 == 0 && bounds.last().1 == n
    &&& forall|k: int| 0 <= k < bounds.len() - 1 ==> (#[trigger] bounds[k]).1 == bounds[k + 1].0
    &&& forall|k: int| 0 <= k < bounds.len() ==> (#[trigger] bounds[k]).0 < bounds[k].1 && bounds[k].1 - bounds[k].0 <= batch_size
    &&& forall|k: int| 0 <= k < bounds.len() - 1 ==> (#[trigger] bounds[k]).1 - bounds[k].0 == batch_size
}

/// Cuts `0..n` into consecutive batches of at most `batch_size` items.
pub fn batch_bounds(n: usize, batch_size: usize) -> (r: Vec<(usize, usize)>)
    requires
        batch_size > 0,
    ensures
        is_partition(r@, n as nat, batch_size as nat),
{
    let mut r: Vec<(usize, usize)> = Vec::new();
    let mut start: usize = 0;
    while start < n
        invariant
            batch_size > 0,
            start <= n,
            r.len() == 0 <==> start == 0,
            r.len() > 0 ==> r@[0].0 == 0 && r@.last().1 == start,
            forall|k: int| 0 <= k < r.len() - 1 ==> (#[trigger] r@[k]).1 == r@[k + 1].0,
            forall|k: int| 0 <= k < r.len() ==> (#[trigger] r@[k]).0 < r@[k].1 && r@[k].1 - r@[k].0 <= batch_size,
            forall|k: int| 0 <= k < r.len() - 1 ==> (#[trigger] r@[k]).1 - r@[k].0 == batch_size,
            forall|k: int| 0 <= k < r.len() ==> (#[trigger] r@[k]).1 - r@[k].0 == batch_size || r@[k].1 == n,
        decreases n - start,
    {
        let end: usize = if n - start > batch_size { start + batch_size } else { n };
        let ghost prev = r@;
        r.push((start, end));
        assert forall|k: int| 0 <= k < r.len() - 1 implies (#[trigger] r@[k]).1 == r@[k + 1].0 by {
            if k < r.len() - 2 {
                assert(r@[k] == prev[k] && r@[k + 1] == prev[k + 1]);
            }
        }
        assert forall|k: int| 0 <= k < r.len() - 1 implies (#[trigger] r@[k]).1 - r@[k].0 == batch_size by {
            assert(r@[k] == prev[k]);
            if k < r.len() - 2 {
            } else {
                assert(prev[k].1 == start);
            }
        }
        start = end;
    }
    r
}

} // verus!
