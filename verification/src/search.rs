//! Similarity search: scores every stored chunk against a query vector,
//! ranks by score (descending, ties kept in store order), takes the best
//! `top_k`, and drops anything at or below the relevance floor.

use vstd::prelude::*;

use crate::chunk::min_int;
use crate::store::ChunkRecord;
use crate::vector::{bounded_vec, cosine_similarity, lemma_cosine_range, spec_cosine, SIM_SCALE};

verus! {

/// Scores at or below this floor (one tenth of a perfect match) are never
/// returned.
pub const RELEVANCE_FLOOR: i64 = 100_000;

/// One ranked search hit: the chunk's text, its source filename, and its
/// scaled similarity score.
pub struct SearchResult {
    pub content: String,
    pub filename: String,
    pub score: i64,
}

/// Every stored embedding is small enough to score.
pub open spec fn bounded_records(records: Seq<ChunkRecord>) -> bool {
    forall|i: int| 0 <= i < records.len() ==> bounded_vec(#[trigger] records[i].embedding@)
}

/// Each record's index paired with its similarity to the query, in store
/// order.
pub open spec fn scored_seq(records: Seq<ChunkRecord>, query: Seq<i64>) -> Seq<(usize, i64)> {
    Seq::new(
        records.len(),
        |i: int| (i as usize, spec_cosine(query, records[i].embedding@) as i64),
    )
}

/// Inserts a scored entry into a ranked sequence: it goes in front of the
/// first entry it strictly outscores, so equal scores keep their earlier
/// relative order.
pub open spec fn insert_ranked(s: Seq<(usize, i64)>, p: (usize, i64)) -> Seq<(usize, i64)>
    decreases s.len(),
{
    if s.len() == 0 {
        seq![p]
    } else if p.1 > s[0].1 {
        seq![p] + s
    } else {
        seq![s[0]] + insert_ranked(s.drop_first(), p)
    }
}

/// The stable descending ranking of a scored sequence: what a stable sort
/// by score descending yields.
pub open spec fn rank_all(s: Seq<(usize, i64)>) -> Seq<(usize, i64)>
    decreases s.len(),
{
    if s.len() == 0 {
        Seq::empty()
    } else {
        insert_ranked(rank_all(s.drop_last()), s.last())
    }
}

/// The search hit a scored entry stands for.
pub open spec fn result_of(records: Seq<ChunkRecord>, p: (usize, i64)) -> SearchResult {
    SearchResult { content: records[p.0 as int].content, filename: records[p.0 as int].filename, score: p.1 }
}

/// The hits for the ranked entries that clear the relevance floor, in rank
/// order.
pub open spec fn filtered_results(records: Seq<ChunkRecord>, ranked: Seq<(usize, i64)>) -> Seq<
    SearchResult,
>
    decreases ranked.len(),
{
    if ranked.len() == 0 {
        Seq::empty()
    } else {
        let rest = filtered_results(records, ranked.drop_first());
        if ranked[0].1 > RELEVANCE_FLOOR {
            seq![result_of(records, ranked[0])] + rest
        } else {
            rest
        }
    }
}

/// What a search returns: rank all records by similarity, keep the best
/// `top_k`, then drop the hits at or below the relevance floor.
pub open spec fn spec_search(records: Seq<ChunkRecord>, query: Seq<i64>, top_k: int) -> Seq<
    SearchResult,
> {
    let ranked = rank_all(scored_seq(records, query));
    filtered_results(records, ranked.take(min_int(top_k, ranked.len() as int)))
}

/// All ranked indices stay below `n`.
pub open spec fn indices_below(s: Seq<(usize, i64)>, n: int) -> bool {
    forall|j: int| 0 <= j < s.len() ==> (#[trigger] s[j]).0 < n
}

/// Insertion keeps length, and keeps indices below a bound.
proof fn lemma_insert_ranked_props(s: Seq<(usize, i64)>, p: (usize, i64), n: int)
    requires
        indices_below(s, n),
        p.0 < n,
    ensures
        insert_ranked(s, p).len() == s.len() + 1,
        indices_below(insert_ranked(s, p), n),
    decreases s.len(),
{
    if s.len() == 0 {
    } else if p.1 > s[0].1 {
    } else {
        assert(indices_below(s.drop_first(), n)) by {
            assert(forall|j: int|
                0 <= j < s.drop_first().len() ==> (#[trigger] s.drop_first()[j]) == s[j + 1]);
        }
        lemma_insert_ranked_props(s.drop_first(), p, n);
        let r = seq![s[0]] + insert_ranked(s.drop_first(), p);
        assert forall|j: int| 0 <= j < r.len() implies (#[trigger] r[j]).0 < n by {
            if j > 0 {
                assert(r[j] == insert_ranked(s.drop_first(), p)[j - 1]);
            }
        }
    }
}

/// Ranking keeps length and keeps indices below a bound.
proof fn lemma_rank_all_props(s: Seq<(usize, i64)>, n: int)
    requires
        indices_below(s, n),
    ensures
        rank_all(s).len() == s.len(),
        indices_below(rank_all(s), n),
    decreases s.len(),
{
    if s.len() > 0 {
        assert(indices_below(s.drop_last(), n)) by {
            assert(forall|j: int|
                0 <= j < s.drop_last().len() ==> (#[trigger] s.drop_last()[j]) == s[j]);
        }
        lemma_rank_all_props(s.drop_last(), n);
        lemma_insert_ranked_props(rank_all(s.drop_last()), s.last(), n);
    }
}

/// Inserts a scored entry into a ranked vector, in front of the first entry
/// it strictly outscores.
fn insert_ranked_exec(ranked: &mut Vec<(usize, i64)>, p: (usize, i64))
    ensures
        final(ranked)@ == insert_ranked(old(ranked)@, p),
{
    let ghost orig = ranked@;
    let mut k: usize = 0;
    proof {
        assert(orig.skip(0) =~= orig);
        assert(orig.take(0) =~= Seq::<(usize, i64)>::empty());
    }
    while k < ranked.len() && !(p.1 > ranked[k].1)
        invariant
            k <= orig.len(),
            ranked@ == orig,
            insert_ranked(orig, p) == orig.take(k as int) + insert_ranked(
                orig.skip(k as int),
                p,
            ),
        decreases orig.len() - k,
    {
        proof {
            assert(orig.skip(k as int)[0] == orig[k as int]);
            assert(orig.skip(k as int).drop_first() =~= orig.skip(k as int + 1));
            assert(insert_ranked(orig.skip(k as int), p) == seq![orig[k as int]] + insert_ranked(
                orig.skip(k as int + 1),
                p,
            ));
            assert(orig.take(k as int) + (seq![orig[k as int]] + insert_ranked(
                orig.skip(k as int + 1),
                p,
            )) =~= orig.take(k as int + 1) + insert_ranked(orig.skip(k as int + 1), p));
        }
        k += 1;
    }
    if k == ranked.len() {
        proof {
            assert(orig.skip(k as int) =~= Seq::<(usize, i64)>::empty());
            assert(insert_ranked(orig, p) =~= orig.take(k as int) + seq![p]);
        }
        ranked.push(p);
        proof {
            assert(orig.take(k as int) =~= orig);
            assert(ranked@ =~= orig.take(k as int) + seq![p]);
        }
    } else {
        proof {
            assert(orig.skip(k as int)[0] == orig[k as int]);
            assert(p.1 > orig[k as int].1);
            assert(insert_ranked(orig.skip(k as int), p) == seq![p] + orig.skip(k as int));
        }
        ranked.insert(k, p);
        proof {
            assert(ranked@ =~= orig.take(k as int) + (seq![p] + orig.skip(k as int)));
        }
    }
}

/// Ranks every stored chunk against the query, keeps the `top_k` best hits,
/// and drops those at or below the relevance floor: at most `top_k` results,
/// in score order, ties resolved by store order.
pub fn search_records(records: &Vec<ChunkRecord>, query: &Vec<i64>, top_k: usize) -> (results: Vec<
    SearchResult,
>)
    requires
        bounded_vec(query@),
        bounded_records(records@),
    ensures
        results@ == spec_search(records@, query@, top_k as int),
{
    let n = records.len();
    let mut scored: Vec<(usize, i64)> = Vec::new();
    let mut i: usize = 0;
    while i < n
        invariant
            i <= n,
            n == records@.len(),
            bounded_vec(query@),
            bounded_records(records@),
            scored@.len() == i,
            forall|j: int|
                0 <= j < i ==> #[trigger] scored@[j] == (
                j as usize,
                spec_cosine(query@, records@[j].embedding@) as i64,
                ),
        decreases n - i,
    {
        let s = cosine_similarity(query, &records[i].embedding);
        scored.push((i, s));
        i += 1;
    }
    proof {
        assert(scored@ =~= scored_seq(records@, query@));
        assert(indices_below(scored@, n as int)) by {
            assert(forall|j: int| 0 <= j < scored@.len() ==> (#[trigger] scored@[j]).0 == j);
        }
    }
    let mut ranked: Vec<(usize, i64)> = Vec::new();
    let mut j: usize = 0;
    proof {
        assert(scored@.take(0) =~= Seq::<(usize, i64)>::empty());
    }
    while j < scored.len()
        invariant
            j <= scored@.len(),
            ranked@ == rank_all(scored@.take(j as int)),
            scored@ == scored_seq(records@, query@),
            n == records@.len(),
            indices_below(scored@, n as int),
        decreases scored@.len() - j,
    {
        let p = scored[j];
        proof {
            assert(scored@.take(j as int + 1).drop_last() =~= scored@.take(j as int));
            assert(scored@.take(j as int + 1).last() == scored@[j as int]);
        }
        insert_ranked_exec(&mut ranked, p);
        j += 1;
    }
    proof {
        assert(scored@.take(scored@.len() as int) =~= scored@);
        assert(ranked@ == rank_all(scored_seq(records@, query@)));
        lemma_rank_all_props(scored@, n as int);
    }
    let limit = if top_k <= ranked.len() {
        top_k
    } else {
        ranked.len()
    };
    let ghost taken = ranked@.take(min_int(top_k as int, ranked@.len() as int));
    proof {
        assert(limit as int == min_int(top_k as int, ranked@.len() as int));
        assert(taken.skip(0) =~= taken);
    }
    let mut results: Vec<SearchResult> = Vec::new();
    let mut t: usize = 0;
    while t < limit
        invariant
            t <= limit,
            limit <= ranked@.len(),
            n == records@.len(),
            indices_below(ranked@, n as int),
            taken == ranked@.take(limit as int),
            spec_search(records@, query@, top_k as int) == results@ + filtered_results(
                records@,
                taken.skip(t as int),
            ),
        decreases limit - t,
    {
        let p = ranked[t];
        proof {
            assert(taken[t as int] == ranked@[t as int]);
            assert(taken.skip(t as int)[0] == taken[t as int]);
            assert(taken.skip(t as int).drop_first() =~= taken.skip(t as int + 1));
        }
        if p.1 > RELEVANCE_FLOOR {
            let ghost prev = results@;
            let hit = SearchResult {
                content: records[p.0].content.clone(),
                filename: records[p.0].filename.clone(),
                score: p.1,
            };
            results.push(hit);
            proof {
                assert(hit == result_of(records@, p));
                assert(prev + (seq![result_of(records@, p)] + filtered_results(
                    records@,
                    taken.skip(t as int + 1),
                )) =~= results@ + filtered_results(records@, taken.skip(t as int + 1)));
            }
        }
        t += 1;
    }
    proof {
        assert(taken.skip(limit as int) =~= Seq::<(usize, i64)>::empty());
        assert(results@ + Seq::<SearchResult>::empty() =~= results@);
    }
    results
}

/// Filtered results never outnumber the ranked entries they come from, and
/// every returned score clears the relevance floor.
proof fn lemma_filtered_results_props(records: Seq<ChunkRecord>, ranked: Seq<(usize, i64)>)
    ensures
        filtered_results(records, ranked).len() <= ranked.len(),
        forall|j: int|
            0 <= j < filtered_results(records, ranked).len() ==> #[trigger] filtered_results(
                records,
                ranked,
            )[j].score > RELEVANCE_FLOOR,
    decreases ranked.len(),
{
    if ranked.len() > 0 {
        lemma_filtered_results_props(records, ranked.drop_first());
        let rest = filtered_results(records, ranked.drop_first());
        if ranked[0].1 > RELEVANCE_FLOOR {
            let r = filtered_results(records, ranked);
            assert forall|j: int| 0 <= j < r.len() implies #[trigger] r[j].score
                > RELEVANCE_FLOOR by {
                if j == 0 {
                    assert(r[0] == result_of(records, ranked[0]));
                } else {
                    assert(r[j] == rest[j - 1]);
                }
            }
        }
    }
}

/// A search returns at most `top_k` results, and never one whose score is at
/// or below the relevance floor.
pub proof fn lemma_search_bounds(records: Seq<ChunkRecord>, query: Seq<i64>, top_k: int)
    requires
        top_k >= 0,
    ensures
        spec_search(records, query, top_k).len() <= top_k,
        forall|j: int|
            0 <= j < spec_search(records, query, top_k).len() ==> #[trigger] spec_search(
                records,
                query,
                top_k,
            )[j].score > RELEVANCE_FLOOR,
{
    let ranked = rank_all(scored_seq(records, query));
    let taken = ranked.take(min_int(top_k, ranked.len() as int));
    lemma_filtered_results_props(records, taken);
}

/// A ranked sequence proper: scores descend, and equal scores keep their
/// store order (smaller index first).
pub open spec fn properly_ranked(s: Seq<(usize, i64)>) -> bool {
    forall|i: int, j: int|
        0 <= i < j < s.len() ==> ((#[trigger] s[i]).1 > (#[trigger] s[j]).1 || (s[i].1 == s[j].1
            && s[i].0 < s[j].0))
}

/// Every entry of an insertion is the inserted entry or one of the old
/// ones.
proof fn lemma_insert_ranked_elements(s: Seq<(usize, i64)>, p: (usize, i64))
    ensures
        forall|j: int|
            0 <= j < insert_ranked(s, p).len() ==> (#[trigger] insert_ranked(s, p)[j] == p
                || s.contains(insert_ranked(s, p)[j])),
    decreases s.len(),
{
    let r = insert_ranked(s, p);
    if s.len() == 0 {
    } else if p.1 > s[0].1 {
        assert forall|j: int| 0 <= j < r.len() implies (#[trigger] r[j] == p || s.contains(
            r[j],
        )) by {
            if j > 0 {
                assert(r[j] == s[j - 1]);
            }
        }
    } else {
        lemma_insert_ranked_elements(s.drop_first(), p);
        let inner = insert_ranked(s.drop_first(), p);
        assert forall|j: int| 0 <= j < r.len() implies (#[trigger] r[j] == p || s.contains(
            r[j],
        )) by {
            if j == 0 {
                assert(r[0] == s[0]);
                assert(s.contains(s[0]));
            } else {
                assert(r[j] == inner[j - 1]);
                if inner[j - 1] != p {
                    assert(s.drop_first().contains(inner[j - 1]));
                    let i = choose|i: int|
                        0 <= i < s.drop_first().len() && s.drop_first()[i] == inner[j - 1];
                    assert(s[i + 1] == inner[j - 1]);
                }
            }
        }
    }
}

/// Inserting an entry whose index tops all present keeps a sequence
/// properly ranked: it lands in front of the first entry it strictly
/// outscores, behind every equal score.
proof fn lemma_insert_ranked_order(s: Seq<(usize, i64)>, p: (usize, i64))
    requires
        properly_ranked(s),
        forall|j: int| 0 <= j < s.len() ==> (#[trigger] s[j]).0 < p.0,
    ensures
        properly_ranked(insert_ranked(s, p)),
    decreases s.len(),
{
    let r = insert_ranked(s, p);
    if s.len() == 0 {
    } else if p.1 > s[0].1 {
        assert forall|i: int, j: int| 0 <= i < j < r.len() implies ((#[trigger] r[i]).1 > (
        #[trigger] r[j]).1 || (r[i].1 == r[j].1 && r[i].0 < r[j].0)) by {
            if i == 0 {
                assert(r[j] == s[j - 1]);
                if j - 1 > 0 {
                    assert(s[0].1 > s[j - 1].1 || (s[0].1 == s[j - 1].1 && s[0].0 < s[j - 1].0));
                }
                assert(p.1 > s[j - 1].1 || p.1 > s[0].1 && s[0].1 >= s[j - 1].1);
            } else {
                assert(r[i] == s[i - 1]);
                assert(r[j] == s[j - 1]);
            }
        }
    } else {
        assert(properly_ranked(s.drop_first())) by {
            assert(forall|i: int|
                0 <= i < s.drop_first().len() ==> #[trigger] s.drop_first()[i] == s[i + 1]);
        }
        assert(forall|j: int|
            0 <= j < s.drop_first().len() ==> (#[trigger] s.drop_first()[j]).0 < p.0);
        lemma_insert_ranked_order(s.drop_first(), p);
        lemma_insert_ranked_elements(s.drop_first(), p);
        let inner = insert_ranked(s.drop_first(), p);
        assert forall|i: int, j: int| 0 <= i < j < r.len() implies ((#[trigger] r[i]).1 > (
        #[trigger] r[j]).1 || (r[i].1 == r[j].1 && r[i].0 < r[j].0)) by {
            if i == 0 {
                assert(r[0] == s[0]);
                assert(r[j] == inner[j - 1]);
                if inner[j - 1] == p {
                    assert(s[0].1 >= p.1);
                    assert(s[0].0 < p.0);
                } else {
                    assert(s.drop_first().contains(inner[j - 1]));
                    let m = choose|m: int|
                        0 <= m < s.drop_first().len() && s.drop_first()[m] == inner[j - 1];
                    assert(s[m + 1] == inner[j - 1]);
                    assert(s[0].1 > s[m + 1].1 || (s[0].1 == s[m + 1].1 && s[0].0 < s[m + 1].0));
                }
            } else {
                assert(r[i] == inner[i - 1]);
                assert(r[j] == inner[j - 1]);
            }
        }
    }
}

/// Ranking a sequence of strictly increasing indices yields a properly
/// ranked sequence: a stable descending sort.
proof fn lemma_rank_all_order(s: Seq<(usize, i64)>)
    requires
        forall|i: int, j: int| 0 <= i < j < s.len() ==> (#[trigger] s[i]).0 < (#[trigger] s[j]).0,
    ensures
        properly_ranked(rank_all(s)),
    decreases s.len(),
{
    if s.len() > 0 {
        let pre = s.drop_last();
        assert(forall|i: int, j: int|
            0 <= i < j < pre.len() ==> (#[trigger] pre[i]).0 < (#[trigger] pre[j]).0) by {
            assert(forall|i: int| 0 <= i < pre.len() ==> #[trigger] pre[i] == s[i]);
        }
        lemma_rank_all_order(pre);
        let p = s.last();
        assert(indices_below(pre, p.0 as int)) by {
            assert(forall|i: int| 0 <= i < pre.len() ==> #[trigger] pre[i] == s[i]);
        }
        lemma_rank_all_props(pre, p.0 as int);
        assert(forall|j: int|
            0 <= j < rank_all(pre).len() ==> (#[trigger] rank_all(pre)[j]).0 < p.0);
        lemma_insert_ranked_order(rank_all(pre), p);
    }
}

/// Filtering by the relevance floor keeps rank order: scores still descend,
/// and no kept score exceeds the first ranked score.
proof fn lemma_filtered_results_ordered(records: Seq<ChunkRecord>, ranked: Seq<(usize, i64)>)
    requires
        forall|i: int, j: int|
            0 <= i < j < ranked.len() ==> (#[trigger] ranked[i]).1 >= (#[trigger] ranked[j]).1,
    ensures
        forall|i: int, j: int|
            0 <= i < j < filtered_results(records, ranked).len() ==> (#[trigger] filtered_results(
                records,
                ranked,
            )[i]).score >= (#[trigger] filtered_results(records, ranked)[j]).score,
        ranked.len() > 0 ==> forall|j: int|
            0 <= j < filtered_results(records, ranked).len() ==> (#[trigger] filtered_results(
                records,
                ranked,
            )[j]).score <= ranked[0].1,
    decreases ranked.len(),
{
    if ranked.len() > 0 {
        let tail = ranked.drop_first();
        assert(forall|i: int, j: int|
            0 <= i < j < tail.len() ==> (#[trigger] tail[i]).1 >= (#[trigger] tail[j]).1) by {
            assert(forall|i: int| 0 <= i < tail.len() ==> #[trigger] tail[i] == ranked[i + 1]);
        }
        lemma_filtered_results_ordered(records, tail);
        let rest = filtered_results(records, tail);
        let out = filtered_results(records, ranked);
        assert(tail.len() > 0 ==> tail[0].1 <= ranked[0].1) by {
            if tail.len() > 0 {
                assert(tail[0] == ranked[1]);
            }
        }
        if ranked[0].1 > RELEVANCE_FLOOR {
            assert forall|i: int, j: int| 0 <= i < j < out.len() implies (#[trigger] out[i]).score
                >= (#[trigger] out[j]).score by {
                if i == 0 {
                    assert(out[0] == result_of(records, ranked[0]));
                    assert(out[j] == rest[j - 1]);
                } else {
                    assert(out[i] == rest[i - 1]);
                    assert(out[j] == rest[j - 1]);
                }
            }
            assert forall|j: int| 0 <= j < out.len() implies (#[trigger] out[j]).score
                <= ranked[0].1 by {
                if j > 0 {
                    assert(out[j] == rest[j - 1]);
                }
            }
        } else {
            assert(out == rest);
            assert forall|j: int| 0 <= j < out.len() implies (#[trigger] out[j]).score
                <= ranked[0].1 by {
                assert(out[j] == rest[j]);
            }
        }
    }
}

/// Insertion loses no entry: the inserted one and every old one appear.
proof fn lemma_insert_ranked_keeps_all(s: Seq<(usize, i64)>, p: (usize, i64))
    ensures
        insert_ranked(s, p).contains(p),
        forall|x: (usize, i64)| #[trigger] s.contains(x) ==> insert_ranked(s, p).contains(x),
    decreases s.len(),
{
    let r = insert_ranked(s, p);
    if s.len() == 0 {
        assert(r[0] == p);
    } else if p.1 > s[0].1 {
        assert(r[0] == p);
        assert forall|x: (usize, i64)| #[trigger] s.contains(x) implies r.contains(x) by {
            let i = choose|i: int| 0 <= i < s.len() && s[i] == x;
            assert(r[i + 1] == x);
        }
    } else {
        lemma_insert_ranked_keeps_all(s.drop_first(), p);
        let inner = insert_ranked(s.drop_first(), p);
        assert(inner.contains(p));
        let ip = choose|i: int| 0 <= i < inner.len() && inner[i] == p;
        assert(r[ip + 1] == p);
        assert forall|x: (usize, i64)| #[trigger] s.contains(x) implies r.contains(x) by {
            let i = choose|i: int| 0 <= i < s.len() && s[i] == x;
            if i == 0 {
                assert(r[0] == x);
            } else {
                assert(s.drop_first()[i - 1] == x);
                assert(s.drop_first().contains(x));
                assert(inner.contains(x));
                let i2 = choose|i2: int| 0 <= i2 < inner.len() && inner[i2] == x;
                assert(r[i2 + 1] == x);
            }
        }
    }
}

/// Ranking loses no entry.
proof fn lemma_rank_all_keeps_all(s: Seq<(usize, i64)>)
    ensures
        forall|x: (usize, i64)| #[trigger] s.contains(x) ==> rank_all(s).contains(x),
    decreases s.len(),
{
    if s.len() > 0 {
        let pre = s.drop_last();
        lemma_rank_all_keeps_all(pre);
        lemma_insert_ranked_keeps_all(rank_all(pre), s.last());
        assert forall|x: (usize, i64)| #[trigger] s.contains(x) implies rank_all(s).contains(
            x,
        ) by {
            let i = choose|i: int| 0 <= i < s.len() && s[i] == x;
            if i < s.len() - 1 {
                assert(pre[i] == x);
                assert(pre.contains(x));
                assert(rank_all(pre).contains(x));
            } else {
                assert(x == s.last());
            }
        }
    }
}

/// Ranking invents no entry: everything ranked came from the input.
proof fn lemma_rank_all_elements(s: Seq<(usize, i64)>)
    ensures
        forall|j: int| 0 <= j < rank_all(s).len() ==> s.contains(#[trigger] rank_all(s)[j]),
    decreases s.len(),
{
    if s.len() > 0 {
        let pre = s.drop_last();
        lemma_rank_all_elements(pre);
        lemma_insert_ranked_elements(rank_all(pre), s.last());
        let r = rank_all(s);
        assert forall|j: int| 0 <= j < r.len() implies s.contains(#[trigger] r[j]) by {
            if r[j] == s.last() {
                assert(s[s.len() - 1] == s.last());
            } else {
                assert(rank_all(pre).contains(r[j]));
                let i = choose|i: int| 0 <= i < rank_all(pre).len() && rank_all(pre)[i] == r[j];
                assert(pre.contains(rank_all(pre)[i]));
                let i2 = choose|i2: int| 0 <= i2 < pre.len() && pre[i2] == r[j];
                assert(s[i2] == r[j]);
            }
        }
    }
}

/// An entry that strictly outscores every other entry ranks first.
proof fn lemma_rank_all_head(s: Seq<(usize, i64)>, m: int)
    requires
        0 <= m < s.len(),
        forall|i: int, j: int| 0 <= i < j < s.len() ==> (#[trigger] s[i]).0 < (#[trigger] s[j]).0,
        forall|j: int| 0 <= j < s.len() && j != m ==> (#[trigger] s[j]).1 < s[m].1,
    ensures
        rank_all(s).len() == s.len(),
        rank_all(s)[0] == s[m],
{
    let r = rank_all(s);
    lemma_rank_all_order(s);
    assert(indices_below(s, usize::MAX as int + 1));
    lemma_rank_all_props(s, usize::MAX as int + 1);
    lemma_rank_all_keeps_all(s);
    assert(s.contains(s[m]));
    assert(r.contains(s[m]));
    let k = choose|k: int| 0 <= k < r.len() && r[k] == s[m];
    lemma_rank_all_elements(s);
    assert(s.contains(r[0]));
    let i0 = choose|i0: int| 0 <= i0 < s.len() && s[i0] == r[0];
    if i0 != m {
        assert(s[i0].1 < s[m].1);
        if k == 0 {
            assert(r[0] == s[m]);
            assert(s[i0].1 == s[m].1);
        } else {
            assert(r[0].1 > r[k].1 || (r[0].1 == r[k].1 && r[0].0 < r[k].0));
            assert(s[i0].1 >= s[m].1);
        }
        assert(false);
    }
}

/// When one stored chunk strictly outscores every other against the query
/// and clears the relevance floor, it is returned, and returned first.
pub proof fn lemma_search_unique_best_first(
    records: Seq<ChunkRecord>,
    query: Seq<i64>,
    top_k: int,
    m: int,
)
    requires
        top_k >= 1,
        records.len() <= usize::MAX,
        0 <= m < records.len(),
        forall|j: int|
            0 <= j < records.len() && j != m ==> spec_cosine(
                query,
                (#[trigger] records[j]).embedding@,
            ) < spec_cosine(query, records[m].embedding@),
        spec_cosine(query, records[m].embedding@) > RELEVANCE_FLOOR,
    ensures
        spec_search(records, query, top_k).len() >= 1,
        spec_search(records, query, top_k)[0].content == records[m].content,
        spec_search(records, query, top_k)[0].filename == records[m].filename,
        spec_search(records, query, top_k)[0].score == spec_cosine(query, records[m].embedding@),
{
    let scored = scored_seq(records, query);
    assert forall|j: int| 0 <= j < records.len() implies -(SIM_SCALE as int) <= spec_cosine(
        query,
        (#[trigger] records[j]).embedding@,
    ) <= SIM_SCALE by {
        lemma_cosine_range(query, records[j].embedding@);
    }
    assert(forall|i: int, j: int|
        0 <= i < j < scored.len() ==> (#[trigger] scored[i]).0 < (#[trigger] scored[j]).0);
    assert forall|j: int| 0 <= j < scored.len() && j != m implies (#[trigger] scored[j]).1
        < scored[m].1 by {
        assert(scored[j].1 as int == spec_cosine(query, records[j].embedding@));
        assert(scored[m].1 as int == spec_cosine(query, records[m].embedding@));
    }
    lemma_rank_all_head(scored, m);
    let ranked = rank_all(scored);
    let limit = min_int(top_k, ranked.len() as int);
    assert(limit >= 1);
    let taken = ranked.take(limit);
    assert(taken[0] == ranked[0]);
    assert(taken[0] == scored[m]);
    assert(taken[0].1 > RELEVANCE_FLOOR);
    let out = filtered_results(records, taken);
    assert(out == seq![result_of(records, taken[0])] + filtered_results(
        records,
        taken.drop_first(),
    ));
    assert(out[0] == result_of(records, taken[0]));
    assert((scored[m].0) as int == m);
}

/// Search results come back ranked: scores descend down the returned list.
pub proof fn lemma_search_ordered(records: Seq<ChunkRecord>, query: Seq<i64>, top_k: int)
    requires
        top_k >= 0,
        records.len() <= usize::MAX,
    ensures
        forall|i: int, j: int|
            0 <= i < j < spec_search(records, query, top_k).len() ==> (#[trigger] spec_search(
                records,
                query,
                top_k,
            )[i]).score >= (#[trigger] spec_search(records, query, top_k)[j]).score,
{
    let scored = scored_seq(records, query);
    let ranked = rank_all(scored);
    assert(forall|i: int, j: int|
        0 <= i < j < scored.len() ==> (#[trigger] scored[i]).0 < (#[trigger] scored[j]).0);
    lemma_rank_all_order(scored);
    let taken = ranked.take(min_int(top_k, ranked.len() as int));
    assert(forall|i: int, j: int|
        0 <= i < j < taken.len() ==> (#[trigger] taken[i]).1 >= (#[trigger] taken[j]).1) by {
        assert(forall|i: int| 0 <= i < taken.len() ==> #[trigger] taken[i] == ranked[i]);
    }
    lemma_filtered_results_ordered(records, taken);
}

/// Searching a bucket with no stored chunks yields no results (and no
/// error).
pub proof fn lemma_search_empty(query: Seq<i64>, top_k: int)
    requires
        top_k >= 0,
    ensures
        spec_search(Seq::<ChunkRecord>::empty(), query, top_k) == Seq::<SearchResult>::empty(),
{
    let scored = scored_seq(Seq::<ChunkRecord>::empty(), query);
    assert(scored =~= Seq::<(usize, i64)>::empty());
    let ranked = rank_all(scored);
    assert(ranked.take(min_int(top_k, 0)) =~= Seq::<(usize, i64)>::empty());
}

} // verus!
