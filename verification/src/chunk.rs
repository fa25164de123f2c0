//! The chunker: splits text into overlapping fixed-size word windows, the
//! retrievable units of a knowledge base.

use vstd::prelude::*;

use crate::text::{
    all_words, is_word, join_range, join_words, lemma_words_of_join, lemma_words_of_wf, split_words,
    words_of,
};

verus! {

/// The smaller of two integers.
pub open spec fn min_int(a: int, b: int) -> int {
    if a <= b {
        a
    } else {
        b
    }
}

/// Step by which the chunker advances between windows: `chunk_size - overlap`,
/// floored at one word so the walk always makes progress, even when the
/// requested overlap reaches or exceeds the window size.
pub open spec fn spec_chunk_step(chunk_size: nat, overlap: nat) -> nat {
    if chunk_size > overlap + 1 {
        (chunk_size - overlap) as nat
    } else {
        1
    }
}

/// Number of words the chunker advances between consecutive windows.
pub fn chunk_step(chunk_size: usize, overlap: usize) -> (step: usize)
    ensures
        step == spec_chunk_step(chunk_size as nat, overlap as nat),
        step >= 1,
{
    if chunk_size > overlap && chunk_size - overlap >= 1 {
        chunk_size - overlap
    } else {
        1
    }
}

/// The word slices of the windows starting at `from`: each window covers
/// `[start, min(start + chunk_size, n))`, consecutive starts differ by
/// `step`, empty windows are skipped, and the walk stops once a window
/// reaches the final word.
pub open spec fn window_slices(
    ts: Seq<Seq<char>>,
    from: int,
    chunk_size: nat,
    step: nat,
) -> Seq<Seq<Seq<char>>>
    decreases ts.len() - from,
{
    if from < 0 || from >= ts.len() || step == 0 {
        Seq::empty()
    } else {
        let end = min_int(from + chunk_size, ts.len() as int);
        let head: Seq<Seq<Seq<char>>> = if end > from {
            seq![ts.subrange(from, end)]
        } else {
            Seq::empty()
        };
        if end >= ts.len() || from + step >= ts.len() {
            head
        } else {
            head + window_slices(ts, from + step, chunk_size, step)
        }
    }
}

/// The word slices of all windows of `ts`.
pub open spec fn chunk_slices(ts: Seq<Seq<char>>, chunk_size: nat, overlap: nat) -> Seq<
    Seq<Seq<char>>,
> {
    if ts.len() == 0 {
        Seq::empty()
    } else {
        window_slices(ts, 0, chunk_size, spec_chunk_step(chunk_size, overlap))
    }
}

/// What chunking a text yields: every window of its words, joined by single
/// spaces, in order.
pub open spec fn spec_chunk_text(text: Seq<char>, chunk_size: nat, overlap: nat) -> Seq<Seq<char>> {
    chunk_slices(words_of(text), chunk_size, overlap).map_values(
        |sl: Seq<Seq<char>>| join_words(sl),
    )
}

/// Splits `text` into overlapping windows of `chunk_size` whitespace-delimited
/// words, consecutive windows sharing `overlap` words; windows are joined by
/// single spaces.
pub fn chunk_text(text: &str, chunk_size: usize, overlap: usize) -> (chunks: Vec<String>)
    ensures
        chunks@.map_values(|s: String| s@) == spec_chunk_text(
            text@,
            chunk_size as nat,
            overlap as nat,
        ),
{
    let words = split_words(text);
    let ghost ts = words@.map_values(|w: String| w@);
    let mut chunks: Vec<String> = Vec::new();
    if words.len() == 0 {
        proof {
            assert(chunks@.map_values(|s: String| s@) =~= spec_chunk_text(
                text@,
                chunk_size as nat,
                overlap as nat,
            ));
        }
        return chunks;
    }
    let n = words.len();
    let step = chunk_step(chunk_size, overlap);
    let mut i: usize = 0;
    proof {
        assert(chunks@.map_values(|s: String| s@) + window_slices(
            ts,
            0,
            chunk_size as nat,
            step as nat,
        ).map_values(|sl: Seq<Seq<char>>| join_words(sl)) =~= spec_chunk_text(
            text@,
            chunk_size as nat,
            overlap as nat,
        ));
    }
    loop
        invariant_except_break
            i < n,
            n == ts.len(),
            n == words@.len(),
            ts == words@.map_values(|w: String| w@),
            ts == words_of(text@),
            step as nat == spec_chunk_step(chunk_size as nat, overlap as nat),
            step >= 1,
            chunks@.map_values(|s: String| s@) + window_slices(
                ts,
                i as int,
                chunk_size as nat,
                step as nat,
            ).map_values(|sl: Seq<Seq<char>>| join_words(sl)) == spec_chunk_text(
                text@,
                chunk_size as nat,
                overlap as nat,
            ),
        ensures
            chunks@.map_values(|s: String| s@) == spec_chunk_text(
                text@,
                chunk_size as nat,
                overlap as nat,
            ),
        decreases n - i,
    {
        let ghost pre = window_slices(ts, i as int, chunk_size as nat, step as nat);
        let ghost prev_chunks = chunks@;
        let end = if chunk_size >= n - i {
            n
        } else {
            i + chunk_size
        };
        proof {
            assert(end == min_int(i + chunk_size as int, ts.len() as int));
        }
        if end > i {
            let piece = join_range(&words, i, end);
            proof {
                assert(ts.subrange(i as int, end as int) =~= words@.map_values(
                    |w: String| w@,
                ).subrange(i as int, end as int));
            }
            chunks.push(piece);
            proof {
                assert(chunks@.map_values(|s: String| s@) =~= prev_chunks.map_values(
                    |s: String| s@,
                ).push(join_words(ts.subrange(i as int, end as int))));
            }
        }
        let ghost head: Seq<Seq<Seq<char>>> = if end > i {
            seq![ts.subrange(i as int, end as int)]
        } else {
            Seq::<Seq<Seq<char>>>::empty()
        };
        if end >= n {
            proof {
                assert(pre == head);
                assert(chunks@.map_values(|s: String| s@) =~= prev_chunks.map_values(
                    |s: String| s@,
                ) + head.map_values(|sl: Seq<Seq<char>>| join_words(sl)));
            }
            break ;
        }
        if step >= n - i {
            proof {
                assert(i + step >= ts.len());
                assert(pre == head);
                assert(chunks@.map_values(|s: String| s@) =~= prev_chunks.map_values(
                    |s: String| s@,
                ) + head.map_values(|sl: Seq<Seq<char>>| join_words(sl)));
            }
            break ;
        }
        proof {
            assert(pre == head + window_slices(
                ts,
                i as int + step as int,
                chunk_size as nat,
                step as nat,
            ));
            assert(chunks@.map_values(|s: String| s@) + window_slices(
                ts,
                i as int + step as int,
                chunk_size as nat,
                step as nat,
            ).map_values(|sl: Seq<Seq<char>>| join_words(sl)) =~= prev_chunks.map_values(
                |s: String| s@,
            ) + pre.map_values(|sl: Seq<Seq<char>>| join_words(sl)));
        }
        i += step;
    }
    chunks
}

/// Chunking the empty text (or any text of no words) yields no windows, for
/// any window size and overlap.
pub proof fn lemma_chunk_empty_text(text: Seq<char>, chunk_size: nat, overlap: nat)
    requires
        words_of(text).len() == 0,
    ensures
        spec_chunk_text(text, chunk_size, overlap) == Seq::<Seq<char>>::empty(),
{
    assert(chunk_slices(words_of(text), chunk_size, overlap).map_values(
        |sl: Seq<Seq<char>>| join_words(sl),
    ) =~= Seq::<Seq<char>>::empty());
}

/// The chunker's step is always at least one word, and is exactly one word
/// whenever the overlap reaches or exceeds the window size: the walk can
/// never stand still.
pub proof fn lemma_chunk_step_progress(chunk_size: nat, overlap: nat)
    ensures
        spec_chunk_step(chunk_size, overlap) >= 1,
        overlap >= chunk_size ==> spec_chunk_step(chunk_size, overlap) == 1,
{
}

/// Structure of the window walk: window `j` covers the words
/// `[from + j*step, min(from + j*step + chunk_size, n))`; every window but
/// the last stops short of the final word, and the last reaches it.
proof fn lemma_window_slices_cover(ts: Seq<Seq<char>>, from: int, chunk_size: nat, step: nat)
    requires
        0 <= from < ts.len(),
        1 <= step <= chunk_size,
    ensures
        ({
            let sls = window_slices(ts, from, chunk_size, step);
            &&& sls.len() >= 1
            &&& forall|j: int|
                0 <= j < sls.len() ==> #[trigger] sls[j] == ts.subrange(
                    from + j * step,
                    min_int(from + j * step + chunk_size, ts.len() as int),
                )
            &&& forall|j: int|
                0 <= j < sls.len() - 1 ==> from + #[trigger] (j * step) + chunk_size < ts.len()
            &&& from + (sls.len() - 1) * step + chunk_size >= ts.len()
        }),
    decreases ts.len() - from,
{
    let sls = window_slices(ts, from, chunk_size, step);
    let end = min_int(from + chunk_size, ts.len() as int);
    assert(end > from);
    let head: Seq<Seq<Seq<char>>> = seq![ts.subrange(from, end)];
    if end >= ts.len() || from + step >= ts.len() {
        assert(end >= ts.len()) by {
            if end < ts.len() {
                assert(from + chunk_size == end);
                assert(from + step <= from + chunk_size);
            }
        }
        assert(sls == head);
        assert(sls[0] == ts.subrange(from, min_int(from + 0 * step + chunk_size, ts.len() as int)));
        assert(from + (sls.len() - 1) * step + chunk_size >= ts.len());
    } else {
        let rest = window_slices(ts, from + step, chunk_size, step);
        assert(sls == head + rest);
        lemma_window_slices_cover(ts, from + step, chunk_size, step);
        assert forall|j: int| 0 <= j < sls.len() implies #[trigger] sls[j] == ts.subrange(
            from + j * step,
            min_int(from + j * step + chunk_size, ts.len() as int),
        ) by {
            if j == 0 {
                assert(sls[0] == ts.subrange(from, end));
                assert(0 * step == 0);
            } else {
                assert(sls[j] == rest[j - 1]);
                assert(rest[j - 1] == ts.subrange(
                    (from + step) + (j - 1) * step,
                    min_int((from + step) + (j - 1) * step + chunk_size, ts.len() as int),
                ));
                assert((from + step) + (j - 1) * step == from + j * step) by (nonlinear_arith);
            }
        }
        assert forall|j: int| 0 <= j < sls.len() - 1 implies from + #[trigger] (j * step)
            + chunk_size < ts.len() by {
            if j == 0 {
                assert(0 * step == 0);
                assert(end < ts.len());
            } else {
                assert((from + step) + (j - 1) * step + chunk_size < ts.len());
                assert((from + step) + (j - 1) * step == from + j * step) by (nonlinear_arith);
            }
        }
        assert((from + step) + (rest.len() - 1) * step + chunk_size >= ts.len());
        assert((from + step) + (rest.len() - 1) * step == from + (sls.len() - 1) * step)
            by (nonlinear_arith)
            requires
                sls.len() == rest.len() + 1,
        ;
    }
}

/// The concatenation of word slices, each but the first shorn of its first
/// `overlap` words.
pub open spec fn skip_concat(sls: Seq<Seq<Seq<char>>>, overlap: nat) -> Seq<Seq<char>>
    decreases sls.len(),
{
    if sls.len() == 0 {
        Seq::empty()
    } else {
        sls[0].skip(overlap as int) + skip_concat(sls.drop_first(), overlap)
    }
}

/// The concatenation of word slices with the shared `overlap` words removed
/// from every slice but the first.
pub open spec fn overlap_concat(sls: Seq<Seq<Seq<char>>>, overlap: nat) -> Seq<Seq<char>> {
    if sls.len() == 0 {
        Seq::empty()
    } else {
        sls[0] + skip_concat(sls.drop_first(), overlap)
    }
}

/// Dropping the first `overlap` words of every window starting at `from`
/// and concatenating yields the words from `from + overlap` to the end.
proof fn lemma_skip_concat_covers(ts: Seq<Seq<char>>, from: int, chunk_size: nat, step: nat)
    requires
        1 <= step <= chunk_size,
        step + (chunk_size - step) == chunk_size,
        0 <= from,
        from + (chunk_size - step) < ts.len(),
    ensures
        skip_concat(window_slices(ts, from, chunk_size, step), (chunk_size - step) as nat)
            == ts.subrange(from + (chunk_size - step), ts.len() as int),
    decreases ts.len() - from,
{
    let overlap = (chunk_size - step) as nat;
    let sls = window_slices(ts, from, chunk_size, step);
    let end = min_int(from + chunk_size, ts.len() as int);
    assert(end > from + overlap);
    let head = ts.subrange(from, end);
    assert(head.skip(overlap as int) =~= ts.subrange(from + overlap, end));
    if end >= ts.len() || from + step >= ts.len() {
        assert(end >= ts.len()) by {
            if end < ts.len() {
                assert(from + step <= from + chunk_size);
            }
        }
        assert(sls == seq![head]);
        assert(skip_concat(sls, overlap) == head.skip(overlap as int) + skip_concat(
            sls.drop_first(),
            overlap,
        ));
        assert(sls.drop_first() =~= Seq::<Seq<Seq<char>>>::empty());
        assert(skip_concat(sls, overlap) =~= ts.subrange(from + overlap, ts.len() as int));
    } else {
        let rest = window_slices(ts, from + step, chunk_size, step);
        assert(sls == seq![head] + rest);
        assert(sls.drop_first() =~= rest);
        assert(end == from + chunk_size);
        assert((from + step) + overlap == end);
        lemma_skip_concat_covers(ts, from + step, chunk_size, step);
        assert(skip_concat(sls, overlap) == head.skip(overlap as int) + skip_concat(rest, overlap));
        assert(ts.subrange(from + overlap, end) + ts.subrange(end, ts.len() as int) =~= ts.subrange(
            from + overlap,
            ts.len() as int,
        ));
    }
}

/// The windows starting at `from`, deduplicated by the overlap, concatenate
/// to exactly the words from `from` to the end.
proof fn lemma_overlap_concat_covers(ts: Seq<Seq<char>>, from: int, chunk_size: nat, step: nat)
    requires
        1 <= step <= chunk_size,
        0 <= from < ts.len(),
    ensures
        overlap_concat(window_slices(ts, from, chunk_size, step), (chunk_size - step) as nat)
            == ts.subrange(from, ts.len() as int),
{
    let overlap = (chunk_size - step) as nat;
    let sls = window_slices(ts, from, chunk_size, step);
    let end = min_int(from + chunk_size, ts.len() as int);
    assert(end > from);
    let head = ts.subrange(from, end);
    if end >= ts.len() || from + step >= ts.len() {
        assert(end >= ts.len()) by {
            if end < ts.len() {
                assert(from + step <= from + chunk_size);
            }
        }
        assert(sls == seq![head]);
        assert(sls.drop_first() =~= Seq::<Seq<Seq<char>>>::empty());
        assert(overlap_concat(sls, overlap) =~= ts.subrange(from, ts.len() as int));
    } else {
        let rest = window_slices(ts, from + step, chunk_size, step);
        assert(sls == seq![head] + rest);
        assert(sls.drop_first() =~= rest);
        assert(end == from + chunk_size);
        assert((from + step) + overlap == end);
        lemma_skip_concat_covers(ts, from + step, chunk_size, step);
        assert(overlap_concat(sls, overlap) == head + skip_concat(rest, overlap));
        assert(ts.subrange(from, end) + ts.subrange(end, ts.len() as int) =~= ts.subrange(
            from,
            ts.len() as int,
        ));
    }
}

/// For any text with at least one word and any `overlap < chunk_size`:
/// the windows' word sequences, concatenated with the shared overlap removed
/// from each window after the first, reconstruct the text's words exactly;
/// window `j` covers the words `[j*step, min(j*step + chunk_size, n))` for
/// `step == chunk_size - overlap`; and only the last window's end reaches the
/// word count — every earlier window stops short of it.
pub proof fn lemma_chunk_reconstructs(text: Seq<char>, chunk_size: nat, overlap: nat)
    requires
        overlap < chunk_size,
        words_of(text).len() > 0,
    ensures
        ({
            let ts = words_of(text);
            let step = chunk_size - overlap;
            let wins = spec_chunk_text(text, chunk_size, overlap);
            &&& wins.len() >= 1
            &&& overlap_concat(wins.map_values(|s: Seq<char>| words_of(s)), overlap) == ts
            &&& forall|j: int|
                0 <= j < wins.len() ==> words_of(#[trigger] wins[j]) == ts.subrange(
                    j * step,
                    min_int(j * step + chunk_size, ts.len() as int),
                )
            &&& forall|j: int|
                0 <= j < wins.len() - 1 ==> #[trigger] (j * step) + chunk_size < ts.len()
            &&& (wins.len() - 1) * step + chunk_size >= ts.len()
        }),
{
    let ts = words_of(text);
    let step = (chunk_size - overlap) as nat;
    assert(spec_chunk_step(chunk_size, overlap) == step);
    let sls = window_slices(ts, 0, chunk_size, step);
    let wins = spec_chunk_text(text, chunk_size, overlap);
    assert(wins == sls.map_values(|sl: Seq<Seq<char>>| join_words(sl)));
    lemma_window_slices_cover(ts, 0, chunk_size, step);
    lemma_words_of_wf(text);
    assert forall|j: int| 0 <= j < wins.len() implies words_of(#[trigger] wins[j]) == ts.subrange(
        j * step,
        min_int(j * step + chunk_size, ts.len() as int),
    ) by {
        assert(sls[j] == ts.subrange(
            0 + j * step,
            min_int(0 + j * step + chunk_size, ts.len() as int),
        ));
        assert(wins[j] == join_words(sls[j]));
        assert(all_words(sls[j])) by {
            let a = j * step;
            let b = min_int(a + chunk_size, ts.len() as int);
            assert(j * step >= 0) by (nonlinear_arith)
                requires
                    j >= 0,
                    step >= 0,
            ;
            assert(a < ts.len()) by {
                if j == 0 {
                    assert(0 * step == 0);
                } else {
                    assert((j - 1) * step + chunk_size < ts.len());
                    assert(j * step == (j - 1) * step + step) by (nonlinear_arith);
                }
            }
            assert(sls[j] == ts.subrange(a, b));
            assert(a < b <= ts.len());
            assert forall|m: int| 0 <= m < sls[j].len() implies is_word(#[trigger] sls[j][m]) by {
                assert(sls[j][m] == ts[a + m]);
            }
        }
        lemma_words_of_join(sls[j]);
    }
    assert(wins.map_values(|s: Seq<char>| words_of(s)) =~= sls);
    lemma_overlap_concat_covers(ts, 0, chunk_size, step);
    assert(ts.subrange(0, ts.len() as int) =~= ts);
    assert forall|j: int| 0 <= j < wins.len() - 1 implies #[trigger] (j * step) + chunk_size
        < ts.len() by {
        assert(0 + j * step + chunk_size < ts.len());
    }
    assert(0 + (sls.len() - 1) * step + chunk_size >= ts.len());
}

} // verus!
