//! The collection store's records: a bucket's store is a flat ordered
//! sequence of chunk records, only ever appended to or filtered wholesale by
//! filename. The host persists a store as one file per bucket and hands the
//! loaded records to these operations.

use vstd::prelude::*;

use crate::text::str_eq;

verus! {

/// One stored chunk: its text, the filename it came from, and its embedding
/// in micro-units.
pub struct ChunkRecord {
    pub content: String,
    pub filename: String,
    pub embedding: Vec<i64>,
}

/// Whether a record survives removal of `filename`.
pub open spec fn keeps_filename(c: ChunkRecord, filename: Seq<char>) -> bool {
    c.filename@ != filename
}

/// What a store looks like after all records of one filename are removed:
/// the surviving records, in their original order.
pub open spec fn remove_spec(s: Seq<ChunkRecord>, filename: Seq<char>) -> Seq<ChunkRecord> {
    s.filter(|c: ChunkRecord| keeps_filename(c, filename))
}

/// A fresh, empty store: creation always starts from no records.
pub fn empty_store() -> (records: Vec<ChunkRecord>)
    ensures
        records@.len() == 0,
{
    Vec::new()
}

/// Copies an embedding vector.
fn copy_embedding(v: &Vec<i64>) -> (r: Vec<i64>)
    ensures
        r@ == v@,
{
    let mut r: Vec<i64> = Vec::new();
    let mut i: usize = 0;
    while i < v.len()
        invariant
            i <= v@.len(),
            r@ == v@.subrange(0, i as int),
        decreases v@.len() - i,
    {
        r.push(v[i]);
        proof {
            assert(r@ =~= v@.subrange(0, i as int + 1));
        }
        i += 1;
    }
    proof {
        assert(r@ =~= v@);
    }
    r
}

/// Appends one record per (text, embedding) pair, tagged with `filename`,
/// after the existing records and in the given order; nothing else changes.
pub fn append_chunks(
    records: &mut Vec<ChunkRecord>,
    filename: &str,
    texts: &Vec<String>,
    embeddings: &Vec<Vec<i64>>,
) -> (count: usize)
    requires
        texts@.len() == embeddings@.len(),
    ensures
        count == texts@.len(),
        final(records)@.len() == old(records)@.len() + texts@.len(),
        forall|i: int| 0 <= i < old(records)@.len() ==> final(records)@[i] == old(records)@[i],
        forall|i: int|
            0 <= i < texts@.len() ==> {
                let r = #[trigger] final(records)@[old(records)@.len() + i];
                &&& r.content@ == texts@[i]@
                &&& r.filename@ == filename@
                &&& r.embedding@ == embeddings@[i]@
            },
{
    let mut j: usize = 0;
    while j < texts.len()
        invariant
            j <= texts@.len(),
            texts@.len() == embeddings@.len(),
            records@.len() == old(records)@.len() + j,
            forall|i: int| 0 <= i < old(records)@.len() ==> records@[i] == old(records)@[i],
            forall|i: int|
                0 <= i < j ==> {
                    let r = #[trigger] records@[old(records)@.len() + i];
                    &&& r.content@ == texts@[i]@
                    &&& r.filename@ == filename@
                    &&& r.embedding@ == embeddings@[i]@
                },
        decreases texts@.len() - j,
    {
        let record = ChunkRecord {
            content: texts[j].clone(),
            filename: filename.to_owned(),
            embedding: copy_embedding(&embeddings[j]),
        };
        records.push(record);
        j += 1;
    }
    j
}

/// Removes every record whose filename equals `filename`, keeping all other
/// records in their original relative order.
pub fn remove_chunks_by_filename(records: &mut Vec<ChunkRecord>, filename: &str)
    ensures
        final(records)@ == remove_spec(old(records)@, filename@),
{
    let ghost orig = records@;
    let mut kept: Vec<ChunkRecord> = Vec::new();
    proof {
        assert(orig.subrange(0, 0) =~= Seq::<ChunkRecord>::empty());
        assert(remove_spec(orig.subrange(0, 0), filename@) =~= Seq::<ChunkRecord>::empty());
        assert(records@ =~= orig.skip(0));
    }
    let initial_len = records.len();
    let mut done_count: usize = 0;
    while records.len() > 0
        invariant
            orig.len() == initial_len,
            done_count <= orig.len(),
            records@ == orig.skip(done_count as int),
            kept@ == remove_spec(orig.subrange(0, done_count as int), filename@),
        decreases records@.len(),
    {
        proof {
            assert(done_count < orig.len());
        }
        let record = records.remove(0);
        proof {
            assert(orig.skip(done_count as int).drop_first() =~= orig.skip(done_count as int + 1));
            assert(orig.skip(done_count as int)[0] == orig[done_count as int]);
        }
        let keep = !str_eq(record.filename.as_str(), filename);
        proof {
            let prefix = orig.subrange(0, done_count as int);
            let prefix1 = orig.subrange(0, done_count as int + 1);
            assert(prefix1.drop_last() =~= prefix);
            assert(prefix1.last() == orig[done_count as int]);
            reveal(Seq::filter);
            if keeps_filename(orig[done_count as int], filename@) {
                assert(remove_spec(prefix1, filename@) =~= remove_spec(prefix, filename@).push(
                    orig[done_count as int],
                ));
            } else {
                assert(remove_spec(prefix1, filename@) =~= remove_spec(prefix, filename@));
            }
        }
        if keep {
            kept.push(record);
        }
        done_count += 1;
    }
    proof {
        assert(orig.subrange(0, orig.len() as int) =~= orig);
    }
    *records = kept;
}

/// After removal, no surviving record bears the removed filename, every
/// survivor is one of the original records, and no more records survive
/// than were stored.
pub proof fn lemma_remove_by_filename(s: Seq<ChunkRecord>, filename: Seq<char>)
    ensures
        forall|i: int|
            0 <= i < remove_spec(s, filename).len() ==> #[trigger] remove_spec(
                s,
                filename,
            )[i].filename@ != filename,
        forall|i: int|
            0 <= i < remove_spec(s, filename).len() ==> s.contains(
                #[trigger] remove_spec(s, filename)[i],
            ),
        remove_spec(s, filename).len() <= s.len(),
{
    broadcast use vstd::seq_lib::group_filter_ensures;

    let pred = |c: ChunkRecord| keeps_filename(c, filename);
    assert forall|i: int| 0 <= i < remove_spec(s, filename).len() implies #[trigger] remove_spec(
        s,
        filename,
    )[i].filename@ != filename by {
        assert(pred(s.filter(pred)[i]));
    }
    lemma_filter_contained(s, filename);
}

/// Removal keeps exactly the records that keep their filename.
proof fn lemma_filter_all_kept(s: Seq<ChunkRecord>, filename: Seq<char>)
    requires
        forall|i: int| 0 <= i < s.len() ==> #[trigger] s[i].filename@ != filename,
    ensures
        remove_spec(s, filename) == s,
    decreases s.len(),
{
    reveal(Seq::filter);
    if s.len() > 0 {
        assert(forall|i: int|
            0 <= i < s.drop_last().len() ==> #[trigger] s.drop_last()[i].filename@ != filename);
        lemma_filter_all_kept(s.drop_last(), filename);
        assert(s[s.len() - 1] == s.last());
        assert(remove_spec(s, filename) =~= s);
    }
}

/// Removal drops every record that bears the filename.
proof fn lemma_filter_none_kept(s: Seq<ChunkRecord>, filename: Seq<char>)
    requires
        forall|i: int| 0 <= i < s.len() ==> #[trigger] s[i].filename@ == filename,
    ensures
        remove_spec(s, filename) == Seq::<ChunkRecord>::empty(),
    decreases s.len(),
{
    reveal(Seq::filter);
    if s.len() > 0 {
        assert(forall|i: int|
            0 <= i < s.drop_last().len() ==> #[trigger] s.drop_last()[i].filename@ == filename);
        lemma_filter_none_kept(s.drop_last(), filename);
        assert(s[s.len() - 1] == s.last());
    }
}

/// Round trip of one document through the store: appending records that all
/// bear one filename and then removing that filename restores the store,
/// provided no stored record bore the filename already.
pub proof fn lemma_append_remove_round_trip(
    s: Seq<ChunkRecord>,
    appended: Seq<ChunkRecord>,
    filename: Seq<char>,
)
    requires
        forall|i: int| 0 <= i < s.len() ==> #[trigger] s[i].filename@ != filename,
        forall|i: int| 0 <= i < appended.len() ==> #[trigger] appended[i].filename@ == filename,
    ensures
        remove_spec(s + appended, filename) == s,
{
    Seq::filter_distributes_over_add(s, appended, |c: ChunkRecord| keeps_filename(c, filename));
    lemma_filter_all_kept(s, filename);
    lemma_filter_none_kept(appended, filename);
    assert(remove_spec(s + appended, filename) =~= s);
}

/// Every record that survives removal was among the stored records.
proof fn lemma_filter_contained(s: Seq<ChunkRecord>, filename: Seq<char>)
    ensures
        forall|i: int|
            0 <= i < remove_spec(s, filename).len() ==> s.contains(
                #[trigger] remove_spec(s, filename)[i],
            ),
    decreases s.len(),
{
    reveal(Seq::filter);
    if s.len() > 0 {
        let pre = s.drop_last();
        lemma_filter_contained(pre, filename);
        let r = remove_spec(s, filename);
        let rp = remove_spec(pre, filename);
        assert forall|i: int| 0 <= i < r.len() implies s.contains(#[trigger] r[i]) by {
            if i < rp.len() {
                assert(r[i] == rp[i]);
                assert(pre.contains(rp[i]));
                let j = choose|j: int| 0 <= j < pre.len() && pre[j] == rp[i];
                assert(s[j] == rp[i]);
            } else {
                assert(r[i] == s.last());
                assert(s[s.len() - 1] == s.last());
            }
        }
    }
}

} // verus!
