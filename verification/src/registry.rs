//! The document metadata registry: buckets (named knowledge-base
//! collections) and the per-bucket document records, with the list
//! operations the host's database performs on them.

use vstd::prelude::*;

use crate::text::str_eq;

verus! {

/// A named knowledge-base collection.
pub struct Bucket {
    pub id: String,
    pub name: String,
    pub description: String,
    pub created_at: String,
    pub file_count: i32,
}

/// One uploaded document's metadata: which bucket holds it, what it is, and
/// how many chunks it became.
pub struct BucketFile {
    pub id: String,
    pub bucket_id: String,
    pub filename: String,
    pub file_type: String,
    pub file_size: i64,
    pub chunk_count: i32,
    pub created_at: String,
}

/// A fresh bucket: no documents yet.
pub fn new_bucket(id: String, name: String, description: String, created_at: String) -> (b: Bucket)
    ensures
        b.id == id,
        b.name == name,
        b.description == description,
        b.created_at == created_at,
        b.file_count == 0,
{
    Bucket { id, name, description, created_at, file_count: 0 }
}

/// A document record for an upload that produced `chunk_count` chunks.
pub fn new_bucket_file(
    id: String,
    bucket_id: String,
    filename: String,
    file_type: String,
    file_size: i64,
    chunk_count: i32,
    created_at: String,
) -> (f: BucketFile)
    ensures
        f.id == id,
        f.bucket_id == bucket_id,
        f.filename == filename,
        f.file_type == file_type,
        f.file_size == file_size,
        f.chunk_count == chunk_count,
        f.created_at == created_at,
{
    BucketFile { id, bucket_id, filename, file_type, file_size, chunk_count, created_at }
}

/// Registers a bucket after the existing ones.
pub fn add_bucket(buckets: &mut Vec<Bucket>, bucket: Bucket)
    ensures
        final(buckets)@ == old(buckets)@.push(bucket),
{
    buckets.push(bucket);
}

/// Registers a document record after the existing ones.
pub fn add_bucket_file(files: &mut Vec<BucketFile>, file: BucketFile)
    ensures
        final(files)@ == old(files)@.push(file),
{
    files.push(file);
}

/// Whether a bucket survives removal of the bucket with identifier `id`.
pub open spec fn bucket_kept(b: Bucket, id: Seq<char>) -> bool {
    b.id@ != id
}

/// Removes the buckets whose identifier equals `id`, keeping the rest in
/// order.
pub fn remove_bucket(buckets: &mut Vec<Bucket>, id: &str)
    ensures
        final(buckets)@ == old(buckets)@.filter(|b: Bucket| bucket_kept(b, id@)),
{
    let ghost orig = buckets@;
    let mut kept: Vec<Bucket> = Vec::new();
    proof {
        assert(orig.subrange(0, 0) =~= Seq::<Bucket>::empty());
        assert(orig.subrange(0, 0).filter(|b: Bucket| bucket_kept(b, id@)) =~= Seq::<
            Bucket,
        >::empty());
        assert(buckets@ =~= orig.skip(0));
    }
    let initial_len = buckets.len();
    let mut done: usize = 0;
    while buckets.len() > 0
        invariant
            orig.len() == initial_len,
            done <= orig.len(),
            buckets@ == orig.skip(done as int),
            kept@ == orig.subrange(0, done as int).filter(|b: Bucket| bucket_kept(b, id@)),
        decreases buckets@.len(),
    {
        proof {
            assert(done < orig.len());
        }
        let bucket = buckets.remove(0);
        proof {
            assert(orig.skip(done as int).drop_first() =~= orig.skip(done as int + 1));
            assert(orig.skip(done as int)[0] == orig[done as int]);
        }
        let keep = !str_eq(bucket.id.as_str(), id);
        proof {
            let prefix = orig.subrange(0, done as int);
            let prefix1 = orig.subrange(0, done as int + 1);
            assert(prefix1.drop_last() =~= prefix);
            assert(prefix1.last() == orig[done as int]);
            reveal(Seq::filter);
            if bucket_kept(orig[done as int], id@) {
                assert(prefix1.filter(|b: Bucket| bucket_kept(b, id@)) =~= prefix.filter(
                    |b: Bucket| bucket_kept(b, id@),
                ).push(orig[done as int]));
            } else {
                assert(prefix1.filter(|b: Bucket| bucket_kept(b, id@)) =~= prefix.filter(
                    |b: Bucket| bucket_kept(b, id@),
                ));
            }
        }
        if keep {
            kept.push(bucket);
        }
        done += 1;
    }
    proof {
        assert(orig.subrange(0, orig.len() as int) =~= orig);
    }
    *buckets = kept;
}

/// Whether a document record survives removal of the record with
/// identifier `file_id`.
pub open spec fn file_kept(f: BucketFile, file_id: Seq<char>) -> bool {
    f.id@ != file_id
}

/// Removes the document records whose identifier equals `file_id`, keeping
/// the rest in order.
pub fn remove_bucket_file(files: &mut Vec<BucketFile>, file_id: &str)
    ensures
        final(files)@ == old(files)@.filter(|f: BucketFile| file_kept(f, file_id@)),
{
    let ghost orig = files@;
    let mut kept: Vec<BucketFile> = Vec::new();
    proof {
        assert(orig.subrange(0, 0) =~= Seq::<BucketFile>::empty());
        assert(orig.subrange(0, 0).filter(|f: BucketFile| file_kept(f, file_id@)) =~= Seq::<
            BucketFile,
        >::empty());
        assert(files@ =~= orig.skip(0));
    }
    let initial_len = files.len();
    let mut done: usize = 0;
    while files.len() > 0
        invariant
            orig.len() == initial_len,
            done <= orig.len(),
            files@ == orig.skip(done as int),
            kept@ == orig.subrange(0, done as int).filter(|f: BucketFile| file_kept(f, file_id@)),
        decreases files@.len(),
    {
        proof {
            assert(done < orig.len());
        }
        let file = files.remove(0);
        proof {
            assert(orig.skip(done as int).drop_first() =~= orig.skip(done as int + 1));
            assert(orig.skip(done as int)[0] == orig[done as int]);
        }
        let keep = !str_eq(file.id.as_str(), file_id);
        proof {
            let prefix = orig.subrange(0, done as int);
            let prefix1 = orig.subrange(0, done as int + 1);
            assert(prefix1.drop_last() =~= prefix);
            assert(prefix1.last() == orig[done as int]);
            reveal(Seq::filter);
            if file_kept(orig[done as int], file_id@) {
                assert(prefix1.filter(|f: BucketFile| file_kept(f, file_id@)) =~= prefix.filter(
                    |f: BucketFile| file_kept(f, file_id@),
                ).push(orig[done as int]));
            } else {
                assert(prefix1.filter(|f: BucketFile| file_kept(f, file_id@)) =~= prefix.filter(
                    |f: BucketFile| file_kept(f, file_id@),
                ));
            }
        }
        if keep {
            kept.push(file);
        }
        done += 1;
    }
    proof {
        assert(orig.subrange(0, orig.len() as int) =~= orig);
    }
    *files = kept;
}

/// Whether a document record belongs to the bucket with identifier `id`.
pub open spec fn in_bucket(f: BucketFile, id: Seq<char>) -> bool {
    f.bucket_id@ == id
}

/// The records registered to one bucket, in order.
pub open spec fn bucket_files_of(files: Seq<BucketFile>, id: Seq<char>) -> Seq<BucketFile> {
    files.filter(|f: BucketFile| in_bucket(f, id))
}

/// Copies a document record.
fn copy_bucket_file(f: &BucketFile) -> (c: BucketFile)
    ensures
        c == *f,
{
    BucketFile {
        id: f.id.clone(),
        bucket_id: f.bucket_id.clone(),
        filename: f.filename.clone(),
        file_type: f.file_type.clone(),
        file_size: f.file_size,
        chunk_count: f.chunk_count,
        created_at: f.created_at.clone(),
    }
}

/// The records of one bucket, in registration order.
pub fn files_of_bucket(files: &Vec<BucketFile>, bucket_id: &str) -> (r: Vec<BucketFile>)
    ensures
        r@ == bucket_files_of(files@, bucket_id@),
{
    let mut r: Vec<BucketFile> = Vec::new();
    let mut i: usize = 0;
    proof {
        assert(files@.subrange(0, 0) =~= Seq::<BucketFile>::empty());
        assert(bucket_files_of(files@.subrange(0, 0), bucket_id@) =~= Seq::<BucketFile>::empty());
    }
    while i < files.len()
        invariant
            i <= files@.len(),
            r@ == bucket_files_of(files@.subrange(0, i as int), bucket_id@),
        decreases files@.len() - i,
    {
        proof {
            let prefix = files@.subrange(0, i as int);
            let prefix1 = files@.subrange(0, i as int + 1);
            assert(prefix1.drop_last() =~= prefix);
            assert(prefix1.last() == files@[i as int]);
            reveal(Seq::filter);
            if in_bucket(files@[i as int], bucket_id@) {
                assert(bucket_files_of(prefix1, bucket_id@) =~= bucket_files_of(
                    prefix,
                    bucket_id@,
                ).push(files@[i as int]));
            } else {
                assert(bucket_files_of(prefix1, bucket_id@) =~= bucket_files_of(
                    prefix,
                    bucket_id@,
                ));
            }
        }
        if str_eq(files[i].bucket_id.as_str(), bucket_id) {
            let copy = copy_bucket_file(&files[i]);
            r.push(copy);
        }
        i += 1;
    }
    proof {
        assert(files@.subrange(0, files@.len() as int) =~= files@);
    }
    r
}

/// Recomputes the derived document count of the first bucket with
/// identifier `bucket_id` from the registered records; every other bucket
/// is untouched, and a missing bucket means no change.
pub fn update_bucket_file_count(buckets: &mut Vec<Bucket>, files: &Vec<BucketFile>, bucket_id: &str)
    requires
        files@.len() <= i32::MAX,
    ensures
        ({
            let count = bucket_files_of(files@, bucket_id@).len() as i32;
            ||| {
                &&& (forall|m: int|
                    0 <= m < old(buckets)@.len() ==> (#[trigger] old(buckets)@[m]).id@
                        != bucket_id@)
                &&& final(buckets)@ == old(buckets)@
            }
            ||| (exists|j: int|
                {
                    &&& 0 <= j < old(buckets)@.len()
                    &&& (#[trigger] old(buckets)@[j]).id@ == bucket_id@
                    &&& (forall|m: int| 0 <= m < j ==> (#[trigger] old(buckets)@[m]).id@ != bucket_id@)
                    &&& final(buckets)@ == old(buckets)@.update(
                        j,
                        (Bucket { file_count: count, ..old(buckets)@[j] }),
                    )
                })
        }),
{
    let matching = files_of_bucket(files, bucket_id);
    proof {
        broadcast use vstd::seq_lib::group_filter_ensures;

        assert(matching@.len() <= files@.len());
    }
    let count = matching.len() as i32;
    proof {
        assert(count as int == bucket_files_of(files@, bucket_id@).len());
    }
    let mut j: usize = 0;
    while j < buckets.len()
        invariant
            j <= buckets@.len(),
            buckets@ == old(buckets)@,
            count as int == bucket_files_of(files@, bucket_id@).len(),
            forall|m: int| 0 <= m < j ==> (#[trigger] buckets@[m]).id@ != bucket_id@,
        decreases buckets@.len() - j,
    {
        if str_eq(buckets[j].id.as_str(), bucket_id) {
            let mut bucket = buckets.remove(j);
            bucket.file_count = count;
            buckets.insert(j, bucket);
            proof {
                let jj = j as int;
                let cnt = bucket_files_of(files@, bucket_id@).len() as i32;
                assert(cnt == count);
                assert(old(buckets)@[jj].id@ == bucket_id@);
                assert(forall|m: int| 0 <= m < jj ==> (#[trigger] old(buckets)@[m]).id@ != bucket_id@);
                assert(buckets@ =~= old(buckets)@.update(
                    jj,
                    (Bucket { file_count: cnt, ..old(buckets)@[jj] }),
                ));
                assert(buckets@ == old(buckets)@.update(
                    jj,
                    (Bucket { file_count: cnt, ..old(buckets)@[jj] }),
                ));
            }
            return ;
        }
        j += 1;
    }
}

} // verus!
