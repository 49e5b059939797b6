use vstd::prelude::*;

use crate::table::KmerTable;
use crate::RunError;
use rayon::iter::IntoParallelRefIterator;
use rayon::iter::ParallelIterator;

verus! {

/// Number of positions at which the word `w` starts in `s`, for a window of
/// length `k`: the occurrence count of the k-mer `w`.
pub open spec fn count_occ(s: Seq<u8>, k: int, w: Seq<u8>) -> int
    decreases s.len(),
{
    if k <= 0 || s.len() < k {
        0
    } else {
        (if s.take(k) == w {
            1int
        } else {
            0int
        }) + count_occ(s.skip(1), k, w)
    }
}

pub proof fn lemma_count_occ_nonneg(s: Seq<u8>, k: int, w: Seq<u8>)
    ensures
        count_occ(s, k, w) >= 0,
    decreases s.len(),
{
    if k <= 0 || s.len() < k {
    } else {
        lemma_count_occ_nonneg(s.skip(1), k, w);
    }
}

/// A word that occurs as a k-mer has length exactly `k`.
pub proof fn lemma_count_occ_key_len(s: Seq<u8>, k: int, w: Seq<u8>)
    requires
        count_occ(s, k, w) > 0,
    ensures
        w.len() == k,
    decreases s.len(),
{
    if k <= 0 || s.len() < k {
    } else {
        if s.take(k) == w {
            assert(s.take(k).len() == k);
        } else {
            lemma_count_occ_key_len(s.skip(1), k, w);
        }
    }
}

/// Relies on bio::alignment::sparse::hash_kmers: for a sequence and a window
/// length `k >= 1`, it maps each distinct k-mer of the sequence to the vector
/// of the positions at which that k-mer starts, every distinct k-mer present
/// exactly once.
#[verifier::external_body]
fn kmer_positions(seq: &Vec<u8>, k: usize) -> (r: Vec<(Vec<u8>, Vec<u32>)>)
    requires
        k >= 1,
    ensures
        forall|i: int| 0 <= i < r@.len() ==> (#[trigger] r@[i]).0@.len() == k as int,
        forall|i: int|
            0 <= i < r@.len() ==> (#[trigger] r@[i]).1@.len() == count_occ(
                seq@,
                k as int,
                r@[i].0@,
            ),
        forall|i: int| 0 <= i < r@.len() ==> (#[trigger] r@[i]).1@.len() >= 1,
        forall|i: int, j: int| 0 <= i < j < r@.len() ==> r@[i].0@ != r@[j].0@,
        forall|w: Seq<u8>|
            #[trigger] count_occ(seq@, k as int, w) > 0 ==> exists|i: int|
                0 <= i < r@.len() && (#[trigger] r@[i]).0@ == w,
{
    bio::alignment::sparse::hash_kmers(seq.as_slice(), k)
        .into_iter()
        .map(|(w, ps)| (w.to_vec(), ps))
        .collect()
}

/// The table `t` is the partial table of the record `s`: it holds exactly the
/// k-mers occurring in `s`, each with its occurrence count.
pub open spec fn table_counts_record(t: KmerTable, s: Seq<u8>, k: int) -> bool {
    &&& forall|w: Seq<u8>| #[trigger] t.has_key(w) <==> count_occ(s, k, w) > 0
    &&& forall|w: Seq<u8>| #[trigger] t.has_key(w) ==> t.as_map()[w] == count_occ(s, k, w)
    &&& forall|i: int|
        0 <= i < t.entries_view().len() ==> (#[trigger] t.entries_view()[i]).0.len() == k
}

/// What building a partial table for the record `s` must return: a
/// configuration error exactly when the window does not fit the record, and
/// otherwise the record's own k-mer frequency table.
pub open spec fn build_result_spec(s: Seq<u8>, k: int, r: Result<KmerTable, RunError>) -> bool {
    &&& r is Ok <==> 1 <= k <= s.len()
    &&& (r matches Ok(t) ==> t.wf() && table_counts_record(t, s, k))
    &&& (r matches Err(e) ==> e == RunError::InvalidKmerLen)
}

/// Build the partial frequency table of one record: each distinct k-mer of
/// `seq` mapped to the number of positions at which it starts.
pub fn hash_fasta_rec(seq: &Vec<u8>, k: usize) -> (r: Result<KmerTable, RunError>)
    ensures
        build_result_spec(seq@, k as int, r),
{
    if k < 1 || k > seq.len() {
        return Err(RunError::InvalidKmerLen);
    }
    let pairs = kmer_positions(seq, k);
    let mut t = KmerTable::new();
    let mut j: usize = 0;
    while j < pairs.len()
        invariant
            j <= pairs@.len(),
            t.wf(),
            t.entries_view().len() == j,
            forall|i: int|
                0 <= i < j ==> (#[trigger] t.entries_view()[i]).0 == pairs@[i].0@
                    && t.entries_view()[i].1 == pairs@[i].1@.len(),
            forall|i: int| 0 <= i < pairs@.len() ==> (#[trigger] pairs@[i]).0@.len() == k as int,
            forall|i: int|
                0 <= i < pairs@.len() ==> (#[trigger] pairs@[i]).1@.len() == count_occ(
                    seq@,
                    k as int,
                    pairs@[i].0@,
                ),
            forall|i: int| 0 <= i < pairs@.len() ==> (#[trigger] pairs@[i]).1@.len() >= 1,
            forall|i: int, i2: int| 0 <= i < i2 < pairs@.len() ==> pairs@[i].0@ != pairs@[i2].0@,
            forall|w: Seq<u8>|
                #[trigger] count_occ(seq@, k as int, w) > 0 ==> exists|i: int|
                    0 <= i < pairs@.len() && (#[trigger] pairs@[i]).0@ == w,
        decreases pairs@.len() - j,
    {
        let w = pairs[j].0.clone();
        let c = pairs[j].1.len();
        proof {
            assert(w@ == pairs@[j as int].0@);
            if t.has_key(w@) {
                let i = t.index_of(w@);
                assert(t.entries_view()[i].0 == pairs@[i].0@);
                assert(pairs@[i].0@ != pairs@[j as int].0@);
                assert(false);
            }
        }
        t.push_entry(w, c);
        j += 1;
    }
    proof {
        assert forall|w: Seq<u8>| #[trigger] t.has_key(w) implies count_occ(seq@, k as int, w)
            > 0 by {
            let i = t.index_of(w);
            assert(t.entries_view()[i].0 == pairs@[i].0@);
            assert(count_occ(seq@, k as int, pairs@[i].0@) >= 1);
        }
        assert forall|w: Seq<u8>| count_occ(seq@, k as int, w) > 0 implies #[trigger] t.has_key(
            w,
        ) by {
            let i = choose|i: int| 0 <= i < pairs@.len() && (#[trigger] pairs@[i]).0@ == w;
            assert(t.entries_view()[i].0 == pairs@[i].0@);
            assert(t.entries_view()[i].0 == w);
        }
        assert forall|w: Seq<u8>| #[trigger] t.has_key(w) implies t.as_map()[w] == count_occ(
            seq@,
            k as int,
            w,
        ) by {
            let i = t.index_of(w);
            t.lemma_as_map_at(i);
            assert(t.entries_view()[i].0 == pairs@[i].0@);
            assert(t.as_map()[w] == pairs@[i].1@.len());
        }
    }
    Ok(t)
}

/// Relies on rayon's par_iter, map and collect: the closure is applied to
/// every element of the slice and the results are collected in order, so each
/// element of the result is what `hash_fasta_rec` returns for the
/// corresponding record.
#[verifier::external_body]
pub fn par_build(seqs: &Vec<Vec<u8>>, k: usize) -> (r: Vec<Result<KmerTable, RunError>>)
    ensures
        r@.len() == seqs@.len(),
        forall|i: int|
            0 <= i < seqs@.len() ==> build_result_spec(seqs@[i]@, k as int, #[trigger] r@[i]),
{
    seqs.par_iter().map(|s| hash_fasta_rec(s, k)).collect()
}

} // verus!
