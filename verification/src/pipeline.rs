use vstd::prelude::*;

use crate::builder::build_result_spec;
use crate::builder::count_occ;
use crate::builder::lemma_count_occ_key_len;
use crate::builder::lemma_count_occ_nonneg;
use crate::builder::par_build;
use crate::builder::table_counts_record;
use crate::merge::maps_of;
use crate::merge::merge_tables;
use crate::merge::total_count;
use crate::render::has_ambiguity;
use crate::render::lemma_line_of_injective;
use crate::render::lemma_lines_of_props;
use crate::render::line_of;
use crate::render::lines_of;
use crate::render::render_table;
use crate::table::KmerTable;
use crate::RunError;

verus! {

/// The canonical occurrence count of `w`: the sum, over every record, of the
/// number of positions at which `w` starts in it.
pub open spec fn total_occ(ss: Seq<Seq<u8>>, k: int, w: Seq<u8>) -> int
    decreases ss.len(),
{
    if ss.len() == 0 {
        0
    } else {
        count_occ(ss[0], k, w) + total_occ(ss.drop_first(), k, w)
    }
}

/// The window length fits every record.
pub open spec fn valid_k(ss: Seq<Seq<u8>>, k: int) -> bool {
    1 <= k && forall|i: int| 0 <= i < ss.len() ==> k <= (#[trigger] ss[i]).len()
}

/// No canonical count exceeds the machine counter.
pub open spec fn no_overflow(ss: Seq<Seq<u8>>, k: int) -> bool {
    forall|w: Seq<u8>| #[trigger] total_occ(ss, k, w) <= usize::MAX
}

/// The canonical table of a set of records, as a map: each k-mer occurring in
/// at least one record, with the sum of its per-record occurrence counts.
pub open spec fn canonical_map(ss: Seq<Seq<u8>>, k: int) -> Map<Seq<u8>, usize> {
    Map::new(|w: Seq<u8>| total_occ(ss, k, w) > 0, |w: Seq<u8>| total_occ(ss, k, w) as usize)
}

/// The per-record table of one record, as a map.
pub open spec fn record_map(s: Seq<u8>, k: int) -> Map<Seq<u8>, usize> {
    Map::new(|w: Seq<u8>| count_occ(s, k, w) > 0, |w: Seq<u8>| count_occ(s, k, w) as usize)
}

/// A key of `counts` that produces an output line: one free of the
/// ambiguity symbol.
pub open spec fn is_output_key(counts: Map<Seq<u8>, usize>, w: Seq<u8>) -> bool {
    counts.contains_key(w) && !has_ambiguity(w)
}

/// The line `l` is the output line of some key of `counts` that is free of
/// the ambiguity symbol.
pub open spec fn line_is_output(counts: Map<Seq<u8>, usize>, l: Seq<u8>) -> bool {
    exists|w: Seq<u8>| #[trigger] is_output_key(counts, w) && l == line_of(w, counts[w] as int)
}

/// The lines `ls` are exactly one line for each key of `counts` that is free
/// of the ambiguity symbol, each carrying that key's count, no line twice.
pub open spec fn output_spec(counts: Map<Seq<u8>, usize>, ls: Seq<Seq<u8>>) -> bool {
    &&& forall|li: int|
        #![trigger ls[li]]
        0 <= li < ls.len() ==> line_is_output(counts, ls[li])
    &&& forall|w: Seq<u8>|
        #[trigger] is_output_key(counts, w) ==> exists|li: int|
            0 <= li < ls.len() && (#[trigger] ls[li]) == line_of(w, counts[w] as int)
    &&& forall|li1: int, li2: int| 0 <= li1 < li2 < ls.len() ==> ls[li1] != ls[li2]
}

proof fn lemma_total_occ_key_len(ss: Seq<Seq<u8>>, k: int, w: Seq<u8>)
    requires
        total_occ(ss, k, w) > 0,
    ensures
        w.len() == k,
    decreases ss.len(),
{
    if ss.len() == 0 {
    } else {
        lemma_count_occ_nonneg(ss[0], k, w);
        if count_occ(ss[0], k, w) > 0 {
            lemma_count_occ_key_len(ss[0], k, w);
        } else {
            lemma_total_occ_key_len(ss.drop_first(), k, w);
        }
    }
}

/// Law: the canonical sum over the built tables is the canonical sum over
/// the records themselves.
pub proof fn lemma_total_bridge(tables: Seq<KmerTable>, ss: Seq<Seq<u8>>, k: int, w: Seq<u8>)
    requires
        tables.len() == ss.len(),
        forall|i: int|
            0 <= i < tables.len() ==> (#[trigger] tables[i]).wf() && table_counts_record(
                tables[i],
                ss[i],
                k,
            ),
    ensures
        total_count(maps_of(tables), w) == total_occ(ss, k, w),
    decreases tables.len(),
{
    if tables.len() == 0 {
    } else {
        let t = tables[0];
        assert(maps_of(tables)[0] == t.as_map());
        if t.has_key(w) {
        } else {
            lemma_count_occ_nonneg(ss[0], k, w);
        }
        assert(maps_of(tables).drop_first() =~= maps_of(tables.drop_first()));
        assert forall|i: int| 0 <= i < tables.drop_first().len() implies (#[trigger] tables.drop_first()[i]).wf()
            && table_counts_record(tables.drop_first()[i], ss.drop_first()[i], k) by {
            assert(tables.drop_first()[i] == tables[i + 1]);
            assert(ss.drop_first()[i] == ss[i + 1]);
        }
        lemma_total_bridge(tables.drop_first(), ss.drop_first(), k, w);
    }
}

proof fn lemma_lines_distinct(es: Seq<(Seq<u8>, usize)>, k: int)
    requires
        forall|i: int, j: int| 0 <= i < j < es.len() ==> es[i].0 != es[j].0,
        forall|i: int| 0 <= i < es.len() ==> (#[trigger] es[i]).0.len() == k,
    ensures
        forall|a: int, b: int| 0 <= a < b < lines_of(es).len() ==> lines_of(es)[a] != lines_of(es)[b],
    decreases es.len(),
{
    if es.len() == 0 {
    } else {
        let dl = es.drop_last();
        let last = es.last();
        assert forall|i: int, j: int| 0 <= i < j < dl.len() implies dl[i].0 != dl[j].0 by {
            assert(dl[i] == es[i] && dl[j] == es[j]);
        }
        assert forall|i: int| 0 <= i < dl.len() implies (#[trigger] dl[i]).0.len() == k by {
            assert(dl[i] == es[i]);
        }
        lemma_lines_distinct(dl, k);
        lemma_lines_of_props(dl);
        assert forall|a: int, b: int| 0 <= a < b < lines_of(es).len() implies lines_of(es)[a]
            != lines_of(es)[b] by {
            if b < lines_of(dl).len() {
                assert(lines_of(es)[a] == lines_of(dl)[a]);
                assert(lines_of(es)[b] == lines_of(dl)[b]);
            } else {
                assert(!has_ambiguity(last.0));
                assert(lines_of(es)[b] == line_of(last.0, last.1 as int));
                assert(lines_of(es)[a] == lines_of(dl)[a]);
                let j = choose|j: int|
                    0 <= j < dl.len() && !has_ambiguity((#[trigger] dl[j]).0) && lines_of(dl)[a]
                        == line_of(dl[j].0, dl[j].1 as int);
                assert(dl[j] == es[j]);
                assert(es[j].0 != es[es.len() - 1].0);
                assert(es[es.len() - 1] == last);
                lemma_line_of_injective(dl[j].0, dl[j].1 as int, last.0, last.1 as int);
            }
        }
    }
}

#[verifier::spinoff_prover]
#[verifier::rlimit(60)]
proof fn lemma_render_lines_sound(t: KmerTable, ls: Seq<Seq<u8>>)
    requires
        t.wf(),
        ls == lines_of(t.entries_view()),
    ensures
        forall|li: int|
            #![trigger ls[li]]
            0 <= li < ls.len() ==> line_is_output(t.as_map(), ls[li]),
{
    let es = t.entries_view();
    lemma_lines_of_props(es);
    assert forall|li: int| #![trigger ls[li]] 0 <= li < ls.len() implies line_is_output(
        t.as_map(),
        ls[li],
    ) by {
        let j = choose|j: int|
            0 <= j < es.len() && !has_ambiguity((#[trigger] es[j]).0) && lines_of(es)[li] == line_of(
                es[j].0,
                es[j].1 as int,
            );
        t.lemma_as_map_at(j);
        let w = es[j].0;
        assert(is_output_key(t.as_map(), w));
        assert(is_output_key(t.as_map(), w) && ls[li] == line_of(w, t.as_map()[w] as int));
        assert(line_is_output(t.as_map(), ls[li]));
    }
}

#[verifier::spinoff_prover]
#[verifier::rlimit(60)]
proof fn lemma_render_lines_complete(t: KmerTable, ls: Seq<Seq<u8>>)
    requires
        t.wf(),
        ls == lines_of(t.entries_view()),
    ensures
        forall|w: Seq<u8>|
            #[trigger] is_output_key(t.as_map(), w) ==> exists|li: int|
                0 <= li < ls.len() && (#[trigger] ls[li]) == line_of(w, t.as_map()[w] as int),
{
    let es = t.entries_view();
    lemma_lines_of_props(es);
    assert forall|w: Seq<u8>| #[trigger] is_output_key(t.as_map(), w) implies exists|li: int|
        0 <= li < ls.len() && (#[trigger] ls[li]) == line_of(w, t.as_map()[w] as int) by {
        let j = t.index_of(w);
        assert(0 <= j < es.len() && es[j].0 == w);
        t.lemma_as_map_at(j);
        let li = choose|li: int|
            0 <= li < lines_of(es).len() && lines_of(es)[li] == line_of(es[j].0, es[j].1 as int);
        assert(0 <= li < ls.len() && ls[li] == line_of(w, t.as_map()[w] as int));
    }
}

/// Law: rendering a well-formed table of k-mers of one length yields exactly
/// one line per unambiguous entry.
#[verifier::spinoff_prover]
#[verifier::rlimit(60)]
pub proof fn lemma_render_output(t: KmerTable, ls: Seq<Seq<u8>>, k: int)
    requires
        t.wf(),
        ls == lines_of(t.entries_view()),
        forall|i: int|
            0 <= i < t.entries_view().len() ==> (#[trigger] t.entries_view()[i]).0.len() == k,
    ensures
        output_spec(t.as_map(), ls),
{
    lemma_render_lines_sound(t, ls);
    lemma_render_lines_complete(t, ls);
    lemma_lines_distinct(t.entries_view(), k);
    assert forall|li1: int, li2: int| 0 <= li1 < li2 < ls.len() implies ls[li1] != ls[li2] by {
        assert(lines_of(t.entries_view())[li1] != lines_of(t.entries_view())[li2]);
    }
}

/// Run the whole merged pipeline on the records' sequences: build one partial
/// table per record in parallel, merge them into the canonical table, and
/// render one tab-separated line per unambiguous canonical k-mer.
pub fn run(seqs: &Vec<Vec<u8>>, k: usize) -> (r: Result<Vec<Vec<u8>>, RunError>)
    requires
        seqs@.len() >= 1,
    ensures
        r is Ok <==> valid_k(seqs.deep_view(), k as int) && no_overflow(seqs.deep_view(), k as int),
        (r matches Err(e) && e == RunError::InvalidKmerLen) <==> !valid_k(
            seqs.deep_view(),
            k as int,
        ),
        (r matches Err(e) && e == RunError::CountOverflow) <==> (valid_k(seqs.deep_view(), k as int)
            && !no_overflow(seqs.deep_view(), k as int)),
        r matches Ok(lines) ==> output_spec(
            canonical_map(seqs.deep_view(), k as int),
            lines.deep_view(),
        ),
{
    let ghost ss = seqs.deep_view();
    proof {
        assert(ss.len() == seqs@.len());
        assert forall|j: int| 0 <= j < ss.len() implies #[trigger] ss[j] == seqs@[j]@ by {}
    }
    let mut results = par_build(seqs, k);
    let ghost orig = results@;
    let mut tables: Vec<KmerTable> = Vec::new();
    let mut i: usize = 0;
    while i < seqs.len()
        invariant
            ss == seqs.deep_view(),
            ss.len() == seqs@.len(),
            forall|j: int| 0 <= j < ss.len() ==> #[trigger] ss[j] == seqs@[j]@,
            orig.len() == seqs@.len(),
            i <= orig.len(),
            results@ == orig.skip(i as int),
            tables@.len() == i,
            forall|j: int|
                0 <= j < orig.len() ==> build_result_spec(seqs@[j]@, k as int, #[trigger] orig[j]),
            forall|j: int| 0 <= j < i ==> (#[trigger] orig[j] matches Ok(t) && tables@[j] == t),
        decreases orig.len() - i,
    {
        let rt = results.remove(0);
        proof {
            assert(rt == orig.skip(i as int)[0]);
            assert(orig.skip(i as int)[0] == orig[i as int]);
            assert(results@ =~= orig.skip(i as int + 1));
        }
        match rt {
            Ok(t) => {
                tables.push(t);
            },
            Err(_) => {
                proof {
                    assert(!(1 <= k as int <= seqs@[i as int]@.len()));
                    assert(ss[i as int] == seqs@[i as int]@);
                    assert(!valid_k(ss, k as int));
                }
                return Err(RunError::InvalidKmerLen);
            },
        }
        i += 1;
    }
    proof {
        assert forall|j: int| 0 <= j < tables@.len() implies (#[trigger] tables@[j]).wf()
            && table_counts_record(tables@[j], ss[j], k as int) by {
            assert(orig[j] matches Ok(t) && tables@[j] == t);
            assert(build_result_spec(seqs@[j]@, k as int, orig[j]));
        }
        assert forall|j: int| 0 <= j < ss.len() implies k as int <= (#[trigger] ss[j]).len() by {
            assert(orig[j] matches Ok(t));
            assert(build_result_spec(seqs@[j]@, k as int, orig[j]));
        }
        assert(orig[0] matches Ok(t));
        assert(1 <= k as int);
        assert(valid_k(ss, k as int));
    }
    let merged = merge_tables(&tables);
    match merged {
        Err(_) => {
            proof {
                let wbad = choose|w: Seq<u8>|
                    !(#[trigger] total_count(maps_of(tables@), w) <= usize::MAX);
                lemma_total_bridge(tables@, ss, k as int, wbad);
                assert(total_occ(ss, k as int, wbad) > usize::MAX);
                assert(!no_overflow(ss, k as int));
            }
            Err(RunError::CountOverflow)
        },
        Ok(canon) => {
            proof {
                assert forall|w: Seq<u8>|
                    #![trigger canon.as_map().contains_key(w)]
                    #![trigger canonical_map(ss, k as int).contains_key(w)]
                    (canon.as_map().contains_key(w) <==> canonical_map(ss, k as int).contains_key(
                        w,
                    )) && (canon.as_map().contains_key(w) ==> canon.as_map()[w] == canonical_map(
                        ss,
                        k as int,
                    )[w]) by {
                    lemma_total_bridge(tables@, ss, k as int, w);
                }
                assert(canon.as_map() =~= canonical_map(ss, k as int));
                assert forall|i2: int| 0 <= i2 < canon.entries_view().len() implies (
                #[trigger] canon.entries_view()[i2]).0.len() == k as int by {
                    canon.lemma_as_map_at(i2);
                    let w = canon.entries_view()[i2].0;
                    assert(canon.as_map().contains_key(w));
                    lemma_total_bridge(tables@, ss, k as int, w);
                    lemma_total_occ_key_len(ss, k as int, w);
                }
            }
            let lines = render_table(&canon);
            proof {
                lemma_render_output(canon, lines.deep_view(), k as int);
                assert(output_spec(canonical_map(ss, k as int), lines.deep_view()));
                assert forall|w: Seq<u8>| #[trigger] total_occ(ss, k as int, w)
                    <= usize::MAX by {
                    lemma_total_bridge(tables@, ss, k as int, w);
                }
                assert(no_overflow(ss, k as int));
            }
            Ok(lines)
        },
    }
}

/// Run the per-record pipeline: for each record its own unmerged table,
/// rendered as that record's own lines. Shares only the partial table builder
/// with the merged pipeline.
pub fn per_record_lines(seqs: &Vec<Vec<u8>>, k: usize) -> (r: Result<Vec<Vec<Vec<u8>>>, RunError>)
    requires
        seqs@.len() >= 1,
    ensures
        r is Ok <==> valid_k(seqs.deep_view(), k as int),
        r matches Err(e) ==> e == RunError::InvalidKmerLen,
        r matches Ok(outs) ==> outs@.len() == seqs@.len() && forall|i: int|
            0 <= i < seqs@.len() ==> output_spec(
                record_map(seqs@[i]@, k as int),
                (#[trigger] outs@[i]).deep_view(),
            ),
{
    let ghost ss = seqs.deep_view();
    proof {
        assert forall|j: int| 0 <= j < ss.len() implies #[trigger] ss[j] == seqs@[j]@ by {}
    }
    let mut outs: Vec<Vec<Vec<u8>>> = Vec::new();
    let mut i: usize = 0;
    while i < seqs.len()
        invariant
            ss == seqs.deep_view(),
            ss.len() == seqs@.len(),
            seqs@.len() >= 1,
            forall|j: int| 0 <= j < ss.len() ==> #[trigger] ss[j] == seqs@[j]@,
            i <= seqs@.len(),
            outs@.len() == i,
            forall|j: int| 0 <= j < i ==> 1 <= k as int <= (#[trigger] ss[j]).len(),
            forall|j: int|
                0 <= j < i ==> output_spec(
                    record_map(seqs@[j]@, k as int),
                    (#[trigger] outs@[j]).deep_view(),
                ),
        decreases seqs@.len() - i,
    {
        let built = crate::builder::hash_fasta_rec(&seqs[i], k);
        match built {
            Err(_) => {
                proof {
                    assert(!(1 <= k as int <= seqs@[i as int]@.len()));
                    assert(ss[i as int] == seqs@[i as int]@);
                    if 1 <= k as int {
                        assert(!(k as int <= ss[i as int].len()));
                    }
                    assert(!valid_k(ss, k as int));
                }
                return Err(RunError::InvalidKmerLen);
            },
            Ok(t) => {
                proof {
                    assert forall|i2: int| 0 <= i2 < t.entries_view().len() implies (
                    #[trigger] t.entries_view()[i2]).0.len() == k as int by {}
                    assert forall|w: Seq<u8>|
                        #![trigger t.as_map().contains_key(w)]
                        #![trigger record_map(seqs@[i as int]@, k as int).contains_key(w)]
                        (t.as_map().contains_key(w) <==> record_map(
                            seqs@[i as int]@,
                            k as int,
                        ).contains_key(w)) && (t.as_map().contains_key(w) ==> t.as_map()[w]
                        == record_map(seqs@[i as int]@, k as int)[w]) by {
                        if t.has_key(w) {
                        } else {
                            lemma_count_occ_nonneg(seqs@[i as int]@, k as int, w);
                        }
                    }
                    assert(t.as_map() =~= record_map(seqs@[i as int]@, k as int));
                }
                let lines = render_table(&t);
                proof {
                    lemma_render_output(t, lines.deep_view(), k as int);
                }
                outs.push(lines);
            },
        }
        i += 1;
    }
    proof {
        assert(i == ss.len());
        assert(ss[0] == seqs@[0]@);
        assert(0 <= 0 < i);
        assert(1 <= k as int && k as int <= ss[0].len());
        assert(valid_k(ss, k as int));
    }
    Ok(outs)
}


} // verus!
