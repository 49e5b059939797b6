use vstd::prelude::*;

use crate::table::KmerTable;

verus! {

/// Whether the word holds the ambiguity symbol `N`.
pub open spec fn has_ambiguity(w: Seq<u8>) -> bool {
    exists|i: int| 0 <= i < w.len() && w[i] == 78
}

/// The complement of one residue byte, as the reverse-complement collaborator
/// computes it: the complementary IUPAC letters are swapped, in either case,
/// and every other byte is left as it is.
pub open spec fn complement_of(b: u8) -> u8 {
    if b == 65 {
        84
    } else if b == 84 {
        65
    } else if b == 67 {
        71
    } else if b == 71 {
        67
    } else if b == 89 {
        82
    } else if b == 82 {
        89
    } else if b == 75 {
        77
    } else if b == 77 {
        75
    } else if b == 68 {
        72
    } else if b == 72 {
        68
    } else if b == 86 {
        66
    } else if b == 66 {
        86
    } else if b == 97 {
        116
    } else if b == 116 {
        97
    } else if b == 99 {
        103
    } else if b == 103 {
        99
    } else if b == 121 {
        114
    } else if b == 114 {
        121
    } else if b == 107 {
        109
    } else if b == 109 {
        107
    } else if b == 100 {
        104
    } else if b == 104 {
        100
    } else if b == 118 {
        98
    } else if b == 98 {
        118
    } else {
        b
    }
}

/// The reverse complement of a word: the word reversed, each byte replaced by
/// its complement.
pub open spec fn rc_of(w: Seq<u8>) -> Seq<u8> {
    Seq::new(w.len(), |i: int| complement_of(w[w.len() - 1 - i]))
}

/// The decimal digits of a count.
pub open spec fn digits_of(n: int) -> Seq<u8>
    recommends
        n >= 0,
    decreases n,
{
    if n < 10 {
        seq![(48 + n) as u8]
    } else {
        digits_of(n / 10).push((48 + n % 10) as u8)
    }
}

/// One output line: the k-mer, its reverse complement and its count,
/// tab-separated and closed by a line break.
pub open spec fn line_of(w: Seq<u8>, c: int) -> Seq<u8> {
    w + seq![9u8] + rc_of(w) + seq![9u8] + digits_of(c) + seq![10u8]
}

/// The output lines of a list of entries: one line per entry whose k-mer is
/// free of the ambiguity symbol, in entry order.
pub open spec fn lines_of(es: Seq<(Seq<u8>, usize)>) -> Seq<Seq<u8>>
    decreases es.len(),
{
    if es.len() == 0 {
        Seq::empty()
    } else {
        lines_of(es.drop_last()) + if has_ambiguity(es.last().0) {
            Seq::empty()
        } else {
            seq![line_of(es.last().0, es.last().1 as int)]
        }
    }
}

/// Relies on bio::alphabets::dna::revcomp: the returned vector is the input
/// reversed, with every byte replaced by its complement.
#[verifier::external_body]
fn revcomp_bytes(w: &Vec<u8>) -> (r: Vec<u8>)
    ensures
        r@ == rc_of(w@),
{
    bio::alphabets::dna::revcomp(w.as_slice())
}

/// Append the decimal digits of `n`.
fn push_digits(n: usize, out: &mut Vec<u8>)
    ensures
        final(out)@ == old(out)@ + digits_of(n as int),
    decreases n,
{
    if n >= 10 {
        push_digits(n / 10, out);
    }
    let d: u8 = 48 + (n % 10) as u8;
    out.push(d);
    proof {
        if n < 10 {
            assert(digits_of(n as int) =~= seq![(48 + n as int) as u8]);
            assert(out@ =~= old(out)@ + digits_of(n as int));
        } else {
            assert(out@ =~= old(out)@ + digits_of(n as int));
        }
    }
}

/// Produce the output line for one canonical entry, or nothing when its k-mer
/// holds the ambiguity symbol.
pub fn render_entry(kmer: &Vec<u8>, count: usize) -> (r: Option<Vec<u8>>)
    ensures
        r is Some <==> !has_ambiguity(kmer@),
        r matches Some(l) ==> l@ == line_of(kmer@, count as int),
{
    let mut i: usize = 0;
    while i < kmer.len()
        invariant
            i <= kmer@.len(),
            forall|j: int| 0 <= j < i ==> kmer@[j] != 78,
        decreases kmer@.len() - i,
    {
        if kmer[i] == 78 {
            return None;
        }
        i += 1;
    }
    let mut line: Vec<u8> = Vec::new();
    let mut i: usize = 0;
    while i < kmer.len()
        invariant
            i <= kmer@.len(),
            line@ == kmer@.take(i as int),
        decreases kmer@.len() - i,
    {
        line.push(kmer[i]);
        proof {
            assert(line@ =~= kmer@.take(i as int + 1));
        }
        i += 1;
    }
    proof {
        assert(kmer@.take(kmer@.len() as int) =~= kmer@);
    }
    line.push(9);
    let rc = revcomp_bytes(kmer);
    let mut i: usize = 0;
    while i < rc.len()
        invariant
            i <= rc@.len(),
            rc@ == rc_of(kmer@),
            line@ == kmer@ + seq![9u8] + rc@.take(i as int),
        decreases rc@.len() - i,
    {
        line.push(rc[i]);
        proof {
            assert(line@ =~= kmer@ + seq![9u8] + rc@.take(i as int + 1));
        }
        i += 1;
    }
    proof {
        assert(rc@.take(rc@.len() as int) =~= rc@);
    }
    line.push(9);
    push_digits(count, &mut line);
    line.push(10);
    proof {
        assert(line@ =~= line_of(kmer@, count as int));
    }
    Some(line)
}

/// Produce the output lines of a whole table, in entry order.
pub fn render_table(t: &KmerTable) -> (r: Vec<Vec<u8>>)
    ensures
        r.deep_view() == lines_of(t.entries_view()),
{
    let mut out: Vec<Vec<u8>> = Vec::new();
    proof {
        assert(t.entries_view().take(0) =~= Seq::<(Seq<u8>, usize)>::empty());
        assert(out.deep_view() =~~= lines_of(t.entries_view().take(0)));
    }
    let mut i: usize = 0;
    while i < t.len()
        invariant
            i <= t.entries_view().len(),
            out.deep_view() == lines_of(t.entries_view().take(i as int)),
        decreases t.entries_view().len() - i,
    {
        let ghost pre = out.deep_view();
        match render_entry(t.key_at(i), t.count_at(i)) {
            Some(l) => {
                let ghost lv = l@;
                out.push(l);
                proof {
                    assert(out.deep_view() =~~= pre.push(lv));
                }
            },
            None => {},
        }
        proof {
            let es = t.entries_view();
            assert(es.take(i as int + 1).drop_last() =~= es.take(i as int));
            assert(es.take(i as int + 1).last() == es[i as int]);
            if has_ambiguity(es[i as int].0) {
                assert(out.deep_view() =~~= lines_of(es.take(i as int + 1)));
            } else {
                assert(lines_of(es.take(i as int + 1)) =~= lines_of(es.take(i as int)).push(
                    line_of(es[i as int].0, es[i as int].1 as int),
                ));
                assert(out.deep_view() =~~= lines_of(es.take(i as int + 1)));
            }
        }
        i += 1;
    }
    proof {
        assert(t.entries_view().take(t.entries_view().len() as int) =~= t.entries_view());
    }
    out
}

/// Law: every rendered line is the line of an entry whose k-mer is free of
/// the ambiguity symbol, and every such entry has its line in the output.
#[verifier::rlimit(50)]
pub proof fn lemma_lines_of_props(es: Seq<(Seq<u8>, usize)>)
    ensures
        forall|li: int|
            #![trigger lines_of(es)[li]]
            0 <= li < lines_of(es).len() ==> exists|j: int|
                0 <= j < es.len() && !has_ambiguity((#[trigger] es[j]).0) && lines_of(es)[li]
                    == line_of(es[j].0, es[j].1 as int),
        forall|j: int|
            #![trigger es[j]]
            0 <= j < es.len() && !has_ambiguity(es[j].0) ==> exists|li: int|
                0 <= li < lines_of(es).len() && lines_of(es)[li] == line_of(es[j].0, es[j].1 as int),
    decreases es.len(),
{
    if es.len() == 0 {
        assert(lines_of(es) =~= Seq::<Seq<u8>>::empty());
    } else {
        let dl = es.drop_last();
        let last = es.last();
        lemma_lines_of_props(dl);
        assert forall|li: int| #![trigger lines_of(es)[li]] 0 <= li < lines_of(es).len() implies exists|j: int|
            0 <= j < es.len() && !has_ambiguity((#[trigger] es[j]).0) && lines_of(es)[li] == line_of(
            es[j].0,
            es[j].1 as int,
        ) by {
            if li < lines_of(dl).len() {
                assert(lines_of(es)[li] == lines_of(dl)[li]);
                let j = choose|j: int|
                    0 <= j < dl.len() && !has_ambiguity((#[trigger] dl[j]).0) && lines_of(dl)[li]
                        == line_of(dl[j].0, dl[j].1 as int);
                assert(es[j] == dl[j]);
                assert(0 <= j < es.len() && !has_ambiguity(es[j].0) && lines_of(es)[li] == line_of(
                    es[j].0,
                    es[j].1 as int,
                ));
            } else {
                assert(!has_ambiguity(last.0));
                let j = es.len() - 1;
                assert(es[j] == last);
                assert(lines_of(es)[li] == seq![line_of(last.0, last.1 as int)][li - lines_of(
                    dl,
                ).len()]);
                assert(0 <= j < es.len() && !has_ambiguity(es[j].0) && lines_of(es)[li] == line_of(
                    es[j].0,
                    es[j].1 as int,
                ));
            }
        }
        assert forall|j: int| #![trigger es[j]]
            0 <= j < es.len() && !has_ambiguity(es[j].0) implies exists|li: int|
            0 <= li < lines_of(es).len() && lines_of(es)[li] == line_of(es[j].0, es[j].1 as int) by {
            if j < es.len() - 1 {
                assert(dl[j] == es[j]);
                let li = choose|li: int|
                    0 <= li < lines_of(dl).len() && lines_of(dl)[li] == line_of(
                        dl[j].0,
                        dl[j].1 as int,
                    );
                assert(lines_of(es)[li] == lines_of(dl)[li]);
                assert(0 <= li < lines_of(es).len() && lines_of(es)[li] == line_of(
                    es[j].0,
                    es[j].1 as int,
                ));
            } else {
                assert(es[j] == last);
                let li = lines_of(es).len() - 1;
                assert(lines_of(es)[li] == seq![line_of(last.0, last.1 as int)][0]);
                assert(0 <= li < lines_of(es).len() && lines_of(es)[li] == line_of(
                    es[j].0,
                    es[j].1 as int,
                ));
            }
        }
    }
}

/// Law: the digits of a count are decimal digit bytes.
pub proof fn lemma_digits_in_range(n: int)
    requires
        n >= 0,
    ensures
        forall|i: int| 0 <= i < digits_of(n).len() ==> 48 <= #[trigger] digits_of(n)[i] <= 57,
    decreases n,
{
    if n < 10 {
        assert(digits_of(n)[0] == (48 + n) as u8);
    } else {
        lemma_digits_in_range(n / 10);
        assert forall|i: int| 0 <= i < digits_of(n).len() implies 48 <= #[trigger] digits_of(n)[i]
            <= 57 by {
            if i < digits_of(n).len() - 1 {
                assert(digits_of(n)[i] == digits_of(n / 10)[i]);
            } else {
                assert(digits_of(n)[i] == (48 + n % 10) as u8);
            }
        }
    }
}

/// Law: a rendered line starts with the k-mer itself, carries as its second
/// field the exact reverse complement of the k-mer, and ends with its count.
pub proof fn lemma_line_shape(w: Seq<u8>, c: int)
    ensures
        line_of(w, c).len() == 2 * w.len() + 3 + digits_of(c).len(),
        line_of(w, c).subrange(0, w.len() as int) == w,
        line_of(w, c)[w.len() as int] == 9,
        line_of(w, c).subrange(w.len() as int + 1, 2 * w.len() as int + 1) == rc_of(w),
        line_of(w, c)[2 * w.len() as int + 1] == 9,
        forall|i: int| 0 <= i < w.len() ==> rc_of(w)[i] == complement_of(w[w.len() - 1 - i]),
{
    assert(line_of(w, c).subrange(0, w.len() as int) =~= w);
    assert(line_of(w, c).subrange(w.len() as int + 1, 2 * w.len() as int + 1) =~= rc_of(w));
}

/// Law: a rendered line ends in exactly one line break, so one complete line
/// never holds a break inside.
pub proof fn lemma_line_single_break(w: Seq<u8>, c: int)
    requires
        c >= 0,
        forall|i: int| 0 <= i < w.len() ==> w[i] != 10,
    ensures
        line_of(w, c).last() == 10,
        forall|i: int| 0 <= i < line_of(w, c).len() - 1 ==> line_of(w, c)[i] != 10,
{
    lemma_digits_in_range(c);
    assert forall|i: int| 0 <= i < line_of(w, c).len() - 1 implies line_of(w, c)[i] != 10 by {
        let n = w.len() as int;
        let l = line_of(w, c);
        if i < n {
            assert(l[i] == w[i]);
        } else if i == n {
            assert(l[i] == 9);
        } else if i < 2 * n + 1 {
            assert(l[i] == rc_of(w)[i - n - 1]);
            assert(rc_of(w)[i - n - 1] == complement_of(w[n - 1 - (i - n - 1)]));
        } else if i == 2 * n + 1 {
            assert(l[i] == 9);
        } else {
            assert(l[i] == digits_of(c)[i - (2 * n + 2)]);
        }
    }
}

/// Law: lines of distinct k-mers of one length are distinct.
pub proof fn lemma_line_of_injective(w1: Seq<u8>, c1: int, w2: Seq<u8>, c2: int)
    requires
        w1.len() == w2.len(),
        w1 != w2,
    ensures
        line_of(w1, c1) != line_of(w2, c2),
{
    if forall|i: int| 0 <= i < w1.len() ==> w1[i] == w2[i] {
        assert(w1 =~= w2);
    }
    let i = choose|i: int| 0 <= i < w1.len() && w1[i] != w2[i];
    assert(line_of(w1, c1)[i] == w1[i]);
    assert(line_of(w2, c2)[i] == w2[i]);
}

} // verus!
