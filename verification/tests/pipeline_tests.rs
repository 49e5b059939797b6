use kmer_census::builder::hash_fasta_rec;
use kmer_census::merge::{merge_tables, select_seed};
use kmer_census::pipeline::{per_record_lines, run};
use kmer_census::render::{render_entry, render_table};
use kmer_census::table::KmerTable;
use kmer_census::RunError;

fn seqs(xs: &[&[u8]]) -> Vec<Vec<u8>> {
    xs.iter().map(|s| s.to_vec()).collect()
}

fn sorted(mut lines: Vec<Vec<u8>>) -> Vec<Vec<u8>> {
    lines.sort();
    lines
}

#[test]
fn end_to_end_two_records() {
    let input = seqs(&[b"AAAA", b"AAAT"]);
    let lines = run(&input, 2).unwrap();
    let expected = sorted(vec![b"AA\tTT\t5\n".to_vec(), b"AT\tAT\t1\n".to_vec()]);
    assert_eq!(sorted(lines), expected);
}

#[test]
fn sum_invariant_three_records() {
    let input = seqs(&[b"AAA", b"AAA", b"AAA"]);
    let lines = run(&input, 1).unwrap();
    assert_eq!(lines, vec![b"A\tT\t9\n".to_vec()]);
}

#[test]
fn sum_invariant_overlapping_kmers() {
    // GA occurs once in each record, AG twice in the first only.
    let input = seqs(&[b"AGAG", b"TGA"]);
    let lines = sorted(run(&input, 2).unwrap());
    let expected = sorted(vec![
        b"AG\tCT\t2\n".to_vec(),
        b"GA\tTC\t2\n".to_vec(),
        b"TG\tCA\t1\n".to_vec(),
    ]);
    assert_eq!(lines, expected);
}

#[test]
fn order_independence() {
    let input = seqs(&[b"ACGTACGT", b"CGTACG", b"TTTT", b"ACAC"]);
    let mut tables1: Vec<KmerTable> = Vec::new();
    let mut tables2: Vec<KmerTable> = Vec::new();
    for s in &input {
        tables1.push(hash_fasta_rec(s, 2).unwrap());
    }
    for s in input.iter().rev() {
        tables2.push(hash_fasta_rec(s, 2).unwrap());
    }
    let merged1 = merge_tables(&tables1).unwrap();
    let merged2 = merge_tables(&tables2).unwrap();
    let lines1 = sorted(render_table(&merged1));
    let lines2 = sorted(render_table(&merged2));
    assert_eq!(lines1, lines2);
}

#[test]
fn ambiguity_filtering() {
    // Records with runs of N: no output k-mer field may contain N.
    let input = seqs(&[b"AANNAA", b"NNNN", b"ANA"]);
    let lines = run(&input, 2).unwrap();
    for line in &lines {
        let kmer_field: Vec<u8> = line.iter().cloned().take_while(|b| *b != b'\t').collect();
        assert!(!kmer_field.contains(&b'N'));
    }
    // AA occurs at positions 0 and 4 of the first record.
    assert!(lines.contains(&b"AA\tTT\t2\n".to_vec()));
}

#[test]
fn revcomp_correctness() {
    let line = render_entry(&b"ACGT".to_vec(), 1).unwrap();
    assert_eq!(line, b"ACGT\tACGT\t1\n".to_vec());
    let line = render_entry(&b"AAGG".to_vec(), 1).unwrap();
    assert_eq!(line, b"AAGG\tCCTT\t1\n".to_vec());
}

#[test]
fn render_entry_drops_ambiguous() {
    assert!(render_entry(&b"ANT".to_vec(), 3).is_none());
    assert!(render_entry(&b"NNN".to_vec(), 1).is_none());
}

#[test]
fn render_entry_counts_in_decimal() {
    let line = render_entry(&b"A".to_vec(), 12345).unwrap();
    assert_eq!(line, b"A\tT\t12345\n".to_vec());
    let line = render_entry(&b"C".to_vec(), 10).unwrap();
    assert_eq!(line, b"C\tG\t10\n".to_vec());
}

#[test]
fn line_atomicity_pattern() {
    // Many records under the parallel builder: every output line is one
    // complete three-field record, each distinct surviving k-mer once.
    let mut input: Vec<Vec<u8>> = Vec::new();
    for i in 0..64 {
        let mut s = Vec::new();
        for j in 0..40 {
            s.push(match (i + j) % 4 {
                0 => b'A',
                1 => b'C',
                2 => b'G',
                _ => b'T',
            });
        }
        input.push(s);
    }
    let lines = run(&input, 3).unwrap();
    let mut kmers: Vec<Vec<u8>> = Vec::new();
    for line in &lines {
        assert_eq!(*line.last().unwrap(), b'\n');
        let body = &line[..line.len() - 1];
        let fields: Vec<&[u8]> = body.split(|b| *b == b'\t').collect();
        assert_eq!(fields.len(), 3);
        assert_eq!(fields[0].len(), 3);
        assert_eq!(fields[1].len(), 3);
        assert!(fields[2].iter().all(|b| b.is_ascii_digit()));
        kmers.push(fields[0].to_vec());
    }
    let n = kmers.len();
    kmers.sort();
    kmers.dedup();
    assert_eq!(kmers.len(), n);
}

#[test]
fn invalid_kmer_len_is_reported() {
    let input = seqs(&[b"ACGT"]);
    assert_eq!(run(&input, 0), Err(RunError::InvalidKmerLen));
    assert_eq!(run(&input, 5), Err(RunError::InvalidKmerLen));
    assert!(run(&input, 4).is_ok());
    assert!(matches!(hash_fasta_rec(&b"AC".to_vec(), 3), Err(RunError::InvalidKmerLen)));
}

#[test]
fn overflow_is_fatal_not_wrapped() {
    let mut t1 = KmerTable::new();
    t1.push_entry(b"AA".to_vec(), usize::MAX);
    let mut t2 = KmerTable::new();
    t2.push_entry(b"AA".to_vec(), 1);
    let tables = vec![t1, t2];
    assert!(matches!(merge_tables(&tables), Err(RunError::CountOverflow)));
}

#[test]
fn seed_selection_largest_lowest_index() {
    let t1 = hash_fasta_rec(&b"AAAA".to_vec(), 2).unwrap(); // 1 distinct k-mer
    let t2 = hash_fasta_rec(&b"ACGT".to_vec(), 2).unwrap(); // 3 distinct k-mers
    let t3 = hash_fasta_rec(&b"TGCA".to_vec(), 2).unwrap(); // 3 distinct k-mers
    assert_eq!(t2.len(), 3);
    assert_eq!(t3.len(), 3);
    let tables = vec![t1, t2, t3];
    // largest count wins, ties broken by the lowest record index
    assert_eq!(select_seed(&tables), 1);
}

#[test]
fn per_record_mode_is_unmerged() {
    let input = seqs(&[b"AAAA", b"AAAT"]);
    let outs = per_record_lines(&input, 2).unwrap();
    assert_eq!(outs.len(), 2);
    assert_eq!(outs[0], vec![b"AA\tTT\t3\n".to_vec()]);
    let expected = sorted(vec![b"AA\tTT\t2\n".to_vec(), b"AT\tAT\t1\n".to_vec()]);
    assert_eq!(sorted(outs[1].clone()), expected);
}

#[test]
fn partial_table_counts_positions() {
    let t = hash_fasta_rec(&b"AAAT".to_vec(), 2).unwrap();
    assert_eq!(t.len(), 2);
    let lines = sorted(render_table(&t));
    let expected = sorted(vec![b"AA\tTT\t2\n".to_vec(), b"AT\tAT\t1\n".to_vec()]);
    assert_eq!(lines, expected);
}
