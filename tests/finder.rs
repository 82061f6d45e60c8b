use trf_disease_repeats::finder::{
    covered_bases, quick_copy_score, reconcile_bounds, scan_sequence_trf, scan_step, Repeat,
    ScanState, TrfParams,
};

fn params_with_min_score(min_score: i32) -> TrfParams {
    let mut p = TrfParams::default();
    p.min_score = min_score;
    p
}

fn mutated_array(per_copy: usize) -> String {
    let unit = b"ACGTTGCA";
    let mut s: Vec<u8> = Vec::new();
    for _ in 0..8 {
        s.extend_from_slice(unit);
    }
    for c in 1..8 {
        for j in 0..per_copy {
            let pos = c * 8 + (c * 3 + j * 2) % 8;
            s[pos] = match s[pos] {
                b'A' => b'C',
                b'C' => b'G',
                b'G' => b'T',
                _ => b'A',
            };
        }
    }
    String::from_utf8(s).unwrap()
}

fn check_invariants(seq: &str, reps: &[Repeat]) {
    for r in reps {
        assert!(r.start < r.end && r.end <= seq.len());
        assert!(r.period_size >= 1);
        assert_eq!(r.sequence, seq.as_bytes()[r.start..r.end].to_vec());
        assert_eq!(r.seq_len, seq.len());
        let sum = r.a_percent + r.c_percent + r.g_percent + r.t_percent;
        assert_eq!(sum, 10000);
    }
    for w in reps.windows(2) {
        assert!(w[0].end <= w[1].start);
    }
}

#[test]
fn default_parameters() {
    let p = TrfParams::default();
    assert_eq!(p.match_weight, 2);
    assert_eq!(p.mismatch_penalty, 7);
    assert_eq!(p.indel_penalty, 7);
    assert_eq!(p.min_score, 50);
    assert_eq!(p.max_period, 500);
    assert_eq!((p.prefilter_num, p.prefilter_den), (3, 4));
    assert_eq!(p.max_copies, 1000);
    assert_eq!(p.refine_flank, 100);
    assert_eq!(p.refine_band, 8);
}

#[test]
fn quick_score_mixes_matches_and_mismatches() {
    assert_eq!(quick_copy_score(b"ACGT", b"ACGA", 2, 7), -1);
}

#[test]
fn quick_score_uses_common_length() {
    assert_eq!(quick_copy_score(b"AC", b"ACGT", 2, 7), 4);
}

#[test]
fn quick_score_saturates() {
    assert_eq!(quick_copy_score(b"AA", b"AA", i32::MAX, 0), i32::MAX);
    assert_eq!(quick_copy_score(b"AA", b"CC", 0, i32::MAX), i32::MIN);
}

#[test]
fn reconcile_moves_start_forward_only() {
    assert_eq!(reconcile_bounds(10, 20, 5, 25, 22), (10, 22));
    assert_eq!(reconcile_bounds(10, 20, 12, 15, 100), (12, 20));
}

#[test]
fn dinucleotide_array_found_whole() {
    let seq = "ACACACACAC";
    let reps = scan_sequence_trf(seq, &params_with_min_score(10));
    assert_eq!(reps.len(), 1);
    let r = &reps[0];
    assert_eq!((r.start, r.end, r.period_size), (0, 10, 2));
    assert_eq!(r.score, 28);
    assert_eq!((r.a_percent, r.c_percent, r.g_percent, r.t_percent), (5000, 5000, 0, 0));
    assert_eq!(r.sequence, b"ACACACACAC".to_vec());
}

#[test]
fn dinucleotide_array_below_default_min_score() {
    assert!(scan_sequence_trf("ACACACACAC", &TrfParams::default()).is_empty());
}

#[test]
fn non_repetitive_sequence_has_no_repeats() {
    let seq = "GCTAAAGACAATTACATAACATACACGTCAGCACGAAACTTGTTGGCCCA";
    assert_eq!(seq.len(), 50);
    assert!(scan_sequence_trf(seq, &TrfParams::default()).is_empty());
}

#[test]
fn empty_sequence_has_no_repeats() {
    assert!(scan_sequence_trf("", &TrfParams::default()).is_empty());
}

#[test]
fn two_arrays_with_filler_give_two_repeats() {
    let filler = "TTTCCTCATGCAATTCAAAACCATGTCCGTAATGTAGGCGAAATAGTAAACCATTTTACGGAGGATACCAAATTCCTCCTTATTCAGGACCTAACCTGAGGTAAACCAGGTCTCTCCGCC";
    let seq = format!("{}{}{}", "ACGT".repeat(10), filler, "ACGT".repeat(10));
    let reps = scan_sequence_trf(&seq, &TrfParams::default());
    assert_eq!(reps.len(), 2);
    assert!(reps[0].start < reps[1].start);
    assert!(reps[0].end < reps[1].start);
    assert_eq!((reps[0].start, reps[0].end, reps[0].period_size), (46, 65, 4));
    assert_eq!((reps[1].start, reps[1].end, reps[1].period_size), (158, 198, 20));
    check_invariants(&seq, &reps);
}

#[test]
fn homopolymer_run() {
    let seq = "G".repeat(30);
    let reps = scan_sequence_trf(&seq, &TrfParams::default());
    assert_eq!(reps.len(), 1);
    assert_eq!((reps[0].start, reps[0].end, reps[0].period_size), (11, 30, 1));
    assert_eq!(reps[0].score, 89);
    assert_eq!(reps[0].g_percent, 10000);
}

#[test]
fn mutations_within_fraction_keep_period() {
    for k in 0..3 {
        let seq = mutated_array(k);
        let reps = scan_sequence_trf(&seq, &TrfParams::default());
        assert!(reps.iter().any(|r| r.period_size == 8), "{} mutations per copy", k);
        check_invariants(&seq, &reps);
    }
}

#[test]
fn mutations_beyond_fraction_lose_period() {
    let seq = mutated_array(3);
    let reps = scan_sequence_trf(&seq, &TrfParams::default());
    assert!(reps.iter().all(|r| r.period_size != 8));
    check_invariants(&seq, &reps);
}

#[test]
fn scans_are_deterministic() {
    let seq = mutated_array(1);
    let p = TrfParams::default();
    let a = scan_sequence_trf(&seq, &p);
    let b = scan_sequence_trf(&seq, &p);
    assert_eq!(a.len(), b.len());
    for (x, y) in a.iter().zip(b.iter()) {
        assert_eq!((x.start, x.end, x.period_size, x.score), (y.start, y.end, y.period_size, y.score));
        assert_eq!(x.sequence, y.sequence);
    }
}

#[test]
fn stepping_matches_whole_scan() {
    let seq = mutated_array(2);
    let p = TrfParams::default();
    let whole = scan_sequence_trf(&seq, &p);
    let mut state = ScanState { cursor: 0, last_end: 0 };
    let mut reps: Vec<Repeat> = Vec::new();
    while state.cursor < seq.len() {
        scan_step(seq.as_bytes(), &p, &mut state, &mut reps);
    }
    assert_eq!(reps.len(), whole.len());
    for (x, y) in reps.iter().zip(whole.iter()) {
        assert_eq!((x.start, x.end), (y.start, y.end));
    }
}

#[test]
fn covered_bases_sums_spans() {
    let seq = mutated_array(1);
    let reps = scan_sequence_trf(&seq, &TrfParams::default());
    let total: usize = reps.iter().map(|r| r.end - r.start).sum();
    assert_eq!(covered_bases(&reps), total);
    assert_eq!(covered_bases(&reps), 22);
    assert_eq!(covered_bases(&[]), 0);
}

#[test]
fn refined_span_may_be_shorter_than_two_periods() {
    let seq = "CTAAGGGATATAGAAGGGATATAGAAGGGATATAGAAGGGATATAGAAGGGATATAGAAATCAGAAATGGAACAAAG";
    let reps = scan_sequence_trf(seq, &TrfParams::default());
    assert_eq!(reps.len(), 1);
    assert_eq!((reps[0].start, reps[0].end, reps[0].period_size), (10, 66, 33));
    assert!(reps[0].end - reps[0].start < 2 * reps[0].period_size);
    assert!(reps[0].end - reps[0].start >= 8 + 11);
    check_invariants(seq, &reps);
}

#[test]
fn repeats_cover_at_most_the_sequence() {
    let seq = mutated_array(2);
    let reps = scan_sequence_trf(&seq, &TrfParams::default());
    assert_eq!(reps.len(), 1);
    assert_eq!(covered_bases(&reps), 64);
    assert!(covered_bases(&reps) <= seq.len());
}
