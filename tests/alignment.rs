use trf_disease_repeats::alignment::banded_smith_waterman;

#[test]
fn identical_short_window_scores_full_diagonal() {
    assert_eq!(banded_smith_waterman(b"ACGT", b"ACGT", 2, 7, 7, 8), (8, 0, 4));
}

#[test]
fn identical_window_with_zero_band() {
    assert_eq!(banded_smith_waterman(b"ACGTTGCA", b"ACGTTGCA", 3, 7, 7, 0), (24, 0, 8));
}

#[test]
fn identical_long_window_span_is_bounded_by_band() {
    let w = vec![b'A'; 30];
    assert_eq!(banded_smith_waterman(&w, &w, 2, 7, 7, 8), (60, 11, 30));
}

#[test]
fn empty_window_gives_zero() {
    assert_eq!(banded_smith_waterman(b"", b"ACGT", 2, 7, 7, 8), (0, 0, 0));
}

#[test]
fn empty_pattern_gives_zero() {
    assert_eq!(banded_smith_waterman(b"ACGT", b"", 2, 7, 7, 8), (0, 0, 0));
}

#[test]
fn unrelated_bytes_score_zero() {
    assert_eq!(banded_smith_waterman(b"AAAA", b"CCCC", 2, 7, 7, 2), (0, 0, 0));
}

#[test]
fn empty_window_gives_zero_for_any_band() {
    assert_eq!(banded_smith_waterman(b"", b"ACGT", 2, 7, 7, usize::MAX), (0, 0, 0));
    assert_eq!(banded_smith_waterman(b"ACGT", b"", 2, 7, 7, usize::MAX), (0, 0, 0));
}
