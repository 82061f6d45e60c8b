use trf_disease_repeats::composition::calc_composition;

#[test]
fn composition_of_mixed_span() {
    assert_eq!(calc_composition(b"AACG"), (5000, 2500, 2500, 0));
}

#[test]
fn composition_counts_lowercase() {
    assert_eq!(calc_composition(b"acgT"), (2500, 2500, 2500, 2500));
}

#[test]
fn composition_ignores_other_bytes() {
    assert_eq!(calc_composition(b"ANNT"), (5000, 0, 0, 5000));
}

#[test]
fn composition_of_empty_span_is_zero() {
    assert_eq!(calc_composition(b""), (0, 0, 0, 0));
}

#[test]
fn composition_without_bases_is_zero() {
    assert_eq!(calc_composition(b"NNXX"), (0, 0, 0, 0));
}

#[test]
fn composition_shares_sum_to_whole() {
    let (a, c, g, t) = calc_composition(b"AAT");
    assert_eq!((a, c, g, t), (6667, 0, 0, 3333));
    assert_eq!(a + c + g + t, 10000);
}

#[test]
fn composition_equal_remainders_favour_earlier_base() {
    let (a, c, g, t) = calc_composition(b"ACG");
    assert_eq!((a, c, g, t), (3334, 3333, 3333, 0));
    assert_eq!(a + c + g + t, 10000);
}

#[test]
fn composition_largest_remainders_get_the_rounding() {
    // 1/7 = 1428.57.., 2/7 = 2857.14.., 4/7 = 5714.28..
    let (a, c, g, t) = calc_composition(b"ACCGGGG");
    assert_eq!((a, c, g, t), (1429, 2857, 5714, 0));
    assert_eq!(a + c + g + t, 10000);
}
