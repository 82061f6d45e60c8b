use trf_disease_repeats::resolver::{resolve_overlaps, Candidate};

fn cand(position: usize, length: usize, score: i32, period: usize) -> Candidate {
    Candidate { position, length, score, period }
}

fn key(c: &Candidate) -> (usize, usize, i32, usize) {
    (c.position, c.length, c.score, c.period)
}

#[test]
fn overlapping_candidates_keep_leftmost() {
    let input = vec![cand(5, 10, 30, 2), cand(0, 8, 20, 4), cand(20, 6, 10, 3), cand(8, 4, 99, 1)];
    let out: Vec<_> = resolve_overlaps(&input).iter().map(key).collect();
    assert_eq!(out, vec![(0, 8, 20, 4), (8, 4, 99, 1), (20, 6, 10, 3)]);
}

#[test]
fn equal_positions_prefer_higher_score_then_longer() {
    let input = vec![cand(3, 4, 10, 2), cand(3, 6, 10, 3), cand(3, 2, 12, 1)];
    let out: Vec<_> = resolve_overlaps(&input).iter().map(key).collect();
    assert_eq!(out, vec![(3, 2, 12, 1)]);
    let input = vec![cand(3, 4, 10, 2), cand(3, 6, 10, 3)];
    let out: Vec<_> = resolve_overlaps(&input).iter().map(key).collect();
    assert_eq!(out, vec![(3, 6, 10, 3)]);
}

#[test]
fn arrival_order_does_not_matter() {
    let a = vec![cand(0, 5, 3, 1), cand(4, 5, 9, 2), cand(5, 2, 1, 1), cand(9, 3, 4, 3), cand(0, 5, 3, 2)];
    let mut b = a.clone();
    b.reverse();
    let mut c = a.clone();
    c.rotate_left(2);
    let ra: Vec<_> = resolve_overlaps(&a).iter().map(key).collect();
    let rb: Vec<_> = resolve_overlaps(&b).iter().map(key).collect();
    let rc: Vec<_> = resolve_overlaps(&c).iter().map(key).collect();
    assert_eq!(ra, rb);
    assert_eq!(ra, rc);
    assert_eq!(ra, vec![(0, 5, 3, 1), (5, 2, 1, 1), (9, 3, 4, 3)]);
}

#[test]
fn resolver_on_empty_input() {
    assert!(resolve_overlaps(&Vec::new()).is_empty());
}
