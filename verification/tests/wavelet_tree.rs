use scrunch::succinct::SuccinctWaveletTree;
use scrunch::wavelet_tree::{queries_agree, ReferenceWaveletTree, WaveletTree};

#[test]
fn simple_evens() {
    // try 010101
    let wt = ReferenceWaveletTree::new(&[0, 1, 0, 1, 0, 1]);
    assert_eq!(0, wt.rank_q(0, 1));
    assert_eq!(0, wt.rank_q(1, 1));
    assert_eq!(1, wt.rank_q(2, 1));
    assert_eq!(1, wt.rank_q(3, 1));
    assert_eq!(2, wt.rank_q(4, 1));
    assert_eq!(2, wt.rank_q(5, 1));
    assert_eq!(3, wt.rank_q(6, 1));

    assert_eq!(0, wt.rank_q(0, 0));
    assert_eq!(1, wt.rank_q(1, 0));
    assert_eq!(1, wt.rank_q(2, 0));
    assert_eq!(2, wt.rank_q(3, 0));
    assert_eq!(2, wt.rank_q(4, 0));
    assert_eq!(3, wt.rank_q(5, 0));
    assert_eq!(3, wt.rank_q(6, 0));

    assert_eq!(Some(1), wt.select_q(0, 1));
    assert_eq!(Some(3), wt.select_q(1, 1));
    assert_eq!(Some(5), wt.select_q(2, 1));

    assert_eq!(Some(0), wt.select_q(0, 0));
    assert_eq!(Some(2), wt.select_q(1, 0));
    assert_eq!(Some(4), wt.select_q(2, 0));
}

#[test]
fn simple_odds() {
    // try 101010
    let wt = ReferenceWaveletTree::new(&[1, 0, 1, 0, 1, 0]);
    assert_eq!(0, wt.rank_q(0, 1));
    assert_eq!(1, wt.rank_q(1, 1));
    assert_eq!(1, wt.rank_q(2, 1));
    assert_eq!(2, wt.rank_q(3, 1));
    assert_eq!(2, wt.rank_q(4, 1));
    assert_eq!(3, wt.rank_q(5, 1));
    assert_eq!(3, wt.rank_q(6, 1));

    assert_eq!(0, wt.rank_q(0, 0));
    assert_eq!(0, wt.rank_q(1, 0));
    assert_eq!(1, wt.rank_q(2, 0));
    assert_eq!(1, wt.rank_q(3, 0));
    assert_eq!(2, wt.rank_q(4, 0));
    assert_eq!(2, wt.rank_q(5, 0));
    assert_eq!(3, wt.rank_q(6, 0));

    assert_eq!(Some(0), wt.select_q(0, 1));
    assert_eq!(Some(2), wt.select_q(1, 1));
    assert_eq!(Some(4), wt.select_q(2, 1));

    assert_eq!(Some(1), wt.select_q(0, 0));
    assert_eq!(Some(3), wt.select_q(1, 0));
    assert_eq!(Some(5), wt.select_q(2, 0));
}

#[test]
fn select_above_partition_midpoint() {
    // A symbol just above the midpoint of a four-symbol alphabet, appearing
    // exactly once: its sole position must come back.
    let wt = ReferenceWaveletTree::new(&[3, 1]);
    assert_eq!(Some(1), wt.select_q(0, 1));
}

#[test]
fn rank_boundaries() {
    let wt = ReferenceWaveletTree::new(&[0, 1, 0, 1, 0, 1]);
    for q in 0..4 {
        assert_eq!(0, wt.rank_q(0, q));
    }
    assert_eq!(3, wt.rank_q(6, 0));
    assert_eq!(3, wt.rank_q(6, 1));
    assert_eq!(0, wt.rank_q(6, 2));
    // A bound past the end of the sequence is clamped: every position counts.
    assert_eq!(3, wt.rank_q(100, 1));
}

#[test]
fn rank_is_monotonic() {
    let wt = ReferenceWaveletTree::new(&[2, 0, 2, 1, 2, 0, 1]);
    for q in 0..3 {
        let mut previous = 0;
        for x in 0..=wt.len() {
            let rank = wt.rank_q(x, q);
            assert!(previous <= rank);
            previous = rank;
        }
    }
}

#[test]
fn select_inverts_rank() {
    let s: Vec<usize> = vec![2, 0, 2, 1, 2, 0, 1];
    let wt = ReferenceWaveletTree::new(&s);
    for q in 0..3 {
        let total = wt.rank_q(wt.len(), q);
        for x in 0..total {
            let position = wt.select_q(x, q).unwrap();
            assert_eq!(q, s[position]);
            assert_eq!(x, wt.rank_q(position, q));
        }
    }
}

#[test]
fn select_not_found() {
    let wt = ReferenceWaveletTree::new(&[0, 1, 0, 1, 0, 1]);
    assert_eq!(None, wt.select_q(3, 1));
    assert_eq!(None, wt.select_q(3, 0));
    assert_eq!(None, wt.select_q(0, 7));
}

#[test]
fn empty_sequence() {
    let wt = ReferenceWaveletTree::new(&[]);
    assert_eq!(0, wt.len());
    assert_eq!(0, wt.rank_q(0, 0));
    assert_eq!(0, wt.rank_q(5, 0));
    assert_eq!(None, wt.select_q(0, 0));
}

#[test]
fn single_symbol_alphabet() {
    let wt = ReferenceWaveletTree::new(&[5, 5, 5]);
    for x in 0..=3 {
        assert_eq!(x, wt.rank_q(x, 5));
    }
    for x in 0..3 {
        assert_eq!(Some(x), wt.select_q(x, 5));
    }
    assert_eq!(None, wt.select_q(3, 5));
}

#[test]
fn succinct_simple_evens() {
    let wt = SuccinctWaveletTree::new(&[0, 1, 0, 1, 0, 1]);
    assert_eq!(6, wt.len());
    assert_eq!(1, wt.rank_q(2, 1));
    assert_eq!(2, wt.rank_q(4, 1));
    assert_eq!(3, wt.rank_q(6, 0));
    assert_eq!(Some(1), wt.select_q(0, 1));
    assert_eq!(Some(5), wt.select_q(2, 1));
    assert_eq!(Some(2), wt.select_q(1, 0));
    assert_eq!(None, wt.select_q(3, 1));
}

#[test]
fn succinct_select_above_partition_midpoint() {
    let wt = SuccinctWaveletTree::new(&[3, 1]);
    assert_eq!(Some(1), wt.select_q(0, 1));
}

#[test]
fn succinct_wide_alphabet() {
    let s: Vec<usize> = vec![9, 0, 4, 7, 4, 9, 2, 4, 11, 4];
    let wt = SuccinctWaveletTree::new(&s);
    assert_eq!(s.len(), wt.len());
    for q in 0..13 {
        let total = wt.rank_q(wt.len(), q);
        assert_eq!(total, s.iter().filter(|&&e| e == q).count());
        for x in 0..total {
            let position = wt.select_q(x, q).unwrap();
            assert_eq!(q, s[position]);
            assert_eq!(x, wt.rank_q(position, q));
        }
        assert_eq!(None, wt.select_q(total, q));
    }
}

#[test]
fn succinct_empty_sequence() {
    let wt = SuccinctWaveletTree::new(&[]);
    assert_eq!(0, wt.len());
    assert_eq!(0, wt.rank_q(3, 0));
    assert_eq!(None, wt.select_q(0, 0));
}

#[test]
fn succinct_single_symbol_alphabet() {
    let wt = SuccinctWaveletTree::new(&[0, 0, 0]);
    for x in 0..=3 {
        assert_eq!(x, wt.rank_q(x, 0));
    }
    for x in 0..3 {
        assert_eq!(Some(x), wt.select_q(x, 0));
    }
    assert_eq!(None, wt.select_q(3, 0));
    assert_eq!(None, wt.select_q(0, 9));
    assert_eq!(0, wt.rank_q(3, 9));
}

#[test]
fn succinct_matches_reference() {
    let s: Vec<usize> = vec![5, 3, 0, 7, 3, 3, 1, 6, 2, 5, 0, 7, 7, 4];
    let reference = ReferenceWaveletTree::new(&s);
    let succinct = SuccinctWaveletTree::new(&s);
    for q in 0..9 {
        for x in 0..=s.len() + 1 {
            assert!(queries_agree(&reference, &succinct, x, q));
            assert_eq!(reference.rank_q(x, q), succinct.rank_q(x, q));
            assert_eq!(reference.select_q(x, q), succinct.select_q(x, q));
        }
    }
}

#[test]
fn implementations_agree() {
    let s: Vec<usize> = vec![3, 1, 0, 2, 3, 3, 0, 1];
    let a = ReferenceWaveletTree::new(&s);
    let b = ReferenceWaveletTree::new(&s);
    for q in 0..5 {
        for x in 0..=s.len() {
            assert!(queries_agree(&a, &b, x, q));
            assert_eq!(a.rank_q(x, q), b.rank_q(x, q));
            assert_eq!(a.select_q(x, q), b.select_q(x, q));
        }
    }
}
