use dma::{EuclidStep, ExtendedEuclidStep, GcdExtendedIterator, GcdIterator, gcd};

fn plain_states(a: i64, b: i64) -> Vec<(i64, i64)> {
    let mut it = GcdIterator::new(a, b);
    let mut out = Vec::new();
    while let Some(EuclidStep { a, b }) = it.next() {
        out.push((a, b));
        assert!(out.len() < 1000);
    }
    out
}

fn extended_states(a: i64, b: i64) -> Vec<ExtendedEuclidStep> {
    let mut it = GcdExtendedIterator::new(a, b);
    let mut out = Vec::new();
    while let Some(s) = it.next() {
        out.push(s);
        assert!(out.len() < 1000);
    }
    out
}

#[test]
fn plain_iterator_from_two_negatives() {
    assert_eq!(plain_states(-9, -12), vec![(-9, -12), (9, 12), (12, 9), (9, 3), (3, 0)]);
}

#[test]
fn plain_iterator_stays_ended() {
    let mut it = GcdIterator::new(3, 0);
    assert_eq!(it.next(), Some(EuclidStep { a: 3, b: 0 }));
    assert_eq!(it.next(), None);
    assert_eq!(it.next(), None);
}

#[test]
fn plain_iterator_with_zero_first() {
    assert_eq!(plain_states(0, 5), vec![(0, 5), (5, 0)]);
    assert_eq!(plain_states(0, 0), vec![(0, 0)]);
    assert_eq!(plain_states(0, -5), vec![(0, -5), (0, 5), (5, 0)]);
}

#[test]
fn plain_iterator_ends_on_gcd() {
    for a in -30i64..=30 {
        for b in -30i64..=30 {
            let states = plain_states(a, b);
            assert!(!states.is_empty());
            assert!(states.len() as i64 <= 2 * b.abs() + 3);
            assert_eq!(*states.last().unwrap(), (gcd(a, b), 0));
        }
    }
}

#[test]
fn extended_iterator_on_six_and_ten() {
    let s = |a, b, a0, a1, b0, b1, q| ExtendedEuclidStep { a, b, a0, a1, b0, b1, q };
    assert_eq!(
        extended_states(6, -10),
        vec![
            s(10, 6, 1, 0, 0, 1, 0),
            s(6, 4, 0, 1, 1, -1, 1),
            s(4, 2, 1, -1, -1, 2, 1),
            s(2, 0, -1, 3, 2, -5, 2),
        ]
    );
}

#[test]
fn extended_iterator_with_zero() {
    assert_eq!(
        extended_states(0, 7),
        vec![ExtendedEuclidStep { a: 7, b: 0, a0: 1, a1: 0, b0: 0, b1: 1, q: 0 }]
    );
    let mut it = GcdExtendedIterator::new(0, 0);
    assert!(it.next().is_some());
    assert_eq!(it.next(), None);
    assert_eq!(it.next(), None);
}

#[test]
fn extended_iterator_keeps_combinations_and_ends_on_gcd() {
    for a in -30i64..=30 {
        for b in -30i64..=30 {
            let (big, small) = if a.abs() < b.abs() { (b.abs(), a.abs()) } else { (a.abs(), b.abs()) };
            let states = extended_states(a, b);
            assert!(!states.is_empty());
            assert!(states.len() as i64 <= small + 1);
            for s in &states {
                assert_eq!(s.a, s.a0 * big + s.b0 * small);
                assert_eq!(s.b, s.a1 * big + s.b1 * small);
            }
            let last = states.last().unwrap();
            assert_eq!((last.a, last.b), (gcd(a, b), 0));
        }
    }
}

#[test]
fn extended_iterator_on_large_inputs() {
    let states = extended_states(i64::MAX, i64::MAX - 1);
    let last = states.last().unwrap();
    assert_eq!((last.a, last.b), (1, 0));
    assert_eq!(states.len(), 3);
}
