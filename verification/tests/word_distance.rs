use mlog::normalized_distance;

#[test]
fn test_distance_zero() {
    let a: Vec<usize> = vec![1, 1];
    let b: Vec<usize> = vec![1, 1];
    let r = normalized_distance(&a, &b);
    assert_eq!(r.num as f64 / r.den as f64, 0.0);
}

#[test]
fn test_distance_one() {
    let a: Vec<usize> = vec![1, 1];
    let b: Vec<usize> = vec![];
    let r = normalized_distance(&a, &b);
    assert_eq!(r.num as f64 / r.den as f64, 1.0);
}

#[test]
fn test_distance_in_between() {
    let a: Vec<usize> = vec![1, 1];
    let b: Vec<usize> = vec![1, 0, 1];
    let r = normalized_distance(&a, &b);
    assert_eq!(r.num as f64 / r.den as f64, 0.5);
}

#[test]
fn test_distance_truncates_to_shorter() {
    // the longer vector's tail is deliberately not counted
    let a: Vec<usize> = vec![2, 3];
    let b: Vec<usize> = vec![2, 1, 9, 9, 9];
    let r = normalized_distance(&a, &b);
    assert_eq!((r.num, r.den), (2, 2));
}

#[test]
fn test_distance_absence_counts_fully() {
    // a zero on either side contributes one whole unit, even against a
    // large count on the other side
    let a: Vec<usize> = vec![0, 7];
    let b: Vec<usize> = vec![5, 0];
    let r = normalized_distance(&a, &b);
    assert_eq!((r.num, r.den), (2, 2));
}
