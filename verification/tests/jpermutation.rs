use jabba_lib::jpermutation::lexicographically_next_permutation as next_perm;

#[test]
fn lexicographically_next_permutation_test1() {
    let mut v = ['a', 'b', 'c'];
    next_perm(&mut v);
    assert_eq!(v, ['a', 'c', 'b']);
    next_perm(&mut v);
    assert_eq!(v, ['b', 'a', 'c']);
    next_perm(&mut v);
    assert_eq!(v, ['b', 'c', 'a']);
    next_perm(&mut v);
    assert_eq!(v, ['c', 'a', 'b']);
    next_perm(&mut v);
    assert_eq!(v, ['c', 'b', 'a']);
    let status = next_perm(&mut v);
    assert_eq!(status, false);
}

#[test]
fn lexicographically_next_permutation_test2() {
    let mut v = vec!['C', 'A', 'D', 'B'];
    next_perm(&mut v);
    assert_eq!(v, vec!['C', 'B', 'A', 'D']);
    //
    let mut v = [1, 2, 9, 6, 5];
    next_perm(&mut v);
    assert_eq!(v, [1, 5, 2, 6, 9]);
}

#[test]
fn next_permutation_reports_each_step() {
    let mut v = ['a', 'b', 'c'];
    assert_eq!(next_perm(&mut v), true);
    assert_eq!(next_perm(&mut v), true);
    assert_eq!(next_perm(&mut v), true);
    assert_eq!(next_perm(&mut v), true);
    assert_eq!(next_perm(&mut v), true);
    assert_eq!(next_perm(&mut v), false);
}

#[test]
fn next_permutation_visits_all_in_rising_order() {
    let mut v = [1, 2, 3, 4, 5];
    let mut seen = vec![v];
    while next_perm(&mut v) {
        assert!(*seen.last().unwrap() < v);
        seen.push(v);
    }
    assert_eq!(seen.len(), 120);
    assert_eq!(v, [5, 4, 3, 2, 1]);
    let mut distinct = seen.clone();
    distinct.sort();
    distinct.dedup();
    assert_eq!(distinct.len(), 120);
}

#[test]
fn next_permutation_stays_at_the_last() {
    let mut v = [4, 3, 2, 1];
    assert_eq!(next_perm(&mut v), false);
    assert_eq!(v, [4, 3, 2, 1]);
    assert_eq!(next_perm(&mut v), false);
    assert_eq!(v, [4, 3, 2, 1]);
}

#[test]
fn next_permutation_of_short_sequences() {
    let mut empty: [i32; 0] = [];
    assert_eq!(next_perm(&mut empty), false);
    assert_eq!(empty, []);
    let mut one = [7];
    assert_eq!(next_perm(&mut one), false);
    assert_eq!(one, [7]);
    let mut two = [1, 2];
    assert_eq!(next_perm(&mut two), true);
    assert_eq!(two, [2, 1]);
    assert_eq!(next_perm(&mut two), false);
    assert_eq!(two, [2, 1]);
}

#[test]
fn next_permutation_with_equal_elements() {
    let mut v = [1, 1, 2];
    assert_eq!(next_perm(&mut v), true);
    assert_eq!(v, [1, 2, 1]);
    assert_eq!(next_perm(&mut v), true);
    assert_eq!(v, [2, 1, 1]);
    assert_eq!(next_perm(&mut v), false);
    assert_eq!(v, [2, 1, 1]);
    let mut same = [3, 3, 3];
    assert_eq!(next_perm(&mut same), false);
    assert_eq!(same, [3, 3, 3]);
}

#[test]
fn next_permutation_of_the_documented_sequence() {
    let mut v = [1, 5, 2, 6, 9];
    assert_eq!(next_perm(&mut v), true);
    assert_eq!(v, [1, 5, 2, 9, 6]);
}
