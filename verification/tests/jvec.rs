use jabba_lib::jvec::{is_palindrome, is_sorted, sorted_copy, sorted_ref};

#[test]
fn is_sorted_test1() {
    assert!(is_sorted(&Vec::<i32>::new()));
    assert!(is_sorted(&vec![1]));
    assert!(is_sorted(&vec![1, 1]));
    assert!(is_sorted(&vec![1, 2, 3]));
    assert!(is_sorted(&vec![1, 2, 3, 3]));
    assert!(is_sorted(&vec![1, 2, 3, 4, 5]));
    assert!(is_sorted(&vec![1, 2, 3, 4, 5, 5, 5, 5]));
}

#[test]
fn is_sorted_test2() {
    assert_eq!(is_sorted(&vec![2, 1]), false);
    assert_eq!(is_sorted(&vec![1, 2, 3, 4, 3]), false);
    assert_eq!(is_sorted(&vec![1, 2, 3, 2, 5]), false);
    assert_eq!(is_sorted(&vec![1, 2, 1, 4, 5]), false);
    assert_eq!(is_sorted(&vec![1, 0, 3, 4, 5]), false);
    assert_eq!(is_sorted(&vec![3, 2, 3, 4, 5]), false);
}

#[test]
fn is_sorted_test3() {
    assert!(is_sorted(&Vec::<&str>::new()));
    assert!(is_sorted(&vec!["aa"]));
    assert!(is_sorted(&vec!["aa", "aa"]));
    assert!(is_sorted(&vec!["aa", "bb", "cc"]));
    //
    assert_eq!(is_sorted(&vec!["aa", "cc", "bb"]), false);
    assert_eq!(is_sorted(&vec!["aa", "bb", "cc", "bb"]), false);
}

#[test]
fn sorted_ref_test1() {
    let array = [8, 2, 9, 3];
    assert_eq!(sorted_ref(&array), vec![&2, &3, &8, &9]);

    let v = Vec::<i32>::new();
    assert_eq!(sorted_ref(&v), Vec::<&i32>::new());

    let v = ["bb", "cc", "aa"];
    assert_eq!(sorted_ref(&v), vec![&"aa", &"bb", &"cc"]);
}

#[test]
fn sorted_copy_test1() {
    let mut v = vec![6, 1, 9, 2, 0];
    let sorted = sorted_copy(&v);
    v[0] = 99;
    assert_eq!(v, vec![99, 1, 9, 2, 0]);
    assert_eq!(sorted, vec![0, 1, 2, 6, 9]);

    let array = [8, 2, 9, 3];
    assert_eq!(sorted_copy(&array), vec![2, 3, 8, 9]);

    let v = ["bb", "cc", "aa"];
    assert_eq!(sorted_copy(&v), vec!["aa", "bb", "cc"]);
}

#[test]
fn sorted_copy_is_sorted_and_keeps_ties_in_place() {
    let v = vec![5, 3, 5, 1, 3, 3, 0, -7];
    let sorted = sorted_copy(&v);
    assert_eq!(sorted, vec![-7, 0, 1, 3, 3, 3, 5, 5]);
    assert!(is_sorted(&sorted));
    // pairs are ordered by both parts; references to equal keys keep their order
    let keyed = [(1, 'b'), (0, 'z'), (1, 'a'), (0, 'a')];
    assert_eq!(
        sorted_copy(&keyed),
        vec![(0, 'a'), (0, 'z'), (1, 'a'), (1, 'b')]
    );
    let items = [2, 1, 2, 1];
    let refs = sorted_ref(&items);
    assert!(std::ptr::eq(refs[0], &items[1]));
    assert!(std::ptr::eq(refs[1], &items[3]));
    assert!(std::ptr::eq(refs[2], &items[0]));
    assert!(std::ptr::eq(refs[3], &items[2]));
}

#[test]
fn jvec_is_palindrome_test() {
    assert_eq!(is_palindrome(&Vec::<i32>::new()), true);
    assert_eq!(is_palindrome(&[0]), true);
    assert_eq!(is_palindrome(&[0, 1]), false);
    assert_eq!(is_palindrome(&[1, 1]), true);
    assert_eq!(is_palindrome(&[1, 0, 1]), true);
    //
    assert_eq!(is_palindrome(&[1, 9, 7, 7]), false);
    assert_eq!(is_palindrome(&[2, 0, 2, 2]), false);
    assert_eq!(is_palindrome(&vec![1, 9, 9, 1]), true);
}

#[test]
fn is_palindrome_of_texts() {
    assert_eq!(is_palindrome(&["aa", "bb", "aa"]), true);
    assert_eq!(is_palindrome(&["aa", "bb", "ab"]), false);
}
