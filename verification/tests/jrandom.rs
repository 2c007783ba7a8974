use jabba_lib::jrandom::{choice, choice_at, randint, randrange, shuffle};

#[test]
fn randrange_test1() {
    for _ in 0..10 {
        let value = randrange(1, 2);
        assert!(value == 1);
    }
    //
    for _ in 0..10 {
        let value = randrange(1, 3);
        assert!(value == 1 || value == 2);
    }
    //
    for _ in 0..1000 {
        let value = randrange(1, 10);
        assert!(value >= 1 && value < 10);
    }
}

#[test]
fn randint_test1() {
    for _ in 0..10 {
        let value = randint(1, 1);
        assert!(value == 1);
    }
    //
    for _ in 0..10 {
        let value = randint(1, 2);
        assert!(value >= 1 && value <= 2);
    }
    //
    for _ in 0..1000 {
        let value = randint(1, 10);
        assert!(value >= 1 && value <= 10);
    }
}

#[test]
fn randrange_test2() {
    let mut v = vec![];
    for _ in 0..1000 {
        let value = randrange(1, 10);
        v.push(value);
    }
    v.sort();
    v.dedup();
    for i in 1..=9 {
        assert!(v.contains(&i));
    }
    assert_eq!(v.contains(&0), false);
    assert_eq!(v.contains(&10), false);
    //
    assert!(v[0] == 1);
    assert!(v[v.len() - 1] == 9);
}

#[test]
fn randint_test2() {
    let mut v = vec![];
    for _ in 0..1000 {
        let value = randint(1, 10);
        v.push(value);
    }
    v.sort();
    v.dedup();
    for i in 1..=10 {
        assert!(v.contains(&i));
    }
    assert_eq!(v.contains(&0), false);
    assert_eq!(v.contains(&11), false);
    //
    assert!(v[0] == 1);
    assert!(v[v.len() - 1] == 10);
}

#[test]
fn shuffle_test1() {
    let mut v = vec![];
    for i in 1..=100 {
        v.push(i);
    }
    assert!(v.len() == 100);
    let backup = v.clone();
    //
    shuffle(&mut v);
    assert!(v.len() == backup.len());
    assert!(v != backup);
    v.sort();
    assert!(v == backup);
}

#[test]
fn choice_test1() {
    let v = vec![1, 2, 3];
    for _ in 0..100 {
        let &elem = choice(&v).unwrap();
        assert!(v.contains(&elem));
    }
}

#[test]
fn choice_test2() {
    let empty = Vec::<i32>::new();
    let elem = choice(&empty);
    assert_eq!(elem, None);
}

#[test]
fn choice_at_each_position() {
    let v = vec![10, 20, 30];
    assert_eq!(choice_at(&v, 0), Some(&10));
    assert_eq!(choice_at(&v, 2), Some(&30));
    assert_eq!(choice_at(&v, 3), None);
    assert_eq!(choice_at(&v, -1), None);
    let empty = Vec::<i32>::new();
    assert_eq!(choice_at(&empty, 0), None);
}

#[test]
fn randrange_with_negative_bounds() {
    for _ in 0..100 {
        let value = randrange(-3, -1);
        assert!(value == -3 || value == -2);
        let value = randint(i32::MIN, i32::MIN);
        assert!(value == i32::MIN);
    }
}
