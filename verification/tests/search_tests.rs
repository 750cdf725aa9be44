use interp_track::search::search;

#[test]
fn test_search() {
    let v: Vec<i64> = vec![1, 20, 300, 4000, 50000];

    assert_eq!(search(&v, 0, 5, &1), (0, &1));
    assert_eq!(search(&v, 0, 5, &10), (0, &1));
    assert_eq!(search(&v, 0, 5, &19), (0, &1));
    assert_eq!(search(&v, 0, 5, &20), (1, &20));
    assert_eq!(search(&v, 0, 5, &200), (1, &20));
    assert_eq!(search(&v, 0, 5, &299), (1, &20));
    assert_eq!(search(&v, 0, 5, &300), (2, &300));
    assert_eq!(search(&v, 0, 5, &3000), (2, &300));
    assert_eq!(search(&v, 0, 5, &3999), (2, &300));
    assert_eq!(search(&v, 0, 5, &4000), (3, &4000));
    assert_eq!(search(&v, 0, 5, &40000), (3, &4000));
    assert_eq!(search(&v, 0, 5, &49999), (3, &4000));
    assert_eq!(search(&v, 0, 5, &50000), (4, &50000));
    assert_eq!(search(&v, 0, 5, &500000), (4, &50000));
}
