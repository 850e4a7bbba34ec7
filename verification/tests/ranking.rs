use aichat::ranking::top_ranked;

#[test]
fn ranking_orders_by_key_then_position() {
    let keys: Vec<u128> = vec![3, 7, 3, 9, 7];
    assert_eq!(top_ranked(&keys, None, 10), vec![3, 1, 4, 0, 2]);
    assert_eq!(top_ranked(&keys, None, 3), vec![3, 1, 4]);
    assert_eq!(top_ranked(&keys, None, 0), Vec::<usize>::new());
}

#[test]
fn ranking_respects_floor() {
    let keys: Vec<u128> = vec![3, 7, 3, 9, 7];
    assert_eq!(top_ranked(&keys, Some(7), 10), vec![3, 1, 4]);
    assert_eq!(top_ranked(&keys, Some(8), 10), vec![3]);
    assert_eq!(top_ranked(&keys, Some(10), 10), Vec::<usize>::new());
    assert_eq!(top_ranked(&keys, Some(0), 2), vec![3, 1]);
}

#[test]
fn ranking_of_nothing_is_empty() {
    assert_eq!(top_ranked(&vec![], None, 5), Vec::<usize>::new());
}
