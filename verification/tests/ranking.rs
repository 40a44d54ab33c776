use dirstat::ranking::top_places;

#[test]
fn heaviest_places_come_first() {
    let weights = vec![Some(5), Some(900), Some(20), Some(7000), Some(1)];
    assert_eq!(top_places(&weights, 3), vec![3, 1, 2]);
    assert_eq!(top_places(&weights, 5), vec![3, 1, 2, 0, 4]);
    assert_eq!(top_places(&weights, 9), vec![3, 1, 2, 0, 4]);
}

#[test]
fn places_without_weight_are_not_ranked() {
    let weights = vec![None, Some(3), None, Some(8), None];
    assert_eq!(top_places(&weights, 10), vec![3, 1]);
    assert_eq!(top_places(&weights, 1), vec![3]);
    let none: Vec<Option<u64>> = vec![None, None];
    assert!(top_places(&none, 4).is_empty());
}

#[test]
fn equal_weights_keep_their_order() {
    let weights = vec![Some(2), Some(9), Some(2), Some(9), Some(2)];
    assert_eq!(top_places(&weights, 5), vec![1, 3, 0, 2, 4]);
    assert_eq!(top_places(&weights, 3), vec![1, 3, 0]);
    assert_eq!(top_places(&weights, 1), vec![1]);
}

#[test]
fn limit_zero_ranks_nothing() {
    let weights = vec![Some(1), Some(2)];
    assert!(top_places(&weights, 0).is_empty());
    assert!(top_places(&Vec::new(), 0).is_empty());
    assert!(top_places(&Vec::new(), 3).is_empty());
}

#[test]
fn extreme_weights_are_ranked() {
    let weights = vec![Some(0), Some(u64::MAX), Some(0), Some(u64::MAX - 1)];
    assert_eq!(top_places(&weights, usize::MAX), vec![1, 3, 0, 2]);
}
