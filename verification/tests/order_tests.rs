use hybrid_shared_core::order::{list_texts, order_falling, Score};

#[test]
fn keys_fall_and_equal_keys_keep_their_order() {
    assert_eq!(order_falling(&vec![1, 5, 3, 5, -2, 3]), vec![1, 3, 2, 5, 0, 4]);
    assert_eq!(order_falling(&Vec::new()), Vec::<usize>::new());
}

#[test]
fn the_order_is_that_of_a_stable_sort() {
    let mut keys: Vec<i128> = Vec::new();
    let mut n: i128 = 7;
    for _ in 0..200 {
        n = (n * 31 + 11) % 97;
        keys.push(n % 13);
    }
    let mut expected: Vec<usize> = (0..keys.len()).collect();
    expected.sort_by_key(|i| std::cmp::Reverse(keys[*i]));
    assert_eq!(order_falling(&keys), expected);
}

#[test]
fn levels_order_scores_as_numbers() {
    let values = [
        f32::NEG_INFINITY,
        -2.5,
        -1.0,
        -1e-40,
        -0.0,
        0.0,
        1e-40,
        0.5,
        1.0,
        3.25,
        f32::INFINITY,
    ];
    for a in values {
        for b in values {
            let (x, y) = (Score { bits: a.to_bits() }, Score { bits: b.to_bits() });
            assert_eq!(x.get_level() < y.get_level(), a < b);
            assert_eq!(x.get_level() == y.get_level(), a == b);
        }
    }
    assert_eq!(Score::zero().bits, 0.0f32.to_bits());
}

#[test]
fn texts_are_listed_up_to_a_limit() {
    let items = vec!["a".to_string(), "b".to_string(), "c".to_string()];
    assert_eq!(list_texts(&items, &vec![2, 0, 1], 2), vec!["c".to_string(), "a".to_string()]);
    assert_eq!(list_texts(&items, &vec![2, 0, 1], 9).len(), 3);
}
