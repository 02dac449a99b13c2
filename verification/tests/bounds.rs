use bobsled::bounds::prefix_upper_bound;
use bobsled::bytes::lex_cmp;

#[test]
fn carry_increment_examples() {
    assert_eq!(prefix_upper_bound(&[1, 2, 3]), Some(vec![1, 2, 4]));
    assert_eq!(prefix_upper_bound(&[1, 2, 0xFF]), Some(vec![1, 3]));
    assert_eq!(prefix_upper_bound(&[0xFE, 0xFF, 0xFF]), Some(vec![0xFF]));
    assert_eq!(prefix_upper_bound(&[0xFF, 0xFF]), None);
    assert_eq!(prefix_upper_bound(&[]), None);
    assert_eq!(prefix_upper_bound(&[0]), Some(vec![1]));
}

#[test]
fn bound_covers_exactly_the_prefixed_keys() {
    let prefix = [1u8, 2, 0xFF];
    let upper = prefix_upper_bound(&prefix).unwrap();
    // inside: the prefix itself and extensions of it
    for key in [vec![1u8, 2, 0xFF], vec![1, 2, 0xFF, 0], vec![1, 2, 0xFF, 9, 9]] {
        assert!(lex_cmp(&prefix, &key) <= 0);
        assert!(lex_cmp(&key, &upper) == -1);
    }
    // outside: below the prefix, or at and past the bound
    assert!(lex_cmp(&[1u8, 2, 0xFE, 7], &prefix) == -1);
    assert!(lex_cmp(&upper, &[1u8, 3]) <= 0);
    assert!(lex_cmp(&[1u8, 3, 0], &upper) >= 0);
}

#[test]
fn lex_cmp_is_bytewise_lexicographic() {
    assert_eq!(lex_cmp(&[], &[]), 0);
    assert_eq!(lex_cmp(&[], &[0]), -1);
    assert_eq!(lex_cmp(&[1], &[]), 1);
    assert_eq!(lex_cmp(&[1, 2], &[1, 2]), 0);
    assert_eq!(lex_cmp(&[1, 2], &[1, 3]), -1);
    assert_eq!(lex_cmp(&[2], &[1, 9]), 1);
    assert_eq!(lex_cmp(&[1, 2], &[1, 2, 0]), -1);
}
