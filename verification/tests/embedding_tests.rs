use autoint::embedding::{checked_setencen2tok, setencen2tok, word2tok, words2tok, words_split_end_check};
use autoint::StringHashMap;

fn vocab(entries: &[(&str, i32)]) -> StringHashMap<i32> {
    let mut v = StringHashMap::new();
    for (k, id) in entries {
        v.insert(k.to_string(), *id);
    }
    v
}

#[test]
fn whole_word_wins() {
    let v = vocab(&[("un", 1), ("##able", 2), ("unable", 3)]);
    assert_eq!(word2tok("unable".to_string(), &v), Ok(vec![3]));
}

#[test]
fn longest_prefix_then_continuations() {
    let v = vocab(&[("un", 1), ("##able", 2), ("##a", 4), ("##ble", 5), ("u", 6)]);
    assert_eq!(word2tok("unable".to_string(), &v), Ok(vec![1, 2]));
}

#[test]
fn continuation_pieces_need_the_prefix() {
    let v = vocab(&[("un", 1), ("able", 2)]);
    assert_eq!(word2tok("unable".to_string(), &v), Err(()));
}

#[test]
fn empty_word_has_no_tokens() {
    let v = vocab(&[("a", 1)]);
    assert_eq!(word2tok(String::new(), &v), Ok(vec![]));
}

#[test]
fn unknown_first_piece_fails() {
    let v = vocab(&[("##x", 1)]);
    assert_eq!(word2tok("x".to_string(), &v), Err(()));
}

#[test]
fn words_in_order() {
    let v = vocab(&[("hello", 7), (",", 8), ("world", 9), ("wor", 10), ("##ld", 11)]);
    let words = vec!["hello".to_string(), ",".to_string(), "world".to_string()];
    assert_eq!(words2tok(&words, &v), Ok(vec![7, 8, 9]));
    let words = vec!["hello".to_string(), "moon".to_string()];
    assert_eq!(words2tok(&words, &v), Err(()));
}

#[test]
fn sentence_is_lowercased_and_split() {
    let v = vocab(&[("hello", 7), (",", 8), ("world", 9), ("!", 12), ("don't", 13)]);
    assert_eq!(setencen2tok("Hello, WORLD!", &v), Ok(vec![7, 8, 9, 12]));
    assert_eq!(setencen2tok("  Don't   hello ", &v), Ok(vec![13, 7]));
    assert_eq!(setencen2tok("", &v), Ok(vec![]));
    assert_eq!(setencen2tok("Hello moon", &v), Err(()));
}

#[test]
fn bare_continuation_entry_is_usable_when_never_reached() {
    let v = vocab(&[("un", 1), ("##able", 2), ("##", 3)]);
    assert_eq!(word2tok("unable".to_string(), &v), Ok(vec![1, 2]));
    assert_eq!(checked_setencen2tok("Unable", &v), Some(Ok(vec![1, 2])));
}

#[test]
fn endless_splits_are_reported() {
    let v = vocab(&[("a", 1), ("##", 2)]);
    assert_eq!(checked_setencen2tok("ab", &v), None);
    assert_eq!(checked_setencen2tok("a", &v), Some(Ok(vec![1])));
    let words = vec!["a".to_string(), "ab".to_string()];
    assert!(!words_split_end_check(&words, &v));
    let words = vec!["x".to_string(), "ab".to_string()];
    assert!(words_split_end_check(&words, &v));
    assert_eq!(words2tok(&words, &v), Err(()));
}
