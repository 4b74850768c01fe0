use oxidizer::batch::keyspace::{first_unused, is_used};
use oxidizer::batch::{
    claim_token, generate_random_chars, BatchError, DEFAULT_MAX_LENGTH, DEFAULT_MIN_LENGTH,
    RANDOM_DRAWS,
};

fn is_made_of_letters(name: &str) -> bool {
    !name.is_empty() && name.chars().all(|c| c.is_ascii_alphabetic())
}

fn owned(names: &[&str]) -> Vec<String> {
    names.iter().map(|n| n.to_string()).collect()
}

#[test]
fn the_default_lengths_are_seven_and_a_hundred_and_nine() {
    assert_eq!(DEFAULT_MIN_LENGTH, 7);
    assert_eq!(DEFAULT_MAX_LENGTH, 109);
    assert!(RANDOM_DRAWS >= 1);
    let mut used = Vec::new();
    for _ in 0..200 {
        let name = generate_random_chars(None, None, &mut used).unwrap();
        assert!(name.len() >= 7 && name.len() <= 109);
        assert!(is_made_of_letters(&name));
    }
}

#[test]
fn a_name_has_a_length_within_the_bounds() {
    let mut used = Vec::new();
    for _ in 0..200 {
        let name = generate_random_chars(Some(3), Some(5), &mut used).unwrap();
        assert!(name.len() >= 3 && name.len() <= 5);
        assert!(is_made_of_letters(&name));
    }
    let name = generate_random_chars(Some(12), Some(12), &mut used).unwrap();
    assert_eq!(name.len(), 12);
    let name = generate_random_chars(Some(200), Some(200), &mut used).unwrap();
    assert_eq!(name.len(), 200);
    let name = generate_random_chars(None, Some(7), &mut used).unwrap();
    assert_eq!(name.len(), 7);
    let name = generate_random_chars(Some(109), None, &mut used).unwrap();
    assert_eq!(name.len(), 109);
}

#[test]
fn lengths_and_letters_are_drawn_not_fixed() {
    let mut used = Vec::new();
    let mut lengths = Vec::new();
    let mut letters = Vec::new();
    for _ in 0..200 {
        let name = generate_random_chars(Some(1), Some(60), &mut used).unwrap();
        if !lengths.contains(&name.len()) {
            lengths.push(name.len());
        }
        for c in name.chars() {
            if !letters.contains(&c) {
                letters.push(c);
            }
        }
    }
    assert!(lengths.len() > 10);
    assert!(letters.len() > 40);
    assert!(letters.iter().any(|c| c.is_ascii_lowercase()));
    assert!(letters.iter().any(|c| c.is_ascii_uppercase()));
}

#[test]
fn a_name_is_recorded_and_never_issued_again() {
    let mut used = owned(&["taken"]);
    let mut seen = used.clone();
    for n in 0..300 {
        let name = generate_random_chars(Some(1), Some(2), &mut used).unwrap();
        assert!(!seen.contains(&name));
        assert_eq!(used.len(), n + 2);
        assert_eq!(used.last(), Some(&name));
        assert_eq!(&used[..n + 1], &seen[..]);
        seen.push(name);
    }
}

#[test]
fn the_names_of_one_letter_run_out_after_fifty_two() {
    let mut used = Vec::new();
    for _ in 0..52 {
        let name = generate_random_chars(Some(1), Some(1), &mut used).unwrap();
        assert_eq!(name.len(), 1);
    }
    assert_eq!(used.len(), 52);
    let mut sorted = used.clone();
    sorted.sort();
    sorted.dedup();
    assert_eq!(sorted.len(), 52);
    let before = used.clone();
    assert_eq!(
        generate_random_chars(Some(1), Some(1), &mut used),
        Err(BatchError::TokenSpaceExhausted)
    );
    assert_eq!(used, before);
    let name = generate_random_chars(Some(1), Some(2), &mut used).unwrap();
    assert_eq!(name.len(), 2);
    assert_eq!(used.len(), 53);
}

#[test]
fn names_outside_the_bounds_do_not_exhaust_them() {
    let mut used = owned(&["ab", "abc", "x1", ""]);
    for _ in 0..52 {
        generate_random_chars(Some(1), Some(1), &mut used).unwrap();
    }
    assert_eq!(
        generate_random_chars(Some(1), Some(1), &mut used),
        Err(BatchError::TokenSpaceExhausted)
    );
    assert_eq!(used.len(), 56);
}

#[test]
fn a_name_is_claimed_once() {
    let mut used = owned(&["one"]);
    assert!(claim_token(&"two".to_string(), &mut used));
    assert_eq!(used, owned(&["one", "two"]));
    assert!(!claim_token(&"two".to_string(), &mut used));
    assert!(!claim_token(&"one".to_string(), &mut used));
    assert_eq!(used, owned(&["one", "two"]));
    assert!(claim_token(&"Two".to_string(), &mut used));
    assert_eq!(used, owned(&["one", "two", "Two"]));
    assert!(is_used(&used, &"Two".to_string()));
    assert!(!is_used(&used, &"three".to_string()));
    assert!(!is_used(&Vec::new(), &"".to_string()));
}

#[test]
fn the_search_counts_through_the_names_in_order() {
    assert_eq!(first_unused(1, 1, &Vec::new()), Some("a".to_string()));
    assert_eq!(first_unused(1, 1, &owned(&["a", "b"])), Some("c".to_string()));
    assert_eq!(first_unused(1, 1, &owned(&["b"])), Some("a".to_string()));
    assert_eq!(first_unused(3, 5, &Vec::new()), Some("aaa".to_string()));
    assert_eq!(first_unused(2, 2, &owned(&["aa"])), Some("ba".to_string()));
    assert_eq!(first_unused(2, 2, &owned(&["aa", "ba", "ca"])), Some("da".to_string()));
    let mut used = Vec::new();
    for c in "abcdefghijklmnopqrstuvwxyzABCDEFGHIJKLMNOPQRSTUVWXYZ".chars() {
        used.push(format!("{}a", c));
    }
    assert_eq!(first_unused(2, 2, &used), Some("ab".to_string()));
    let mut singles = Vec::new();
    for c in "abcdefghijklmnopqrstuvwxyzABCDEFGHIJKLMNOPQRSTUVWXYZ".chars() {
        assert_eq!(first_unused(1, 1, &singles), Some(c.to_string()));
        singles.push(c.to_string());
    }
    assert_eq!(first_unused(1, 1, &singles), None);
    assert_eq!(first_unused(1, 2, &singles), Some("aa".to_string()));
    assert_eq!(first_unused(2, 1, &Vec::new()), None);
}

#[test]
fn the_search_finds_the_last_name_that_is_left() {
    let letters: Vec<char> = "abcdefghijklmnopqrstuvwxyzABCDEFGHIJKLMNOPQRSTUVWXYZ".chars().collect();
    let mut used = Vec::new();
    for a in letters.iter() {
        for b in letters.iter() {
            if !(*a == 'Q' && *b == 'x') {
                used.push(format!("{}{}", a, b));
            }
        }
    }
    assert_eq!(used.len(), 52 * 52 - 1);
    assert_eq!(first_unused(2, 2, &used), Some("Qx".to_string()));
    let name = generate_random_chars(Some(2), Some(2), &mut used).unwrap();
    assert_eq!(name, "Qx");
    assert_eq!(
        generate_random_chars(Some(2), Some(2), &mut used),
        Err(BatchError::TokenSpaceExhausted)
    );
    assert_eq!(first_unused(2, 2, &used), None);
}
