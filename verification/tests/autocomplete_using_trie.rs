use the_algorithms::Autocomplete;

#[test]
fn test_autocomplete() {
    let words = vec![
        "apple".to_owned(),
        "orange".to_owned(),
        "oregano".to_owned(),
    ];

    let mut auto_complete = Autocomplete::new();
    auto_complete.insert_words(words);

    let prefix = "app".to_owned();
    let mut auto_completed_words = auto_complete.find_words(prefix);

    let mut apple = vec!["apple".to_owned()];
    apple.sort();

    auto_completed_words.sort();
    assert_eq!(auto_completed_words, apple);

    let prefix = "or".to_owned();
    let mut auto_completed_words = auto_complete.find_words(prefix);

    let mut prefix_or = vec!["orange".to_owned(), "oregano".to_owned()];
    prefix_or.sort();

    auto_completed_words.sort();
    assert_eq!(auto_completed_words, prefix_or);
}

#[test]
fn empty_prefix_returns_every_stored_word() {
    let mut ac = Autocomplete::new();
    ac.insert_words(vec![
        "a".to_owned(),
        "ab".to_owned(),
        "b".to_owned(),
    ]);
    let mut all = ac.find_words("".to_owned());
    all.sort();
    assert_eq!(all, vec!["a".to_owned(), "ab".to_owned(), "b".to_owned()]);
}

#[test]
fn longer_prefix_matches_are_a_subset() {
    let mut ac = Autocomplete::new();
    ac.insert_words(vec![
        "car".to_owned(),
        "cart".to_owned(),
        "carbon".to_owned(),
        "dog".to_owned(),
    ]);
    let shorter = ac.find_words("ca".to_owned());
    let longer = ac.find_words("car".to_owned());
    assert!(longer.iter().all(|w| shorter.contains(w)));
    let mut longer_sorted = longer.clone();
    longer_sorted.sort();
    assert_eq!(
        longer_sorted,
        vec!["car".to_owned(), "carbon".to_owned(), "cart".to_owned()]
    );
}

#[test]
fn repeated_insert_changes_nothing() {
    let mut once = Autocomplete::new();
    once.insert_words(vec!["apple".to_owned()]);
    let mut twice = Autocomplete::new();
    twice.insert_words(vec!["apple".to_owned(), "apple".to_owned()]);
    let mut r1 = once.find_words("".to_owned());
    let mut r2 = twice.find_words("".to_owned());
    r1.sort();
    r2.sort();
    assert_eq!(r1, r2);
    assert_eq!(r1, vec!["apple".to_owned()]);
}

#[test]
fn stored_word_that_is_also_a_prefix() {
    let mut ac = Autocomplete::new();
    ac.insert_words(vec!["car".to_owned(), "cart".to_owned()]);
    let mut r = ac.find_words("car".to_owned());
    r.sort();
    assert_eq!(r, vec!["car".to_owned(), "cart".to_owned()]);
}

#[test]
fn unmatched_prefix_returns_nothing() {
    let mut ac = Autocomplete::new();
    ac.insert_words(vec!["car".to_owned()]);
    assert!(ac.find_words("dog".to_owned()).is_empty());
    assert!(ac.find_words("carts".to_owned()).is_empty());
}

#[test]
fn empty_word_can_be_stored() {
    let mut ac = Autocomplete::new();
    ac.insert_words(vec!["".to_owned(), "a".to_owned()]);
    let mut r = ac.find_words("".to_owned());
    r.sort();
    assert_eq!(r, vec!["".to_owned(), "a".to_owned()]);
}

#[test]
fn default_is_empty() {
    let ac = Autocomplete::default();
    assert!(ac.find_words("".to_owned()).is_empty());
}
