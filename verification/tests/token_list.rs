use token_list::TokenList;

#[test]
fn new_collection_is_empty() {
    let tl = TokenList::new();
    assert_eq!(tl.len(), 0);
    assert!(!tl.contains("alpha"));
}

#[test]
fn add_then_contains() {
    let mut tl = TokenList::new();
    assert_eq!(tl.add("alpha"), Ok(()));
    assert!(tl.contains("alpha"));
    assert!(!tl.contains("beta"));
}

#[test]
fn add_of_member_keeps_one_copy() {
    let mut tl = TokenList::new();
    assert_eq!(tl.add("alpha"), Ok(()));
    assert_eq!(tl.add("alpha"), Ok(()));
    assert_eq!(tl.len(), 1);
}

#[test]
fn remove_then_absent() {
    let mut tl = TokenList::new();
    tl.add("alpha").unwrap();
    tl.add("beta").unwrap();
    assert_eq!(tl.remove("alpha"), Ok(()));
    assert!(!tl.contains("alpha"));
    assert!(tl.contains("beta"));
    assert_eq!(tl.len(), 1);
}

#[test]
fn remove_of_absent_is_a_noop() {
    let mut tl = TokenList::new();
    tl.add("alpha").unwrap();
    assert_eq!(tl.remove("gamma"), Ok(()));
    assert_eq!(tl.remove("gamma"), Ok(()));
    assert_eq!(tl.len(), 1);
    assert!(tl.contains("alpha"));
}

#[test]
fn toggle_twice_from_absent() {
    let mut tl = TokenList::new();
    assert_eq!(tl.toggle("alpha"), Ok(true));
    assert_eq!(tl.toggle("alpha"), Ok(false));
    assert!(!tl.contains("alpha"));
    assert_eq!(tl.len(), 0);
}

#[test]
fn toggle_twice_from_present() {
    let mut tl = TokenList::new();
    tl.add("alpha").unwrap();
    assert_eq!(tl.toggle("alpha"), Ok(false));
    assert_eq!(tl.toggle("alpha"), Ok(true));
    assert!(tl.contains("alpha"));
    assert_eq!(tl.len(), 1);
}

#[test]
fn toggle_force_on_is_idempotent() {
    let mut tl = TokenList::new();
    assert_eq!(tl.toggle_force("alpha", true), Ok(()));
    assert!(tl.contains("alpha"));
    assert_eq!(tl.len(), 1);
    assert_eq!(tl.toggle_force("alpha", true), Ok(()));
    assert!(tl.contains("alpha"));
    assert_eq!(tl.len(), 1);
}

#[test]
fn toggle_force_off_is_idempotent() {
    let mut tl = TokenList::new();
    tl.add("alpha").unwrap();
    tl.add("beta").unwrap();
    assert_eq!(tl.toggle_force("alpha", false), Ok(()));
    assert!(!tl.contains("alpha"));
    assert_eq!(tl.len(), 1);
    assert_eq!(tl.toggle_force("alpha", false), Ok(()));
    assert!(!tl.contains("alpha"));
    assert_eq!(tl.len(), 1);
    assert!(tl.contains("beta"));
}

#[test]
fn len_counts_distinct_tokens() {
    let mut tl = TokenList::new();
    tl.add("a").unwrap();
    tl.add("b").unwrap();
    tl.add("a").unwrap();
    tl.add("c").unwrap();
    assert_eq!(tl.len(), 3);
    assert!(tl.contains("a"));
    assert!(tl.contains("b"));
    assert!(tl.contains("c"));
}

#[test]
fn tokens_are_compared_exactly() {
    let mut tl = TokenList::new();
    tl.add("Alpha").unwrap();
    assert!(!tl.contains("alpha"));
    assert_eq!(tl.len(), 1);
}

#[test]
fn end_to_end_scenario() {
    let mut tl = TokenList::new();
    tl.add("a").unwrap();
    tl.add("b").unwrap();
    assert_eq!(tl.len(), 2);
    assert_eq!(tl.toggle("a"), Ok(false));
    assert_eq!(tl.len(), 1);
    assert!(tl.contains("b"));
    assert_eq!(tl.toggle_force("c", true), Ok(()));
    assert!(tl.contains("c"));
    assert_eq!(tl.len(), 2);
}
