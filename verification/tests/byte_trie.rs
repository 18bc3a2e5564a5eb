use vawk::byte_trie::{ByteTrie, Membership};

#[test]
fn new_trie_is_empty_and_knows_nothing() {
    let trie = ByteTrie::new();
    assert!(trie.is_empty());
    assert_eq!(trie.membership(b"a"), Membership::NotIncluded);
    assert_eq!(trie.membership(b""), Membership::NotIncluded);
}

#[test]
fn inserting_nothing_stores_nothing() {
    let mut trie = ByteTrie::new();
    trie.insert(b"");
    assert!(trie.is_empty());
    assert_eq!(trie, ByteTrie::new());
}

#[test]
fn whole_separator_is_terminal_and_its_prefix_is_included() {
    let mut trie = ByteTrie::new();
    trie.insert(b"\r\n");
    assert!(!trie.is_empty());
    assert_eq!(trie.membership(b"\r"), Membership::Included);
    assert_eq!(trie.membership(b"\r\n"), Membership::IncludedAndTerminal);
    assert_eq!(trie.membership(b"\n"), Membership::NotIncluded);
    assert_eq!(trie.membership(b"\r\n\r"), Membership::NotIncluded);
    assert_eq!(trie.membership(b""), Membership::Included);
}

#[test]
fn separator_that_another_extends_is_included_only() {
    let mut trie = ByteTrie::new();
    trie.insert(b"ab");
    trie.insert(b"abc");
    trie.insert(b"x");
    assert_eq!(trie.membership(b"ab"), Membership::Included);
    assert_eq!(trie.membership(b"abc"), Membership::IncludedAndTerminal);
    assert_eq!(trie.membership(b"x"), Membership::IncludedAndTerminal);
    assert_eq!(trie.membership(b"a"), Membership::Included);
}

#[test]
fn candidate_that_is_no_prefix_is_not_included() {
    let mut trie = ByteTrie::new();
    trie.insert(b"ab");
    trie.insert(b"cd");
    assert_eq!(trie.membership(b"b"), Membership::NotIncluded);
    assert_eq!(trie.membership(b"ac"), Membership::NotIncluded);
    assert_eq!(trie.membership(b"abd"), Membership::NotIncluded);
}

#[test]
fn insert_is_idempotent() {
    let mut once = ByteTrie::new();
    once.insert(b"ab");
    let mut twice = ByteTrie::new();
    twice.insert(b"ab");
    twice.insert(b"ab");
    assert_eq!(once, twice);
}

#[test]
fn insert_order_does_not_matter() {
    let mut one = ByteTrie::new();
    one.insert(b"ab");
    one.insert(b"a");
    one.insert(b"cd");
    let mut other = ByteTrie::new();
    other.insert(b"cd");
    other.insert(b"a");
    other.insert(b"ab");
    assert_eq!(one, other);
}

fn trie_of(separators: &[&[u8]]) -> ByteTrie {
    let mut trie = ByteTrie::new();
    for separator in separators {
        trie.insert(separator);
    }
    trie
}

#[test]
fn merge_is_union() {
    let mut merged = trie_of(&[b"ab", b"x"]);
    merged.merge(trie_of(&[b"ac", b"yz"]));
    assert_eq!(merged, trie_of(&[b"ab", b"x", b"ac", b"yz"]));
    assert_eq!(merged.membership(b"a"), Membership::Included);
    assert_eq!(merged.membership(b"ac"), Membership::IncludedAndTerminal);
    assert_eq!(merged.membership(b"y"), Membership::Included);
}

#[test]
fn merge_with_empty_changes_nothing() {
    let mut merged = trie_of(&[b"ab"]);
    merged.merge(ByteTrie::new());
    assert_eq!(merged, trie_of(&[b"ab"]));
    let mut empty = ByteTrie::new();
    empty.merge(trie_of(&[b"ab"]));
    assert_eq!(empty, trie_of(&[b"ab"]));
}

#[test]
fn merge_is_commutative() {
    let mut left = trie_of(&[b"ab", b"x"]);
    left.merge(trie_of(&[b"abc", b"y"]));
    let mut right = trie_of(&[b"abc", b"y"]);
    right.merge(trie_of(&[b"ab", b"x"]));
    assert_eq!(left, right);
}

#[test]
fn merge_is_associative() {
    let mut left = trie_of(&[b"ab"]);
    left.merge(trie_of(&[b"bc"]));
    left.merge(trie_of(&[b"abd", b"c"]));
    let mut inner = trie_of(&[b"bc"]);
    inner.merge(trie_of(&[b"abd", b"c"]));
    let mut right = trie_of(&[b"ab"]);
    right.merge(inner);
    assert_eq!(left, right);
}

#[test]
fn merge_makes_a_terminal_separator_ambiguous() {
    let mut merged = trie_of(&[b"ab"]);
    assert_eq!(merged.membership(b"ab"), Membership::IncludedAndTerminal);
    merged.merge(trie_of(&[b"abc"]));
    assert_eq!(merged.membership(b"ab"), Membership::Included);
}

#[test]
fn empty_candidate_is_included_as_soon_as_anything_is_stored() {
    let mut trie = ByteTrie::new();
    assert_eq!(trie.membership(b""), Membership::NotIncluded);
    trie.insert(b"x");
    assert_eq!(trie.membership(b""), Membership::Included);
    let mut merged = ByteTrie::new();
    merged.merge(trie);
    assert_eq!(merged.membership(b""), Membership::Included);
}
