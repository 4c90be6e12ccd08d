use cell_tower::dictionary::{first_node, from_words, get_node, is_word};
use cell_tower::Node;

fn words(list: &[&str]) -> Vec<Vec<u8>> {
    list.iter().map(|w| w.as_bytes().to_vec()).collect()
}

#[test]
fn empty_dictionary_holds_nothing() {
    let root = Node::new();
    assert!(!root.ends_word());
    assert_eq!(root.count(), 0);
    assert!(!is_word(&root, b"a"));
    assert!(!is_word(&root, b""));
    assert!(first_node(&root, b'a').is_none());
    assert!(!root.valid_next(b'a'));
}

#[test]
fn child_of_a_is_a_word_when_a_is_loaded() {
    let root = from_words(&words(&["a", "to"])).unwrap();
    let node = root.get_next(b'a').unwrap();
    assert!(node.ends_word());
    assert!(node.is_word(b""));
    assert!(is_word(&root, b"a"));
}

#[test]
fn child_of_a_is_no_word_when_a_is_absent() {
    let root = from_words(&words(&["at", "to"])).unwrap();
    let node = root.get_next(b'a').unwrap();
    assert!(!node.ends_word());
    assert!(!is_word(&root, b"a"));
    assert!(is_word(&root, b"at"));
}

#[test]
fn add_one_word() {
    let mut root = Node::new();
    assert!(root.add(b"cat"));
    assert!(is_word(&root, b"cat"));
    assert!(!is_word(&root, b"ca"));
    assert!(!is_word(&root, b"cats"));
    assert!(!is_word(&root, b"dog"));
    assert_eq!(root.count(), 1);
}

#[test]
fn add_counts_each_word_once() {
    let mut root = Node::new();
    assert!(root.add(b"cat"));
    assert!(root.add(b"car"));
    assert!(root.add(b"cat"));
    assert!(root.add(b"do"));
    assert_eq!(root.count(), 3);
    let c = root.get_next(b'c').unwrap();
    assert_eq!(c.count(), 2);
    let ca = c.get_next(b'a').unwrap();
    assert_eq!(ca.count(), 2);
    assert_eq!(ca.get_next(b't').unwrap().count(), 1);
    assert_eq!(root.get_next(b'd').unwrap().count(), 1);
}

#[test]
fn add_rejects_other_bytes() {
    let mut root = Node::new();
    assert!(root.add(b"ab"));
    assert!(!root.add(b"aB"));
    assert!(!root.add(b"a b"));
    assert!(!root.add(b"a`"));
    assert!(!root.add(b"a{"));
    assert!(!root.add("né".as_bytes()));
    assert_eq!(root.count(), 1);
    assert!(is_word(&root, b"ab"));
    assert!(!is_word(&root, b"a"));
    assert!(root.get_next(b'a').unwrap().get_next(b'b').is_some());
    assert!(root.get_next(b'a').unwrap().get_next(b'a').is_none());
}

#[test]
fn prefix_and_longer_word() {
    let root = from_words(&words(&["in", "inn", "inner"])).unwrap();
    assert!(is_word(&root, b"in"));
    assert!(is_word(&root, b"inn"));
    assert!(!is_word(&root, b"inne"));
    assert!(is_word(&root, b"inner"));
    assert_eq!(root.count(), 3);
}

#[test]
fn get_next_follows_letters() {
    let root = from_words(&words(&["ac", "bd"])).unwrap();
    assert!(root.valid_next(b'a'));
    assert!(root.valid_next(b'b'));
    assert!(!root.valid_next(b'c'));
    let a = first_node(&root, b'a').unwrap();
    assert!(a.valid_next(b'c'));
    assert!(!a.valid_next(b'd'));
    assert!(a.get_next(b'c').unwrap().ends_word());
}

#[test]
fn get_next_of_a_byte_that_is_no_letter() {
    let root = from_words(&words(&["ab"])).unwrap();
    assert!(root.get_next(b'A').is_none());
    assert!(root.get_next(b'`').is_none());
    assert!(root.get_next(b'{').is_none());
    assert!(root.get_next(0).is_none());
    assert!(root.get_next(255).is_none());
    assert!(!is_word(&root, b"aB"));
}

#[test]
fn get_node_walks_a_prefix() {
    let root = from_words(&words(&["stone", "store"])).unwrap();
    let sto = get_node(&root, b"sto").unwrap();
    assert!(!sto.ends_word());
    assert_eq!(sto.count(), 2);
    assert!(sto.is_word(b"ne"));
    assert!(sto.is_word(b"re"));
    assert!(!sto.is_word(b"n"));
    assert!(get_node(&root, b"stu").is_none());
    assert!(get_node(&root, b"stones").is_none());
    assert_eq!(get_node(&root, b"").unwrap().count(), 2);
    assert!(root.get(b"stone").unwrap().ends_word());
}

#[test]
fn from_words_rejects_a_list_with_a_bad_word() {
    assert!(from_words(&words(&["ab", "Cd"])).is_none());
    assert!(from_words(&words(&["ab", "c-d"])).is_none());
    assert!(from_words(&words(&[])).is_some());
}

#[test]
fn from_words_with_the_empty_word() {
    let root = from_words(&words(&["", "a"])).unwrap();
    assert!(root.ends_word());
    assert!(is_word(&root, b""));
    assert_eq!(root.count(), 2);
}

#[test]
fn from_words_counts_each_word_once() {
    let root = from_words(&words(&["be", "bee", "be", "a", "bee", "bet"])).unwrap();
    assert_eq!(root.count(), 4);
    assert_eq!(root.get_next(b'b').unwrap().count(), 3);
    assert_eq!(get_node(&root, b"be").unwrap().count(), 3);
    assert_eq!(get_node(&root, b"bee").unwrap().count(), 1);
}
