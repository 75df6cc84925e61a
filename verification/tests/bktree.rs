use embedded_bktree::builder::{build_bktree, build_tree, BuildError};
use embedded_bktree::tree::{Node, CHILDREN_LENGTH};

fn owned(words: &[&str]) -> Vec<String> {
    words.iter().map(|w| w.to_string()).collect()
}

fn collect_words(root: &Node) -> Vec<String> {
    let mut out = Vec::new();
    let mut it = root.iter();
    while let Some(node) = it.next() {
        out.push(node.word.clone());
    }
    out
}

#[test]
fn write_bktree() {
    let word_list = owned(&["the", "them", "she", "he", "car", "care", "card", "cake"]);
    let built = build_bktree(&word_list);
    assert!(built.is_ok());
    let (text, rejected) = built.unwrap();
    assert!(text.starts_with("static TREE: Node = "));
    assert!(text.ends_with(";"));
    assert!(rejected.is_empty());
}

#[test]
fn canidates() {
    let word_list = owned(&["the", "them", "she", "he", "car", "care", "card", "cake"]);
    let (tree, _) = build_tree("the", &word_list).unwrap();
    assert!(tree.canidates("shes", 1).contains(&"she"));
    assert!(tree.canidates("cars", 1).contains(&"car"));
}

#[test]
fn root_word_never_stored_twice() {
    let word_list = owned(&["the", "them", "the", "he", "the"]);
    let (tree, _) = build_tree("the", &word_list).unwrap();
    let words = collect_words(&tree);
    assert_eq!(words.iter().filter(|w| w.as_str() == "the").count(), 1);
}

#[test]
fn repeated_entries_build_the_same_tree() {
    let with_dups = owned(&["the", "them", "he", "them", "car", "he", "car"]);
    let deduped = owned(&["the", "them", "he", "car"]);
    let a = build_bktree(&with_dups).unwrap();
    let b = build_bktree(&deduped).unwrap();
    assert_eq!(a.0, b.0);
    assert_eq!(a.1, b.1);
}

#[test]
fn exact_self_match() {
    let word_list = owned(&["the", "them", "she", "he", "car", "care", "card", "cake"]);
    let (tree, _) = build_tree("the", &word_list).unwrap();
    for w in &["them", "she", "he", "car", "care", "card", "cake"] {
        assert!(tree.canidates(w, 0).contains(w), "self-match failed for {w}");
    }
}

#[test]
fn no_false_negatives() {
    let word_list = owned(&["the", "them", "she", "he", "car", "care", "card", "cake"]);
    let (tree, _) = build_tree("the", &word_list).unwrap();
    // True distances to "card": car 1, care 1, card 0; all must be present.
    let found = tree.canidates("card", 1);
    assert!(found.contains(&"card"));
    assert!(found.contains(&"car"));
    assert!(found.contains(&"care"));
}

#[test]
fn deterministic_serialization() {
    let word_list = owned(&["the", "them", "she", "he", "car", "care", "card", "cake"]);
    let a = build_bktree(&word_list).unwrap();
    let b = build_bktree(&word_list).unwrap();
    assert_eq!(a.0.as_bytes(), b.0.as_bytes());
}

#[test]
fn word_at_capacity_distance_is_rejected_with_report() {
    // 15 edits away from "the": three substitutions and twelve insertions.
    let far = "zzzzzzzzzzzzzzz";
    assert_eq!(far.len(), CHILDREN_LENGTH);
    let word_list = owned(&["the", far]);
    let (tree, rejected) = build_tree("the", &word_list).unwrap();
    assert_eq!(rejected, vec![far.to_string()]);
    assert_eq!(collect_words(&tree), vec!["the".to_string()]);
}

#[test]
fn missing_root_word_fails_the_build() {
    let word_list = owned(&["them", "he", "car"]);
    assert_eq!(build_tree("the", &word_list).unwrap_err(), BuildError::RootWordMissing);
    assert_eq!(build_bktree(&word_list).unwrap_err(), BuildError::RootWordMissing);
}

#[test]
fn suggestion_scenario() {
    let word_list = owned(&["the", "them", "he", "car", "care", "card", "cake"]);
    let (tree, rejected) = build_tree("the", &word_list).unwrap();
    assert!(rejected.is_empty());
    // Six words besides the root are inserted, in list order.
    assert_eq!(collect_words(&tree).len(), 7);
    // No word of this corpus lies within distance 1 of "shes"; the search may
    // still return farther words reachable inside the pruning window.
    let found = tree.canidates("shes", 1);
    assert!(found.contains(&"he"));
    assert!(!found.contains(&"cake"));
}

#[test]
fn iterator_exhaustion() {
    let word_list = owned(&["the", "them", "he", "car", "care", "card", "cake"]);
    let (tree, _) = build_tree("the", &word_list).unwrap();
    let mut it = tree.iter();
    let mut seen = Vec::new();
    while let Some(node) = it.next() {
        seen.push(node.word.clone());
    }
    // One value per node, the root first, pre-order with ascending slots:
    // them and car and card hang off the root (distances 1, 3 and 4), he off
    // them, care and cake off car.
    assert_eq!(seen, vec!["the", "them", "he", "car", "care", "cake", "card"]);
    // Once exhausted, the traversal stays exhausted.
    assert!(it.next().is_none());
    assert!(it.next().is_none());
}

#[test]
fn custom_root_insertion() {
    let mut tree = embedded_bktree::tree::Node::new("kitten");
    assert!(tree.add("sitting"));
    assert!(tree.add("mitten"));
    // "sitting" lies at distance 3 from "kitten", "mitten" at distance 1.
    assert!(tree.canidates("sitting", 0).contains(&"sitting"));
    assert!(tree.canidates("mittens", 1).contains(&"mitten"));
    assert_eq!(collect_words(&tree).len(), 3);
}

#[test]
fn rendered_artifact_text() {
    let word_list = owned(&["the"]);
    let (text, rejected) = build_bktree(&word_list).unwrap();
    assert!(rejected.is_empty());
    let empty_slots = vec!["None"; 15].join(", ");
    let expected = format!(
        "static TREE: Node = Node {{ word: \"the\", children: [{}] }};",
        empty_slots
    );
    assert_eq!(text, expected);
}

#[test]
fn nested_artifact_text() {
    let word_list = owned(&["the", "them"]);
    let (text, _) = build_bktree(&word_list).unwrap();
    let empty_slots = vec!["None"; 15].join(", ");
    let them = format!("Some(&Node {{ word: \"them\", children: [{}] }})", empty_slots);
    let expected = format!(
        "static TREE: Node = Node {{ word: \"the\", children: [None, {}, {}] }};",
        them,
        vec!["None"; 13].join(", ")
    );
    assert_eq!(text, expected);
}
