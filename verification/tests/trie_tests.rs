use ziran_engine::dict::DictCandidate;
use ziran_engine::trie::{DagEdge, Trie};

fn cand(text: &str, weight: u32) -> DictCandidate {
    DictCandidate { text: text.to_string(), weight }
}

#[test]
fn lookup_returns_entries_in_insertion_order() {
    let mut t: Trie<u32> = Trie::new();
    t.insert("ni", 1);
    t.insert("nihao", 2);
    t.insert("ni", 3);
    assert_eq!(t.lookup("ni").map(|v| v.clone()), Some(vec![1, 3]));
    assert_eq!(t.lookup("nihao").map(|v| v.clone()), Some(vec![2]));
}

#[test]
fn lookup_of_inner_node_without_entries_is_empty() {
    let mut t: Trie<u32> = Trie::new();
    t.insert("nihao", 2);
    let inner = t.lookup("nih");
    assert!(inner.map(|v| v.is_empty()).unwrap_or(true));
    assert!(t.lookup("x").is_none());
}

#[test]
fn empty_key_is_the_root() {
    let mut t: Trie<u32> = Trie::new();
    t.insert("", 7);
    assert_eq!(t.lookup("").map(|v| v.clone()), Some(vec![7]));
}

#[test]
fn prefix_search_splits_exact_and_longer_keys() {
    let mut t: Trie<u32> = Trie::new();
    t.insert("he", 1);
    t.insert("hel", 2);
    t.insert("hello", 3);
    t.insert("help", 4);
    t.insert("world", 5);
    let (exact, rest) = t.prefix_search("hel");
    let exact: Vec<u32> = exact.into_iter().copied().collect();
    let mut rest: Vec<u32> = rest.into_iter().copied().collect();
    rest.sort();
    assert_eq!(exact, vec![2]);
    assert_eq!(rest, vec![3, 4]);
}

#[test]
fn prefix_search_of_missing_prefix_is_empty() {
    let mut t: Trie<u32> = Trie::new();
    t.insert("abc", 1);
    let (exact, rest) = t.prefix_search("abd");
    assert!(exact.is_empty());
    assert!(rest.is_empty());
}

#[test]
fn collect_prefixes_visits_every_key_prefix_in_order() {
    let mut t: Trie<DictCandidate> = Trie::new();
    t.insert("ni", cand("你", 10));
    t.insert("nih", cand("x", 1));
    t.insert("nihao", cand("你好", 20));
    t.insert("hao", cand("好", 5));
    let edges = t.collect_prefixes("nihao", 0, |from: usize, to: usize, es: &[DictCandidate]| {
        Some(DagEdge { from, to, words: es.iter().map(|e| (e.text.clone(), e.weight)).collect() })
    });
    let spans: Vec<(usize, usize)> = edges.iter().map(|e| (e.from, e.to)).collect();
    assert_eq!(spans, vec![(0, 2), (0, 3), (0, 5)]);
    assert_eq!(edges[2].words, vec![("你好".to_string(), 20)]);
    let from_two = t.collect_prefixes("nihao", 2, |from: usize, to: usize, es: &[DictCandidate]| {
        Some(DagEdge { from, to, words: es.iter().map(|e| (e.text.clone(), e.weight)).collect() })
    });
    let spans: Vec<(usize, usize)> = from_two.iter().map(|e| (e.from, e.to)).collect();
    assert_eq!(spans, vec![(2, 5)]);
}

#[test]
fn collect_prefixes_drops_edges_the_callback_refuses() {
    let mut t: Trie<DictCandidate> = Trie::new();
    t.insert("a", cand("A", 1));
    t.insert("ab", cand("AB", 2));
    let edges = t.collect_prefixes("abc", 0, |from: usize, to: usize, _es: &[DictCandidate]| {
        if to - from == 1 {
            None
        } else {
            Some(DagEdge { from, to, words: Vec::new() })
        }
    });
    assert_eq!(edges.len(), 1);
    assert_eq!((edges[0].from, edges[0].to), (0, 2));
}

#[test]
fn collect_prefixes_past_the_end_is_empty() {
    let mut t: Trie<DictCandidate> = Trie::new();
    t.insert("a", cand("A", 1));
    let edges = t.collect_prefixes("a", 5, |from: usize, to: usize, _es: &[DictCandidate]| {
        Some(DagEdge { from, to, words: Vec::new() })
    });
    assert!(edges.is_empty());
}

#[test]
fn starts_with_key_checks_prefixes() {
    let mut t: Trie<u32> = Trie::new();
    t.insert("zh", 1);
    assert!(t.starts_with_key("xzhang", 1));
    assert!(!t.starts_with_key("xzhang", 0));
    assert!(!t.starts_with_key("z", 0));
}

#[test]
fn dag_edge_clone_keeps_fields() {
    let e = DagEdge { from: 1, to: 3, words: vec![("好".to_string(), 4)] };
    let c = e.clone();
    assert_eq!((c.from, c.to), (1, 3));
    assert_eq!(c.words, e.words);
}

#[test]
fn prefix_search_lists_each_key_in_order_before_longer_keys() {
    let mut t: Trie<u32> = Trie::new();
    t.insert("ni", 1);
    t.insert("ni", 2);
    t.insert("nihao", 3);
    let (e, r) = t.prefix_search("ni");
    assert_eq!(e.into_iter().copied().collect::<Vec<u32>>(), vec![1, 2]);
    assert_eq!(r.into_iter().copied().collect::<Vec<u32>>(), vec![3]);
    let (e, r) = t.prefix_search("nih");
    assert!(e.is_empty());
    assert_eq!(r.into_iter().copied().collect::<Vec<u32>>(), vec![3]);
    let (e, r) = t.prefix_search("n");
    assert!(e.is_empty());
    assert_eq!(r.into_iter().copied().collect::<Vec<u32>>(), vec![1, 2, 3]);
}

#[test]
fn prefix_search_keeps_blocks_together() {
    let mut t: Trie<u32> = Trie::new();
    t.insert("ab", 1);
    t.insert("ac", 2);
    t.insert("ab", 3);
    t.insert("abd", 4);
    t.insert("ac", 5);
    let (_, r) = t.prefix_search("a");
    let r: Vec<u32> = r.into_iter().copied().collect();
    // "ab" then its extension "abd", and "ac", each key's entries together and in order
    let pos = |x: u32| r.iter().position(|&y| y == x).unwrap();
    assert_eq!(r.len(), 5);
    assert_eq!(pos(3), pos(1) + 1);
    assert_eq!(pos(5), pos(2) + 1);
    assert!(pos(4) > pos(3));
}
