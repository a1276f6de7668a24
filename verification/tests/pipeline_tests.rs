use ziran_engine::dict::{load_dictionaries, DictCandidate, DictionarySources};
use ziran_engine::pipeline::{
    backtrack, build_dag, dag_input_ok, english_prefix_match, has_full_coverage, merge_edges, strip_whitespace,
    PathLink, Pipeline, MAX_CANDIDATES,
};
use ziran_engine::segment::Segment;
use ziran_engine::segmentor::PinyinSegmentor;
use ziran_engine::translator::SimpleTranslator;
use ziran_engine::trie::{DagEdge, Trie};

fn cand(text: &str, weight: u32) -> DictCandidate {
    DictCandidate { text: text.to_string(), weight }
}

fn phrase_trie() -> Trie<DictCandidate> {
    let mut t = Trie::new();
    t.insert("ni", cand("你", 10));
    t.insert("nihao", cand("你好", 20));
    t.insert("hao", cand("好", 5));
    t
}

fn spans(edges: &[DagEdge]) -> Vec<(usize, usize)> {
    edges.iter().map(|e| (e.from, e.to)).collect()
}

fn edge(from: usize, to: usize, words: &[(&str, u32)]) -> DagEdge {
    DagEdge { from, to, words: words.iter().map(|(w, x)| (w.to_string(), *x)).collect() }
}

#[test]
fn dag_has_an_edge_for_every_key_prefix() {
    let edges = build_dag("nihao", &phrase_trie());
    assert_eq!(spans(&edges), vec![(0, 2), (0, 5), (1, 2), (2, 5), (3, 4), (4, 5)]);
    assert_eq!(edges[1].words, vec![("你好".to_string(), 20)]);
    // unmatched bytes become weight-0 words of themselves
    assert_eq!(edges[2].words, vec![("i".to_string(), 0)]);
    assert_eq!(edges[4].words, vec![("a".to_string(), 0)]);
}

#[test]
fn dag_of_empty_input_is_empty() {
    assert!(build_dag("", &phrase_trie()).is_empty());
    assert!(PinyinSegmentor::build_dag("", &phrase_trie()).is_empty());
}

#[test]
fn segmentor_builds_the_same_dag() {
    let a = build_dag("haoni", &phrase_trie());
    let b = PinyinSegmentor::build_dag("haoni", &phrase_trie());
    assert_eq!(spans(&a), spans(&b));
}

#[test]
fn coverage_needs_real_words_on_every_byte() {
    let t = phrase_trie();
    assert!(has_full_coverage(5, &build_dag("nihao", &t)));
    assert!(!has_full_coverage(6, &build_dag("nihaox", &t)));
    assert!(has_full_coverage(0, &[]));
    assert!(!has_full_coverage(1, &[edge(0, 1, &[("x", 0)])]));
    assert!(has_full_coverage(2, &[edge(0, 2, &[("x", 0), ("y", 1)])]));
}

#[test]
fn merging_joins_words_of_equal_spans() {
    let a = vec![edge(0, 2, &[("你", 10)]), edge(2, 3, &[("h", 0)])];
    let b = vec![edge(0, 2, &[("尼", 3)]), edge(0, 1, &[("n", 0)])];
    let m = merge_edges(&a, &b);
    assert_eq!(spans(&m), vec![(0, 2), (2, 3), (0, 1)]);
    assert_eq!(m[0].words, vec![("你".to_string(), 10), ("尼".to_string(), 3)]);
}

#[test]
fn input_check_finds_unmatched_non_ascii() {
    let t = phrase_trie();
    assert!(dag_input_ok("nihao", &t));
    assert!(!dag_input_ok("ni好", &t));
}

#[test]
fn english_prefix_match_ranks_exact_words_first() {
    let mut t = Trie::new();
    t.insert("hel", cand("hel", 1));
    t.insert("help", cand("help", 30));
    t.insert("hello", cand("hello", 50));
    t.insert("hel", cand("HEL", 7));
    let r: Vec<(String, u32)> = english_prefix_match(&t, "hel").into_iter().map(|c| (c.text, c.weight)).collect();
    assert_eq!(
        r,
        vec![
            ("HEL".to_string(), 7),
            ("hel".to_string(), 1),
            ("hello".to_string(), 50),
            ("help".to_string(), 30),
        ]
    );
}

#[test]
fn english_prefix_match_keeps_at_most_fifty() {
    let mut t = Trie::new();
    for i in 0..60u32 {
        t.insert(&format!("w{}", i), cand(&format!("w{}", i), i));
    }
    let r = english_prefix_match(&t, "w");
    assert_eq!(MAX_CANDIDATES, 50);
    assert_eq!(r.len(), 50);
    assert_eq!(r[0].weight, 59);
    assert_eq!(r[49].weight, 10);
}

#[test]
fn whitespace_is_stripped() {
    assert_eq!(strip_whitespace(" ni\thao \u{3000}"), "nihao");
    assert_eq!(strip_whitespace(""), "");
}

fn link(prev_node: usize, prev_state_idx: usize, word: &str) -> PathLink {
    PathLink { prev_node, prev_state_idx, word_text: word.to_string() }
}

#[test]
fn backtrack_follows_the_paths_and_puts_phrases_first() {
    // nodes 0..=4; node 4 holds three final states
    let dp = vec![
        vec![link(0, 0, "")],
        vec![link(0, 0, "你")],
        vec![link(0, 0, "你好"), link(1, 0, "好")],
        vec![],
        vec![link(2, 1, "吗"), link(2, 0, "吗"), link(2, 0, "ma")],
    ];
    let r = backtrack(4, &dp);
    assert_eq!(r, vec![(1, "你好吗".to_string()), (0, "你好吗".to_string())]);
}

#[test]
fn backtrack_drops_empty_paths() {
    let dp = vec![vec![link(0, 0, "")]];
    assert!(backtrack(0, &dp).is_empty());
}

fn dictionaries() -> ziran_engine::dict::LoadedDictionaries {
    let src = DictionarySources {
        chinese: vec!["你\tni\t10\n你好\tni hao\t20\n好\thao\t5\n".to_string()],
        chinese_cache: None,
        chinese_checksum: 0,
        english: vec!["hello\thello\t3\nhelp\thelp\t4\n".to_string()],
        english_cache: None,
        english_checksum: 0,
        bilingual: vec!["你好\thello\t2\n你好\thi\t5\n".to_string()],
    };
    load_dictionaries(&src).0
}

#[test]
fn lattice_uses_the_phrase_graph_when_it_covers_the_input() {
    let p = Pipeline::with_dictionaries(&dictionaries());
    let l = p.lattice("nihao").expect("a graph");
    assert!(l.iter().any(|e| e.from == 0 && e.to == 5));
}

#[test]
fn lattice_merges_single_characters_when_phrases_leave_gaps() {
    let p = Pipeline::with_dictionaries(&dictionaries());
    let l = p.lattice("nix").expect("a graph");
    assert_eq!(spans(&l), vec![(0, 2), (1, 2), (2, 3)]);
    assert_eq!(l[0].words, vec![("你".to_string(), 10), ("你".to_string(), 10)]);
}

#[test]
fn lattice_refuses_unmatched_non_ascii() {
    let p = Pipeline::with_dictionaries(&dictionaries());
    assert!(p.lattice("ni好").is_none());
}

#[test]
fn pipeline_english_and_translations() {
    let p = Pipeline::with_dictionaries(&dictionaries());
    let en: Vec<String> = p.english_candidates("hel").into_iter().map(|c| c.text).collect();
    assert_eq!(en, vec!["help".to_string(), "hello".to_string()]);
    let upper: Vec<String> = p.english_candidates("HELL").into_iter().map(|c| c.text).collect();
    assert_eq!(upper, vec!["hello".to_string()]);
    assert_eq!(p.translations("你好"), vec![("hi".to_string(), 5), ("hello".to_string(), 2)]);
}

#[test]
fn translator_looks_up_whole_inputs() {
    let t = SimpleTranslator::from_loaded_dictionaries(&dictionaries());
    let ph: Vec<(String, u32)> = t.translate_phrase("nihao").into_iter().map(|e| (e.word, e.weight)).collect();
    assert_eq!(ph, vec![("你好".to_string(), 40)]);
    assert!(t.translate_phrase("nih").is_empty());
    let en: Vec<String> = t.translate_en("hello").into_iter().map(|e| e.word).collect();
    assert_eq!(en, vec!["hello".to_string()]);
}

#[test]
fn segment_with_translation_sets_every_field() {
    let s = Segment::with_translation("ni".to_string(), "你".to_string(), 3);
    assert_eq!(s.code, "ni");
    assert_eq!(s.text, Some("你".to_string()));
    assert_eq!(s.weight, Some(3));
}

#[test]
fn links_are_checked() {
    let good = vec![vec![link(0, 0, "")], vec![link(0, 0, "你")]];
    assert!(ziran_engine::pipeline::check_links(&good));
    let forward = vec![vec![link(1, 0, "你")], vec![link(0, 0, "")]];
    assert!(!ziran_engine::pipeline::check_links(&forward));
    let missing = vec![vec![link(0, 0, "")], vec![link(0, 3, "你")]];
    assert!(!ziran_engine::pipeline::check_links(&missing));
    // a state without a word links nowhere
    let start_only = vec![vec![link(9, 9, "")]];
    assert!(ziran_engine::pipeline::check_links(&start_only));
}

#[test]
fn dedup_keeps_one_candidate_per_text_in_text_order() {
    let cands = vec![
        ("好".to_string(), 2),
        ("你好".to_string(), 3),
        ("好".to_string(), 1),
        ("你好".to_string(), 1),
        ("你好".to_string(), 1),
        ("a".to_string(), 5),
    ];
    let keep = ziran_engine::pipeline::dedup_by_text(&cands);
    // "a" < "你好" < "好" by code point
    assert_eq!(keep, vec![5, 3, 2]);
    assert!(ziran_engine::pipeline::dedup_by_text(&Vec::new()).is_empty());
}

#[test]
fn dedup_orders_prefixes_first() {
    let cands = vec![("ab".to_string(), 1), ("a".to_string(), 1), ("".to_string(), 1), ("b".to_string(), 1)];
    assert_eq!(ziran_engine::pipeline::dedup_by_text(&cands), vec![2, 1, 0, 3]);
}

#[test]
fn annotation_is_the_heaviest_translation() {
    let p = Pipeline::with_dictionaries(&dictionaries());
    assert_eq!(p.annotation("你好"), Some("hi".to_string()));
    assert_eq!(p.annotation("世界"), None);
}
