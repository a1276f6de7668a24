use ziran_engine::dict::{
    adjust_weight, build_trie_from_entries, group_and_rank, load_bilingual_dicts, load_dictionaries,
    parse_chinese_dicts, parse_english_dicts, resolve_dict_path, resolve_dict_paths, DictCandidate,
    DictionarySources, PendingDictIndex, push_entry, finalize_to_entries,
};
use ziran_engine::dict_compiler::decode_cache_entries;

fn texts(v: &[(String, DictCandidate)]) -> Vec<(String, String, u32)> {
    v.iter().map(|(k, c)| (k.clone(), c.text.clone(), c.weight)).collect()
}

#[test]
fn adjust_weight_follows_the_multiplier_table() {
    assert_eq!(adjust_weight(100, 0), 100);
    assert_eq!(adjust_weight(100, 1), 100);
    assert_eq!(adjust_weight(100, 2), 200);
    assert_eq!(adjust_weight(100, 3), 300);
    assert_eq!(adjust_weight(100, 4), 400);
    assert_eq!(adjust_weight(100, 9), 400);
}

#[test]
fn adjust_weight_never_goes_below_one_and_saturates() {
    assert_eq!(adjust_weight(0, 2), 1);
    assert_eq!(adjust_weight(u32::MAX, 4), u32::MAX);
    assert_eq!(adjust_weight(u32::MAX / 2 + 1, 2), u32::MAX);
}

#[test]
fn chinese_dictionary_lines_are_keyed_by_joined_syllables() {
    let content = "# comment\n---\n你好\tni hao\t10\n你\tni\t50\n拟好\tni hao\t3\n...\n".to_string();
    let out = parse_chinese_dicts(&vec![content]);
    assert_eq!(
        texts(&out),
        vec![
            ("nihao".to_string(), "你好".to_string(), 20),
            ("nihao".to_string(), "拟好".to_string(), 6),
            ("ni".to_string(), "你".to_string(), 50),
        ]
    );
}

#[test]
fn chinese_lines_without_weight_or_with_bad_weight_weigh_one() {
    let content = "好\thao\n号\thao\tabc\n浩\thao\t 7 \n".to_string();
    let out = parse_chinese_dicts(&vec![content]);
    assert_eq!(
        texts(&out),
        vec![
            ("hao".to_string(), "浩".to_string(), 7),
            ("hao".to_string(), "好".to_string(), 1),
            ("hao".to_string(), "号".to_string(), 1),
        ]
    );
}

#[test]
fn malformed_lines_are_skipped() {
    let content = "onlyone\n\tni\n你\t\t5\n  \n你\tni\t2\r\n".to_string();
    let out = parse_chinese_dicts(&vec![content]);
    assert_eq!(texts(&out), vec![("ni".to_string(), "你".to_string(), 2)]);
}

#[test]
fn entries_from_several_files_group_together() {
    let a = "你\tni\t5\n".to_string();
    let b = "尼\tni\t9\n".to_string();
    let out = parse_chinese_dicts(&vec![a, b]);
    assert_eq!(
        texts(&out),
        vec![("ni".to_string(), "尼".to_string(), 9), ("ni".to_string(), "你".to_string(), 5)]
    );
}

#[test]
fn english_codes_are_lowercased() {
    let content = "Hello\tHELLO\t30\nhelp\tHelp\t40\n".to_string();
    let out = parse_english_dicts(&vec![content]);
    assert_eq!(
        texts(&out),
        vec![
            ("hello".to_string(), "Hello".to_string(), 30),
            ("help".to_string(), "help".to_string(), 40),
        ]
    );
}

#[test]
fn english_weights_are_not_adjusted() {
    let content = "good morning\tgoodmorning\t10\n".to_string();
    let out = parse_english_dicts(&vec![content]);
    assert_eq!(texts(&out), vec![("goodmorning".to_string(), "good morning".to_string(), 10)]);
}

#[test]
fn equal_weights_keep_their_reading_order() {
    let out = group_and_rank(vec![
        ("k".to_string(), "a".to_string(), 3),
        ("k".to_string(), "b".to_string(), 5),
        ("k".to_string(), "c".to_string(), 3),
    ]);
    assert_eq!(
        texts(&out),
        vec![
            ("k".to_string(), "b".to_string(), 5),
            ("k".to_string(), "a".to_string(), 3),
            ("k".to_string(), "c".to_string(), 3),
        ]
    );
}

#[test]
fn pending_index_groups_by_key() {
    let mut p = PendingDictIndex::new();
    push_entry(&mut p, "a".to_string(), DictCandidate { text: "x".to_string(), weight: 1 });
    push_entry(&mut p, "b".to_string(), DictCandidate { text: "y".to_string(), weight: 1 });
    push_entry(&mut p, "a".to_string(), DictCandidate { text: "z".to_string(), weight: 2 });
    let out = finalize_to_entries(p);
    assert_eq!(
        texts(&out),
        vec![
            ("a".to_string(), "z".to_string(), 2),
            ("a".to_string(), "x".to_string(), 1),
            ("b".to_string(), "y".to_string(), 1),
        ]
    );
}

#[test]
fn built_trie_holds_every_entry() {
    let entries = vec![
        ("ni".to_string(), DictCandidate { text: "你".to_string(), weight: 5 }),
        ("ni".to_string(), DictCandidate { text: "尼".to_string(), weight: 3 }),
        ("hao".to_string(), DictCandidate { text: "好".to_string(), weight: 4 }),
    ];
    let t = build_trie_from_entries(&entries);
    let ni: Vec<(String, u32)> = t.lookup("ni").unwrap().iter().map(|c| (c.text.clone(), c.weight)).collect();
    assert_eq!(ni, vec![("你".to_string(), 5), ("尼".to_string(), 3)]);
    assert_eq!(t.lookup("hao").unwrap().len(), 1);
}

#[test]
fn dictionary_names_resolve_to_paths() {
    assert_eq!(resolve_dict_path("base"), "data/base.dict.yaml");
    assert_eq!(resolve_dict_path("dir/base"), "dir/base");
    assert_eq!(resolve_dict_path("base.dict.yaml"), "base.dict.yaml");
    assert_eq!(resolve_dict_path(""), "data/.dict.yaml");
    assert_eq!(
        resolve_dict_paths(&vec!["en".to_string(), "x/y.txt".to_string()]),
        vec!["data/en.dict.yaml".to_string(), "x/y.txt".to_string()]
    );
}

#[test]
fn bilingual_translations_are_sorted_by_weight() {
    let content = "你好\thello\t5\n你好\thi\t9\n世界\tworld\n".to_string();
    let index = load_bilingual_dicts(&vec![content]);
    assert_eq!(index.get("你好"), vec![("hi".to_string(), 9), ("hello".to_string(), 5)]);
    assert_eq!(index.get("世界"), vec![("world".to_string(), 1)]);
    assert!(index.get("没有").is_empty());
}

fn sources(cache: Option<Vec<u8>>, checksum: u64) -> DictionarySources {
    DictionarySources {
        chinese: vec!["你\tni\t5\n你好\tni hao\t10\n".to_string()],
        chinese_cache: cache,
        chinese_checksum: checksum,
        english: vec!["hello\thello\t3\n".to_string()],
        english_cache: None,
        english_checksum: 1,
        bilingual: vec!["你好\thello\n".to_string()],
    }
}

#[test]
fn loading_builds_every_dictionary_and_its_cache() {
    let (dicts, caches) = load_dictionaries(&sources(None, 42));
    assert_eq!(dicts.phrase_trie.lookup("nihao").unwrap()[0].text, "你好");
    assert_eq!(dicts.char_trie.lookup("ni").unwrap()[0].text, "你");
    assert!(dicts.char_trie.lookup("nihao").map(|v| v.is_empty()).unwrap_or(true));
    assert_eq!(dicts.en_trie.lookup("hello").unwrap()[0].weight, 3);
    assert_eq!(dicts.bilingual_index.get("你好"), vec![("hello".to_string(), 1)]);
    let image = caches.chinese.expect("a fresh cache image");
    let back = decode_cache_entries(&image, 42).expect("the image reads back");
    assert_eq!(back.len(), 2);
    assert!(caches.english.is_some());
}

#[test]
fn a_current_cache_is_used_instead_of_the_sources() {
    let (_, caches) = load_dictionaries(&sources(None, 42));
    let image = caches.chinese.unwrap();
    let mut src = sources(Some(image), 42);
    src.chinese = vec![];
    let (dicts, caches2) = load_dictionaries(&src);
    assert!(caches2.chinese.is_none());
    assert_eq!(dicts.phrase_trie.lookup("nihao").unwrap()[0].text, "你好");
}

#[test]
fn a_stale_cache_is_rebuilt() {
    let (_, caches) = load_dictionaries(&sources(None, 42));
    let image = caches.chinese.unwrap();
    let (dicts, caches2) = load_dictionaries(&sources(Some(image), 43));
    assert!(caches2.chinese.is_some());
    assert_eq!(dicts.phrase_trie.lookup("ni").unwrap()[0].text, "你");
}

#[test]
fn readme_chinese_dictionary_format() {
    let out = parse_chinese_dicts(&vec!["词语\t拼音1 拼音2 ...\t权重\n你好\tni hao\t332885\n".to_string()]);
    // the header line of the example has a weight that is not a number: weight 1, doubled for two characters
    assert_eq!(
        texts(&out),
        vec![
            ("拼音1拼音2...".to_string(), "词语".to_string(), 2),
            ("nihao".to_string(), "你好".to_string(), 665770),
        ]
    );
}

#[test]
fn readme_english_dictionary_format() {
    let out = parse_english_dicts(&vec!["hello\thello\t100\n".to_string()]);
    assert_eq!(texts(&out), vec![("hello".to_string(), "hello".to_string(), 100)]);
}

#[test]
fn readme_bilingual_dictionary_format() {
    let index = load_bilingual_dicts(&vec!["你好\thello\t100\n世界\tworld\t100\n".to_string()]);
    assert_eq!(index.get("你好"), vec![("hello".to_string(), 100)]);
    assert_eq!(index.get("世界"), vec![("world".to_string(), 100)]);
}
