use ziran_engine::dict::DictCandidate;
use ziran_engine::dict_compiler::{
    compile_to_cache, compute_source_checksum, decode_cache_entries, load_from_cache, SourceStamp, FNV_OFFSET,
    HEADER_LEN, VERSION,
};

fn sample() -> Vec<(String, DictCandidate)> {
    vec![
        ("nihao".to_string(), DictCandidate { text: "你好".to_string(), weight: 20 }),
        ("ni".to_string(), DictCandidate { text: "你".to_string(), weight: 7 }),
    ]
}

#[test]
fn cache_image_layout() {
    let image = compile_to_cache(&sample(), 0x0102030405060708);
    assert_eq!(&image[0..4], b"ZIRC");
    assert_eq!(image[4], VERSION);
    assert_eq!(&image[5..13], &0x0102030405060708u64.to_le_bytes());
    assert_eq!(&image[13..17], &2u32.to_le_bytes());
    assert_eq!(HEADER_LEN, 17);
    // first entry: key length, key, text length, text, weight
    assert_eq!(&image[17..19], &5u16.to_le_bytes());
    assert_eq!(&image[19..24], b"nihao");
    assert_eq!(&image[24..26], &6u16.to_le_bytes());
    assert_eq!(&image[26..32], "你好".as_bytes());
    assert_eq!(&image[32..36], &20u32.to_le_bytes());
    assert_eq!(image.len(), 36 + 2 + 2 + 2 + 3 + 4);
}

#[test]
fn cache_round_trip() {
    let entries = sample();
    let image = compile_to_cache(&entries, 99);
    let back = decode_cache_entries(&image, 99).expect("reads back");
    let a: Vec<(String, String, u32)> = entries.iter().map(|(k, c)| (k.clone(), c.text.clone(), c.weight)).collect();
    let b: Vec<(String, String, u32)> = back.iter().map(|(k, c)| (k.clone(), c.text.clone(), c.weight)).collect();
    assert_eq!(a, b);
    let trie = load_from_cache(&image, 99).expect("a trie");
    assert_eq!(trie.lookup("ni").unwrap()[0].text, "你");
}

#[test]
fn empty_cache_round_trip() {
    let image = compile_to_cache(&Vec::new(), 5);
    assert_eq!(image.len(), 17);
    assert_eq!(decode_cache_entries(&image, 5).map(|v| v.len()), Some(0));
}

#[test]
fn wrong_checksum_is_refused() {
    let image = compile_to_cache(&sample(), 1);
    assert!(decode_cache_entries(&image, 2).is_none());
    assert!(load_from_cache(&image, 2).is_none());
}

#[test]
fn bad_header_is_refused() {
    let mut image = compile_to_cache(&sample(), 1);
    image[0] = b'X';
    assert!(decode_cache_entries(&image, 1).is_none());
    let mut image = compile_to_cache(&sample(), 1);
    image[4] = 2;
    assert!(decode_cache_entries(&image, 1).is_none());
    assert!(decode_cache_entries(&[0u8; 16], 1).is_none());
    assert!(decode_cache_entries(&[], 1).is_none());
}

#[test]
fn truncated_cache_is_refused() {
    let image = compile_to_cache(&sample(), 1);
    for cut in 17..image.len() {
        assert!(decode_cache_entries(&image[..cut], 1).is_none(), "cut at {}", cut);
    }
}

#[test]
fn invalid_utf8_is_refused() {
    let mut image = compile_to_cache(&sample(), 1);
    image[19] = 0xFF;
    assert!(decode_cache_entries(&image, 1).is_none());
}

#[test]
fn trailing_bytes_are_ignored() {
    let mut image = compile_to_cache(&sample(), 1);
    image.extend_from_slice(&[1, 2, 3]);
    assert_eq!(decode_cache_entries(&image, 1).map(|v| v.len()), Some(2));
}

fn fnv(bytes: &[u8]) -> u64 {
    let mut h: u64 = 0xcbf29ce484222325;
    for b in bytes {
        h ^= *b as u64;
        h = h.wrapping_mul(0x100000001b3);
    }
    h
}

#[test]
fn checksum_of_nothing_is_the_offset_basis() {
    assert_eq!(compute_source_checksum(&Vec::new()), FNV_OFFSET);
    assert_eq!(FNV_OFFSET, 0xcbf29ce484222325);
}

#[test]
fn checksum_of_a_path_is_fnv1a() {
    let s = vec![SourceStamp { path: "a".to_string(), metadata: None }];
    assert_eq!(compute_source_checksum(&s), 0xaf63dc4c8601ec8c);
}

#[test]
fn checksum_covers_size_and_time() {
    let s = vec![
        SourceStamp { path: "data/base.dict.yaml".to_string(), metadata: Some((1234, Some(1700000000))) },
        SourceStamp { path: "x".to_string(), metadata: Some((9, None)) },
    ];
    let mut bytes = Vec::new();
    bytes.extend_from_slice(b"data/base.dict.yaml");
    bytes.extend_from_slice(&1234u64.to_le_bytes());
    bytes.extend_from_slice(&1700000000u64.to_le_bytes());
    bytes.extend_from_slice(b"x");
    bytes.extend_from_slice(&9u64.to_le_bytes());
    assert_eq!(compute_source_checksum(&s), fnv(&bytes));
    let t = vec![SourceStamp { path: "data/base.dict.yaml".to_string(), metadata: Some((1235, Some(1700000000))) }];
    assert_ne!(compute_source_checksum(&s[..1].iter().map(|x| SourceStamp { path: x.path.clone(), metadata: x.metadata }).collect()), compute_source_checksum(&t));
}
