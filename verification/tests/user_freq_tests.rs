use ziran_engine::user_freq::UserFreq;

#[test]
fn load_reads_words_counts_and_times() {
    let content = "# user frequency data\n你好\t3\t1700000000\n世界\t1\n  \n坏\t0\t5\n缺\n";
    let u = UserFreq::load("data/user_freq.tsv", Some(content));
    assert_eq!(u.count("你好"), 3);
    assert_eq!(u.count("世界"), 1);
    assert_eq!(u.count("坏"), 0);
    assert_eq!(u.count("缺"), 0);
    assert_eq!(u.count("没有"), 0);
    assert_eq!(u.path(), "data/user_freq.tsv");
}

#[test]
fn a_later_line_replaces_an_earlier_one() {
    let u = UserFreq::load("f", Some("a\t2\t1\na\t5\t2\n"));
    assert_eq!(u.count("a"), 5);
}

#[test]
fn unreadable_file_gives_no_records() {
    let u = UserFreq::load("missing", None);
    assert_eq!(u.count("a"), 0);
    assert!(u.save().is_none());
}

#[test]
fn bad_counts_drop_the_line() {
    let u = UserFreq::load("f", Some("a\tx\t1\nb\t-1\nc\t4294967296\nd\t+7\te\n"));
    assert_eq!(u.count("a"), 0);
    assert_eq!(u.count("b"), 0);
    assert_eq!(u.count("c"), 0);
    assert_eq!(u.count("d"), 7);
}

#[test]
fn record_adds_one_use() {
    let mut u = UserFreq::load("f", Some("你好\t3\t10\n"));
    u.record_at("你好", 20);
    u.record_at("新", 21);
    u.record("新");
    assert_eq!(u.count("你好"), 4);
    assert_eq!(u.count("新"), 2);
}

#[test]
fn save_writes_nothing_without_changes() {
    let u = UserFreq::load("f", Some("a\t1\t1\n"));
    assert!(u.save().is_none());
}

#[test]
fn save_orders_by_count_then_first_seen() {
    let mut u = UserFreq::load("f", Some("b\t2\t5\nc\t9\t6\n"));
    u.record_at("a", 100);
    u.record_at("a", 101);
    let text = u.save().expect("changes to save");
    assert_eq!(text, "# user frequency data\nc\t9\t6\nb\t2\t5\na\t2\t101\n");
}

#[test]
fn saved_text_loads_back() {
    let mut u = UserFreq::empty("f");
    u.record_at("你好", 1);
    u.record_at("世界", 2);
    u.record_at("你好", 3);
    let text = u.save().unwrap();
    let v = UserFreq::load("f", Some(&text));
    assert_eq!(v.count("你好"), 2);
    assert_eq!(v.count("世界"), 1);
    let mut v = v;
    v.record_at("x", 0);
    let again = v.save().unwrap();
    assert_eq!(again, "# user frequency data\n你好\t2\t3\n世界\t1\t2\nx\t1\t0\n");
}
