use vstd::prelude::*;

use vstd::string::{StringExecFns, StringSliceAdditionalSpecFns};
use vstd::utf8::{decode_utf8, encode_utf8, encode_utf8_decode_utf8};

use crate::sort::{
    lemma_stable_sorted_map, sort_by_weight_desc, stable_desc_by, stable_sorted_desc, Weighted,
};
use crate::text::{
    chars_of, decimal, is_digit, is_whitespace, lemma_parse_decimal, lemma_split_on_concat,
    lemma_split_on_whole, lemma_trim_trimmed, parse_bounded, parse_u32, parse_u64, push_char,
    push_decimal, split_on, split_ranges, string_of, trim, trim_range,
};
use crate::trie::Trie;

verus! {

/// How often and when a word was chosen.
struct FreqEntry {
    count: u32,
    last_used: u64,
}

/// A word with its frequency record.
struct FreqRecord {
    word: String,
    entry: FreqEntry,
}

/// The view of a record: (word, count, last used).
pub type RecordView = (Seq<char>, u32, u64);

spec fn record_view(r: FreqRecord) -> RecordView {
    (r.word@, r.entry.count, r.entry.last_used)
}

pub open spec fn has_word(m: Seq<RecordView>, word: Seq<char>) -> bool {
    exists|i: int| 0 <= i < m.len() && m[i].0 == word
}

/// Sets the record of `word`, in place if it has one, else at the end.
pub open spec fn freq_set(m: Seq<RecordView>, word: Seq<char>, count: u32, last_used: u64) -> Seq<RecordView> {
    if has_word(m, word) {
        let i = choose|i: int| 0 <= i < m.len() && m[i].0 == word;
        m.update(i, (word, count, last_used))
    } else {
        m.push((word, count, last_used))
    }
}

/// How often `word` was chosen (0 when never).
pub open spec fn count_in(m: Seq<RecordView>, word: Seq<char>) -> u32 {
    if has_word(m, word) {
        m[choose|i: int| 0 <= i < m.len() && m[i].0 == word].1
    } else {
        0
    }
}

/// A line of the frequency file: `word<TAB>count<TAB>last_used`, the last
/// field optional; a count that is missing its number or is 0 drops the line.
pub open spec fn freq_line(line: Seq<char>) -> Option<RecordView> {
    let l = trim(line);
    let parts = split_on(l, '\t');
    if l.len() == 0 || l[0] == '#' || parts.len() < 2 {
        None
    } else {
        let count = match parse_bounded(parts[1], u32::MAX as nat) {
            Some(n) => n as u32,
            None => 0,
        };
        let last_used = if parts.len() > 2 {
            match parse_bounded(parts[2], u64::MAX as nat) {
                Some(n) => n as u64,
                None => 0,
            }
        } else {
            0
        };
        if count > 0 {
            Some((parts[0], count, last_used))
        } else {
            None
        }
    }
}

/// The records of a frequency file's lines, a later line for a word replacing an earlier one.
pub open spec fn freq_records(lines: Seq<Seq<char>>) -> Seq<RecordView>
    decreases lines.len(),
{
    if lines.len() == 0 {
        Seq::empty()
    } else {
        let m = freq_records(lines.drop_last());
        match freq_line(lines.last()) {
            Some(r) => freq_set(m, r.0, r.1, r.2),
            None => m,
        }
    }
}

/// The records of the text of a frequency file.
pub open spec fn parse_freq(content: Seq<char>) -> Seq<RecordView> {
    freq_records(split_on(content, '\n'))
}

/// The first line of a frequency file.
pub open spec fn freq_header() -> Seq<char> {
    "# user frequency data\n"@
}

/// The line of one record: `word<TAB>count<TAB>last_used`.
pub open spec fn record_line(r: RecordView) -> Seq<char> {
    r.0 + seq!['\t'] + decimal(r.1 as nat) + seq!['\t'] + decimal(r.2 as nat) + seq!['\n']
}

/// The lines of `rs`, in order.
pub open spec fn record_lines(rs: Seq<RecordView>) -> Seq<char>
    decreases rs.len(),
{
    if rs.len() == 0 {
        Seq::empty()
    } else {
        record_lines(rs.drop_last()) + record_line(rs.last())
    }
}

/// The text of a frequency file holding `rs` in that order.
pub open spec fn freq_text(rs: Seq<RecordView>) -> Seq<char> {
    freq_header() + record_lines(rs)
}

/// The weight records are saved by: their count.
pub open spec fn by_count(r: RecordView) -> u64 {
    r.1 as u64
}

/// `text` is the frequency file of `m`, its records ordered by count, most
/// used first, equal counts in the order of `m`.
pub open spec fn saved_as(m: Seq<RecordView>, text: Seq<char>) -> bool {
    exists|sorted: Seq<RecordView>| #[trigger] sorted_by_count(m, sorted) && text == freq_text(sorted)
}

/// `sorted` is `m` ordered by count, most used first, equal counts keeping their order.
pub open spec fn sorted_by_count(m: Seq<RecordView>, sorted: Seq<RecordView>) -> bool {
    stable_sorted_desc(m, sorted, |r: RecordView| by_count(r))
}

/// No word has two records.
pub open spec fn words_distinct(m: Seq<RecordView>) -> bool {
    forall|a: int, b: int| 0 <= a < m.len() && 0 <= b < m.len() && a != b ==> (#[trigger] m[a]).0 != (#[trigger] m[b]).0
}

/// Every record counts at least one use.
pub open spec fn counts_positive(m: Seq<RecordView>) -> bool {
    forall|i: int| 0 <= i < m.len() ==> (#[trigger] m[i]).1 > 0
}

/// A word the file format holds as it is: not empty, without tab or line
/// break, not starting with `#`, and without whitespace at either end.
pub open spec fn storable_word(w: Seq<char>) -> bool {
    &&& w.len() > 0
    &&& !is_whitespace(w[0])
    &&& !is_whitespace(w.last())
    &&& w[0] != '#'
    &&& forall|i: int| 0 <= i < w.len() ==> w[i] != '\t' && w[i] != '\n'
}

pub open spec fn all_storable(m: Seq<RecordView>) -> bool {
    forall|i: int| 0 <= i < m.len() ==> storable_word(#[trigger] m[i].0)
}

/// A record's line without its line break.
pub open spec fn record_body(r: RecordView) -> Seq<char> {
    r.0 + seq!['\t'] + decimal(r.1 as nat) + seq!['\t'] + decimal(r.2 as nat)
}

/// The header line without its line break.
pub open spec fn header_body() -> Seq<char> {
    "# user frequency data"@
}

proof fn lemma_header()
    ensures
        freq_header() == header_body().push('\n'),
        header_body().len() > 0,
        header_body()[0] == '#',
        !is_whitespace(header_body().last()),
        forall|i: int| 0 <= i < header_body().len() ==> header_body()[i] != '\n',
{
    reveal_strlit("# user frequency data\n");
    reveal_strlit("# user frequency data");
    assert(freq_header() =~= header_body().push('\n'));
}

proof fn lemma_no_tab_in_decimal(n: nat)
    ensures
        decimal(n).len() > 0,
        forall|i: int| 0 <= i < decimal(n).len() ==> decimal(n)[i] != '\t' && decimal(n)[i] != '\n',
        !is_whitespace(decimal(n).last()),
{
    lemma_parse_decimal(n);
    assert(is_digit(decimal(n)[decimal(n).len() - 1]));
}

/// The line of a storable record reads back as that record.
proof fn lemma_body_reads_back(r: RecordView)
    requires
        storable_word(r.0),
        r.1 > 0,
    ensures
        freq_line(record_body(r)) == Some(r),
{
    let w = r.0;
    let d1 = decimal(r.1 as nat);
    let d2 = decimal(r.2 as nat);
    let b = record_body(r);
    lemma_no_tab_in_decimal(r.1 as nat);
    lemma_no_tab_in_decimal(r.2 as nat);
    lemma_parse_decimal(r.1 as nat);
    lemma_parse_decimal(r.2 as nat);
    assert(b[0] == w[0]);
    assert(b.last() == d2.last());
    lemma_trim_trimmed(b);
    let s1 = w.push('\t');
    let t1 = d1 + seq!['\t'] + d2;
    assert(b =~= s1 + t1);
    lemma_split_on_concat(s1, t1, '\t');
    lemma_split_on_whole(w, '\t');
    assert(s1.drop_last() =~= w);
    assert(split_on(s1, '\t') == split_on(w, '\t').push(Seq::<char>::empty()));
    let s2 = d1.push('\t');
    assert(t1 =~= s2 + d2);
    lemma_split_on_concat(s2, d2, '\t');
    lemma_split_on_whole(d1, '\t');
    lemma_split_on_whole(d2, '\t');
    assert(s2.drop_last() =~= d1);
    assert(split_on(s2, '\t') == split_on(d1, '\t').push(Seq::<char>::empty()));
    assert(split_on(b, '\t') =~= seq![w, d1, d2]);
}

/// The lines of the text of `rs`: the header, one per record, then nothing after the last break.
proof fn lemma_text_lines(rs: Seq<RecordView>)
    requires
        all_storable(rs),
    ensures
        split_on(freq_text(rs), '\n') == seq![header_body()] + rs.map_values(|r: RecordView| record_body(r))
            + seq![Seq::<char>::empty()],
        freq_text(rs).len() > 0,
        freq_text(rs).last() == '\n',
    decreases rs.len(),
{
    lemma_header();
    if rs.len() == 0 {
        assert(freq_text(rs) =~= header_body().push('\n'));
        lemma_split_on_whole(header_body(), '\n');
        assert(header_body().push('\n').drop_last() =~= header_body());
        assert(split_on(freq_text(rs), '\n') =~= seq![header_body()] + rs.map_values(|r: RecordView| record_body(r))
            + seq![Seq::<char>::empty()]);
    } else {
        let front = rs.drop_last();
        let r = rs.last();
        assert(all_storable(front)) by {
            assert forall|i: int| 0 <= i < front.len() implies storable_word(#[trigger] front[i].0) by {
                assert(front[i] == rs[i]);
            }
        }
        assert(storable_word(rs[rs.len() - 1].0));
        lemma_text_lines(front);
        assert(freq_text(rs) =~= freq_text(front) + record_line(r));
        lemma_split_on_concat(freq_text(front), record_line(r), '\n');
        assert(record_line(r) =~= record_body(r).push('\n'));
        lemma_no_tab_in_decimal(r.1 as nat);
        lemma_no_tab_in_decimal(r.2 as nat);
        assert forall|i: int| 0 <= i < record_body(r).len() implies record_body(r)[i] != '\n' by {
            let w = r.0;
            let d1 = decimal(r.1 as nat);
            let d2 = decimal(r.2 as nat);
            let b = record_body(r);
            if i < w.len() {
                assert(b[i] == w[i]);
            } else if i == w.len() {
                assert(b[i] == '\t');
            } else if i < w.len() + 1 + d1.len() {
                assert(b[i] == d1[i - w.len() - 1]);
            } else if i == w.len() + 1 + d1.len() {
                assert(b[i] == '\t');
            } else {
                assert(b[i] == d2[i - w.len() - 2 - d1.len()]);
            }
        }
        lemma_split_on_whole(record_body(r), '\n');
        assert(record_body(r).push('\n').drop_last() =~= record_body(r));
        assert(split_on(record_line(r), '\n') == seq![record_body(r), Seq::<char>::empty()]);
        assert(rs.map_values(|x: RecordView| record_body(x)) =~= front.map_values(|x: RecordView| record_body(x)).push(
            record_body(r),
        ));
        assert(split_on(freq_text(rs), '\n') =~= seq![header_body()] + rs.map_values(|x: RecordView| record_body(x))
            + seq![Seq::<char>::empty()]);
    }
}

/// Reading the header and the lines of distinct storable records gives the records back.
proof fn lemma_read_lines(rs: Seq<RecordView>)
    requires
        all_storable(rs),
        words_distinct(rs),
        counts_positive(rs),
    ensures
        freq_records(seq![header_body()] + rs.map_values(|r: RecordView| record_body(r))) == rs,
    decreases rs.len(),
{
    let lines = seq![header_body()] + rs.map_values(|r: RecordView| record_body(r));
    if rs.len() == 0 {
        lemma_header();
        assert(lines =~= seq![header_body()]);
        assert(lines.drop_last() =~= Seq::<Seq<char>>::empty());
        lemma_trim_trimmed(header_body());
        assert(freq_line(header_body()) is None);
        assert(lines.last() == header_body());
        assert(freq_records(lines.drop_last()) == Seq::<RecordView>::empty());
        assert(freq_records(lines) =~= rs);
    } else {
        let front = rs.drop_last();
        let r = rs.last();
        assert(all_storable(front)) by {
            assert forall|i: int| 0 <= i < front.len() implies storable_word(#[trigger] front[i].0) by {
                assert(front[i] == rs[i]);
            }
        }
        assert(words_distinct(front)) by {
            assert forall|a: int, b: int| 0 <= a < front.len() && 0 <= b < front.len() && a != b implies (
            #[trigger] front[a]).0 != (#[trigger] front[b]).0 by {
                assert(front[a] == rs[a] && front[b] == rs[b]);
            }
        }
        assert(counts_positive(front)) by {
            assert forall|i: int| 0 <= i < front.len() implies (#[trigger] front[i]).1 > 0 by {
                assert(front[i] == rs[i]);
            }
        }
        lemma_read_lines(front);
        assert(lines.drop_last() =~= seq![header_body()] + front.map_values(|x: RecordView| record_body(x)));
        assert(lines.last() == record_body(r));
        assert(storable_word(rs[rs.len() - 1].0));
        assert(rs[rs.len() - 1].1 > 0);
        lemma_body_reads_back(r);
        assert(!has_word(front, r.0)) by {
            if has_word(front, r.0) {
                let i = choose|i: int| 0 <= i < front.len() && front[i].0 == r.0;
                assert(rs[i].0 == rs[rs.len() - 1].0);
            }
        }
        assert(freq_records(lines) =~= front.push(r));
        assert(front.push(r) =~= rs);
    }
}

/// The text of distinct storable records reads back as those records, in order.
pub proof fn lemma_freq_text_reads_back(rs: Seq<RecordView>)
    requires
        all_storable(rs),
        words_distinct(rs),
        counts_positive(rs),
    ensures
        parse_freq(freq_text(rs)) == rs,
{
    lemma_text_lines(rs);
    lemma_read_lines(rs);
    let body = seq![header_body()] + rs.map_values(|r: RecordView| record_body(r));
    let lines = body + seq![Seq::<char>::empty()];
    assert(lines.drop_last() =~= body);
    assert(trim(Seq::<char>::empty()).len() == 0);
    assert(freq_line(lines.last()) is None);
}

/// A stable reordering keeps the words distinct, the counts positive and the words storable.
proof fn lemma_sorted_keeps(m: Seq<RecordView>, sorted: Seq<RecordView>)
    requires
        sorted_by_count(m, sorted),
        all_storable(m),
        words_distinct(m),
        counts_positive(m),
    ensures
        all_storable(sorted),
        words_distinct(sorted),
        counts_positive(sorted),
{
    let w = |r: RecordView| by_count(r);
    let perm = choose|perm: Seq<int>| stable_desc_by(m, sorted, perm, w);
    assert forall|i: int| 0 <= i < sorted.len() implies storable_word(#[trigger] sorted[i].0) by {
        assert(sorted[i] == m[perm[i]]);
    }
    assert forall|i: int| 0 <= i < sorted.len() implies (#[trigger] sorted[i]).1 > 0 by {
        assert(sorted[i] == m[perm[i]]);
    }
    assert forall|a: int, b: int| 0 <= a < sorted.len() && 0 <= b < sorted.len() && a != b implies (
    #[trigger] sorted[a]).0 != (#[trigger] sorted[b]).0 by {
        assert(sorted[a] == m[perm[a]] && sorted[b] == m[perm[b]]);
        assert(perm[a] != perm[b]);
    }
}

/// What `save` writes, `load` reads back: the same records, most used
/// first, for records whose words the format holds as they are.
pub proof fn lemma_saved_text_loads_back(m: Seq<RecordView>, text: Seq<char>)
    requires
        saved_as(m, text),
        all_storable(m),
        words_distinct(m),
        counts_positive(m),
    ensures
        sorted_by_count(m, parse_freq(text)),
{
    let sorted = choose|sorted: Seq<RecordView>| #[trigger] sorted_by_count(m, sorted) && text == freq_text(sorted);
    lemma_sorted_keeps(m, sorted);
    lemma_freq_text_reads_back(sorted);
}

/// Setting the record of `word` gives `word` that count and leaves every
/// other word's count as it was.
pub proof fn lemma_set_counts(m: Seq<RecordView>, word: Seq<char>, count: u32, last_used: u64, other: Seq<char>)
    requires
        words_distinct(m),
    ensures
        count_in(freq_set(m, word, count, last_used), word) == count,
        other != word ==> count_in(freq_set(m, word, count, last_used), other) == count_in(m, other),
        words_distinct(freq_set(m, word, count, last_used)),
{
    let m2 = freq_set(m, word, count, last_used);
    if has_word(m, word) {
        let i = choose|i: int| 0 <= i < m.len() && m[i].0 == word;
        assert(m2 == m.update(i, (word, count, last_used)));
        assert(m2[i].0 == word);
        let j = choose|j: int| 0 <= j < m2.len() && m2[j].0 == word;
        if j != i {
            assert(m[j].0 == word);
        }
        if other != word && has_word(m, other) {
            let k = choose|k: int| 0 <= k < m.len() && m[k].0 == other;
            assert(m2[k] == m[k]);
            let k2 = choose|k2: int| 0 <= k2 < m2.len() && m2[k2].0 == other;
            assert(k2 != i);
            assert(m2[k2] == m[k2]);
        }
        if other != word && !has_word(m, other) {
            if has_word(m2, other) {
                let k2 = choose|k2: int| 0 <= k2 < m2.len() && m2[k2].0 == other;
                assert(m2[k2] == m[k2]);
            }
        }
        assert forall|a: int, b: int| 0 <= a < m2.len() && 0 <= b < m2.len() && a != b implies (
        #[trigger] m2[a]).0 != (#[trigger] m2[b]).0 by {
            if a != i && b != i {
                assert(m2[a] == m[a] && m2[b] == m[b]);
            } else if a == i {
                assert(m2[b] == m[b]);
                assert(m[a].0 == word);
            } else {
                assert(m2[a] == m[a]);
                assert(m[b].0 == word);
            }
        }
    } else {
        assert(m2 == m.push((word, count, last_used)));
        let n = m.len() as int;
        assert(m2[n].0 == word);
        let j = choose|j: int| 0 <= j < m2.len() && m2[j].0 == word;
        if j < n {
            assert(m[j].0 == word);
        }
        if other != word && has_word(m, other) {
            let k = choose|k: int| 0 <= k < m.len() && m[k].0 == other;
            assert(m2[k] == m[k]);
            let k2 = choose|k2: int| 0 <= k2 < m2.len() && m2[k2].0 == other;
            assert(k2 != n);
            assert(m2[k2] == m[k2]);
        }
        if other != word && !has_word(m, other) {
            if has_word(m2, other) {
                let k2 = choose|k2: int| 0 <= k2 < m2.len() && m2[k2].0 == other;
                assert(k2 != n);
                assert(m2[k2] == m[k2]);
            }
        }
        assert forall|a: int, b: int| 0 <= a < m2.len() && 0 <= b < m2.len() && a != b implies (
        #[trigger] m2[a]).0 != (#[trigger] m2[b]).0 by {
            if a < n && b < n {
                assert(m2[a] == m[a] && m2[b] == m[b]);
            } else if a == n {
                assert(m2[b] == m[b]);
            } else {
                assert(m2[a] == m[a]);
            }
        }
    }
}

/// A record's count and position, to order records by.
struct Ranked {
    count: u32,
    at: usize,
}

impl Weighted for Ranked {
    closed spec fn weight_of(&self) -> u64 {
        self.count as u64
    }

    fn weight(&self) -> (w: u64) {
        self.count as u64
    }
}

/// The words the user chose, with how often and when.
pub struct UserFreq {
    records: Vec<FreqRecord>,
    index: Trie<usize>,
    path: String,
    dirty: bool,
}

/// `SystemTime::now`, as whole seconds since the Unix epoch (0 when the clock
/// is before it). The time is the machine's: nothing is claimed of the value.
#[verifier::external_body]
fn unix_now() -> u64 {
    std::time::SystemTime::now().duration_since(std::time::UNIX_EPOCH).unwrap_or_default().as_secs()
}

proof fn lemma_encode_injective(a: Seq<char>, b: Seq<char>)
    requires
        encode_utf8(a) == encode_utf8(b),
    ensures
        a == b,
{
    broadcast use encode_utf8_decode_utf8;

    assert(decode_utf8(encode_utf8(a)) == a);
    assert(decode_utf8(encode_utf8(b)) == b);
}

impl UserFreq {
    pub closed spec fn wf(&self) -> bool {
        &&& self.index.wf()
        &&& forall|i: int|
            0 <= i < self.records@.len() ==> self.index.entries_at(encode_utf8(#[trigger] self.records@[i].word@))
                == seq![i as usize]
        &&& forall|k: Seq<u8>|
            #[trigger] self.index.entries_at(k).len() > 0 ==> exists|i: int|
                0 <= i < self.records@.len() && k == encode_utf8(#[trigger] self.records@[i].word@)
        &&& forall|i: int| 0 <= i < self.records@.len() ==> (#[trigger] self.records@[i]).entry.count > 0
    }

    /// The records, in the order words were first seen.
    pub closed spec fn model(&self) -> Seq<RecordView> {
        self.records@.map_values(|r: FreqRecord| record_view(r))
    }

    /// Whether there are changes not yet saved.
    pub closed spec fn is_dirty(&self) -> bool {
        self.dirty
    }

    /// The file the records belong to.
    pub closed spec fn file(&self) -> Seq<char> {
        self.path@
    }

    proof fn lemma_words_distinct(&self, a: int, b: int)
        requires
            self.wf(),
            0 <= a < self.records@.len(),
            0 <= b < self.records@.len(),
            self.records@[a].word@ == self.records@[b].word@,
        ensures
            a == b,
    {
        assert(self.records.len() == self.records@.len());
        assert(self.index.entries_at(encode_utf8(self.records@[a].word@)) == seq![a as usize]);
        assert(self.index.entries_at(encode_utf8(self.records@[b].word@)) == seq![b as usize]);
        assert(seq![a as usize][0] == seq![b as usize][0]);
    }

    /// The records of a table have distinct words and count at least one use each.
    pub proof fn lemma_model(&self)
        requires
            self.wf(),
        ensures
            words_distinct(self.model()),
            counts_positive(self.model()),
    {
        let m = self.model();
        assert forall|a: int, b: int| 0 <= a < m.len() && 0 <= b < m.len() && a != b implies (#[trigger] m[a]).0 != (
        #[trigger] m[b]).0 by {
            if m[a].0 == m[b].0 {
                self.lemma_words_distinct(a, b);
            }
        }
        assert forall|i: int| 0 <= i < m.len() implies (#[trigger] m[i]).1 > 0 by {
            assert(m[i] == record_view(self.records@[i]));
        }
    }

    /// The position of the record of `word`, if any.
    fn find(&self, word: &str) -> (r: Option<usize>)
        requires
            self.wf(),
        ensures
            match r {
                Some(i) => i < self.records@.len() && self.records@[i as int].word@ == word@
                    && self.model()[i as int].0 == word@,
                None => !has_word(self.model(), word@),
            },
    {
        let ghost kb = encode_utf8(word@);
        assert(self.records.len() == self.records@.len());
        match self.index.lookup(word) {
            Some(v) => {
                if v.len() > 0 {
                    proof {
                        let j = choose|j: int|
                            0 <= j < self.records@.len() && kb == encode_utf8(#[trigger] self.records@[j].word@);
                        assert(self.index.entries_at(kb) == seq![j as usize]);
                        lemma_encode_injective(self.records@[j].word@, word@);
                        assert(v@[0] == j);
                    }
                    Some(v[0])
                } else {
                    proof {
                        self.lemma_absent(word@);
                    }
                    None
                }
            },
            None => {
                proof {
                    self.lemma_absent(word@);
                }
                None
            },
        }
    }

    proof fn lemma_absent(&self, word: Seq<char>)
        requires
            self.wf(),
            self.index.entries_at(encode_utf8(word)).len() == 0,
        ensures
            !has_word(self.model(), word),
    {
        if has_word(self.model(), word) {
            let j = choose|j: int| 0 <= j < self.model().len() && self.model()[j].0 == word;
            assert(self.records@[j].word@ == word);
            assert(self.index.entries_at(encode_utf8(self.records@[j].word@)) == seq![j as usize]);
        }
    }

    /// Sets the record of `word`.
    fn set(&mut self, word: &str, count: u32, last_used: u64)
        requires
            old(self).wf(),
            count > 0,
        ensures
            final(self).wf(),
            final(self).model() == freq_set(old(self).model(), word@, count, last_used),
            final(self).dirty == old(self).dirty,
            final(self).path == old(self).path,
    {
        let ghost m0 = self.model();
        let ghost kb = encode_utf8(word@);
        match self.find(word) {
            Some(i) => {
                proof {
                    assert(m0.len() == self.records@.len());
                    assert(m0[i as int].0 == word@);
                    let j = choose|j: int| 0 <= j < m0.len() && m0[j].0 == word@;
                    assert(m0[j] == record_view(self.records@[j]));
                    self.lemma_words_distinct(i as int, j);
                }
                self.records[i].entry = FreqEntry { count, last_used };
                proof {
                    assert forall|h: int|
                        0 <= h < self.records@.len() implies self.index.entries_at(encode_utf8(#[trigger] self.records@[h].word@))
                        == seq![h as usize] by {
                        assert(self.records@[h].word == old(self).records@[h].word);
                    }
                    assert forall|k: Seq<u8>|
                        #[trigger] self.index.entries_at(k).len() > 0 implies exists|h: int|
                        0 <= h < self.records@.len() && k == encode_utf8(#[trigger] self.records@[h].word@) by {
                        let h = choose|h: int| 0 <= h < old(self).records@.len() && k == encode_utf8(#[trigger] old(self).records@[h].word@);
                        assert(self.records@[h].word == old(self).records@[h].word);
                    }
                    assert(self.model() =~= freq_set(m0, word@, count, last_used));
                }
            },
            None => {
                let n = self.records.len();
                self.index.insert(word, n);
                let mut w = String::new();
                let v = chars_of(word);
                let mut t: usize = 0;
                while t < v.len()
                    invariant
                        t <= v@.len(),
                        v@ == word@,
                        w@ == v@.take(t as int),
                    decreases v.len() - t,
                {
                    push_char(&mut w, v[t]);
                    t = t + 1;
                    assert(w@ =~= v@.take(t as int));
                }
                assert(v@.take(t as int) =~= v@);
                self.records.push(FreqRecord { word: w, entry: FreqEntry { count, last_used } });
                proof {
                    let len = self.records@.len();
                    assert(self.records.len() == self.records@.len());
                    assert forall|h: int|
                        0 <= h < len implies self.index.entries_at(encode_utf8(#[trigger] self.records@[h].word@))
                        == seq![h as usize] by {
                        if h < len - 1 {
                            assert(self.records@[h] == old(self).records@[h]);
                            if encode_utf8(self.records@[h].word@) == kb {
                                lemma_encode_injective(self.records@[h].word@, word@);
                                assert(m0[h].0 == word@);
                            }
                        } else {
                            assert(old(self).index.entries_at(kb) == Seq::<usize>::empty()) by {
                                if old(self).index.entries_at(kb).len() > 0 {
                                    let j = choose|j: int| 0 <= j < old(self).records@.len() && kb == encode_utf8(#[trigger] old(self).records@[j].word@);
                                    lemma_encode_injective(old(self).records@[j].word@, word@);
                                    assert(m0[j].0 == word@);
                                }
                            }
                        }
                    }
                    assert forall|k: Seq<u8>|
                        #[trigger] self.index.entries_at(k).len() > 0 implies exists|h: int|
                        0 <= h < self.records@.len() && k == encode_utf8(#[trigger] self.records@[h].word@) by {
                        if k == kb {
                            assert(self.records@[len - 1].word@ == word@);
                        } else {
                            let h = choose|h: int| 0 <= h < old(self).records@.len() && k == encode_utf8(#[trigger] old(self).records@[h].word@);
                            assert(self.records@[h] == old(self).records@[h]);
                        }
                    }
                    assert(self.model() =~= m0.push((word@, count, last_used)));
                }
            },
        }
    }

    /// No records yet, for the file at `path`.
    pub fn empty(path: &str) -> (r: Self)
        ensures
            r.wf(),
            r.model() == Seq::<RecordView>::empty(),
            !r.is_dirty(),
            r.file() == path@,
    {
        let v = chars_of(path);
        let p = string_of(&v, 0, v.len());
        assert(v@.subrange(0, v@.len() as int) =~= v@);
        let r = UserFreq { records: Vec::new(), index: Trie::new(), path: p, dirty: false };
        assert(r.model() =~= Seq::<RecordView>::empty());
        r
    }

    /// The records of the frequency file at `path`, given its text when it
    /// could be read (`None`: no records).
    pub fn load(path: &str, content: Option<&str>) -> (r: Self)
        ensures
            r.wf(),
            r.model() == match content {
                Some(c) => parse_freq(c@),
                None => Seq::<RecordView>::empty(),
            },
            !r.is_dirty(),
            r.file() == path@,
    {
        let mut r = UserFreq::empty(path);
        match content {
            None => {},
            Some(c) => {
                let v = chars_of(c);
                let lines = split_ranges(&v, 0, v.len(), '\n');
                let ghost ls = split_on(v@.subrange(0, v@.len() as int), '\n');
                assert(v@.subrange(0, v@.len() as int) =~= c@);
                let mut li: usize = 0;
                while li < lines.len()
                    invariant
                        r.wf(),
                        !r.dirty,
                        r.path@ == path@,
                        li <= lines@.len(),
                        lines@.len() == ls.len(),
                        forall|k: int|
                            0 <= k < lines@.len() ==> 0 <= (#[trigger] lines@[k]).0 <= lines@[k].1 <= v@.len()
                                && v@.subrange(lines@[k].0 as int, lines@[k].1 as int) == ls[k],
                        r.model() == freq_records(ls.take(li as int)),
                    decreases lines.len() - li,
                {
                    let (lo, hi) = lines[li];
                    assert(ls.take(li + 1).drop_last() =~= ls.take(li as int));
                    match parse_freq_line(&v, lo, hi) {
                        Some((word, count, last_used)) => {
                            r.set(word.as_str(), count, last_used);
                        },
                        None => {},
                    }
                    li = li + 1;
                }
                assert(ls.take(lines@.len() as int) =~= ls);
            },
        }
        r
    }

    /// How often `text` was chosen (0 when never).
    pub fn count(&self, text: &str) -> (n: u32)
        requires
            self.wf(),
        ensures
            n == count_in(self.model(), text@),
    {
        match self.find(text) {
            Some(i) => {
                proof {
                    assert(self.model().len() == self.records@.len());
                    let j = choose|j: int| 0 <= j < self.model().len() && self.model()[j].0 == text@;
                    assert(self.model()[j] == record_view(self.records@[j]));
                    self.lemma_words_distinct(i as int, j);
                }
                self.records[i].entry.count
            },
            None => 0,
        }
    }

    /// Records that `text` was chosen at `now`: one more use, last used `now`.
    pub fn record_at(&mut self, text: &str, now: u64)
        requires
            old(self).wf(),
            count_in(old(self).model(), text@) < u32::MAX,
        ensures
            final(self).wf(),
            final(self).model() == freq_set(
                old(self).model(),
                text@,
                (count_in(old(self).model(), text@) + 1) as u32,
                now,
            ),
            count_in(final(self).model(), text@) == count_in(old(self).model(), text@) + 1,
            forall|other: Seq<char>|
                other != text@ ==> #[trigger] count_in(final(self).model(), other) == count_in(old(self).model(), other),
            final(self).is_dirty(),
            final(self).file() == old(self).file(),
    {
        proof {
            self.lemma_model();
        }
        let ghost m0 = self.model();
        let c = self.count(text);
        self.set(text, c + 1, now);
        self.dirty = true;
        proof {
            lemma_set_counts(m0, text@, (c + 1) as u32, now, text@);
            assert forall|other: Seq<char>|
                other != text@ implies #[trigger] count_in(self.model(), other) == count_in(m0, other) by {
                lemma_set_counts(m0, text@, (c + 1) as u32, now, other);
            }
        }
    }

    /// Records that `text` was chosen now (see `record_at`).
    pub fn record(&mut self, text: &str)
        requires
            old(self).wf(),
            count_in(old(self).model(), text@) < u32::MAX,
        ensures
            final(self).wf(),
            exists|now: u64|
                final(self).model() == #[trigger] freq_set(
                    old(self).model(),
                    text@,
                    (count_in(old(self).model(), text@) + 1) as u32,
                    now,
                ),
            count_in(final(self).model(), text@) == count_in(old(self).model(), text@) + 1,
            forall|other: Seq<char>|
                other != text@ ==> #[trigger] count_in(final(self).model(), other) == count_in(old(self).model(), other),
            final(self).is_dirty(),
            final(self).file() == old(self).file(),
    {
        let now = unix_now();
        self.record_at(text, now);
    }

    /// The text to write to the file when there are unsaved changes
    /// (`None`: nothing to write).
    pub fn save(&self) -> (r: Option<String>)
        requires
            self.wf(),
        ensures
            !self.is_dirty() ==> r is None,
            self.is_dirty() ==> (r matches Some(text) && saved_as(self.model(), text@)),
    {
        if !self.dirty {
            return None;
        }
        let ghost m = self.model();
        let n = self.records.len();
        let mut ranked: Vec<Ranked> = Vec::new();
        let mut i: usize = 0;
        while i < n
            invariant
                n == self.records@.len(),
                i <= n,
                ranked@.len() == i,
                forall|j: int|
                    0 <= j < i ==> (#[trigger] ranked@[j]).at == j && ranked@[j].count
                        == self.records@[j].entry.count,
            decreases n - i,
        {
            ranked.push(Ranked { count: self.records[i].entry.count, at: i });
            i = i + 1;
        }
        let ghost input = ranked@;
        let sorted = sort_by_weight_desc(ranked);
        let ghost f = |x: Ranked| (m[x.at as int].0, x.count, m[x.at as int].2);
        let ghost out = sorted@.map_values(f);
        let ghost wr = |x: Ranked| x.weight_of();
        proof {
            assert(m.len() == n);
            lemma_stable_sorted_map(input, sorted@, wr, f, |r: RecordView| by_count(r));
            assert(input.map_values(f) =~= m) by {
                assert forall|j: int| 0 <= j < m.len() implies input.map_values(f)[j] == m[j] by {
                    assert(m[j] == record_view(self.records@[j]));
                }
            }
            let perm = choose|perm: Seq<int>| stable_desc_by(input, sorted@, perm, wr);
            assert forall|k: int| 0 <= k < sorted@.len() implies (#[trigger] sorted@[k]).at < n
                && sorted@[k].count == self.records@[sorted@[k].at as int].entry.count by {
                assert(sorted@[k] == input[perm[k]]);
            }
        }
        let mut content = "# user frequency data\n".to_owned();
        let mut k: usize = 0;
        while k < sorted.len()
            invariant
                n == self.records@.len(),
                m == self.model(),
                k <= sorted@.len(),
                out == sorted@.map_values(f),
                f == (|x: Ranked| (m[x.at as int].0, x.count, m[x.at as int].2)),
                forall|q: int|
                    0 <= q < sorted@.len() ==> (#[trigger] sorted@[q]).at < n && sorted@[q].count
                        == self.records@[sorted@[q].at as int].entry.count,
                content@ == freq_header() + record_lines(out.take(k as int)),
            decreases sorted@.len() - k,
        {
            let at = sorted[k].at;
            let rec = &self.records[at];
            let ghost before = content@;
            content.append(rec.word.as_str());
            push_char(&mut content, '\t');
            push_decimal(&mut content, rec.entry.count as u64);
            push_char(&mut content, '\t');
            push_decimal(&mut content, rec.entry.last_used);
            push_char(&mut content, '\n');
            proof {
                assert(m[at as int] == record_view(self.records@[at as int]));
                assert(out[k as int] == f(sorted@[k as int]));
                assert(out.take(k + 1).drop_last() =~= out.take(k as int));
                assert(content@ =~= before + record_line(out[k as int]));
            }
            k = k + 1;
        }
        proof {
            assert(out.take(k as int) =~= out);
            assert(sorted_by_count(m, out));
        }
        Some(content)
    }

    /// The file the records belong to.
    pub fn path(&self) -> (p: &str)
        ensures
            p@ == self.file(),
    {
        self.path.as_str()
    }
}

/// Reads one line `v[lo..hi]` of a frequency file.
fn parse_freq_line(v: &Vec<char>, lo: usize, hi: usize) -> (r: Option<(String, u32, u64)>)
    requires
        lo <= hi <= v@.len(),
    ensures
        match freq_line(v@.subrange(lo as int, hi as int)) {
            Some(x) => r matches Some(y) && y.0@ == x.0 && y.1 == x.1 && y.2 == x.2,
            None => r is None,
        },
{
    let (a, b) = trim_range(v, lo, hi);
    if a == b || v[a] == '#' {
        return None;
    }
    let parts = split_ranges(v, a, b, '\t');
    if parts.len() < 2 {
        return None;
    }
    let count = match parse_u32(v, parts[1].0, parts[1].1) {
        Some(n) => n,
        None => 0,
    };
    let last_used = if parts.len() > 2 {
        match parse_u64(v, parts[2].0, parts[2].1) {
            Some(n) => n,
            None => 0,
        }
    } else {
        0
    };
    if count > 0 {
        Some((string_of(v, parts[0].0, parts[0].1), count, last_used))
    } else {
        None
    }
}

} // verus!
