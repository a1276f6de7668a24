use vstd::prelude::*;

use std::sync::Arc;

use crate::sort::{sort_by_weight_desc, stable_sorted_desc, lemma_stable_sorted_map, Weighted};
use crate::trie::Trie;
use crate::dict_compiler::{cache_image, decode_cache, decode_cache_entries, compile_to_cache};
use vstd::utf8::{decode_utf8, encode_utf8, encode_utf8_decode_utf8};
use vstd::string::StringSliceAdditionalSpecFns;
use crate::text::{
    chars_of, decimal, is_digit, is_whitespace, lemma_parse_decimal, lemma_split_on_concat,
    lemma_split_on_whole, lemma_trim_trimmed, lowercase, push_char, parse_bounded, parse_u32,
    split_on, split_ranges, string_of, string_without_whitespace, to_lowercase, trim, trim_range,
    trim_end, trim_start, without_whitespace,
};

verus! {

/// A dictionary word and its weight.
pub struct DictCandidate {
    pub text: String,
    pub weight: u32,
}

impl Clone for DictCandidate {
    fn clone(&self) -> (r: Self)
        ensures
            r == *self,
    {
        DictCandidate { text: self.text.clone(), weight: self.weight }
    }
}

impl View for DictCandidate {
    type V = (Seq<char>, u32);

    open spec fn view(&self) -> (Seq<char>, u32) {
        (self.text@, self.weight)
    }
}

impl Weighted for DictCandidate {
    open spec fn weight_of(&self) -> u64 {
        self.weight as u64
    }

    fn weight(&self) -> (w: u64) {
        self.weight as u64
    }
}

/// The weight of a word, in the view of a dictionary entry.
pub open spec fn cand_weight(c: (Seq<char>, u32)) -> u64 {
    c.1 as u64
}

/// A dictionary weight scaled by the word's length in characters, to favour
/// phrases over runs of single characters: ×1 for one character, ×2 for two,
/// ×3 for three, ×4 for four or more; saturating, and never below 1.
pub open spec fn spec_adjust_weight(raw_weight: u32, char_count: nat) -> u32 {
    let m: nat = if char_count <= 1 {
        1
    } else if char_count == 2 {
        2
    } else if char_count == 3 {
        3
    } else {
        4
    };
    let p = raw_weight as nat * m;
    if p == 0 {
        1
    } else if p > u32::MAX {
        u32::MAX
    } else {
        p as u32
    }
}

pub fn adjust_weight(raw_weight: u32, char_count: usize) -> (w: u32)
    ensures
        w == spec_adjust_weight(raw_weight, char_count as nat),
{
    let m: u64 = if char_count <= 1 {
        1
    } else if char_count == 2 {
        2
    } else if char_count == 3 {
        3
    } else {
        4
    };
    let p = raw_weight as u64 * m;
    if p == 0 {
        1
    } else if p > u32::MAX as u64 {
        u32::MAX
    } else {
        p as u32
    }
}

/// The weight multiplier grows with the word's length up to four characters
/// and stays at four beyond: the weight is `raw_weight` times the character
/// count clamped to `1..=4`, kept within `1..=u32::MAX`.
pub proof fn lemma_adjust_weight_multiplier(raw_weight: u32, char_count: nat)
    ensures
        ({
            let m: int = if char_count < 1 {
                1
            } else if char_count > 4 {
                4
            } else {
                char_count as int
            };
            let p: int = raw_weight * m;
            spec_adjust_weight(raw_weight, char_count) as int == if p < 1 {
                1
            } else if p > u32::MAX {
                u32::MAX as int
            } else {
                p
            }
        }),
        char_count >= 4 ==> spec_adjust_weight(raw_weight, char_count) == spec_adjust_weight(raw_weight, 4),
{
}

/// A longer word never weighs less than a shorter one of the same raw weight.
pub proof fn lemma_adjust_weight_monotone(raw_weight: u32, c1: nat, c2: nat)
    requires
        c1 <= c2,
    ensures
        spec_adjust_weight(raw_weight, c1) <= spec_adjust_weight(raw_weight, c2),
{
    lemma_adjust_weight_multiplier(raw_weight, c1);
    lemma_adjust_weight_multiplier(raw_weight, c2);
    let m1: int = if c1 < 1 { 1 } else if c1 > 4 { 4 } else { c1 as int };
    let m2: int = if c2 < 1 { 1 } else if c2 > 4 { 4 } else { c2 as int };
    assert(raw_weight * m1 <= raw_weight * m2) by (nonlinear_arith)
        requires m1 <= m2, raw_weight >= 0;
}

/// A line whose trimmed text is empty, starts with `#`, or is `---` or `...`
/// gives no entry, in a dictionary of any kind.
pub proof fn lemma_comment_lines_skipped(kind: DictKind, line: Seq<char>)
    requires
        ({
            let t = trim(line);
            ||| t.len() == 0
            ||| t[0] == '#'
            ||| t == "---"@
            ||| t == "..."@
        }),
    ensures
        dict_line(kind, line) is None,
{
    reveal_strlit("---");
    reveal_strlit("...");
    let t = trim(line);
    if t == "---"@ {
        assert(t =~= seq!['-', '-', '-']);
    }
    if t == "..."@ {
        assert(t =~= seq!['.', '.', '.']);
    }
}

/// The fields a dictionary line gives: its word (or Chinese text) is the
/// trimmed first tab field and its second item the trimmed second field as
/// it stands (for a bilingual line), inner whitespace kept.
pub proof fn lemma_bilingual_fields(line: Seq<char>)
    ensures
        bilingual_line(line) matches Some(x) ==> {
            &&& x.0 == trim(split_on(trim(line), '\t')[0])
            &&& x.1 == trim(split_on(trim(line), '\t')[1])
        },
{
}

/// Text that can stand as a tab field as it is: not empty, no tab or line
/// break, no whitespace at either end.
pub open spec fn plain_field(f: Seq<char>) -> bool {
    &&& f.len() > 0
    &&& !is_whitespace(f[0])
    &&& !is_whitespace(f.last())
    &&& forall|i: int| 0 <= i < f.len() ==> f[i] != '\t' && f[i] != '\n'
}

/// A bilingual line `chinese<TAB>english<TAB>weight` reads as exactly those
/// three: the English text keeps its inner spaces.
pub proof fn lemma_bilingual_line_reads(chinese: Seq<char>, english: Seq<char>, weight: u32)
    requires
        plain_field(chinese),
        plain_field(english),
        chinese[0] != '#',
    ensures
        bilingual_line(chinese + seq!['\t'] + english + seq!['\t'] + decimal(weight as nat)) == Some(
            (chinese, english, weight),
        ),
{
    let d = decimal(weight as nat);
    lemma_parse_decimal(weight as nat);
    assert(is_digit(d[d.len() - 1]));
    assert forall|i: int| 0 <= i < d.len() implies d[i] != '\t' by {
        assert(is_digit(d[i]));
    }
    let l = chinese + seq!['\t'] + english + seq!['\t'] + d;
    assert(l[0] == chinese[0]);
    assert(l.last() == d.last());
    lemma_trim_trimmed(l);
    lemma_trim_trimmed(chinese);
    lemma_trim_trimmed(english);
    lemma_trim_trimmed(d);
    let s1 = chinese.push('\t');
    let t1 = english + seq!['\t'] + d;
    assert(l =~= s1 + t1);
    lemma_split_on_concat(s1, t1, '\t');
    lemma_split_on_whole(chinese, '\t');
    assert(s1.drop_last() =~= chinese);
    assert(split_on(s1, '\t') == split_on(chinese, '\t').push(Seq::<char>::empty()));
    let s2 = english.push('\t');
    assert(t1 =~= s2 + d);
    lemma_split_on_concat(s2, d, '\t');
    lemma_split_on_whole(english, '\t');
    lemma_split_on_whole(d, '\t');
    assert(s2.drop_last() =~= english);
    assert(split_on(s2, '\t') == split_on(english, '\t').push(Seq::<char>::empty()));
    assert(split_on(l, '\t') =~= seq![chinese, english, d]);
    assert(!is_skipped(l)) by {
        if l == seq!['-', '-', '-'] || l == seq!['.', '.', '.'] {
            assert(l.len() == 3);
            assert(l[chinese.len() as int] == '\t');
        }
    }
}

/// A trimmed line that carries no entry: empty, a comment, or a YAML document marker.
pub open spec fn is_skipped(l: Seq<char>) -> bool {
    ||| l.len() == 0
    ||| l[0] == '#'
    ||| l == seq!['-', '-', '-']
    ||| l == seq!['.', '.', '.']
}

fn skipped(v: &Vec<char>, lo: usize, hi: usize) -> (b: bool)
    requires
        lo <= hi <= v@.len(),
    ensures
        b == is_skipped(v@.subrange(lo as int, hi as int)),
{
    let ghost l = v@.subrange(lo as int, hi as int);
    if lo == hi {
        return true;
    }
    if v[lo] == '#' {
        return true;
    }
    if hi - lo == 3 {
        let (a, b, c) = (v[lo], v[lo + 1], v[lo + 2]);
        if a == '-' && b == '-' && c == '-' {
            assert(l =~= seq!['-', '-', '-']);
            return true;
        }
        if a == '.' && b == '.' && c == '.' {
            assert(l =~= seq!['.', '.', '.']);
            return true;
        }
        assert(l[0] == a && l[1] == b && l[2] == c);
        assert(seq!['-', '-', '-'][0] == '-' && seq!['-', '-', '-'][1] == '-' && seq!['-', '-', '-'][2] == '-');
        assert(seq!['.', '.', '.'][0] == '.' && seq!['.', '.', '.'][1] == '.' && seq!['.', '.', '.'][2] == '.');
    }
    assert(seq!['-', '-', '-'].len() == 3 && seq!['.', '.', '.'].len() == 3);
    false
}

/// The weight in the third field, or 1 when there is none or it is not a `u32`.
pub open spec fn field_weight(parts: Seq<Seq<char>>) -> u32 {
    if parts.len() > 2 {
        match parse_bounded(trim(parts[2]), u32::MAX as nat) {
            Some(n) => n as u32,
            None => 1,
        }
    } else {
        1
    }
}

fn weight_field(v: &Vec<char>, parts: &Vec<(usize, usize)>, lo: usize, hi: usize) -> (w: u32)
    requires
        lo <= hi <= v@.len(),
        parts@.len() == split_on(v@.subrange(lo as int, hi as int), '\t').len(),
        forall|k: int|
            0 <= k < parts@.len() ==> lo <= (#[trigger] parts@[k]).0 <= parts@[k].1 <= hi && v@.subrange(
                parts@[k].0 as int,
                parts@[k].1 as int,
            ) == split_on(v@.subrange(lo as int, hi as int), '\t')[k],
    ensures
        w == field_weight(split_on(v@.subrange(lo as int, hi as int), '\t')),
{
    if parts.len() > 2 {
        let (a, b) = trim_range(v, parts[2].0, parts[2].1);
        match parse_u32(v, a, b) {
            Some(n) => n,
            None => 1,
        }
    } else {
        1
    }
}

/// A line of a Chinese dictionary (`word<TAB>syllables<TAB>weight`): the key
/// (the syllables with whitespace removed), the word, and its adjusted weight.
pub open spec fn zh_line(line: Seq<char>) -> Option<(Seq<char>, Seq<char>, u32)> {
    let l = trim(line);
    let parts = split_on(l, '\t');
    if is_skipped(l) || parts.len() < 2 {
        None
    } else {
        let word = trim(parts[0]);
        let code = trim(parts[1]);
        if word.len() == 0 || code.len() == 0 {
            None
        } else {
            Some((without_whitespace(code), word, spec_adjust_weight(field_weight(parts), word.len())))
        }
    }
}

/// A line of an English dictionary (`word<TAB>code<TAB>weight`): the lowercased
/// code, the word, and its weight.
pub open spec fn en_line(line: Seq<char>) -> Option<(Seq<char>, Seq<char>, u32)> {
    let l = trim(line);
    let parts = split_on(l, '\t');
    if is_skipped(l) || parts.len() < 2 {
        None
    } else {
        let word = trim(parts[0]);
        let code = lowercase(trim(parts[1]));
        if word.len() == 0 || code.len() == 0 {
            None
        } else {
            Some((code, word, field_weight(parts)))
        }
    }
}

/// A line of a bilingual dictionary (`chinese<TAB>english<TAB>weight`).
pub open spec fn bilingual_line(line: Seq<char>) -> Option<(Seq<char>, Seq<char>, u32)> {
    let l = trim(line);
    let parts = split_on(l, '\t');
    if is_skipped(l) || parts.len() < 2 {
        None
    } else {
        let chinese = trim(parts[0]);
        let english = trim(parts[1]);
        if chinese.len() == 0 || english.len() == 0 {
            None
        } else {
            Some((chinese, english, field_weight(parts)))
        }
    }
}

/// The kinds of tab-separated dictionary files.
#[derive(Clone, Copy, PartialEq, Eq)]
pub enum DictKind {
    Chinese,
    English,
    Bilingual,
}

pub open spec fn dict_line(kind: DictKind, line: Seq<char>) -> Option<(Seq<char>, Seq<char>, u32)> {
    match kind {
        DictKind::Chinese => zh_line(line),
        DictKind::English => en_line(line),
        DictKind::Bilingual => bilingual_line(line),
    }
}

/// Reads the line `v[lo..hi]` of a dictionary of the given kind.
pub fn parse_dict_line(kind: DictKind, v: &Vec<char>, lo: usize, hi: usize) -> (r: Option<(String, String, u32)>)
    requires
        lo <= hi <= v@.len(),
    ensures
        match dict_line(kind, v@.subrange(lo as int, hi as int)) {
            Some((a, b, w)) => r matches Some(x) && x.0@ == a && x.1@ == b && x.2 == w,
            None => r is None,
        },
{
    let ghost line = v@.subrange(lo as int, hi as int);
    let (a, b) = trim_range(v, lo, hi);
    let ghost l = v@.subrange(a as int, b as int);
    if skipped(v, a, b) {
        return None;
    }
    let parts = split_ranges(v, a, b, '\t');
    if parts.len() < 2 {
        return None;
    }
    let ghost sp = split_on(l, '\t');
    let (w0, w1) = trim_range(v, parts[0].0, parts[0].1);
    let (c0, c1) = trim_range(v, parts[1].0, parts[1].1);
    assert(v@.subrange(w0 as int, w1 as int) == trim(sp[0]));
    assert(v@.subrange(c0 as int, c1 as int) == trim(sp[1]));
    if w0 == w1 {
        return None;
    }
    let weight = weight_field(v, &parts, a, b);
    let word = string_of(v, w0, w1);
    match kind {
        DictKind::Chinese => {
            if c0 == c1 {
                return None;
            }
            let key = string_without_whitespace(v, c0, c1);
            Some((key, word, adjust_weight(weight, w1 - w0)))
        },
        DictKind::English => {
            let raw_code = string_of(v, c0, c1);
            let code = to_lowercase(raw_code.as_str());
            if code.as_str().is_empty() {
                return None;
            }
            Some((code, word, weight))
        },
        DictKind::Bilingual => {
            if c0 == c1 {
                return None;
            }
            let english = string_of(v, c0, c1);
            Some((word, english, weight))
        },
    }
}

/// The lines of all the files, in order (each file split at `\n`).
pub open spec fn all_lines(contents: Seq<Seq<char>>) -> Seq<Seq<char>>
    decreases contents.len(),
{
    if contents.len() == 0 {
        Seq::empty()
    } else {
        all_lines(contents.drop_last()) + split_on(contents.last(), '\n')
    }
}

/// The entries that the lines carry, in order.
pub open spec fn dict_entries(kind: DictKind, lines: Seq<Seq<char>>) -> Seq<(Seq<char>, Seq<char>, u32)>
    decreases lines.len(),
{
    if lines.len() == 0 {
        Seq::empty()
    } else {
        let r = dict_entries(kind, lines.drop_last());
        match dict_line(kind, lines.last()) {
            Some(e) => r.push(e),
            None => r,
        }
    }
}

pub open spec fn string_views(v: Seq<String>) -> Seq<Seq<char>> {
    v.map_values(|s: String| s@)
}

pub open spec fn triple_view(t: (String, String, u32)) -> (Seq<char>, Seq<char>, u32) {
    (t.0@, t.1@, t.2)
}

/// Reads every line of every file of the given kind; the entries they carry, in order.
pub fn parse_entries(kind: DictKind, contents: &Vec<String>) -> (r: Vec<(String, String, u32)>)
    ensures
        r@.map_values(|t: (String, String, u32)| triple_view(t)) == dict_entries(
            kind,
            all_lines(string_views(contents@)),
        ),
{
    let ghost cs = string_views(contents@);
    let mut r: Vec<(String, String, u32)> = Vec::new();
    let mut f: usize = 0;
    while f < contents.len()
        invariant
            f <= contents@.len(),
            cs == string_views(contents@),
            r@.map_values(|t: (String, String, u32)| triple_view(t)) == dict_entries(
                kind,
                all_lines(cs.take(f as int)),
            ),
        decreases contents.len() - f,
    {
        let v = chars_of(contents[f].as_str());
        let lines = split_ranges(&v, 0, v.len(), '\n');
        let ghost before = all_lines(cs.take(f as int));
        let ghost here = split_on(v@.subrange(0, v@.len() as int), '\n');
        assert(v@.subrange(0, v@.len() as int) =~= v@);
        assert(cs.take(f + 1).drop_last() =~= cs.take(f as int));
        assert(all_lines(cs.take(f + 1)) == before + here);
        let mut li: usize = 0;
        while li < lines.len()
            invariant
                f < contents@.len(),
                cs == string_views(contents@),
                li <= lines@.len(),
                lines@.len() == here.len(),
                forall|k: int|
                    0 <= k < lines@.len() ==> 0 <= (#[trigger] lines@[k]).0 <= lines@[k].1 <= v@.len()
                        && v@.subrange(lines@[k].0 as int, lines@[k].1 as int) == here[k],
                r@.map_values(|t: (String, String, u32)| triple_view(t)) == dict_entries(kind, before + here.take(li as int)),
            decreases lines.len() - li,
        {
            let (lo, hi) = lines[li];
            let ghost old_r = r@;
            assert((before + here.take(li + 1)).drop_last() =~= before + here.take(li as int));
            assert((before + here.take(li + 1)).last() == here[li as int]);
            match parse_dict_line(kind, &v, lo, hi) {
                Some(t) => {
                    r.push(t);
                    assert(r@.map_values(|t: (String, String, u32)| triple_view(t)) =~= old_r.map_values(
                        |t: (String, String, u32)| triple_view(t),
                    ).push(triple_view(t)));
                },
                None => {},
            }
            li = li + 1;
        }
        assert(here.take(lines@.len() as int) =~= here);
        f = f + 1;
    }
    assert(cs.take(contents@.len() as int) =~= cs);
    r
}

/// Entries grouped by key, in order of first appearance of each key; each
/// group keeps its entries (word, weight) in order of appearance.
pub type GroupsView = Seq<(Seq<char>, Seq<(Seq<char>, u32)>)>;

pub open spec fn has_group(m: GroupsView, key: Seq<char>) -> bool {
    exists|g: int| 0 <= g < m.len() && m[g].0 == key
}

/// Adds one entry to its key's group, opening a new group for a new key.
pub open spec fn pending_push(m: GroupsView, key: Seq<char>, e: (Seq<char>, u32)) -> GroupsView {
    if has_group(m, key) {
        let g = choose|g: int| 0 <= g < m.len() && m[g].0 == key;
        m.update(g, (key, m[g].1.push(e)))
    } else {
        m.push((key, seq![e]))
    }
}

/// No key has two groups.
pub open spec fn keys_distinct(m: GroupsView) -> bool {
    forall|a: int, b: int| 0 <= a < m.len() && 0 <= b < m.len() && a != b ==> (#[trigger] m[a]).0 != (#[trigger] m[b]).0
}

/// The entries of the group of `key` (empty when it has none).
pub open spec fn group_of(m: GroupsView, key: Seq<char>) -> Seq<(Seq<char>, u32)> {
    if has_group(m, key) {
        m[choose|g: int| 0 <= g < m.len() && m[g].0 == key].1
    } else {
        Seq::empty()
    }
}

/// Adding an entry to the group of `key` appends it to that group and
/// leaves every other key's group as it was; keys stay distinct.
pub proof fn lemma_push_groups(m: GroupsView, key: Seq<char>, e: (Seq<char>, u32), other: Seq<char>)
    requires
        keys_distinct(m),
    ensures
        group_of(pending_push(m, key, e), key) == group_of(m, key).push(e),
        other != key ==> group_of(pending_push(m, key, e), other) == group_of(m, other),
        keys_distinct(pending_push(m, key, e)),
{
    let m2 = pending_push(m, key, e);
    if has_group(m, key) {
        let i = choose|i: int| 0 <= i < m.len() && m[i].0 == key;
        assert(m2 == m.update(i, (key, m[i].1.push(e))));
        assert(m2[i].0 == key);
        let j = choose|j: int| 0 <= j < m2.len() && m2[j].0 == key;
        if j != i {
            assert(m[j].0 == key);
        }
        if other != key && has_group(m, other) {
            let k = choose|k: int| 0 <= k < m.len() && m[k].0 == other;
            assert(m2[k] == m[k]);
            let k2 = choose|k2: int| 0 <= k2 < m2.len() && m2[k2].0 == other;
            assert(k2 != i);
            assert(m2[k2] == m[k2]);
        }
        if other != key && !has_group(m, other) {
            if has_group(m2, other) {
                let k2 = choose|k2: int| 0 <= k2 < m2.len() && m2[k2].0 == other;
                assert(m2[k2] == m[k2]);
            }
        }
        assert forall|a: int, b: int| 0 <= a < m2.len() && 0 <= b < m2.len() && a != b implies (
        #[trigger] m2[a]).0 != (#[trigger] m2[b]).0 by {
            if a != i && b != i {
                assert(m2[a] == m[a] && m2[b] == m[b]);
            } else if a == i {
                assert(m2[b] == m[b]);
                assert(m[a].0 == key);
            } else {
                assert(m2[a] == m[a]);
                assert(m[b].0 == key);
            }
        }
    } else {
        assert(m2 == m.push((key, seq![e])));
        let n = m.len() as int;
        assert(m2[n].0 == key);
        let j = choose|j: int| 0 <= j < m2.len() && m2[j].0 == key;
        if j < n {
            assert(m[j].0 == key);
        }
        assert(seq![e] =~= Seq::<(Seq<char>, u32)>::empty().push(e));
        if other != key && has_group(m, other) {
            let k = choose|k: int| 0 <= k < m.len() && m[k].0 == other;
            assert(m2[k] == m[k]);
            let k2 = choose|k2: int| 0 <= k2 < m2.len() && m2[k2].0 == other;
            assert(k2 != n);
            assert(m2[k2] == m[k2]);
        }
        if other != key && !has_group(m, other) {
            if has_group(m2, other) {
                let k2 = choose|k2: int| 0 <= k2 < m2.len() && m2[k2].0 == other;
                assert(k2 != n);
                assert(m2[k2] == m[k2]);
            }
        }
        assert forall|a: int, b: int| 0 <= a < m2.len() && 0 <= b < m2.len() && a != b implies (
        #[trigger] m2[a]).0 != (#[trigger] m2[b]).0 by {
            if a < n && b < n {
                assert(m2[a] == m[a] && m2[b] == m[b]);
            } else if a == n {
                assert(m2[b] == m[b]);
            } else {
                assert(m2[a] == m[a]);
            }
        }
    }
}

/// The groups of a sequence of (key, word, weight) entries.
pub open spec fn grouped(entries: Seq<(Seq<char>, Seq<char>, u32)>) -> GroupsView
    decreases entries.len(),
{
    if entries.len() == 0 {
        Seq::empty()
    } else {
        let e = entries.last();
        pending_push(grouped(entries.drop_last()), e.0, (e.1, e.2))
    }
}

/// Entries waiting to be grouped by key.
pub struct PendingDictIndex {
    groups: Vec<(String, Vec<DictCandidate>)>,
    slots: Trie<usize>,
}

impl PendingDictIndex {
    pub closed spec fn wf(&self) -> bool {
        &&& self.slots.wf()
        &&& forall|g: int|
            0 <= g < self.groups@.len() ==> self.slots.entries_at(encode_utf8(#[trigger] self.groups@[g].0@))
                == seq![g as usize]
        &&& forall|k: Seq<u8>|
            #[trigger] self.slots.entries_at(k).len() > 0 ==> exists|g: int|
                0 <= g < self.groups@.len() && k == encode_utf8(#[trigger] self.groups@[g].0@)
    }

    /// The groups, as (key, entries) pairs.
    pub closed spec fn model(&self) -> GroupsView {
        self.groups@.map_values(
            |p: (String, Vec<DictCandidate>)| (p.0@, p.1@.map_values(|c: DictCandidate| c@)),
        )
    }

    pub fn new() -> (r: Self)
        ensures
            r.wf(),
            r.model() == GroupsView::empty(),
    {
        let r = PendingDictIndex { groups: Vec::new(), slots: Trie::new() };
        assert(r.model() =~= GroupsView::empty());
        r
    }

    /// The groups of a well-formed index have distinct keys.
    pub proof fn lemma_model(&self)
        requires
            self.wf(),
        ensures
            keys_distinct(self.model()),
    {
        let m = self.model();
        assert forall|a: int, b: int| 0 <= a < m.len() && 0 <= b < m.len() && a != b implies (#[trigger] m[a]).0 != (
        #[trigger] m[b]).0 by {
            if m[a].0 == m[b].0 {
                self.lemma_keys_distinct(a, b);
            }
        }
    }

    proof fn lemma_keys_distinct(&self, g1: int, g2: int)
        requires
            self.wf(),
            0 <= g1 < self.groups@.len(),
            0 <= g2 < self.groups@.len(),
            self.groups@[g1].0@ == self.groups@[g2].0@,
        ensures
            g1 == g2,
    {
        assert(self.groups.len() == self.groups@.len());
        assert(self.slots.entries_at(encode_utf8(self.groups@[g1].0@)) == seq![g1 as usize]);
        assert(self.slots.entries_at(encode_utf8(self.groups@[g2].0@)) == seq![g2 as usize]);
        assert(seq![g1 as usize][0] == seq![g2 as usize][0]);
    }
}

/// Adds `entry` to the group of `key`.
pub fn push_entry(index: &mut PendingDictIndex, key: String, entry: DictCandidate)
    requires
        old(index).wf(),
    ensures
        final(index).wf(),
        final(index).model() == pending_push(old(index).model(), key@, entry@),
        keys_distinct(final(index).model()),
        group_of(final(index).model(), key@) == group_of(old(index).model(), key@).push(entry@),
        forall|other: Seq<char>|
            other != key@ ==> #[trigger] group_of(final(index).model(), other) == group_of(old(index).model(), other),
{
    broadcast use encode_utf8_decode_utf8;
    proof {
        index.lemma_model();
        let m = index.model();
        lemma_push_groups(m, key@, entry@, key@);
        assert forall|other: Seq<char>|
            other != key@ implies #[trigger] group_of(pending_push(m, key@, entry@), other) == group_of(m, other) by {
            lemma_push_groups(m, key@, entry@, other);
        }
    }
    let ghost m0 = index.model();
    let ghost kb = encode_utf8(key@);
    let found = match index.slots.lookup(key.as_str()) {
        Some(v) => if v.len() > 0 {
            Some(v[0])
        } else {
            None
        },
        None => None,
    };
    assert(found is None ==> index.slots.entries_at(kb).len() == 0);
    assert(found matches Some(g) ==> index.slots.entries_at(kb).len() > 0 && index.slots.entries_at(kb)[0] == g);
    match found {
        Some(g) => {
            let ghost gi = g as int;
            proof {
                let g0 = choose|g0: int| 0 <= g0 < index.groups@.len() && kb == encode_utf8(#[trigger] index.groups@[g0].0@);
                assert(index.slots.entries_at(kb) == seq![g0 as usize]);
                assert(index.groups.len() == index.groups@.len());
                assert(g0 == gi);
                assert(decode_utf8(encode_utf8(index.groups@[gi].0@)) == index.groups@[gi].0@);
                assert(decode_utf8(encode_utf8(key@)) == key@);
                assert(index.groups@[gi].0@ == key@);
                assert(m0[gi].0 == key@);
                assert(has_group(m0, key@));
                let gc = choose|gc: int| 0 <= gc < m0.len() && m0[gc].0 == key@;
                index.lemma_keys_distinct(gc, gi);
            }
            index.groups[g].1.push(entry);
            proof {
                assert forall|h: int|
                    0 <= h < index.groups@.len() implies index.slots.entries_at(encode_utf8(#[trigger] index.groups@[h].0@))
                    == seq![h as usize] by {
                    assert(index.groups@[h].0 == old(index).groups@[h].0);
                }
                assert forall|k: Seq<u8>|
                    #[trigger] index.slots.entries_at(k).len() > 0 implies exists|h: int|
                    0 <= h < index.groups@.len() && k == encode_utf8(#[trigger] index.groups@[h].0@) by {
                    let h = choose|h: int| 0 <= h < old(index).groups@.len() && k == encode_utf8(#[trigger] old(index).groups@[h].0@);
                    assert(index.groups@[h].0 == old(index).groups@[h].0);
                }
                let gc = choose|gc: int| 0 <= gc < m0.len() && m0[gc].0 == key@;
                assert(gc == gi);
                assert(index.groups@[gi].1@ == old(index).groups@[gi].1@.push(entry));
                assert(index.groups@[gi].1@.map_values(|c: DictCandidate| c@) =~= m0[gi].1.push(entry@));
                assert forall|h: int| 0 <= h < index.groups@.len() && h != gi implies index.groups@[h] == old(index).groups@[h] by {}
                assert(index.model() =~= m0.update(gi, (key@, m0[gi].1.push(entry@))));
                assert(index.model() =~= pending_push(m0, key@, entry@));
            }
        },
        None => {
            proof {
                if has_group(m0, key@) {
                    let gc = choose|gc: int| 0 <= gc < m0.len() && m0[gc].0 == key@;
                    assert(index.groups@[gc].0@ == key@);
                    assert(index.slots.entries_at(kb) == seq![gc as usize]);
                    assert(false);
                }
            }
            let g = index.groups.len();
            index.slots.insert(key.as_str(), g);
            assert(index.groups.len() == index.groups@.len());
            let mut first: Vec<DictCandidate> = Vec::new();
            first.push(entry);
            index.groups.push((key, first));
            proof {
                let n = index.groups@.len();
                assert forall|h: int|
                    0 <= h < n implies index.slots.entries_at(encode_utf8(#[trigger] index.groups@[h].0@))
                    == seq![h as usize] by {
                    if h < n - 1 {
                        assert(index.groups@[h] == old(index).groups@[h]);
                        if encode_utf8(index.groups@[h].0@) == kb {
                            assert(decode_utf8(encode_utf8(index.groups@[h].0@)) == index.groups@[h].0@);
                            assert(decode_utf8(kb) == key@);
                            assert(index.groups@[h].0@ == key@);
                            assert(m0[h].0 == key@);
                        }
                    } else {
                        assert(old(index).slots.entries_at(kb) == Seq::<usize>::empty());
                    }
                }
                assert forall|k: Seq<u8>|
                    #[trigger] index.slots.entries_at(k).len() > 0 implies exists|h: int|
                    0 <= h < index.groups@.len() && k == encode_utf8(#[trigger] index.groups@[h].0@) by {
                    if k == kb {
                        assert(index.groups@[n - 1].0@ == key@);
                    } else {
                        let h = choose|h: int| 0 <= h < old(index).groups@.len() && k == encode_utf8(#[trigger] old(index).groups@[h].0@);
                        assert(index.groups@[h] == old(index).groups@[h]);
                    }
                }
                assert(!has_group(m0, key@));
                assert(index.groups@[n - 1].1@.map_values(|c: DictCandidate| c@) =~= seq![entry@]);
                assert(index.model() =~= m0.push((key@, seq![entry@])));
                assert(index.model() =~= pending_push(m0, key@, entry@));
            }
        },
    }
}

/// A group's entries, each paired with the group's key.
pub open spec fn keyed(key: Seq<char>, g: Seq<(Seq<char>, u32)>) -> Seq<(Seq<char>, (Seq<char>, u32))> {
    g.map_values(|e: (Seq<char>, u32)| (key, e))
}

/// The groups one after another, each with its entries as given by `sorted`.
pub open spec fn flatten_groups(m: GroupsView, sorted: Seq<Seq<(Seq<char>, u32)>>) -> Seq<
    (Seq<char>, (Seq<char>, u32)),
>
    decreases m.len(),
{
    if m.len() == 0 || sorted.len() == 0 {
        Seq::empty()
    } else {
        flatten_groups(m.drop_last(), sorted.drop_last()) + keyed(m.last().0, sorted.last())
    }
}

/// `out` lists the groups in order, each group's entries heaviest first (ties
/// in order of appearance), each entry with its key.
pub open spec fn finalized(m: GroupsView, out: Seq<(Seq<char>, (Seq<char>, u32))>) -> bool {
    exists|sorted: Seq<Seq<(Seq<char>, u32)>>|
        {
            &&& sorted.len() == m.len()
            &&& forall|g: int|
                0 <= g < m.len() ==> stable_sorted_desc(
                    m[g].1,
                    #[trigger] sorted[g],
                    |c: (Seq<char>, u32)| cand_weight(c),
                )
            &&& out == flatten_groups(m, sorted)
        }
}

pub open spec fn entry_view(e: (String, DictCandidate)) -> (Seq<char>, (Seq<char>, u32)) {
    (e.0@, e.1@)
}

/// The (key, candidate) pairs of every group, each group's candidates heaviest first.
pub fn finalize_to_entries(pending: PendingDictIndex) -> (out: Vec<(String, DictCandidate)>)
    requires
        pending.wf(),
    ensures
        finalized(pending.model(), out@.map_values(|e: (String, DictCandidate)| entry_view(e))),
{
    let ghost m = pending.model();
    let PendingDictIndex { groups, slots } = pending;
    let ghost gs = groups@;
    let mut out: Vec<(String, DictCandidate)> = Vec::new();
    let ghost mut sorted: Seq<Seq<(Seq<char>, u32)>> = Seq::empty();
    for group in it: groups
        invariant
            it.seq() == gs,
            m == gs.map_values(
                |p: (String, Vec<DictCandidate>)| (p.0@, p.1@.map_values(|c: DictCandidate| c@)),
            ),
            sorted.len() == it.index(),
            forall|g: int|
                0 <= g < sorted.len() ==> stable_sorted_desc(
                    m[g].1,
                    #[trigger] sorted[g],
                    |c: (Seq<char>, u32)| cand_weight(c),
                ),
            out@.map_values(|e: (String, DictCandidate)| entry_view(e)) == flatten_groups(
                m.take(it.index() as int),
                sorted,
            ),
    {
        let ghost gi = it.index() as int;
        let (key, entries) = group;
        let ghost ev = entries@;
        let ranked = sort_by_weight_desc(entries);
        let ghost rv = ranked@.map_values(|c: DictCandidate| c@);
        proof {
            lemma_stable_sorted_map(
                ev,
                ranked@,
                |x: DictCandidate| x.weight_of(),
                |c: DictCandidate| c@,
                |c: (Seq<char>, u32)| cand_weight(c),
            );
            assert(ev.map_values(|c: DictCandidate| c@) == m[gi].1);
        }
        let ghost before = out@.map_values(|e: (String, DictCandidate)| entry_view(e));
        for c in jt: ranked
            invariant
                jt.seq() == ranked@,
                rv == jt.seq().map_values(|c: DictCandidate| c@),
                out@.map_values(|e: (String, DictCandidate)| entry_view(e)) == before + keyed(
                    key@,
                    rv.take(jt.index() as int),
                ),
        {
            let ghost o = out@;
            out.push((key.clone(), c));
            proof {
                assert(out@.map_values(|e: (String, DictCandidate)| entry_view(e)) =~= o.map_values(
                    |e: (String, DictCandidate)| entry_view(e),
                ).push((key@, c@)));
                assert(rv.take(jt.index() + 1) =~= rv.take(jt.index() as int).push(c@));
                assert(keyed(key@, rv.take(jt.index() + 1)) =~= keyed(key@, rv.take(jt.index() as int)).push(
                    (key@, c@),
                ));
            }
        }
        proof {
            assert(rv.take(ranked@.len() as int) =~= rv);
            let s0 = sorted;
            sorted = sorted.push(rv);
            assert(m.take(gi + 1).drop_last() =~= m.take(gi));
            assert(sorted.drop_last() =~= s0);
            assert(m[gi].0 == key@);
        }
    }
    proof {
        assert(m.take(gs.len() as int) =~= m);
    }
    out
}

/// Groups (key, word, weight) entries by key and ranks each group.
pub fn group_and_rank(entries: Vec<(String, String, u32)>) -> (out: Vec<(String, DictCandidate)>)
    ensures
        finalized(
            grouped(entries@.map_values(|t: (String, String, u32)| triple_view(t))),
            out@.map_values(|e: (String, DictCandidate)| entry_view(e)),
        ),
{
    let ghost ev = entries@.map_values(|t: (String, String, u32)| triple_view(t));
    let mut pending = PendingDictIndex::new();
    for t in it: entries
        invariant
            ev == it.seq().map_values(|t: (String, String, u32)| triple_view(t)),
            pending.wf(),
            pending.model() == grouped(ev.take(it.index() as int)),
    {
        let ghost i = it.index() as int;
        let (key, text, weight) = t;
        push_entry(&mut pending, key, DictCandidate { text, weight });
        assert(ev.take(i + 1).drop_last() =~= ev.take(i));
    }
    assert(ev.take(ev.len() as int) =~= ev);
    finalize_to_entries(pending)
}

/// The entries of Chinese dictionary files: for every key, its words heaviest first.
pub fn parse_chinese_dicts(contents: &Vec<String>) -> (out: Vec<(String, DictCandidate)>)
    ensures
        finalized(
            grouped(dict_entries(DictKind::Chinese, all_lines(string_views(contents@)))),
            out@.map_values(|e: (String, DictCandidate)| entry_view(e)),
        ),
{
    group_and_rank(parse_entries(DictKind::Chinese, contents))
}

/// The entries of English dictionary files: for every code, its words heaviest first.
pub fn parse_english_dicts(contents: &Vec<String>) -> (out: Vec<(String, DictCandidate)>)
    ensures
        finalized(
            grouped(dict_entries(DictKind::English, all_lines(string_views(contents@)))),
            out@.map_values(|e: (String, DictCandidate)| entry_view(e)),
        ),
{
    group_and_rank(parse_entries(DictKind::English, contents))
}

/// The candidates listed under the key whose UTF-8 bytes are `k`, in order.
pub open spec fn entries_under(es: Seq<(Seq<char>, (Seq<char>, u32))>, k: Seq<u8>) -> Seq<(Seq<char>, u32)>
    decreases es.len(),
{
    if es.len() == 0 {
        Seq::empty()
    } else {
        let r = entries_under(es.drop_last(), k);
        if encode_utf8(es.last().0) == k {
            r.push(es.last().1)
        } else {
            r
        }
    }
}

pub open spec fn cand_views(s: Seq<DictCandidate>) -> Seq<(Seq<char>, u32)> {
    s.map_values(|c: DictCandidate| c@)
}

/// A trie holding every (key, candidate) pair, in the given order.
pub fn build_trie_from_entries(entries: &Vec<(String, DictCandidate)>) -> (trie: Trie<DictCandidate>)
    ensures
        trie.wf(),
        forall|k: Seq<u8>|
            #[trigger] cand_views(trie.entries_at(k)) == entries_under(
                entries@.map_values(|e: (String, DictCandidate)| entry_view(e)),
                k,
            ),
{
    let ghost ev = entries@.map_values(|e: (String, DictCandidate)| entry_view(e));
    let mut trie: Trie<DictCandidate> = Trie::new();
    let mut i: usize = 0;
    while i < entries.len()
        invariant
            i <= entries@.len(),
            ev == entries@.map_values(|e: (String, DictCandidate)| entry_view(e)),
            trie.wf(),
            forall|k: Seq<u8>| #[trigger] cand_views(trie.entries_at(k)) == entries_under(ev.take(i as int), k),
        decreases entries.len() - i,
    {
        let ghost t0 = trie;
        let (key, cand) = (&entries[i].0, &entries[i].1);
        trie.insert(key.as_str(), cand.clone());
        proof {
            assert(ev.take(i + 1).drop_last() =~= ev.take(i as int));
            assert forall|k: Seq<u8>| #[trigger] cand_views(trie.entries_at(k)) == entries_under(
                ev.take(i + 1),
                k,
            ) by {
                if k == encode_utf8(key@) {
                    assert(cand_views(t0.entries_at(k).push(*cand)) =~= cand_views(t0.entries_at(k)).push(cand@));
                }
            }
        }
        i = i + 1;
    }
    assert(ev.take(entries@.len() as int) =~= ev);
    trie
}

impl Weighted for (String, u32) {
    open spec fn weight_of(&self) -> u64 {
        self.1 as u64
    }

    fn weight(&self) -> (w: u64) {
        self.1 as u64
    }
}

pub open spec fn translation_view(t: (String, u32)) -> (Seq<char>, u32) {
    (t.0@, t.1)
}

/// Chinese text to its English translations, each with a weight.
pub struct BilingualIndex {
    trie: Trie<(String, u32)>,
}

/// The translations of `chinese` listed in the entries, in order.
pub open spec fn translations_in(es: Seq<(Seq<char>, Seq<char>, u32)>, chinese: Seq<char>) -> Seq<(Seq<char>, u32)>
    decreases es.len(),
{
    if es.len() == 0 {
        Seq::empty()
    } else {
        let r = translations_in(es.drop_last(), chinese);
        if es.last().0 == chinese {
            r.push((es.last().1, es.last().2))
        } else {
            r
        }
    }
}

impl BilingualIndex {
    pub closed spec fn wf(&self) -> bool {
        self.trie.wf()
    }

    /// The translations of `chinese`, in the order they were read.
    pub closed spec fn translations(&self, chinese: Seq<char>) -> Seq<(Seq<char>, u32)> {
        self.trie.entries_at(encode_utf8(chinese)).map_values(|t: (String, u32)| translation_view(t))
    }

    pub fn new() -> (r: Self)
        ensures
            r.wf(),
            forall|c: Seq<char>| #[trigger] r.translations(c) == Seq::<(Seq<char>, u32)>::empty(),
    {
        let r = BilingualIndex { trie: Trie::new() };
        assert forall|c: Seq<char>| #[trigger] r.translations(c) == Seq::<(Seq<char>, u32)>::empty() by {
            assert(r.translations(c) =~= Seq::<(Seq<char>, u32)>::empty());
        }
        r
    }

    /// The translations of `chinese`, heaviest first (ties in the order read).
    pub fn get(&self, chinese: &str) -> (r: Vec<(String, u32)>)
        requires
            self.wf(),
        ensures
            stable_sorted_desc(
                self.translations(chinese@),
                r@.map_values(|t: (String, u32)| translation_view(t)),
                |c: (Seq<char>, u32)| cand_weight(c),
            ),
    {
        let mut copy: Vec<(String, u32)> = Vec::new();
        let ghost src = self.trie.entries_at(chinese.spec_bytes());
        match self.trie.lookup(chinese) {
            Some(list) => {
                let mut i: usize = 0;
                while i < list.len()
                    invariant
                        i <= list@.len(),
                        copy@ == list@.take(i as int),
                    decreases list.len() - i,
                {
                    copy.push((list[i].0.clone(), list[i].1));
                    i = i + 1;
                    assert(copy@ =~= list@.take(i as int));
                }
                assert(copy@ =~= list@.take(list@.len() as int));
            },
            None => {
                assert(copy@ =~= src);
            },
        }
        let ghost cv = copy@;
        let ranked = sort_by_weight_desc(copy);
        proof {
            lemma_stable_sorted_map(
                cv,
                ranked@,
                |x: (String, u32)| x.weight_of(),
                |t: (String, u32)| translation_view(t),
                |c: (Seq<char>, u32)| cand_weight(c),
            );
            assert(cv == src);
            assert(cv.map_values(|t: (String, u32)| translation_view(t)) == self.translations(chinese@));
        }
        ranked
    }
}

/// Reads bilingual dictionary files into an index.
pub fn load_bilingual_dicts(contents: &Vec<String>) -> (index: BilingualIndex)
    ensures
        index.wf(),
        forall|c: Seq<char>|
            #[trigger] index.translations(c) == translations_in(
                dict_entries(DictKind::Bilingual, all_lines(string_views(contents@))),
                c,
            ),
{
    broadcast use encode_utf8_decode_utf8;
    let entries = parse_entries(DictKind::Bilingual, contents);
    let ghost ev = entries@.map_values(|t: (String, String, u32)| triple_view(t));
    let mut index = BilingualIndex::new();
    for t in it: entries
        invariant
            ev == it.seq().map_values(|t: (String, String, u32)| triple_view(t)),
            index.wf(),
            forall|c: Seq<char>| #[trigger] index.translations(c) == translations_in(ev.take(it.index() as int), c),
    {
        let ghost i = it.index() as int;
        let ghost t0 = index;
        let (chinese, english, weight) = t;
        index.trie.insert(chinese.as_str(), (english, weight));
        proof {
            assert(ev.take(i + 1).drop_last() =~= ev.take(i));
            assert forall|c: Seq<char>| #[trigger] index.translations(c) == translations_in(ev.take(i + 1), c) by {
                encode_utf8_decode_utf8(c);
                encode_utf8_decode_utf8(chinese@);
                if c == chinese@ {
                    assert(index.translations(c) =~= t0.translations(c).push((english@, weight)));
                } else {
                    assert(encode_utf8(c) != encode_utf8(chinese@));
                    assert(index.translations(c) =~= t0.translations(c));
                }
            }
        }
    }
    assert(ev.take(ev.len() as int) =~= ev);
    index
}

/// `Arc::clone`: another handle to the same shared value.
#[verifier::external_body]
pub(crate) fn share<T>(a: &Arc<T>) -> (r: Arc<T>)
    ensures
        r == *a,
{
    Arc::clone(a)
}

/// The dictionaries a pipeline works with.
pub struct LoadedDictionaries {
    /// Every entry of the Chinese dictionaries, keyed by syllables.
    pub phrase_trie: Arc<Trie<DictCandidate>>,
    /// The single-character entries of the Chinese dictionaries.
    pub char_trie: Arc<Trie<DictCandidate>>,
    /// The English dictionaries, keyed by lowercased code.
    pub en_trie: Arc<Trie<DictCandidate>>,
    /// Chinese text to English translations.
    pub bilingual_index: Arc<BilingualIndex>,
}

impl LoadedDictionaries {
    pub open spec fn wf(&self) -> bool {
        &&& self.phrase_trie.wf()
        &&& self.char_trie.wf()
        &&& self.en_trie.wf()
        &&& self.bilingual_index.wf()
    }
}

/// `.dict.yaml`, the extension of dictionary files.
pub open spec fn dict_suffix() -> Seq<char> {
    seq!['.', 'd', 'i', 'c', 't', '.', 'y', 'a', 'm', 'l']
}

/// `data/`, the directory dictionaries are named from.
pub open spec fn data_dir() -> Seq<char> {
    seq!['d', 'a', 't', 'a', '/']
}

/// Where a dictionary named in a schema lives: a name with a `/` or ending in
/// `.dict.yaml` is a path already; any other name is `data/<name>.dict.yaml`.
pub open spec fn resolved_path(name: Seq<char>) -> Seq<char> {
    if name.contains('/') || (name.len() >= dict_suffix().len() && name.subrange(
        name.len() - dict_suffix().len(),
        name.len() as int,
    ) == dict_suffix()) {
        name
    } else {
        data_dir() + name + dict_suffix()
    }
}

/// Appends every character of `v` to `s`.
pub fn push_all(s: &mut String, v: &Vec<char>)
    ensures
        final(s)@ == old(s)@ + v@,
{
    let mut i: usize = 0;
    while i < v.len()
        invariant
            i <= v@.len(),
            s@ == old(s)@ + v@.take(i as int),
        decreases v.len() - i,
    {
        push_char(s, v[i]);
        i = i + 1;
        assert(s@ =~= old(s)@ + v@.take(i as int));
    }
    assert(v@.take(i as int) =~= v@);
}

/// Where a dictionary name leads: a name holding `/` or ending in
/// `.dict.yaml` is kept as it is; any other name, whatever else it holds
/// (dots among it), becomes `data/<name>.dict.yaml`.
pub proof fn lemma_resolved_path(name: Seq<char>)
    ensures
        ({
            let ext = ".dict.yaml"@;
            let named_file = name.len() >= ext.len() && name.subrange(name.len() - ext.len(), name.len() as int)
                == ext;
            &&& (name.contains('/') || named_file) ==> resolved_path(name) == name
            &&& (!name.contains('/') && !named_file) ==> resolved_path(name) == "data/"@ + name + ext
        }),
{
    reveal_strlit(".dict.yaml");
    reveal_strlit("data/");
    assert(".dict.yaml"@ =~= dict_suffix());
    assert("data/"@ =~= data_dir());
}

pub fn resolve_dict_path(name: &str) -> (path: String)
    ensures
        path@ == resolved_path(name@),
{
    let v = chars_of(name);
    let mut has_slash = false;
    let mut i: usize = 0;
    while i < v.len()
        invariant
            i <= v@.len(),
            has_slash == exists|q: int| 0 <= q < i && v@[q] == '/',
        decreases v.len() - i,
    {
        if v[i] == '/' {
            has_slash = true;
        }
        i = i + 1;
    }
    assert(has_slash == v@.contains('/'));
    let mut suffix: Vec<char> = Vec::new();
    suffix.push('.');
    suffix.push('d');
    suffix.push('i');
    suffix.push('c');
    suffix.push('t');
    suffix.push('.');
    suffix.push('y');
    suffix.push('a');
    suffix.push('m');
    suffix.push('l');
    assert(suffix@ =~= dict_suffix());
    let mut ends = false;
    assert(v.len() == v@.len());
    if v.len() >= suffix.len() {
        let off = v.len() - suffix.len();
        let mut j: usize = 0;
        ends = true;
        while j < suffix.len()
            invariant
                off + suffix@.len() == v@.len(),
                v@.len() <= usize::MAX,
                j <= suffix@.len(),
                ends == (forall|q: int| 0 <= q < j ==> v@[off + q] == suffix@[q]),
            decreases suffix.len() - j,
        {
            if v[off + j] != suffix[j] {
                ends = false;
            }
            j = j + 1;
        }
        proof {
            let tail = v@.subrange(off as int, v@.len() as int);
            if ends {
                assert(tail =~= suffix@);
            } else {
                if tail == suffix@ {
                    assert(forall|q: int| 0 <= q < j ==> v@[off + q] == #[trigger] tail[q]);
                }
            }
        }
    }
    if has_slash || ends {
        let mut out = String::new();
        push_all(&mut out, &v);
        out
    } else {
        let mut out = String::new();
        let mut dir: Vec<char> = Vec::new();
        dir.push('d');
        dir.push('a');
        dir.push('t');
        dir.push('a');
        dir.push('/');
        assert(dir@ =~= data_dir());
        push_all(&mut out, &dir);
        push_all(&mut out, &v);
        push_all(&mut out, &suffix);
        assert(out@ =~= data_dir() + name@ + dict_suffix());
        out
    }
}

/// The paths of the dictionaries named in `names`.
pub fn resolve_dict_paths(names: &Vec<String>) -> (paths: Vec<String>)
    ensures
        paths@.len() == names@.len(),
        forall|i: int| 0 <= i < names@.len() ==> (#[trigger] paths@[i])@ == resolved_path(names@[i]@),
{
    let mut paths: Vec<String> = Vec::new();
    let mut i: usize = 0;
    while i < names.len()
        invariant
            i <= names@.len(),
            paths@.len() == i,
            forall|j: int| 0 <= j < i ==> (#[trigger] paths@[j])@ == resolved_path(names@[j]@),
        decreases names.len() - i,
    {
        paths.push(resolve_dict_path(names[i].as_str()));
        i = i + 1;
    }
    paths
}

/// The entries of the Chinese (`DictKind::Chinese`) or English dictionary
/// files with the given contents, grouped and ranked.
pub open spec fn source_entries(kind: DictKind, contents: Seq<Seq<char>>, out: Seq<(Seq<char>, (Seq<char>, u32))>) -> bool {
    finalized(grouped(dict_entries(kind, all_lines(contents))), out)
}

/// The entries of a dictionary: those of the compiled cache when it is
/// current (reads back with `checksum`), else those parsed from the sources,
/// together with the compiled image to store for next time.
pub fn load_entries_with_cache(kind: DictKind, sources: &Vec<String>, cache: Option<&[u8]>, checksum: u64) -> (r: (
    Vec<(String, DictCandidate)>,
    Option<Vec<u8>>,
))
    requires
        kind != DictKind::Bilingual,
    ensures
        ({
            let es = r.0@.map_values(|e: (String, DictCandidate)| entry_view(e));
            match cache {
                Some(c) if decode_cache(c@, checksum) is Some => es == decode_cache(c@, checksum)->Some_0 && r.1 is None,
                _ => source_entries(kind, string_views(sources@), es) && (r.1 matches Some(b) && b@
                    == cache_image(es, checksum)),
            }
        }),
{
    match cache {
        Some(c) => {
            match decode_cache_entries(c, checksum) {
                Some(es) => {
                    return (es, None);
                },
                None => {},
            }
        },
        None => {},
    }
    let entries = group_and_rank(parse_entries(kind, sources));
    let image = compile_to_cache(&entries, checksum);
    (entries, Some(image))
}

/// The trie holds exactly the entries `es`, key by key, in order.
pub open spec fn trie_holds(t: Trie<DictCandidate>, es: Seq<(Seq<char>, (Seq<char>, u32))>) -> bool {
    forall|k: Seq<u8>| #[trigger] cand_views(t.entries_at(k)) == entries_under(es, k)
}

/// Loads a dictionary trie, from its compiled cache when current, else from
/// its sources (see `load_entries_with_cache`); also the image to store, if any.
pub fn load_trie_with_cache(kind: DictKind, sources: &Vec<String>, cache: Option<&[u8]>, checksum: u64) -> (r: (
    Trie<DictCandidate>,
    Option<Vec<u8>>,
))
    requires
        kind != DictKind::Bilingual,
    ensures
        r.0.wf(),
        exists|es: Seq<(Seq<char>, (Seq<char>, u32))>|
            #![trigger trie_holds(r.0, es)]
            {
                &&& match cache {
                    Some(c) if decode_cache(c@, checksum) is Some => es == decode_cache(c@, checksum)->Some_0
                        && r.1 is None,
                    _ => source_entries(kind, string_views(sources@), es) && (r.1 matches Some(b) && b@
                        == cache_image(es, checksum)),
                }
                &&& trie_holds(r.0, es)
            },
{
    let (entries, image) = load_entries_with_cache(kind, sources, cache, checksum);
    let trie = build_trie_from_entries(&entries);
    let ghost es = entries@.map_values(|e: (String, DictCandidate)| entry_view(e));
    assert({
        &&& match cache {
            Some(c) if decode_cache(c@, checksum) is Some => es == decode_cache(c@, checksum)->Some_0 && image is None,
            _ => source_entries(kind, string_views(sources@), es) && (image matches Some(b) && b@ == cache_image(
                es,
                checksum,
            )),
        }
        &&& trie_holds(trie, es)
    });
    let ghost gt = trie;
    let ghost gi = image;
    let r = (trie, image);
    assert(r.0 == gt && r.1 == gi);
    r
}

/// The entries whose word is a single character, in order.
pub open spec fn single_char_entries(es: Seq<(Seq<char>, (Seq<char>, u32))>) -> Seq<(Seq<char>, (Seq<char>, u32))>
    decreases es.len(),
{
    if es.len() == 0 {
        es
    } else {
        let r = single_char_entries(es.drop_last());
        if es.last().1.0.len() == 1 {
            r.push(es.last())
        } else {
            r
        }
    }
}

fn single_chars(entries: &Vec<(String, DictCandidate)>) -> (r: Vec<(String, DictCandidate)>)
    ensures
        r@.map_values(|e: (String, DictCandidate)| entry_view(e)) == single_char_entries(
            entries@.map_values(|e: (String, DictCandidate)| entry_view(e)),
        ),
{
    let ghost ev = entries@.map_values(|e: (String, DictCandidate)| entry_view(e));
    let mut r: Vec<(String, DictCandidate)> = Vec::new();
    let mut i: usize = 0;
    while i < entries.len()
        invariant
            i <= entries@.len(),
            ev == entries@.map_values(|e: (String, DictCandidate)| entry_view(e)),
            r@.map_values(|e: (String, DictCandidate)| entry_view(e)) == single_char_entries(ev.take(i as int)),
        decreases entries.len() - i,
    {
        let ghost r0 = r@;
        assert(ev.take(i + 1).drop_last() =~= ev.take(i as int));
        let text = chars_of(entries[i].1.text.as_str());
        if text.len() == 1 {
            r.push((entries[i].0.clone(), entries[i].1.clone()));
            assert(r@.map_values(|e: (String, DictCandidate)| entry_view(e)) =~= r0.map_values(
                |e: (String, DictCandidate)| entry_view(e),
            ).push(ev[i as int]));
        }
        i = i + 1;
    }
    assert(ev.take(i as int) =~= ev);
    r
}

/// What dictionary loading reads: the contents of the readable source files
/// of each kind, the compiled caches found, and the checksums of the sources.
pub struct DictionarySources {
    pub chinese: Vec<String>,
    pub chinese_cache: Option<Vec<u8>>,
    pub chinese_checksum: u64,
    pub english: Vec<String>,
    pub english_cache: Option<Vec<u8>>,
    pub english_checksum: u64,
    pub bilingual: Vec<String>,
}

/// Compiled images to store after loading, when a cache was missing or stale.
pub struct DictionaryCaches {
    pub chinese: Option<Vec<u8>>,
    pub english: Option<Vec<u8>>,
}

/// The entries a dictionary of `kind` loads from `sources`, `cache` and `checksum`.
pub open spec fn loaded_entries(
    kind: DictKind,
    sources: Seq<Seq<char>>,
    cache: Option<Vec<u8>>,
    checksum: u64,
    es: Seq<(Seq<char>, (Seq<char>, u32))>,
    image: Option<Vec<u8>>,
) -> bool {
    match cache {
        Some(c) if decode_cache(c@, checksum) is Some => es == decode_cache(c@, checksum)->Some_0 && image is None,
        _ => source_entries(kind, sources, es) && (image matches Some(b) && b@ == cache_image(es, checksum)),
    }
}

fn as_slice_opt(v: &Option<Vec<u8>>) -> (r: Option<&[u8]>)
    ensures
        match *v {
            Some(b) => r matches Some(s) && s@ == b@,
            None => r is None,
        },
{
    match v {
        Some(b) => Some(b.as_slice()),
        None => None,
    }
}

/// Builds the dictionaries: the phrase trie (every Chinese entry), the
/// single-character trie, the English trie and the bilingual index.
pub fn load_dictionaries(src: &DictionarySources) -> (r: (LoadedDictionaries, DictionaryCaches))
    ensures
        r.0.wf(),
        exists|zh: Seq<(Seq<char>, (Seq<char>, u32))>, en: Seq<(Seq<char>, (Seq<char>, u32))>|
            {
                &&& loaded_entries(DictKind::Chinese, string_views(src.chinese@), src.chinese_cache, src.chinese_checksum, zh, r.1.chinese)
                &&& loaded_entries(DictKind::English, string_views(src.english@), src.english_cache, src.english_checksum, en, r.1.english)
                &&& forall|k: Seq<u8>| #[trigger] cand_views(r.0.phrase_trie.entries_at(k)) == entries_under(zh, k)
                &&& forall|k: Seq<u8>| #[trigger] cand_views(r.0.char_trie.entries_at(k)) == entries_under(single_char_entries(zh), k)
                &&& forall|k: Seq<u8>| #[trigger] cand_views(r.0.en_trie.entries_at(k)) == entries_under(en, k)
            },
        forall|c: Seq<char>|
            #[trigger] r.0.bilingual_index.translations(c) == translations_in(
                dict_entries(DictKind::Bilingual, all_lines(string_views(src.bilingual@))),
                c,
            ),
{
    let (zh, zh_image) = load_entries_with_cache(DictKind::Chinese, &src.chinese, as_slice_opt(&src.chinese_cache), src.chinese_checksum);
    let (en, en_image) = load_entries_with_cache(DictKind::English, &src.english, as_slice_opt(&src.english_cache), src.english_checksum);
    let phrase = build_trie_from_entries(&zh);
    let chars = build_trie_from_entries(&single_chars(&zh));
    let english = build_trie_from_entries(&en);
    let bilingual = load_bilingual_dicts(&src.bilingual);
    let ghost zv = zh@.map_values(|e: (String, DictCandidate)| entry_view(e));
    let ghost ev = en@.map_values(|e: (String, DictCandidate)| entry_view(e));
    proof {
        assert(loaded_entries(DictKind::Chinese, string_views(src.chinese@), src.chinese_cache, src.chinese_checksum, zv, zh_image));
        assert(loaded_entries(DictKind::English, string_views(src.english@), src.english_cache, src.english_checksum, ev, en_image));
    }
    let dicts = LoadedDictionaries {
        phrase_trie: Arc::new(phrase),
        char_trie: Arc::new(chars),
        en_trie: Arc::new(english),
        bilingual_index: Arc::new(bilingual),
    };
    (dicts, DictionaryCaches { chinese: zh_image, english: en_image })
}

} // verus!
