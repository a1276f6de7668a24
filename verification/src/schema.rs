use vstd::prelude::*;

use crate::dict::string_views;
use crate::text::{
    chars_of, is_whitespace, split_on, split_ranges, string_of, trim, trim_end, trim_end_range,
    trim_range, trim_start, trim_start_range, utf8_len, utf8_len_of, lemma_utf8_len_prefix,
};

verus! {

/// The dictionary lists a schema declares under `translator`.
pub struct SchemaConfig {
    pub dictionaries: Vec<String>,
    pub english_dictionaries: Vec<String>,
    pub bilingual_dictionaries: Vec<String>,
}

/// What reading a schema keeps: the current section, the current list, and
/// the Chinese, English and bilingual dictionary names read so far.
pub type SchemaLists = (Seq<char>, Seq<char>, Seq<Seq<char>>, Seq<Seq<char>>, Seq<Seq<char>>);

pub open spec fn schema_start() -> SchemaLists {
    (Seq::empty(), Seq::empty(), Seq::empty(), Seq::empty(), Seq::empty())
}

/// The byte length of the leading whitespace of `line`.
pub open spec fn indent(line: Seq<char>) -> nat {
    utf8_len_of(line.take(line.len() - trim_start(line).len()))
}

/// `s` without its trailing `:`s (`trim_end_matches(':')`).
pub open spec fn strip_colons(s: Seq<char>) -> Seq<char>
    decreases s.len(),
{
    if s.len() > 0 && s.last() == ':' {
        strip_colons(s.drop_last())
    } else {
        s
    }
}

/// `s` without its leading `"- "`s (`trim_start_matches("- ")`).
pub open spec fn strip_dashes(s: Seq<char>) -> Seq<char>
    decreases s.len(),
{
    if s.len() >= 2 && s[0] == '-' && s[1] == ' ' {
        strip_dashes(s.skip(2))
    } else {
        s
    }
}

/// `s` up to its first `c`, all of it when it has none.
pub open spec fn before_first(s: Seq<char>, c: char) -> Seq<char>
    decreases s.len(),
{
    if s.len() == 0 {
        s
    } else if s[0] == c {
        Seq::empty()
    } else {
        seq![s[0]] + before_first(s.drop_first(), c)
    }
}

/// Whether a trimmed line carries nothing: empty, a comment, or a document marker.
pub open spec fn is_blank(t: Seq<char>) -> bool {
    t.len() == 0 || t[0] == '#' || t == "---"@ || t == "..."@
}

/// Adds `item` to the list that the current section and list name, if it is one of the three.
pub open spec fn add_item(st: SchemaLists, item: Seq<char>) -> SchemaLists {
    if st.0 == "translator"@ && st.1 == "dictionaries"@ {
        (st.0, st.1, st.2.push(item), st.3, st.4)
    } else if st.0 == "translator"@ && st.1 == "english_dictionaries"@ {
        (st.0, st.1, st.2, st.3.push(item), st.4)
    } else if st.0 == "translator"@ && st.1 == "bilingual_dictionaries"@ {
        (st.0, st.1, st.2, st.3, st.4.push(item))
    } else {
        st
    }
}

/// One line of the schema: a section header (no indent, ending in `:`), a
/// list header (indent 2, ending in `:`), or a list item (indent 4 or more,
/// starting with `- `, a `#` starting a comment); other lines change nothing.
pub open spec fn schema_step(st: SchemaLists, raw: Seq<char>) -> SchemaLists {
    let line = trim_end(raw);
    let t = trim(line);
    if is_blank(t) {
        st
    } else if indent(line) == 0 && t.last() == ':' {
        (strip_colons(t), Seq::empty(), st.2, st.3, st.4)
    } else if indent(line) == 2 && t.last() == ':' {
        (st.0, strip_colons(t), st.2, st.3, st.4)
    } else if indent(line) >= 4 && t.len() >= 2 && t[0] == '-' && t[1] == ' ' {
        let item = trim(before_first(strip_dashes(t), '#'));
        if item.len() == 0 {
            st
        } else {
            add_item(st, item)
        }
    } else {
        st
    }
}

pub open spec fn schema_fold(lines: Seq<Seq<char>>) -> SchemaLists
    decreases lines.len(),
{
    if lines.len() == 0 {
        schema_start()
    } else {
        schema_step(schema_fold(lines.drop_last()), lines.last())
    }
}

/// What the schema text `content` declares.
pub open spec fn schema_of(content: Seq<char>) -> SchemaLists {
    schema_fold(split_on(content, '\n'))
}

/// Whether `v[lo..hi]` is `lit`.
fn range_is(v: &Vec<char>, lo: usize, hi: usize, lit: &Vec<char>) -> (b: bool)
    requires
        lo <= hi <= v@.len(),
    ensures
        b == (v@.subrange(lo as int, hi as int) == lit@),
{
    if hi - lo != lit.len() {
        return false;
    }
    let mut i: usize = 0;
    while i < lit.len()
        invariant
            hi - lo == lit@.len(),
            lo <= hi <= v@.len(),
            i <= lit@.len(),
            forall|j: int| 0 <= j < i ==> v@[lo + j] == lit@[j],
        decreases lit.len() - i,
    {
        if v[lo + i] != lit[i] {
            assert(v@.subrange(lo as int, hi as int)[i as int] != lit@[i as int]);
            return false;
        }
        i = i + 1;
    }
    assert(v@.subrange(lo as int, hi as int) =~= lit@);
    true
}

/// The end of `v[lo..hi]` without its trailing `:`s.
fn strip_colons_range(v: &Vec<char>, lo: usize, hi: usize) -> (b: usize)
    requires
        lo <= hi <= v@.len(),
    ensures
        lo <= b <= hi,
        v@.subrange(lo as int, b as int) == strip_colons(v@.subrange(lo as int, hi as int)),
{
    let mut b = hi;
    while b > lo && v[b - 1] == ':'
        invariant
            lo <= b <= hi <= v@.len(),
            strip_colons(v@.subrange(lo as int, b as int)) == strip_colons(v@.subrange(lo as int, hi as int)),
        decreases b - lo,
    {
        assert(v@.subrange(lo as int, b as int).drop_last() =~= v@.subrange(lo as int, b - 1));
        b = b - 1;
    }
    b
}

/// The start of `v[lo..hi]` without its leading `"- "`s.
fn strip_dashes_range(v: &Vec<char>, lo: usize, hi: usize) -> (a: usize)
    requires
        lo <= hi <= v@.len(),
    ensures
        lo <= a <= hi,
        v@.subrange(a as int, hi as int) == strip_dashes(v@.subrange(lo as int, hi as int)),
{
    let mut a = lo;
    while hi - a >= 2 && v[a] == '-' && v[a + 1] == ' '
        invariant
            lo <= a <= hi <= v@.len(),
            strip_dashes(v@.subrange(a as int, hi as int)) == strip_dashes(v@.subrange(lo as int, hi as int)),
        decreases hi - a,
    {
        assert(v@.subrange(a as int, hi as int).skip(2) =~= v@.subrange(a + 2, hi as int));
        a = a + 2;
    }
    a
}

/// The end of `v[lo..hi]` up to its first `c`.
fn before_first_range(v: &Vec<char>, lo: usize, hi: usize, c: char) -> (b: usize)
    requires
        lo <= hi <= v@.len(),
    ensures
        lo <= b <= hi,
        v@.subrange(lo as int, b as int) == before_first(v@.subrange(lo as int, hi as int), c),
{
    let mut b = lo;
    while b < hi && v[b] != c
        invariant
            lo <= b <= hi <= v@.len(),
            before_first(v@.subrange(lo as int, hi as int), c) == v@.subrange(lo as int, b as int)
                + before_first(v@.subrange(b as int, hi as int), c),
        decreases hi - b,
    {
        let ghost rest = v@.subrange(b as int, hi as int);
        assert(rest.drop_first() =~= v@.subrange(b + 1, hi as int));
        assert(v@.subrange(lo as int, b + 1) =~= v@.subrange(lo as int, b as int) + seq![rest[0]]);
        b = b + 1;
    }
    assert(v@.subrange(lo as int, b as int) + before_first(v@.subrange(b as int, hi as int), c)
        =~= v@.subrange(lo as int, b as int));
    b
}

/// The indent of `v[lo..hi]`, counted up to 4.
fn indent_up_to_4(v: &Vec<char>, lo: usize, hi: usize) -> (n: usize)
    requires
        lo <= hi <= v@.len(),
    ensures
        n == (if indent(v@.subrange(lo as int, hi as int)) < 4 {
            indent(v@.subrange(lo as int, hi as int))
        } else {
            4
        }),
{
    let a = trim_start_range(v, lo, hi);
    let ghost line = v@.subrange(lo as int, hi as int);
    let ghost lead = v@.subrange(lo as int, a as int);
    assert(line.take(line.len() - trim_start(line).len()) =~= lead);
    let mut n: usize = 0;
    let mut i = lo;
    while i < a && n < 4
        invariant
            lo <= i <= a <= hi <= v@.len(),
            n == utf8_len_of(v@.subrange(lo as int, i as int)),
            lead == v@.subrange(lo as int, a as int),
        decreases a - i,
    {
        assert(v@.subrange(lo as int, i + 1).drop_last() =~= v@.subrange(lo as int, i as int));
        let u = v[i] as u32;
        let w: usize = if u < 0x80 {
            1
        } else if u < 0x800 {
            2
        } else if u < 0x10000 {
            3
        } else {
            4
        };
        n = n + w;
        i = i + 1;
    }
    proof {
        lemma_utf8_len_prefix(lead, i - lo);
        assert(lead.take(i - lo) =~= v@.subrange(lo as int, i as int));
        if i == a {
            assert(v@.subrange(lo as int, i as int) =~= lead);
        }
    }
    if n > 4 {
        4
    } else {
        n
    }
}

impl SchemaConfig {
    /// Reads the dictionary lists of the schema text `content`. Fails when it
    /// declares no Chinese dictionary.
    pub fn load(content: &str) -> (r: Result<SchemaConfig, String>)
        ensures
            match r {
                Ok(c) => {
                    &&& string_views(c.dictionaries@) == schema_of(content@).2
                    &&& string_views(c.english_dictionaries@) == schema_of(content@).3
                    &&& string_views(c.bilingual_dictionaries@) == schema_of(content@).4
                    &&& schema_of(content@).2.len() > 0
                },
                Err(e) => {
                    &&& schema_of(content@).2.len() == 0
                    &&& e@ == "schema translator.dictionaries is empty"@
                },
            },
    {
        let v = chars_of(content);
        let lines = split_ranges(&v, 0, v.len(), '\n');
        let ghost ls = split_on(v@.subrange(0, v@.len() as int), '\n');
        assert(v@.subrange(0, v@.len() as int) =~= content@);
        let dashes = chars_of("---");
        let dots = chars_of("...");
        let translator = chars_of("translator");
        let zh_list = chars_of("dictionaries");
        let en_list = chars_of("english_dictionaries");
        let bi_list = chars_of("bilingual_dictionaries");
        let mut section: (usize, usize) = (0, 0);
        let mut list: (usize, usize) = (0, 0);
        let mut dictionaries: Vec<String> = Vec::new();
        let mut english_dictionaries: Vec<String> = Vec::new();
        let mut bilingual_dictionaries: Vec<String> = Vec::new();
        let mut li: usize = 0;
        while li < lines.len()
            invariant
                li <= lines@.len(),
                lines@.len() == ls.len(),
                forall|k: int|
                    0 <= k < lines@.len() ==> 0 <= (#[trigger] lines@[k]).0 <= lines@[k].1 <= v@.len()
                        && v@.subrange(lines@[k].0 as int, lines@[k].1 as int) == ls[k],
                section.0 <= section.1 <= v@.len(),
                list.0 <= list.1 <= v@.len(),
                dashes@ == "---"@,
                dots@ == "..."@,
                translator@ == "translator"@,
                zh_list@ == "dictionaries"@,
                en_list@ == "english_dictionaries"@,
                bi_list@ == "bilingual_dictionaries"@,
                schema_fold(ls.take(li as int)) == (
                    v@.subrange(section.0 as int, section.1 as int),
                    v@.subrange(list.0 as int, list.1 as int),
                    string_views(dictionaries@),
                    string_views(english_dictionaries@),
                    string_views(bilingual_dictionaries@),
                ),
            decreases lines.len() - li,
        {
            let (lo, hi) = lines[li];
            let ghost st = schema_fold(ls.take(li as int));
            assert(ls.take(li + 1).drop_last() =~= ls.take(li as int));
            assert(ls.take(li + 1).last() == ls[li as int]);
            let b = trim_end_range(&v, lo, hi);
            let (ta, tb) = trim_range(&v, lo, b);
            let ghost t = v@.subrange(ta as int, tb as int);
            if ta == tb || v[ta] == '#' || range_is(&v, ta, tb, &dashes) || range_is(&v, ta, tb, &dots) {
                assert(is_blank(t));
            } else {
                assert(!is_blank(t));
                let ind = indent_up_to_4(&v, lo, b);
                let colon = v[tb - 1] == ':';
                assert(t.last() == v@[tb - 1]);
                if ind == 0 && colon {
                    let e = strip_colons_range(&v, ta, tb);
                    section = (ta, e);
                    list = (0, 0);
                    assert(v@.subrange(0, 0) =~= Seq::<char>::empty());
                } else if ind == 2 && colon {
                    let e = strip_colons_range(&v, ta, tb);
                    list = (ta, e);
                } else if ind >= 4 && tb - ta >= 2 && v[ta] == '-' && v[ta + 1] == ' ' {
                    assert(t[0] == v@[ta as int] && t[1] == v@[ta + 1]);
                    let a = strip_dashes_range(&v, ta, tb);
                    let e = before_first_range(&v, a, tb, '#');
                    let (ia, ib) = trim_range(&v, a, e);
                    if ia < ib {
                        let item = string_of(&v, ia, ib);
                        let in_translator = range_is(&v, section.0, section.1, &translator);
                        if in_translator && range_is(&v, list.0, list.1, &zh_list) {
                            dictionaries.push(item);
                            assert(string_views(dictionaries@) =~= st.2.push(item@));
                        } else if in_translator && range_is(&v, list.0, list.1, &en_list) {
                            english_dictionaries.push(item);
                            assert(string_views(english_dictionaries@) =~= st.3.push(item@));
                        } else if in_translator && range_is(&v, list.0, list.1, &bi_list) {
                            bilingual_dictionaries.push(item);
                            assert(string_views(bilingual_dictionaries@) =~= st.4.push(item@));
                        }
                    }
                } else {
                    assert(!(ind >= 4 && t.len() >= 2 && t[0] == '-' && t[1] == ' '));
                }
            }
            li = li + 1;
        }
        assert(ls.take(lines@.len() as int) =~= ls);
        if dictionaries.len() == 0 {
            let msg = "schema translator.dictionaries is empty".to_owned();
            return Err(msg);
        }
        Ok(SchemaConfig { dictionaries, english_dictionaries, bilingual_dictionaries })
    }
}

} // verus!
