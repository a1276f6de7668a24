use vstd::prelude::*;

use std::sync::Arc;

use vstd::string::StringSliceAdditionalSpecFns;

use crate::dict::{cand_views, share, BilingualIndex, DictCandidate, LoadedDictionaries};
use crate::sort::{sort_by_weight_desc, stable_sorted_desc, Weighted};
use crate::text::{is_whitespace, whitespace, without_whitespace, chars_of, lowercase, to_lowercase};
use vstd::utf8::encode_utf8;
use crate::trie::deref_all;
use crate::text::push_char;
use crate::trie::{copy_words, present_edges, word_view, DagEdge, Trie};

verus! {

/// The view of an edge: (from, to, words).
pub type EdgeView = (usize, usize, Seq<(Seq<char>, u32)>);

pub open spec fn edge_views(es: Seq<DagEdge>) -> Seq<EdgeView> {
    es.map_values(|e: DagEdge| e@)
}

/// The edges that start at byte `i` of `t`: one per dictionary key that is a
/// prefix of `t[i..]`, shortest first, holding that key's words; or, when no
/// key matches, the single byte `t[i]` as a word of weight 0.
pub open spec fn edges_at(trie: Trie<DictCandidate>, t: Seq<u8>, i: int) -> Seq<EdgeView> {
    let ends = trie.prefix_ends(t, i, t.len() as int);
    if ends.len() == 0 {
        seq![(i as usize, (i + 1) as usize, seq![(seq![t[i] as char], 0u32)])]
    } else {
        ends.map_values(|e: usize| (i as usize, e, cand_views(trie.entries_at(t.subrange(i, e as int)))))
    }
}

/// The edges starting at bytes `0..upto` of `t`, in order of their start.
pub open spec fn dag(trie: Trie<DictCandidate>, t: Seq<u8>, upto: int) -> Seq<EdgeView>
    decreases upto,
{
    if upto <= 0 {
        Seq::empty()
    } else {
        dag(trie, t, upto - 1) + edges_at(trie, t, upto - 1)
    }
}

/// Every byte that no dictionary key starts at is an ASCII character, so it
/// can stand alone as a word.
pub open spec fn unmatched_bytes_ascii(trie: Trie<DictCandidate>, t: Seq<u8>) -> bool {
    forall|i: int|
        0 <= i < t.len() && #[trigger] trie.prefix_ends(t, i, t.len() as int).len() == 0 ==> t[i] < 0x80
}

/// The words of a list of dictionary entries.
pub fn words_from(entries: &[DictCandidate]) -> (r: Vec<(String, u32)>)
    ensures
        r@.map_values(|w: (String, u32)| word_view(w)) == cand_views(entries@),
{
    let mut r: Vec<(String, u32)> = Vec::new();
    let mut i: usize = 0;
    while i < entries.len()
        invariant
            i <= entries@.len(),
            r@.map_values(|w: (String, u32)| word_view(w)) == cand_views(entries@.take(i as int)),
        decreases entries.len() - i,
    {
        let ghost r0 = r@;
        let c = &entries[i];
        let text = c.text.clone();
        assert(text@ == entries@[i as int].text@);
        r.push((text, c.weight));
        assert(entries@.take(i + 1) =~= entries@.take(i as int).push(entries@[i as int]));
        assert(r@ =~= r0.push((text, c.weight)));
        assert(r@.map_values(|w: (String, u32)| word_view(w)) =~= r0.map_values(|w: (String, u32)| word_view(w)).push(
            (text@, c.weight),
        ));
        i = i + 1;
        assert(r@.map_values(|w: (String, u32)| word_view(w)) =~= cand_views(entries@.take(i as int)));
    }
    assert(entries@.take(i as int) =~= entries@);
    r
}

proof fn lemma_present_all(outs: Seq<Option<DagEdge>>)
    requires
        forall|m: int| 0 <= m < outs.len() ==> (#[trigger] outs[m]) is Some,
    ensures
        present_edges(outs).len() == outs.len(),
        forall|m: int| 0 <= m < outs.len() ==> present_edges(outs)[m] == (#[trigger] outs[m])->Some_0,
    decreases outs.len(),
{
    if outs.len() > 0 {
        let init = outs.drop_last();
        assert forall|m: int| 0 <= m < init.len() implies (#[trigger] init[m]) is Some by {
            assert(init[m] == outs[m]);
        }
        lemma_present_all(init);
        assert forall|m: int| 0 <= m < outs.len() implies present_edges(outs)[m] == (
        #[trigger] outs[m])->Some_0 by {
            if m < init.len() {
                assert(init[m] == outs[m]);
            }
        }
    }
}

/// Builds the segmentation graph of `input`: for every byte position, the
/// dictionary keys that start there (see `edges_at`).
pub fn build_dag(input: &str, trie: &Trie<DictCandidate>) -> (edges: Vec<DagEdge>)
    requires
        trie.wf(),
        unmatched_bytes_ascii(*trie, input.spec_bytes()),
    ensures
        edge_views(edges@) == dag(*trie, input.spec_bytes(), input.spec_bytes().len() as int),
{
    let bytes = input.as_bytes();
    let ghost t = bytes@;
    let n = bytes.len();
    let mut edges: Vec<DagEdge> = Vec::new();
    let mut i: usize = 0;
    while i < n
        invariant
            trie.wf(),
            t == input.spec_bytes(),
            bytes@ == t,
            n == t.len(),
            i <= n,
            unmatched_bytes_ascii(*trie, t),
            edge_views(edges@) == dag(*trie, t, i as int),
        decreases n - i,
    {
        let to_edge = |from: usize, to: usize, entries: &[DictCandidate]| -> (r: Option<DagEdge>)
            ensures
                r matches Some(e) && e@ == (from, to, cand_views(entries@)),
            { Some(DagEdge { from, to, words: words_from(entries) }) };
        let mut matched = trie.collect_prefixes(input, i, to_edge);
        let ghost ends = trie.prefix_ends(t, i as int, t.len() as int);
        let ghost here = edges_at(*trie, t, i as int);
        proof {
            let (outs, args) = choose|outs: Seq<Option<DagEdge>>, args: Seq<&[DictCandidate]>|
                {
                    &&& outs.len() == ends.len()
                    &&& args.len() == ends.len()
                    &&& forall|m: int|
                        0 <= m < ends.len() ==> (#[trigger] args[m])@ == trie.entries_at(
                            t.subrange(i as int, ends[m] as int),
                        ) && to_edge.ensures((i, ends[m], args[m]), outs[m])
                    &&& matched@ == present_edges(outs)
                };
            assert forall|m: int| 0 <= m < outs.len() implies (#[trigger] outs[m]) is Some && outs[m]->Some_0@ == (
                i,
                ends[m],
                cand_views(trie.entries_at(t.subrange(i as int, ends[m] as int))),
            ) by {
                assert(args[m]@ == trie.entries_at(t.subrange(i as int, ends[m] as int)));
                assert(to_edge.ensures((i, ends[m], args[m]), outs[m]));
            }
            lemma_present_all(outs);
            if ends.len() > 0 {
                assert forall|m: int| 0 <= m < matched@.len() implies #[trigger] edge_views(matched@)[m] == here[m] by {
                    assert(outs[m] is Some);
                    assert(matched@[m] == outs[m]->Some_0);
                }
                assert(edge_views(matched@) =~= here);
            } else {
                assert(matched@.len() == 0);
            }
        }
        let ghost before = edges@;
        if matched.len() == 0 {
            let b = bytes[i];
            assert(b < 0x80);
            let mut word = String::new();
            push_char(&mut word, b as char);
            let mut words: Vec<(String, u32)> = Vec::new();
            words.push((word, 0));
            edges.push(DagEdge { from: i, to: i + 1, words });
            proof {
                assert(words@.map_values(|w: (String, u32)| word_view(w)) =~= seq![(seq![t[i as int] as char], 0u32)]);
                assert(edge_views(edges@) =~= edge_views(before) + here);
            }
        } else {
            edges.append(&mut matched);
            proof {
                assert(edge_views(edges@) =~= edge_views(before) + here);
            }
        }
        i = i + 1;
    }
    edges
}

/// Edge `e` spans byte `i` and offers a dictionary word (weight above 0).
pub open spec fn edge_covers(e: EdgeView, i: int) -> bool {
    &&& e.0 <= i < e.1
    &&& exists|w: int| 0 <= w < e.2.len() && (#[trigger] e.2[w]).1 > 0
}

/// Some edge spans byte `i` and offers a dictionary word.
pub open spec fn covered(es: Seq<EdgeView>, i: int) -> bool {
    exists|k: int| 0 <= k < es.len() && edge_covers(#[trigger] es[k], i)
}

/// Every byte of `0..n` is spanned by an edge that offers a dictionary word.
pub open spec fn full_coverage(n: int, es: Seq<EdgeView>) -> bool {
    forall|i: int| 0 <= i < n ==> #[trigger] covered(es, i)
}

fn has_real_word(e: &DagEdge) -> (b: bool)
    ensures
        b == exists|w: int| 0 <= w < e@.2.len() && (#[trigger] e@.2[w]).1 > 0,
{
    let mut w: usize = 0;
    while w < e.words.len()
        invariant
            w <= e.words@.len(),
            forall|x: int| 0 <= x < w ==> (#[trigger] e@.2[x]).1 == 0,
        decreases e.words.len() - w,
    {
        if e.words[w].1 > 0 {
            assert(e@.2[w as int].1 > 0);
            return true;
        }
        w = w + 1;
    }
    false
}

/// Whether dictionary words cover every byte of an input of length `n`.
pub fn has_full_coverage(n: usize, edges: &[DagEdge]) -> (b: bool)
    ensures
        b == full_coverage(n as int, edge_views(edges@)),
{
    let ghost es = edge_views(edges@);
    let mut i: usize = 0;
    while i < n
        invariant
            i <= n,
            es == edge_views(edges@),
            forall|j: int| 0 <= j < i ==> #[trigger] covered(es, j),
        decreases n - i,
    {
        let mut found = false;
        let mut k: usize = 0;
        while k < edges.len()
            invariant
                k <= edges@.len(),
                es == edge_views(edges@),
                found ==> exists|q: int| 0 <= q < es.len() && edge_covers(#[trigger] es[q], i as int),
                !found ==> forall|q: int| 0 <= q < k ==> !edge_covers(#[trigger] es[q], i as int),
            decreases edges.len() - k,
        {
            let e = &edges[k];
            if e.from <= i && i < e.to && has_real_word(e) {
                assert(edge_covers(es[k as int], i as int));
                found = true;
            }
            k = k + 1;
        }
        if !found {
            assert(!covered(es, i as int));
            return false;
        }
        assert(covered(es, i as int));
        i = i + 1;
    }
    true
}

pub open spec fn same_span(a: EdgeView, b: EdgeView) -> bool {
    a.0 == b.0 && a.1 == b.1
}

/// The first index from `k` on of an edge with the span of `e`, or -1.
pub open spec fn first_same_span(m: Seq<EdgeView>, e: EdgeView, k: int) -> int
    decreases m.len() - k,
{
    if k >= m.len() || k < 0 {
        -1
    } else if same_span(m[k], e) {
        k
    } else {
        first_same_span(m, e, k + 1)
    }
}

/// Adds edge `e`: its words join those of the first edge with the same span, if any.
pub open spec fn merge_one(m: Seq<EdgeView>, e: EdgeView) -> Seq<EdgeView> {
    let k = first_same_span(m, e, 0);
    if k >= 0 {
        m.update(k, (m[k].0, m[k].1, m[k].2 + e.2))
    } else {
        m.push(e)
    }
}

/// The edges of `a`, then each edge of `b` merged in order.
pub open spec fn merge_all(a: Seq<EdgeView>, b: Seq<EdgeView>) -> Seq<EdgeView>
    decreases b.len(),
{
    if b.len() == 0 {
        a
    } else {
        merge_one(merge_all(a, b.drop_last()), b.last())
    }
}

proof fn lemma_first_same_span(m: Seq<EdgeView>, e: EdgeView, k: int, found: int)
    requires
        0 <= k <= m.len(),
        forall|j: int| 0 <= j < k ==> !same_span(#[trigger] m[j], e),
        found == first_same_span(m, e, k),
    ensures
        found == first_same_span(m, e, 0),
    decreases k,
{
    if k > 0 {
        lemma_first_same_span(m, e, k - 1, found);
    }
}

proof fn lemma_first_same_span_range(m: Seq<EdgeView>, e: EdgeView, k: int)
    requires
        0 <= k,
    ensures
        first_same_span(m, e, k) == -1 || (k <= first_same_span(m, e, k) < m.len() && same_span(
            m[first_same_span(m, e, k)],
            e,
        )),
    decreases m.len() - k,
{
    if k < m.len() && !same_span(m[k], e) {
        lemma_first_same_span_range(m, e, k + 1);
    }
}

/// Merges two edge lists: the edges of `a`, then those of `b`, where an edge of
/// `b` with the span of an edge already present adds its words to that edge.
pub fn merge_edges(a: &[DagEdge], b: &[DagEdge]) -> (merged: Vec<DagEdge>)
    ensures
        edge_views(merged@) == merge_all(edge_views(a@), edge_views(b@)),
{
    let ghost av = edge_views(a@);
    let ghost bv = edge_views(b@);
    let mut merged: Vec<DagEdge> = Vec::new();
    let mut i: usize = 0;
    while i < a.len()
        invariant
            i <= a@.len(),
            av == edge_views(a@),
            edge_views(merged@) == av.take(i as int),
        decreases a.len() - i,
    {
        merged.push(a[i].clone());
        assert(av.take(i + 1) =~= av.take(i as int).push(a@[i as int]@));
        i = i + 1;
        assert(edge_views(merged@) =~= av.take(i as int));
    }
    assert(av.take(i as int) =~= av);
    let mut j: usize = 0;
    while j < b.len()
        invariant
            j <= b@.len(),
            bv == edge_views(b@),
            edge_views(merged@) == merge_all(av, bv.take(j as int)),
        decreases b.len() - j,
    {
        let eb = &b[j];
        let ghost mv = edge_views(merged@);
        assert(bv.take(j + 1).drop_last() =~= bv.take(j as int));
        assert(bv.take(j + 1).last() == eb@);
        let mut k: usize = 0;
        while k < merged.len()
            invariant
                k <= merged@.len(),
                mv == edge_views(merged@),
                forall|q: int| 0 <= q < k ==> !same_span(#[trigger] mv[q], eb@),
            ensures
                k <= merged@.len(),
                forall|q: int| 0 <= q < k ==> !same_span(#[trigger] mv[q], eb@),
                k < merged@.len() ==> same_span(mv[k as int], eb@),
            decreases merged.len() - k,
        {
            if merged[k].from == eb.from && merged[k].to == eb.to {
                break;
            }
            k = k + 1;
        }
        if k < merged.len() {
            proof {
                lemma_first_same_span(mv, eb@, k as int, k as int);
            }
            let extra = copy_words(&eb.words);
            let mut t: usize = 0;
            let ghost start_words = merged@[k as int].words@;
            let ghost m0 = merged@;
            while t < extra.len()
                invariant
                    k < merged@.len(),
                    m0.len() == merged@.len(),
                    mv == edge_views(m0),
                    t <= extra@.len(),
                    merged@.len() == mv.len(),
                    forall|q: int| 0 <= q < merged@.len() && q != k ==> #[trigger] merged@[q] == m0[q],
                    merged@[k as int].from == mv[k as int].0,
                    merged@[k as int].to == mv[k as int].1,
                    merged@[k as int].words@ == start_words + extra@.take(t as int),
                decreases extra.len() - t,
            {
                merged[k].words.push((extra[t].0.clone(), extra[t].1));
                t = t + 1;
                assert(merged@[k as int].words@ =~= start_words + extra@.take(t as int));
            }
            proof {
                assert(extra@.take(t as int) =~= extra@);
                let target = merge_one(mv, eb@);
                assert(edge_views(merged@) =~= target) by {
                    assert forall|q: int| 0 <= q < merged@.len() implies #[trigger] edge_views(merged@)[q] == target[q] by {
                        if q == k {
                            assert(merged@[q].words@.map_values(|w: (String, u32)| word_view(w)) =~= mv[q].2 + eb@.2);
                        } else {
                            assert(merged@[q] == m0[q]);
                        }
                    }
                }
            }
        } else {
            proof {
                lemma_first_same_span(mv, eb@, k as int, -1);
            }
            merged.push(eb.clone());
            assert(edge_views(merged@) =~= merge_one(mv, eb@));
        }
        j = j + 1;
    }
    assert(bv.take(j as int) =~= bv);
    merged
}

/// Whether every byte of `input` that no key of `trie` starts at is ASCII.
pub fn dag_input_ok(input: &str, trie: &Trie<DictCandidate>) -> (b: bool)
    requires
        trie.wf(),
    ensures
        b == unmatched_bytes_ascii(*trie, input.spec_bytes()),
{
    let bytes = input.as_bytes();
    let ghost t = bytes@;
    let mut i: usize = 0;
    while i < bytes.len()
        invariant
            trie.wf(),
            bytes@ == t,
            t == input.spec_bytes(),
            i <= t.len(),
            forall|j: int|
                0 <= j < i && #[trigger] trie.prefix_ends(t, j, t.len() as int).len() == 0 ==> t[j] < 0x80,
        decreases bytes.len() - i,
    {
        if bytes[i] >= 0x80 && !trie.starts_with_key(input, i) {
            return false;
        }
        i = i + 1;
    }
    true
}

/// The most dictionary candidates a lookup gives.
pub const MAX_CANDIDATES: usize = 50;

/// `s` cut to its first `n` items.
pub open spec fn truncated<A>(s: Seq<A>, n: nat) -> Seq<A> {
    if s.len() <= n {
        s
    } else {
        s.take(n as int)
    }
}

pub open spec fn dict_weight(c: DictCandidate) -> u64 {
    c.weight as u64
}

fn owned_copies(refs: &Vec<&DictCandidate>) -> (r: Vec<DictCandidate>)
    ensures
        r@ == deref_all(refs@),
{
    let mut r: Vec<DictCandidate> = Vec::new();
    let mut i: usize = 0;
    while i < refs.len()
        invariant
            i <= refs@.len(),
            r@ == deref_all(refs@).take(i as int),
        decreases refs.len() - i,
    {
        r.push(refs[i].clone());
        i = i + 1;
        assert(r@ =~= deref_all(refs@).take(i as int));
    }
    assert(deref_all(refs@).take(i as int) =~= deref_all(refs@));
    r
}

/// English words for an input typed as a prefix: the words whose code is
/// exactly `input`, heaviest first, then the words whose code extends it,
/// heaviest first; at most `MAX_CANDIDATES` of them.
pub fn english_prefix_match(trie: &Trie<DictCandidate>, input: &str) -> (r: Vec<DictCandidate>)
    requires
        trie.wf(),
    ensures
        exists|pre: Seq<DictCandidate>, origin: Seq<(Seq<u8>, int)>, se: Seq<DictCandidate>, sp: Seq<DictCandidate>|
            {
                &&& trie.lists_extensions(input.spec_bytes(), pre, origin)
                &&& stable_sorted_desc(trie.entries_at(input.spec_bytes()), se, |c: DictCandidate| dict_weight(c))
                &&& stable_sorted_desc(pre, sp, |c: DictCandidate| dict_weight(c))
                &&& r@ == truncated(se + sp, MAX_CANDIDATES as nat)
            },
{
    let (exact, prefix) = trie.prefix_search(input);
    let ghost pre = deref_all(prefix@);
    let ghost ev = trie.entries_at(input.spec_bytes());
    let ex = owned_copies(&exact);
    assert(ex@ =~= ev);
    let mut result = sort_by_weight_desc(ex);
    let pr = owned_copies(&prefix);
    let ranked = sort_by_weight_desc(pr);
    let ghost se = result@;
    let ghost sp = ranked@;
    let mut ranked = ranked;
    result.append(&mut ranked);
    if result.len() > MAX_CANDIDATES {
        result.truncate(MAX_CANDIDATES);
    }
    proof {
        assert((|c: DictCandidate| dict_weight(c)) =~= (|c: DictCandidate| c.weight_of()));
        let origin = choose|origin: Seq<(Seq<u8>, int)>| trie.lists_extensions(input.spec_bytes(), pre, origin);
        assert(result@ =~= truncated(se + sp, MAX_CANDIDATES as nat));
    }
    result
}

/// The characters of `input` that are not whitespace.
pub fn strip_whitespace(input: &str) -> (r: String)
    ensures
        r@ == without_whitespace(input@),
{
    let v = chars_of(input);
    let r = crate::text::string_without_whitespace(&v, 0, v.len());
    assert(v@.subrange(0, v@.len() as int) =~= v@);
    r
}

/// A state of the segmentation search as backtracking reads it: the node and
/// the state there that it extends, and the word it adds (empty for the start).
pub struct PathLink {
    pub prev_node: usize,
    pub prev_state_idx: usize,
    pub word_text: String,
}

/// The view of a state: (previous node, previous state, word).
pub type LinkView = (usize, usize, Seq<char>);

pub open spec fn link_views(dp: Seq<Vec<PathLink>>) -> Seq<Seq<LinkView>> {
    dp.map_values(|v: Vec<PathLink>| v@.map_values(|l: PathLink| (l.prev_node, l.prev_state_idx, l.word_text@)))
}

/// Every state that adds a word extends a state of an earlier node.
pub open spec fn links_ok(dp: Seq<Seq<LinkView>>) -> bool {
    forall|j: int, s: int|
        0 <= j < dp.len() && 0 <= s < dp[j].len() && (#[trigger] dp[j][s]).2.len() > 0 ==> {
            &&& dp[j][s].0 < j
            &&& dp[j][s].1 < dp[dp[j][s].0 as int].len()
        }
}

/// The words along the path that ends in state `s` of node `j`, first word first.
pub open spec fn path_words(dp: Seq<Seq<LinkView>>, j: int, s: int) -> Seq<Seq<char>>
    decreases j,
{
    let st = dp[j][s];
    if st.2.len() == 0 || j <= 0 || st.0 >= j {
        Seq::empty()
    } else {
        path_words(dp, st.0 as int, st.1 as int).push(st.2)
    }
}

/// The words of `ws` one after another.
pub open spec fn concat_all(ws: Seq<Seq<char>>) -> Seq<char>
    decreases ws.len(),
{
    if ws.len() == 0 {
        Seq::empty()
    } else {
        concat_all(ws.drop_last()) + ws.last()
    }
}

pub open spec fn is_ascii_letter(c: char) -> bool {
    ('a' <= c <= 'z') || ('A' <= c <= 'Z')
}

/// A path text is a candidate when it is not empty and holds no ASCII letter
/// (a letter is input that no dictionary word covered).
pub open spec fn is_candidate_text(t: Seq<char>) -> bool {
    t.len() > 0 && forall|i: int| 0 <= i < t.len() ==> !is_ascii_letter(#[trigger] t[i])
}

/// Every word is a single character.
pub open spec fn all_single(ws: Seq<Seq<char>>) -> bool {
    forall|q: int| 0 <= q < ws.len() ==> (#[trigger] ws[q]).len() == 1
}

/// The candidate paths among the first `k` final states (those made of single
/// characters when `single`, the others otherwise): their state and text, in order.
pub open spec fn backtracked(dp: Seq<Seq<LinkView>>, n: int, k: int, single: bool) -> Seq<(usize, Seq<char>)>
    decreases k,
{
    if k <= 0 {
        Seq::empty()
    } else {
        let prev = backtracked(dp, n, k - 1, single);
        let ws = path_words(dp, n, k - 1);
        if is_candidate_text(concat_all(ws)) && all_single(ws) == single {
            prev.push(((k - 1) as usize, concat_all(ws)))
        } else {
            prev
        }
    }
}

/// What the backtracked texts are: each names a final state among the first
/// `k`, is the text of that state's path, is not empty and holds no ASCII
/// letter of either case, and is of the asked kind (single characters or
/// not); and every such path text of that kind is there.
pub proof fn lemma_backtracked_texts(dp: Seq<Seq<LinkView>>, n: int, k: int, single: bool)
    requires
        k <= usize::MAX,
    ensures
        forall|m: int|
            0 <= m < backtracked(dp, n, k, single).len() ==> {
                let (s, t) = #[trigger] backtracked(dp, n, k, single)[m];
                &&& 0 <= s < k
                &&& t == concat_all(path_words(dp, n, s as int))
                &&& t.len() > 0
                &&& forall|i: int| 0 <= i < t.len() ==> !(('a' <= #[trigger] t[i] <= 'z') || ('A' <= t[i] <= 'Z'))
                &&& all_single(path_words(dp, n, s as int)) == single
            },
        forall|s: int|
            #![trigger concat_all(path_words(dp, n, s))]
            0 <= s < k && concat_all(path_words(dp, n, s)).len() > 0 && (forall|i: int|
                0 <= i < concat_all(path_words(dp, n, s)).len() ==> !(('a' <= #[trigger] concat_all(path_words(dp, n, s))[i] <= 'z')
                    || ('A' <= concat_all(path_words(dp, n, s))[i] <= 'Z'))) && all_single(path_words(dp, n, s))
                == single ==> exists|m: int|
                0 <= m < backtracked(dp, n, k, single).len() && (#[trigger] backtracked(dp, n, k, single)[m]).0 == s,
    decreases k,
{
    if k > 0 {
        lemma_backtracked_texts(dp, n, k - 1, single);
        let prev = backtracked(dp, n, k - 1, single);
        let cur = backtracked(dp, n, k, single);
        let ws = path_words(dp, n, k - 1);
        let t = concat_all(ws);
        if is_candidate_text(t) && all_single(ws) == single {
            assert(cur == prev.push(((k - 1) as usize, t)));
            assert forall|m: int| 0 <= m < cur.len() implies {
                let (s, tt) = #[trigger] cur[m];
                &&& 0 <= s < k
                &&& tt == concat_all(path_words(dp, n, s as int))
                &&& tt.len() > 0
                &&& forall|i: int| 0 <= i < tt.len() ==> !(('a' <= #[trigger] tt[i] <= 'z') || ('A' <= tt[i] <= 'Z'))
                &&& all_single(path_words(dp, n, s as int)) == single
            } by {
                if m < prev.len() {
                    assert(cur[m] == prev[m]);
                } else {
                    assert forall|i: int| 0 <= i < t.len() implies !(('a' <= #[trigger] t[i] <= 'z') || ('A' <= t[i] <= 'Z')) by {
                        assert(!is_ascii_letter(t[i]));
                    }
                }
            }
            assert forall|s: int|
                #![trigger concat_all(path_words(dp, n, s))]
                0 <= s < k && concat_all(path_words(dp, n, s)).len() > 0 && (forall|i: int|
                    0 <= i < concat_all(path_words(dp, n, s)).len() ==> !(('a' <= #[trigger] concat_all(path_words(dp, n, s))[i]
                        <= 'z') || ('A' <= concat_all(path_words(dp, n, s))[i] <= 'Z'))) && all_single(
                    path_words(dp, n, s),
                ) == single implies exists|m: int| 0 <= m < cur.len() && (#[trigger] cur[m]).0 == s by {
                if s < k - 1 {
                    let m = choose|m: int| 0 <= m < prev.len() && (#[trigger] prev[m]).0 == s;
                    assert(cur[m] == prev[m]);
                } else {
                    assert(cur[prev.len() as int].0 == s);
                }
            }
        } else {
            assert(cur == prev);
            assert forall|s: int|
                #![trigger concat_all(path_words(dp, n, s))]
                0 <= s < k && concat_all(path_words(dp, n, s)).len() > 0 && (forall|i: int|
                    0 <= i < concat_all(path_words(dp, n, s)).len() ==> !(('a' <= #[trigger] concat_all(path_words(dp, n, s))[i]
                        <= 'z') || ('A' <= concat_all(path_words(dp, n, s))[i] <= 'Z'))) && all_single(
                    path_words(dp, n, s),
                ) == single implies exists|m: int| 0 <= m < cur.len() && (#[trigger] cur[m]).0 == s by {
                if s == k - 1 {
                    assert(is_candidate_text(t)) by {
                        assert forall|i: int| 0 <= i < t.len() implies !is_ascii_letter(#[trigger] t[i]) by {
                            assert(!(('a' <= t[i] <= 'z') || ('A' <= t[i] <= 'Z')));
                        }
                    }
                }
            }
        }
    }
}

pub open spec fn indexed_texts(r: Seq<(usize, String)>) -> Seq<(usize, Seq<char>)> {
    r.map_values(|p: (usize, String)| (p.0, p.1@))
}

/// The text of the path ending in state `s` of node `j`, and whether all its words are single characters.
fn follow_path(dp: &Vec<Vec<PathLink>>, j: usize, s: usize) -> (r: (String, bool))
    requires
        j < dp@.len(),
        s < dp@[j as int]@.len(),
        links_ok(link_views(dp@)),
    ensures
        r.0@ == concat_all(path_words(link_views(dp@), j as int, s as int)),
        r.1 == all_single(path_words(link_views(dp@), j as int, s as int)),
{
    let ghost d = link_views(dp@);
    let mut segs: Vec<&String> = Vec::new();
    let ghost mut tail: Seq<Seq<char>> = Seq::empty();
    let mut cn = j;
    let mut ci = s;
    while !dp[cn][ci].word_text.as_str().is_empty()
        invariant
            d == link_views(dp@),
            links_ok(d),
            cn < dp@.len(),
            ci < dp@[cn as int]@.len(),
            path_words(d, j as int, s as int) == path_words(d, cn as int, ci as int) + tail,
            tail.len() == segs@.len(),
            forall|q: int| 0 <= q < tail.len() ==> tail[q] == (#[trigger] segs@[segs@.len() - 1 - q])@,
        decreases cn,
    {
        let st = &dp[cn][ci];
        proof {
            assert(d[cn as int][ci as int] == (st.prev_node, st.prev_state_idx, st.word_text@));
            assert(d[cn as int][ci as int].2.len() > 0);
            assert(path_words(d, cn as int, ci as int) == path_words(d, st.prev_node as int, st.prev_state_idx as int).push(st.word_text@));
        }
        let ghost old_segs = segs@;
        segs.push(&st.word_text);
        proof {
            let old_tail = tail;
            tail = seq![st.word_text@] + old_tail;
            assert forall|q: int| 0 <= q < tail.len() implies tail[q] == (#[trigger] segs@[segs@.len() - 1 - q])@ by {
                if q > 0 {
                    assert(tail[q] == old_tail[q - 1]);
                    assert(old_tail[q - 1] == old_segs[old_segs.len() - 1 - (q - 1)]@);
                    assert(segs@[segs@.len() - 1 - q] == old_segs[old_segs.len() - 1 - (q - 1)]);
                } else {
                    assert(segs@[segs@.len() - 1] == &st.word_text);
                }
            }
            assert(path_words(d, j as int, s as int) =~= path_words(d, st.prev_node as int, st.prev_state_idx as int) + tail);
        }
        cn = st.prev_node;
        ci = st.prev_state_idx;
    }
    proof {
        assert(d[cn as int][ci as int].2.len() == 0);
        assert(path_words(d, j as int, s as int) =~= tail);
    }
    let mut text = String::new();
    let mut single = true;
    let mut k = segs.len();
    while k > 0
        invariant
            k <= segs@.len(),
            tail.len() == segs@.len(),
            forall|q: int| 0 <= q < tail.len() ==> tail[q] == (#[trigger] segs@[segs@.len() - 1 - q])@,
            text@ == concat_all(tail.take(segs@.len() - k)),
            single == all_single(tail.take(segs@.len() - k)),
        decreases k,
    {
        let q = segs.len() - k;
        let w = chars_of(segs[k - 1].as_str());
        proof {
            assert(tail[q as int] == segs@[segs@.len() - 1 - q]@);
            assert(tail.take(q + 1).drop_last() =~= tail.take(q as int));
        }
        crate::dict::push_all(&mut text, &w);
        if w.len() != 1 {
            single = false;
        }
        proof {
            let a = tail.take(q + 1);
            assert(a[q as int] == tail[q as int]);
            assert(all_single(a) == (all_single(tail.take(q as int)) && tail[q as int].len() == 1)) by {
                if all_single(tail.take(q as int)) && tail[q as int].len() == 1 {
                    assert forall|x: int| 0 <= x < a.len() implies (#[trigger] a[x]).len() == 1 by {
                        if x < q {
                            assert(a[x] == tail.take(q as int)[x]);
                        }
                    }
                }
                if all_single(a) {
                    assert forall|x: int| 0 <= x < q implies (#[trigger] tail.take(q as int)[x]).len() == 1 by {
                        assert(a[x] == tail.take(q as int)[x]);
                    }
                }
            }
        }
        k = k - 1;
    }
    assert(tail.take(segs@.len() as int) =~= tail);
    (text, single)
}

/// Whether `t` holds an ASCII letter.
fn has_ascii_letter(t: &str) -> (b: bool)
    ensures
        b == exists|i: int| 0 <= i < t@.len() && is_ascii_letter(#[trigger] t@[i]),
{
    let v = chars_of(t);
    let mut i: usize = 0;
    while i < v.len()
        invariant
            v@ == t@,
            i <= v@.len(),
            forall|q: int| 0 <= q < i ==> !is_ascii_letter(#[trigger] v@[q]),
        decreases v.len() - i,
    {
        let c = v[i];
        if ('a' <= c && c <= 'z') || ('A' <= c && c <= 'Z') {
            assert(is_ascii_letter(t@[i as int]));
            return true;
        }
        i = i + 1;
    }
    false
}

/// Whether every state of `dp` that adds a word extends a state of an earlier node.
pub fn check_links(dp: &Vec<Vec<PathLink>>) -> (b: bool)
    ensures
        b == links_ok(link_views(dp@)),
{
    let ghost d = link_views(dp@);
    let mut j: usize = 0;
    while j < dp.len()
        invariant
            d == link_views(dp@),
            j <= dp@.len(),
            forall|j2: int, s2: int|
                0 <= j2 < j && 0 <= s2 < d[j2].len() && (#[trigger] d[j2][s2]).2.len() > 0 ==> {
                    &&& d[j2][s2].0 < j2
                    &&& d[j2][s2].1 < d[d[j2][s2].0 as int].len()
                },
        decreases dp.len() - j,
    {
        let mut s: usize = 0;
        while s < dp[j].len()
            invariant
                d == link_views(dp@),
                j < dp@.len(),
                s <= dp@[j as int]@.len(),
                forall|j2: int, s2: int|
                    0 <= j2 < j && 0 <= s2 < d[j2].len() && (#[trigger] d[j2][s2]).2.len() > 0 ==> {
                        &&& d[j2][s2].0 < j2
                        &&& d[j2][s2].1 < d[d[j2][s2].0 as int].len()
                    },
                forall|s2: int|
                    0 <= s2 < s && (#[trigger] d[j as int][s2]).2.len() > 0 ==> {
                        &&& d[j as int][s2].0 < j
                        &&& d[j as int][s2].1 < d[d[j as int][s2].0 as int].len()
                    },
            decreases dp@[j as int]@.len() - s,
        {
            let st = &dp[j][s];
            assert(d[j as int][s as int] == (st.prev_node, st.prev_state_idx, st.word_text@));
            if !st.word_text.as_str().is_empty() {
                if st.prev_node >= j || st.prev_state_idx >= dp[st.prev_node].len() {
                    return false;
                }
            }
            s = s + 1;
        }
        j = j + 1;
    }
    true
}

/// The candidate texts of the search's final states (`dp[n]`): the text of
/// each path, dropped when empty or holding an ASCII letter; paths with a
/// word longer than one character first, then those of single characters,
/// each group in the order of the final states. Each comes with its state.
pub fn backtrack(n: usize, dp: &Vec<Vec<PathLink>>) -> (r: Vec<(usize, String)>)
    requires
        dp@.len() == n + 1,
        links_ok(link_views(dp@)),
    ensures
        indexed_texts(r@) == backtracked(link_views(dp@), n as int, dp@[n as int]@.len() as int, false)
            + backtracked(link_views(dp@), n as int, dp@[n as int]@.len() as int, true),
        forall|m: int|
            0 <= m < r@.len() ==> {
                &&& (#[trigger] r@[m]).0 < dp@[n as int]@.len()
                &&& r@[m].1@ == concat_all(path_words(link_views(dp@), n as int, r@[m].0 as int))
                &&& r@[m].1@.len() > 0
                &&& forall|i: int|
                    0 <= i < r@[m].1@.len() ==> !(('a' <= #[trigger] r@[m].1@[i] <= 'z') || ('A' <= r@[m].1@[i] <= 'Z'))
            },
{
    let ghost d = link_views(dp@);
    let count = dp[n].len();
    let mut phrases: Vec<(usize, String)> = Vec::new();
    let mut singles: Vec<(usize, String)> = Vec::new();
    let mut s: usize = 0;
    while s < count
        invariant
            d == link_views(dp@),
            links_ok(d),
            n < dp@.len(),
            count == dp@[n as int]@.len(),
            s <= count,
            indexed_texts(phrases@) == backtracked(d, n as int, s as int, false),
            indexed_texts(singles@) == backtracked(d, n as int, s as int, true),
        decreases count - s,
    {
        let (text, single) = follow_path(dp, n, s);
        let ghost ws = path_words(d, n as int, s as int);
        let keep = !text.as_str().is_empty() && !has_ascii_letter(text.as_str());
        assert(keep == is_candidate_text(concat_all(ws)));
        if keep {
            if single {
                singles.push((s, text));
                assert(indexed_texts(singles@) =~= backtracked(d, n as int, s + 1, true));
            } else {
                phrases.push((s, text));
                assert(indexed_texts(phrases@) =~= backtracked(d, n as int, s + 1, false));
            }
        }
        assert(indexed_texts(phrases@) =~= backtracked(d, n as int, s + 1, false));
        assert(indexed_texts(singles@) =~= backtracked(d, n as int, s + 1, true));
        s = s + 1;
    }
    let ghost pv = indexed_texts(phrases@);
    let ghost sv = indexed_texts(singles@);
    phrases.append(&mut singles);
    assert(indexed_texts(phrases@) =~= pv + sv);
    proof {
        lemma_backtracked_texts(d, n as int, count as int, false);
        lemma_backtracked_texts(d, n as int, count as int, true);
        let all = indexed_texts(phrases@);
        assert forall|m: int| 0 <= m < phrases@.len() implies {
            &&& (#[trigger] phrases@[m]).0 < dp@[n as int]@.len()
            &&& phrases@[m].1@ == concat_all(path_words(d, n as int, phrases@[m].0 as int))
            &&& phrases@[m].1@.len() > 0
            &&& forall|i: int|
                0 <= i < phrases@[m].1@.len() ==> !(('a' <= #[trigger] phrases@[m].1@[i] <= 'z') || ('A'
                    <= phrases@[m].1@[i] <= 'Z'))
        } by {
            assert(all[m] == (phrases@[m].0, phrases@[m].1@));
            if m < pv.len() {
                assert(all[m] == pv[m]);
                let (s0, t0) = backtracked(d, n as int, count as int, false)[m];
            } else {
                assert(all[m] == sv[m - pv.len()]);
                let (s0, t0) = backtracked(d, n as int, count as int, true)[m - pv.len()];
            }
        }
    }
    phrases
}

/// `a` comes before `b` in the order of their characters (the order `str`
/// compares in: by code point, a proper prefix first).
pub open spec fn text_lt(a: Seq<char>, b: Seq<char>) -> bool
    decreases a.len(),
{
    if a.len() == 0 {
        b.len() > 0
    } else if b.len() == 0 {
        false
    } else if a[0] != b[0] {
        a[0] < b[0]
    } else {
        text_lt(a.drop_first(), b.drop_first())
    }
}

pub proof fn lemma_text_lt_irreflexive(a: Seq<char>)
    ensures
        !text_lt(a, a),
    decreases a.len(),
{
    if a.len() > 0 {
        lemma_text_lt_irreflexive(a.drop_first());
    }
}

pub proof fn lemma_text_lt_transitive(a: Seq<char>, b: Seq<char>, c: Seq<char>)
    requires
        text_lt(a, b),
        text_lt(b, c),
    ensures
        text_lt(a, c),
    decreases a.len(),
{
    if a.len() > 0 && b.len() > 0 && c.len() > 0 {
        if a[0] == b[0] && b[0] == c[0] {
            lemma_text_lt_transitive(a.drop_first(), b.drop_first(), c.drop_first());
        }
    }
}

pub proof fn lemma_text_lt_total(a: Seq<char>, b: Seq<char>)
    requires
        a != b,
    ensures
        text_lt(a, b) || text_lt(b, a),
    decreases a.len(),
{
    if a.len() > 0 && b.len() > 0 && a[0] == b[0] {
        if a.drop_first() == b.drop_first() {
            assert(a =~= seq![a[0]] + a.drop_first());
            assert(b =~= seq![b[0]] + b.drop_first());
        }
        lemma_text_lt_total(a.drop_first(), b.drop_first());
    } else if a.len() == 0 && b.len() == 0 {
        assert(a =~= b);
    }
}

/// Whether `a` comes before `b` (see `text_lt`).
fn text_less(a: &Vec<char>, b: &Vec<char>) -> (r: bool)
    ensures
        r == text_lt(a@, b@),
{
    let mut i: usize = 0;
    assert(a@.skip(0) =~= a@ && b@.skip(0) =~= b@);
    while i < a.len() && i < b.len() && a[i] == b[i]
        invariant
            i <= a@.len(),
            i <= b@.len(),
            text_lt(a@, b@) == text_lt(a@.skip(i as int), b@.skip(i as int)),
        decreases a.len() - i,
    {
        assert(a@.skip(i as int).drop_first() =~= a@.skip(i + 1));
        assert(b@.skip(i as int).drop_first() =~= b@.skip(i + 1));
        i = i + 1;
    }
    if i == a.len() {
        i < b.len()
    } else if i == b.len() {
        false
    } else {
        a[i] < b[i]
    }
}

/// Every kept candidate is one of `0..upto`.
pub open spec fn keep_below(keep: Seq<usize>, upto: int) -> bool {
    forall|m: int| 0 <= m < keep.len() ==> (#[trigger] keep[m]) < upto
}

/// The kept candidates are in strictly increasing order of text.
pub open spec fn keep_sorted(texts: Seq<Seq<char>>, keep: Seq<usize>) -> bool {
    forall|m1: int, m2: int|
        0 <= m1 < m2 < keep.len() ==> text_lt(texts[#[trigger] keep[m1] as int], texts[#[trigger] keep[m2] as int])
}

/// `t` is the text of a kept candidate.
pub open spec fn text_kept(texts: Seq<Seq<char>>, keep: Seq<usize>, t: Seq<char>) -> bool {
    exists|m: int| 0 <= m < keep.len() && texts[#[trigger] keep[m] as int] == t
}

/// Every text of `0..upto` is the text of a kept candidate.
pub open spec fn keep_covers(texts: Seq<Seq<char>>, upto: int, keep: Seq<usize>) -> bool {
    forall|j: int| 0 <= j < upto ==> #[trigger] text_kept(texts, keep, texts[j])
}

/// A kept candidate has no more segments than any candidate of `0..upto` with
/// its text, and comes first among those with as few.
pub open spec fn keep_minimal(texts: Seq<Seq<char>>, segs: Seq<u32>, upto: int, keep: Seq<usize>) -> bool {
    forall|j: int, m: int|
        0 <= j < upto && 0 <= m < keep.len() && #[trigger] texts[j] == texts[#[trigger] keep[m] as int] ==> {
            ||| segs[keep[m] as int] < segs[j]
            ||| (segs[keep[m] as int] == segs[j] && keep[m] <= j)
        }
}

/// `keep` lists, for candidates `0..upto` with the given texts and segment
/// counts, one candidate per distinct text, in the order of their texts: the
/// one with the fewest segments, the earliest of those.
pub open spec fn dedup_ok(texts: Seq<Seq<char>>, segs: Seq<u32>, upto: int, keep: Seq<usize>) -> bool {
    &&& keep_below(keep, upto)
    &&& keep_sorted(texts, keep)
    &&& keep_covers(texts, upto, keep)
    &&& keep_minimal(texts, segs, upto, keep)
}

proof fn lemma_dedup_same(texts: Seq<Seq<char>>, segs: Seq<u32>, i: int, k0: Seq<usize>, p: int, k1: Seq<usize>)
    requires
        dedup_ok(texts, segs, i, k0),
        0 <= i <= usize::MAX,
        0 <= p < k0.len(),
        texts[k0[p] as int] == texts[i],
        k1 == (if segs[i] < segs[k0[p] as int] {
            k0.update(p, i as usize)
        } else {
            k0
        }),
    ensures
        dedup_ok(texts, segs, i + 1, k1),
{
    let q = k0[p] as int;
    assert(k1.len() == k0.len());
    assert forall|m: int| 0 <= m < k1.len() implies texts[#[trigger] k1[m] as int] == texts[k0[m] as int] by {}
    assert forall|m1: int, m2: int|
        0 <= m1 < m2 < k1.len() implies text_lt(texts[#[trigger] k1[m1] as int], texts[#[trigger] k1[m2] as int]) by {
        assert(texts[k1[m1] as int] == texts[k0[m1] as int]);
        assert(texts[k1[m2] as int] == texts[k0[m2] as int]);
        assert(text_lt(texts[k0[m1] as int], texts[k0[m2] as int]));
    }
    assert forall|j: int| 0 <= j < i + 1 implies #[trigger] text_kept(texts, k1, texts[j]) by {
        if j == i {
            assert(texts[k1[p] as int] == texts[j]);
        } else {
            assert(text_kept(texts, k0, texts[j]));
            let m = choose|m: int| 0 <= m < k0.len() && texts[#[trigger] k0[m] as int] == texts[j];
            assert(texts[k1[m] as int] == texts[k0[m] as int]);
        }
    }
    assert forall|j: int, m: int|
        0 <= j < i + 1 && 0 <= m < k1.len() && #[trigger] texts[j] == texts[#[trigger] k1[m] as int] implies {
        ||| segs[k1[m] as int] < segs[j]
        ||| (segs[k1[m] as int] == segs[j] && k1[m] <= j)
    } by {
        if m != p {
            assert(k1[m] == k0[m]);
            if j == i {
                lemma_text_lt_irreflexive(texts[j]);
                if m < p {
                    assert(text_lt(texts[k0[m] as int], texts[k0[p] as int]));
                } else {
                    assert(text_lt(texts[k0[p] as int], texts[k0[m] as int]));
                }
            }
        } else if j < i {
            assert(texts[j] == texts[q]);
            assert(segs[q] < segs[j] || (segs[q] == segs[j] && q <= j));
        }
    }
}

/// Where `texts[i]` would go among the kept texts, it is none of them.
proof fn lemma_new_text(texts: Seq<Seq<char>>, i: int, k0: Seq<usize>, p: int)
    requires
        keep_sorted(texts, k0),
        0 <= p <= k0.len(),
        forall|m: int| 0 <= m < p ==> text_lt(texts[#[trigger] k0[m] as int], texts[i]),
        p < k0.len() ==> text_lt(texts[i], texts[k0[p] as int]),
    ensures
        forall|m: int| 0 <= m < k0.len() ==> texts[#[trigger] k0[m] as int] != texts[i],
{
    lemma_text_lt_irreflexive(texts[i]);
    assert forall|m: int| 0 <= m < k0.len() implies texts[#[trigger] k0[m] as int] != texts[i] by {
        if m >= p {
            if m > p {
                assert(text_lt(texts[k0[p] as int], texts[k0[m] as int]));
                lemma_text_lt_transitive(texts[i], texts[k0[p] as int], texts[k0[m] as int]);
            }
            assert(text_lt(texts[i], texts[k0[m] as int]));
        }
    }
}

proof fn lemma_insert_sorted(texts: Seq<Seq<char>>, i: int, k0: Seq<usize>, p: int)
    requires
        keep_sorted(texts, k0),
        0 <= i <= usize::MAX,
        0 <= p <= k0.len(),
        forall|m: int| 0 <= m < p ==> text_lt(texts[#[trigger] k0[m] as int], texts[i]),
        p < k0.len() ==> text_lt(texts[i], texts[k0[p] as int]),
    ensures
        keep_sorted(texts, k0.insert(p, i as usize)),
{
    let k1 = k0.insert(p, i as usize);
    assert forall|m1: int, m2: int|
        0 <= m1 < m2 < k1.len() implies text_lt(texts[#[trigger] k1[m1] as int], texts[#[trigger] k1[m2] as int]) by {
        if m2 < p {
            assert(k1[m1] == k0[m1] && k1[m2] == k0[m2]);
        } else if m2 == p {
            assert(k1[m1] == k0[m1]);
        } else if m1 > p {
            assert(k1[m1] == k0[m1 - 1] && k1[m2] == k0[m2 - 1]);
        } else if m1 == p {
            assert(k1[m2] == k0[m2 - 1]);
            if m2 - 1 > p {
                assert(text_lt(texts[k0[p] as int], texts[k0[m2 - 1] as int]));
                lemma_text_lt_transitive(texts[i], texts[k0[p] as int], texts[k0[m2 - 1] as int]);
            }
        } else {
            assert(k1[m1] == k0[m1] && k1[m2] == k0[m2 - 1]);
            assert(text_lt(texts[k0[m1] as int], texts[k0[m2 - 1] as int]));
        }
    }
}

proof fn lemma_insert_covers(texts: Seq<Seq<char>>, i: int, k0: Seq<usize>, p: int)
    requires
        keep_covers(texts, i, k0),
        0 <= i <= usize::MAX,
        0 <= p <= k0.len(),
    ensures
        keep_covers(texts, i + 1, k0.insert(p, i as usize)),
{
    let k1 = k0.insert(p, i as usize);
    assert forall|j: int| 0 <= j < i + 1 implies #[trigger] text_kept(texts, k1, texts[j]) by {
        if j == i {
            assert(k1[p] == i);
            assert(texts[k1[p] as int] == texts[j]);
        } else {
            assert(text_kept(texts, k0, texts[j]));
            let m = choose|m: int| 0 <= m < k0.len() && texts[#[trigger] k0[m] as int] == texts[j];
            if m < p {
                assert(k1[m] == k0[m]);
                assert(texts[k1[m] as int] == texts[j]);
            } else {
                assert(k1[m + 1] == k0[m]);
                assert(texts[k1[m + 1] as int] == texts[j]);
            }
        }
    }
}

proof fn lemma_insert_minimal(texts: Seq<Seq<char>>, segs: Seq<u32>, i: int, k0: Seq<usize>, p: int)
    requires
        keep_minimal(texts, segs, i, k0),
        keep_covers(texts, i, k0),
        0 <= i <= usize::MAX,
        0 <= p <= k0.len(),
        forall|m: int| 0 <= m < k0.len() ==> texts[#[trigger] k0[m] as int] != texts[i],
    ensures
        keep_minimal(texts, segs, i + 1, k0.insert(p, i as usize)),
{
    let k1 = k0.insert(p, i as usize);
    assert forall|j: int, m: int|
        0 <= j < i + 1 && 0 <= m < k1.len() && #[trigger] texts[j] == texts[#[trigger] k1[m] as int] implies {
        ||| segs[k1[m] as int] < segs[j]
        ||| (segs[k1[m] as int] == segs[j] && k1[m] <= j)
    } by {
        if m == p {
            if j < i {
                assert(text_kept(texts, k0, texts[j]));
                let m2 = choose|m2: int| 0 <= m2 < k0.len() && texts[#[trigger] k0[m2] as int] == texts[j];
                assert(texts[k0[m2] as int] != texts[i]);
            }
        } else {
            let mo = if m < p {
                m
            } else {
                m - 1
            };
            assert(k1[m] == k0[mo]);
            if j == i {
                assert(texts[k0[mo] as int] != texts[i]);
            }
        }
    }
}

proof fn lemma_dedup_insert(texts: Seq<Seq<char>>, segs: Seq<u32>, i: int, k0: Seq<usize>, p: int)
    requires
        dedup_ok(texts, segs, i, k0),
        0 <= i <= usize::MAX,
        0 <= p <= k0.len(),
        forall|m: int| 0 <= m < p ==> text_lt(texts[#[trigger] k0[m] as int], texts[i]),
        p < k0.len() ==> text_lt(texts[i], texts[k0[p] as int]),
    ensures
        dedup_ok(texts, segs, i + 1, k0.insert(p, i as usize)),
{
    let k1 = k0.insert(p, i as usize);
    assert forall|m: int| 0 <= m < k1.len() implies (#[trigger] k1[m]) < i + 1 by {
        if m < p {
            assert(k1[m] == k0[m]);
        } else if m > p {
            assert(k1[m] == k0[m - 1]);
        }
    }
    lemma_new_text(texts, i, k0, p);
    lemma_insert_sorted(texts, i, k0, p);
    lemma_insert_covers(texts, i, k0, p);
    lemma_insert_minimal(texts, segs, i, k0, p);
}

pub open spec fn cand_texts(c: Seq<(String, u32)>) -> Seq<Seq<char>> {
    c.map_values(|p: (String, u32)| p.0@)
}

pub open spec fn cand_segs(c: Seq<(String, u32)>) -> Seq<u32> {
    c.map_values(|p: (String, u32)| p.1)
}

/// Which candidates (text, segment count) stay when candidates with equal
/// texts are merged: one per text, the one with the fewest segments (the
/// earliest of those), listed in the order of their texts.
#[verifier::rlimit(40)]
#[verifier::spinoff_prover]
pub fn dedup_by_text(cands: &Vec<(String, u32)>) -> (keep: Vec<usize>)
    ensures
        dedup_ok(cand_texts(cands@), cand_segs(cands@), cands@.len() as int, keep@),
{
    let ghost texts = cand_texts(cands@);
    let ghost segs = cand_segs(cands@);
    let n = cands.len();
    let mut chars: Vec<Vec<char>> = Vec::new();
    let mut i: usize = 0;
    while i < n
        invariant
            n == cands@.len(),
            texts == cand_texts(cands@),
            i <= n,
            chars@.len() == i,
            forall|j: int| 0 <= j < i ==> (#[trigger] chars@[j])@ == texts[j],
        decreases n - i,
    {
        chars.push(chars_of(cands[i].0.as_str()));
        i = i + 1;
    }
    let mut keep: Vec<usize> = Vec::new();
    let mut i: usize = 0;
    while i < n
        invariant
            n == cands@.len(),
            texts == cand_texts(cands@),
            segs == cand_segs(cands@),
            i <= n,
            chars@.len() == n,
            forall|j: int| 0 <= j < n ==> (#[trigger] chars@[j])@ == texts[j],
            dedup_ok(texts, segs, i as int, keep@),
        decreases n - i,
    {
        let mut p: usize = 0;
        while p < keep.len() && text_less(&chars[keep[p]], &chars[i])
            invariant
                n == cands@.len(),
                chars@.len() == n,
                i < n,
                p <= keep@.len(),
                forall|j: int| 0 <= j < n ==> (#[trigger] chars@[j])@ == texts[j],
                forall|m: int| 0 <= m < keep@.len() ==> (#[trigger] keep@[m]) < i,
                forall|m: int| 0 <= m < p ==> text_lt(texts[#[trigger] keep@[m] as int], texts[i as int]),
            decreases keep@.len() - p,
        {
            p = p + 1;
        }
        let ghost k0 = keep@;
        let same = p < keep.len() && !text_less(&chars[i], &chars[keep[p]]);
        if same {
            proof {
                let q = keep@[p as int] as int;
                if texts[q] != texts[i as int] {
                    lemma_text_lt_total(texts[q], texts[i as int]);
                }
            }
            let cur = keep[p];
            if cands[i].1 < cands[cur].1 {
                keep.set(p, i);
            }
            proof {
                lemma_dedup_same(texts, segs, i as int, k0, p as int, keep@);
            }
        } else {
            proof {
                if p < keep.len() {
                    let q = keep@[p as int] as int;
                    lemma_text_lt_total(texts[q], texts[i as int]);
                }
            }
            keep.insert(p, i);
            proof {
                lemma_dedup_insert(texts, segs, i as int, k0, p as int);
            }
        }
        i = i + 1;
    }
    keep
}

/// `sorted` is `ts` ordered by weight, heaviest first, equal weights keeping their order.
pub open spec fn ranked_translations(ts: Seq<(Seq<char>, u32)>, sorted: Seq<(Seq<char>, u32)>) -> bool {
    stable_sorted_desc(ts, sorted, |c: (Seq<char>, u32)| crate::dict::cand_weight(c))
}

/// The dictionary side of the input method: the tries it segments with and
/// the index it annotates with.
pub struct Pipeline {
    phrase_trie: Arc<Trie<DictCandidate>>,
    char_trie: Arc<Trie<DictCandidate>>,
    en_trie: Arc<Trie<DictCandidate>>,
    bilingual_index: Arc<BilingualIndex>,
}

impl Pipeline {
    pub closed spec fn phrases(&self) -> Trie<DictCandidate> {
        *self.phrase_trie
    }

    pub closed spec fn chars(&self) -> Trie<DictCandidate> {
        *self.char_trie
    }

    pub closed spec fn english(&self) -> Trie<DictCandidate> {
        *self.en_trie
    }

    pub closed spec fn bilingual(&self) -> BilingualIndex {
        *self.bilingual_index
    }

    pub open spec fn wf(&self) -> bool {
        &&& self.phrases().wf()
        &&& self.chars().wf()
        &&& self.english().wf()
        &&& self.bilingual().wf()
    }

    /// A pipeline sharing the given dictionaries.
    pub fn with_dictionaries(dicts: &LoadedDictionaries) -> (p: Self)
        requires
            dicts.wf(),
        ensures
            p.wf(),
            p.phrases() == *dicts.phrase_trie,
            p.chars() == *dicts.char_trie,
            p.english() == *dicts.en_trie,
            p.bilingual() == *dicts.bilingual_index,
    {
        Pipeline {
            phrase_trie: share(&dicts.phrase_trie),
            char_trie: share(&dicts.char_trie),
            en_trie: share(&dicts.en_trie),
            bilingual_index: share(&dicts.bilingual_index),
        }
    }

    /// The segmentation graph for `input` (already stripped of whitespace):
    /// the phrase graph when its dictionary words cover every byte, else the
    /// phrase graph merged with the single-character graph. `None` when a
    /// graph would need a non-ASCII byte that no key starts at as a word.
    pub fn lattice(&self, input: &str) -> (r: Option<Vec<DagEdge>>)
        requires
            self.wf(),
        ensures
            ({
                let t = input.spec_bytes();
                let pe = dag(self.phrases(), t, t.len() as int);
                let ce = dag(self.chars(), t, t.len() as int);
                if !unmatched_bytes_ascii(self.phrases(), t) {
                    r is None
                } else if full_coverage(t.len() as int, pe) {
                    r matches Some(es) && edge_views(es@) == pe
                } else if !unmatched_bytes_ascii(self.chars(), t) {
                    r is None
                } else {
                    r matches Some(es) && edge_views(es@) == merge_all(pe, ce)
                }
            }),
    {
        let phrases: &Trie<DictCandidate> = &self.phrase_trie;
        if !dag_input_ok(input, phrases) {
            return None;
        }
        let phrase_edges = build_dag(input, phrases);
        if has_full_coverage(input.as_bytes().len(), phrase_edges.as_slice()) {
            return Some(phrase_edges);
        }
        let chars: &Trie<DictCandidate> = &self.char_trie;
        if !dag_input_ok(input, chars) {
            return None;
        }
        let char_edges = build_dag(input, chars);
        Some(merge_edges(phrase_edges.as_slice(), char_edges.as_slice()))
    }

    /// English words for `input`, lowercased (`str::to_lowercase`) to match
    /// the dictionary codes (see `english_prefix_match`).
    pub fn english_candidates(&self, input: &str) -> (r: Vec<DictCandidate>)
        requires
            self.wf(),
        ensures
            ({
                let code = encode_utf8(lowercase(input@));
                exists|pre: Seq<DictCandidate>, origin: Seq<(Seq<u8>, int)>, se: Seq<DictCandidate>, sp: Seq<DictCandidate>|
                    {
                        &&& self.english().lists_extensions(code, pre, origin)
                        &&& stable_sorted_desc(self.english().entries_at(code), se, |c: DictCandidate| dict_weight(c))
                        &&& stable_sorted_desc(pre, sp, |c: DictCandidate| dict_weight(c))
                        &&& r@ == truncated(se + sp, MAX_CANDIDATES as nat)
                    }
            }),
    {
        let code = to_lowercase(input);
        english_prefix_match(&self.en_trie, code.as_str())
    }

    /// The translations of `text`, heaviest first.
    pub fn translations(&self, text: &str) -> (r: Vec<(String, u32)>)
        requires
            self.wf(),
        ensures
            stable_sorted_desc(
                self.bilingual().translations(text@),
                r@.map_values(|t: (String, u32)| crate::dict::translation_view(t)),
                |c: (Seq<char>, u32)| crate::dict::cand_weight(c),
            ),
    {
        self.bilingual_index.get(text)
    }

    /// The English annotation of `text`: its heaviest translation (the first
    /// read among equally heavy ones), if it has any.
    pub fn annotation(&self, text: &str) -> (r: Option<String>)
        requires
            self.wf(),
        ensures
            r is None <==> self.bilingual().translations(text@).len() == 0,
            r matches Some(s) ==> exists|sorted: Seq<(Seq<char>, u32)>|
                #[trigger] ranked_translations(self.bilingual().translations(text@), sorted) && sorted[0].0 == s@,
    {
        let mut ts = self.bilingual_index.get(text);
        if ts.len() == 0 {
            None
        } else {
            let ghost sorted = ts@.map_values(|t: (String, u32)| crate::dict::translation_view(t));
            let (best, _) = ts.swap_remove(0);
            assert(sorted[0].0 == best@);
            assert(ranked_translations(self.bilingual().translations(text@), sorted));
            Some(best)
        }
    }
}

} // verus!
