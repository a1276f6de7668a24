use vstd::prelude::*;
use vstd::string::StringSliceAdditionalSpecFns;

verus! {

/// An edge of the segmentation graph: the input bytes `from..to` can be read
/// as any of `words`, each with its dictionary weight.
pub struct DagEdge {
    pub from: usize,
    pub to: usize,
    pub words: Vec<(String, u32)>,
}

pub open spec fn word_view(w: (String, u32)) -> (Seq<char>, u32) {
    (w.0@, w.1)
}

impl View for DagEdge {
    type V = (usize, usize, Seq<(Seq<char>, u32)>);

    open spec fn view(&self) -> (usize, usize, Seq<(Seq<char>, u32)>) {
        (self.from, self.to, self.words@.map_values(|w: (String, u32)| word_view(w)))
    }
}

impl Clone for DagEdge {
    fn clone(&self) -> (r: Self)
        ensures
            r.from == self.from,
            r.to == self.to,
            r.words@ == self.words@,
            r@ == self@,
    {
        DagEdge { from: self.from, to: self.to, words: copy_words(&self.words) }
    }
}

/// An element-by-element copy of a word list.
pub fn copy_words(words: &Vec<(String, u32)>) -> (r: Vec<(String, u32)>)
    ensures
        r@ == words@,
{
    let mut r: Vec<(String, u32)> = Vec::new();
    let mut i: usize = 0;
    while i < words.len()
        invariant
            i <= words.len(),
            r@ == words@.take(i as int),
        decreases words.len() - i,
    {
        let w = &words[i];
        r.push((w.0.clone(), w.1));
        i = i + 1;
        assert(r@ =~= words@.take(i as int));
    }
    assert(words@.take(i as int) =~= words@);
    r
}

/// A node of the arena: outgoing byte-labelled edges and the entries stored
/// under the key that leads here.
struct TrieNode<V> {
    children: Vec<(u8, usize)>,
    entries: Vec<V>,
}

impl<V> TrieNode<V> {
    fn new() -> (r: Self)
        ensures
            r.children@.len() == 0,
            r.entries@.len() == 0,
    {
        TrieNode { children: Vec::new(), entries: Vec::new() }
    }
}

/// A byte-keyed trie that keeps, for every key, the list of entries inserted
/// under it in insertion order.
///
/// Nodes live in an arena; node 0 is the root. `paths[j]` is the key that
/// leads from the root to node `j`.
pub struct Trie<V> {
    nodes: Vec<TrieNode<V>>,
    paths: Ghost<Seq<Seq<u8>>>,
}

impl<V> Trie<V> {
    /// Node `i` has an edge labelled `b` to node `j`.
    pub closed spec fn has_child(self, i: int, b: u8, j: usize) -> bool {
        exists|k: int|
            0 <= k < self.nodes@[i].children@.len() && #[trigger] self.nodes@[i].children@[k] == (
            b,
            j,
            )
    }

    /// Well-formedness of the arena.
    pub closed spec fn wf(self) -> bool {
        let n = self.nodes@.len();
        let p = self.paths@;
        &&& n >= 1
        &&& p.len() == n
        &&& p[0] == Seq::<u8>::empty()
        &&& forall|i: int, k: int|
            #![trigger self.nodes@[i].children@[k]]
            0 <= i < n && 0 <= k < self.nodes@[i].children@.len() ==> {
                let (b, j) = self.nodes@[i].children@[k];
                &&& i < j < n
                &&& p[j as int] == p[i].push(b)
            }
        &&& forall|i: int, k1: int, k2: int|
            0 <= i < n && 0 <= k1 < self.nodes@[i].children@.len() && 0 <= k2
                < self.nodes@[i].children@.len() && k1 != k2 ==> (
            #[trigger] self.nodes@[i].children@[k1]).0 != (
            #[trigger] self.nodes@[i].children@[k2]).0
        &&& forall|i: int, j: int| 0 <= i < n && 0 <= j < n && i != j ==> #[trigger] p[i] != #[trigger] p[j]
        &&& forall|j: int|
            0 < j < n ==> (#[trigger] p[j]).len() > 0 && exists|i: int|
                0 <= i < j && #[trigger] p[i] == p[j].drop_last()
        &&& forall|i: int, j: int|
            0 <= i < n && 0 <= j < n && (#[trigger] p[j]).len() > 0 && p[j].drop_last() == #[trigger] p[i]
                ==> self.has_child(i, p[j].last(), j as usize)
    }

    /// Some node is reached by the key `k`.
    pub closed spec fn reaches(self, k: Seq<u8>) -> bool {
        exists|j: int| 0 <= j < self.nodes@.len() && self.paths@[j] == k
    }

    pub closed spec fn node_of(self, k: Seq<u8>) -> int {
        choose|j: int| 0 <= j < self.nodes@.len() && self.paths@[j] == k
    }

    /// The entries stored under key `k`, in insertion order (empty when none).
    pub closed spec fn entries_at(self, k: Seq<u8>) -> Seq<V> {
        if self.reaches(k) {
            self.nodes@[self.node_of(k)].entries@
        } else {
            Seq::empty()
        }
    }

    /// `k` is a key of the trie: at least one entry was inserted under it.
    pub open spec fn contains_key(self, k: Seq<u8>) -> bool {
        self.entries_at(k).len() > 0
    }

    proof fn lemma_node_of(self, j: int)
        requires
            self.wf(),
            0 <= j < self.nodes@.len(),
        ensures
            self.reaches(self.paths@[j]),
            self.node_of(self.paths@[j]) == j,
            self.entries_at(self.paths@[j]) == self.nodes@[j].entries@,
    {
        let k = self.paths@[j];
        assert(self.paths@[j] == k);
        let j2 = self.node_of(k);
        assert(self.paths@[j2] == k);
    }

    /// Every prefix of a node's path is itself the path of a node.
    proof fn lemma_prefix_closed(self, j: int, m: int)
        requires
            self.wf(),
            0 <= j < self.nodes@.len(),
            0 <= m <= self.paths@[j].len(),
        ensures
            self.reaches(self.paths@[j].take(m)),
        decreases j,
    {
        let p = self.paths@;
        if m == p[j].len() {
            assert(p[j].take(m) =~= p[j]);
        } else {
            assert(j != 0);
            assert(p[j].len() > 0);
            let i = choose|i: int| 0 <= i < j && #[trigger] p[i] == p[j].drop_last();
            self.lemma_prefix_closed(i, m);
            assert(p[i].take(m) =~= p[j].take(m));
        }
    }

    /// A key whose prefix reaches no node reaches no node.
    proof fn lemma_no_extension(self, k: Seq<u8>, m: int)
        requires
            self.wf(),
            0 <= m <= k.len(),
            !self.reaches(k.take(m)),
        ensures
            !self.reaches(k),
    {
        if self.reaches(k) {
            let j = self.node_of(k);
            self.lemma_prefix_closed(j, m);
        }
    }

    pub fn new() -> (t: Self)
        ensures
            t.wf(),
            forall|k: Seq<u8>| #[trigger] t.entries_at(k) == Seq::<V>::empty(),
    {
        let mut nodes: Vec<TrieNode<V>> = Vec::new();
        nodes.push(TrieNode::new());
        let t = Trie { nodes, paths: Ghost(Seq::<Seq<u8>>::empty().push(Seq::<u8>::empty())) };
        assert forall|k: Seq<u8>| #[trigger] t.entries_at(k) == Seq::<V>::empty() by {
            if t.reaches(k) {
                t.lemma_node_of(0);
                let j = t.node_of(k);
                assert(j == 0);
            }
        }
        t
    }

    /// The child of `node` along byte `b`, if any.
    fn find_child(&self, node: usize, b: u8) -> (r: Option<usize>)
        requires
            self.wf(),
            node < self.nodes@.len(),
        ensures
            match r {
                Some(j) => j < self.nodes@.len() && self.paths@[j as int] == self.paths@[node as int].push(b),
                None => !self.reaches(self.paths@[node as int].push(b)),
            },
    {
        let children = &self.nodes[node].children;
        let mut k: usize = 0;
        while k < children.len()
            invariant
                self.wf(),
                node < self.nodes@.len(),
                children == &self.nodes@[node as int].children,
                k <= children@.len(),
                forall|t: int| 0 <= t < k ==> (#[trigger] children@[t]).0 != b,
            decreases children.len() - k,
        {
            let (cb, cj) = children[k];
            if cb == b {
                assert(self.nodes@[node as int].children@[k as int] == (cb, cj));
                return Some(cj);
            }
            k = k + 1;
        }
        proof {
            let key = self.paths@[node as int].push(b);
            if self.reaches(key) {
                let j = self.node_of(key);
                assert(self.paths@[j].drop_last() =~= self.paths@[node as int]);
                assert(self.paths@[j].len() > 0);
                assert(self.has_child(node as int, self.paths@[j].last(), j as usize));
                let t = choose|t: int|
                    0 <= t < self.nodes@[node as int].children@.len()
                        && #[trigger] self.nodes@[node as int].children@[t] == (
                    self.paths@[j].last(),
                    j as usize,
                    );
                assert(children@[t].0 == b);
            }
        }
        None
    }

    /// Walks the trie along `key`; the node reached, if the whole key is a path.
    fn find_node(&self, key: &[u8]) -> (r: Option<usize>)
        requires
            self.wf(),
        ensures
            match r {
                Some(j) => j < self.nodes@.len() && self.paths@[j as int] == key@,
                None => !self.reaches(key@),
            },
    {
        let mut cur: usize = 0;
        let mut i: usize = 0;
        while i < key.len()
            invariant
                self.wf(),
                i <= key@.len(),
                cur < self.nodes@.len(),
                self.paths@[cur as int] == key@.take(i as int),
            decreases key.len() - i,
        {
            match self.find_child(cur, key[i]) {
                Some(j) => {
                    assert(key@.take(i + 1) =~= key@.take(i as int).push(key@[i as int]));
                    cur = j;
                    i = i + 1;
                },
                None => {
                    proof {
                        assert(key@.take(i + 1) =~= key@.take(i as int).push(key@[i as int]));
                        self.lemma_no_extension(key@, i + 1);
                    }
                    return None;
                },
            }
        }
        assert(key@.take(i as int) =~= key@);
        Some(cur)
    }

    /// Inserts `entry` under `key`, after the entries already there.
    pub fn insert(&mut self, key: &str, entry: V)
        requires
            old(self).wf(),
        ensures
            final(self).wf(),
            forall|k: Seq<u8>| #[trigger]
                final(self).entries_at(k) == if k == key.spec_bytes() {
                    old(self).entries_at(k).push(entry)
                } else {
                    old(self).entries_at(k)
                },
    {
        let bytes = key.as_bytes();
        let ghost k0 = bytes@;
        let mut cur: usize = 0;
        let mut i: usize = 0;
        while i < bytes.len()
            invariant
                self.wf(),
                bytes@ == k0,
                i <= k0.len(),
                cur < self.nodes@.len(),
                self.paths@[cur as int] == k0.take(i as int),
                forall|k: Seq<u8>| #[trigger] self.entries_at(k) == old(self).entries_at(k),
            decreases bytes.len() - i,
        {
            let b = bytes[i];
            assert(k0.take(i + 1) =~= k0.take(i as int).push(b));
            match self.find_child(cur, b) {
                Some(j) => {
                    cur = j;
                },
                None => {
                    let j = self.add_child(cur, b);
                    cur = j;
                },
            }
            i = i + 1;
        }
        assert(k0.take(i as int) =~= k0);
        self.push_entry_at(cur, entry);
    }

    /// Adds a fresh node as the child of `node` along `b`; no such child exists yet.
    fn add_child(&mut self, node: usize, b: u8) -> (j: usize)
        requires
            old(self).wf(),
            node < old(self).nodes@.len(),
            !old(self).reaches(old(self).paths@[node as int].push(b)),
        ensures
            final(self).wf(),
            j < final(self).nodes@.len(),
            final(self).paths@[j as int] == old(self).paths@[node as int].push(b),
            forall|t: int|
                0 <= t < old(self).nodes@.len() ==> final(self).paths@[t] == old(self).paths@[t],
            forall|k: Seq<u8>| #[trigger] final(self).entries_at(k) == old(self).entries_at(k),
    {
        let ghost old_self = *self;
        let ghost np = self.paths@[node as int].push(b);
        let j = self.nodes.len();
        self.nodes.push(TrieNode::new());
        self.nodes[node].children.push((b, j));
        self.paths = Ghost(self.paths@.push(np));
        proof {
            let n = self.nodes@.len();
            let p = self.paths@;
            assert(p[0] == Seq::<u8>::empty());
            // edges
            assert forall|i: int, k: int|
                #![trigger self.nodes@[i].children@[k]]
                0 <= i < n && 0 <= k < self.nodes@[i].children@.len() implies {
                let (cb, cj) = self.nodes@[i].children@[k];
                &&& i < cj < n
                &&& p[cj as int] == p[i].push(cb)
            } by {
                if i == node && k == old_self.nodes@[i].children@.len() {
                } else {
                    assert(self.nodes@[i].children@[k] == old_self.nodes@[i].children@[k]);
                }
            }
            // distinct labels
            assert forall|i: int, k1: int, k2: int|
                0 <= i < n && 0 <= k1 < self.nodes@[i].children@.len() && 0 <= k2
                    < self.nodes@[i].children@.len() && k1 != k2 implies (
            #[trigger] self.nodes@[i].children@[k1]).0 != (
            #[trigger] self.nodes@[i].children@[k2]).0 by {
                let m = old_self.nodes@[i].children@.len();
                if i == node && (k1 == m || k2 == m) {
                    let other = if k1 == m { k2 } else { k1 };
                    let (ob, oj) = old_self.nodes@[i].children@[other];
                    assert(self.nodes@[i].children@[other] == (ob, oj));
                    if ob == b {
                        assert(old_self.paths@[oj as int] == np);
                    }
                } else {
                }
            }
            // injective
            assert forall|a: int, c: int| 0 <= a < n && 0 <= c < n && a != c implies #[trigger] p[a]
                != #[trigger] p[c] by {
                if a == j && c < j {
                    assert(old_self.paths@[c] == p[c]);
                } else if c == j && a < j {
                    assert(old_self.paths@[a] == p[a]);
                }
            }
            // parents
            assert forall|c: int| 0 < c < n implies (#[trigger] p[c]).len() > 0 && exists|i: int|
                0 <= i < c && #[trigger] p[i] == p[c].drop_last() by {
                if c == j {
                    assert(p[node as int] == p[c].drop_last());
                } else {
                    let i = choose|i: int| 0 <= i < c && #[trigger] old_self.paths@[i] == old_self.paths@[c].drop_last();
                    assert(p[i] == p[c].drop_last());
                }
            }
            // completeness
            assert forall|a: int, c: int|
                0 <= a < n && 0 <= c < n && (#[trigger] p[c]).len() > 0 && p[c].drop_last()
                    == #[trigger] p[a] implies self.has_child(a, p[c].last(), c as usize) by {
                if c == j {
                    assert(p[a] == old_self.paths@[node as int]);
                    if a != node {
                        assert(a < j);
                        assert(old_self.paths@[a] != old_self.paths@[node as int]);
                    }
                    assert(np.last() == b);
                    assert(self.nodes@[a].children@[old_self.nodes@[a].children@.len() as int] == (b, j));
                } else if a == j {
                    // the new node would be the parent of an old node: impossible
                    let i = choose|i: int| 0 <= i < c && #[trigger] old_self.paths@[i] == old_self.paths@[c].drop_last();
                    assert(old_self.paths@[i] == np);
                    assert(old_self.reaches(np));
                } else {
                    assert(old_self.has_child(a, p[c].last(), c as usize));
                    let k = choose|k: int|
                        0 <= k < old_self.nodes@[a].children@.len() && #[trigger] old_self.nodes@[a].children@[k]
                            == (p[c].last(), c as usize);
                    assert(self.nodes@[a].children@[k] == old_self.nodes@[a].children@[k]);
                }
            }
            assert(self.wf());
            assert forall|k: Seq<u8>| #[trigger] self.entries_at(k) == old_self.entries_at(k) by {
                if old_self.reaches(k) {
                    let t = old_self.node_of(k);
                    old_self.lemma_node_of(t);
                    assert(p[t] == k);
                    self.lemma_node_of(t);
                } else if self.reaches(k) {
                    let t = self.node_of(k);
                    if t != j {
                        assert(old_self.paths@[t] == k);
                    }
                    self.lemma_node_of(j as int);
                }
            }
        }
        j
    }

    /// Appends `entry` to the entries of node `node`.
    fn push_entry_at(&mut self, node: usize, entry: V)
        requires
            old(self).wf(),
            node < old(self).nodes@.len(),
        ensures
            final(self).wf(),
            forall|k: Seq<u8>| #[trigger]
                final(self).entries_at(k) == if k == old(self).paths@[node as int] {
                    old(self).entries_at(k).push(entry)
                } else {
                    old(self).entries_at(k)
                },
    {
        let ghost old_self = *self;
        self.nodes[node].entries.push(entry);
        proof {
            assert forall|i: int, k: int|
                #![trigger self.nodes@[i].children@[k]]
                0 <= i < self.nodes@.len() && 0 <= k < self.nodes@[i].children@.len() implies
                self.nodes@[i].children@[k] == old_self.nodes@[i].children@[k] by {}
            assert forall|i: int, b: u8, j: usize| 0 <= i < self.nodes@.len() implies #[trigger] self.has_child(i, b, j) == old_self.has_child(i, b, j) by {
                assert(self.nodes@[i].children@ == old_self.nodes@[i].children@);
            }
            assert(self.wf());
            assert forall|k: Seq<u8>| #[trigger]
                self.entries_at(k) == if k == old_self.paths@[node as int] {
                    old_self.entries_at(k).push(entry)
                } else {
                    old_self.entries_at(k)
                } by {
                old_self.lemma_node_of(node as int);
                if old_self.reaches(k) {
                    let t = old_self.node_of(k);
                    old_self.lemma_node_of(t);
                    self.lemma_node_of(t);
                }
            }
        }
    }
}


/// The edges among `outs`, in order, skipping the `None`s.
pub open spec fn present_edges(outs: Seq<Option<DagEdge>>) -> Seq<DagEdge>
    decreases outs.len(),
{
    if outs.len() == 0 {
        Seq::empty()
    } else {
        let rest = present_edges(outs.drop_last());
        match outs.last() {
            Some(e) => rest.push(e),
            None => rest,
        }
    }
}

impl<V> Trie<V> {
    /// The ends `e`, in increasing order with `start < e <= end`, for which
    /// `text[start..e]` is a key of the trie.
    pub open spec fn prefix_ends(self, text: Seq<u8>, start: int, end: int) -> Seq<usize>
        decreases end - start,
    {
        if end <= start {
            Seq::empty()
        } else {
            let rest = self.prefix_ends(text, start, end - 1);
            if self.contains_key(text.subrange(start, end)) {
                rest.push(end as usize)
            } else {
                rest
            }
        }
    }

    proof fn lemma_prefix_ends_stop(self, text: Seq<u8>, start: int, i: int, end: int)
        requires
            self.wf(),
            0 <= start <= i < end <= text.len(),
            !self.reaches(text.subrange(start, i + 1)),
        ensures
            self.prefix_ends(text, start, end) == self.prefix_ends(text, start, i),
        decreases end - i,
    {
        if end > i + 1 {
            self.lemma_prefix_ends_stop(text, start, i, end - 1);
        }
        let k = text.subrange(start, end);
        assert(k.take(i + 1 - start) =~= text.subrange(start, i + 1));
        self.lemma_no_extension(k, i + 1 - start);
    }

    /// Walks the trie along `text` from byte `start`, and at every prefix
    /// `text[start..end]` that is a key calls `to_edge(start, end, entries)`;
    /// returns the edges it gave, in order of `end`.
    #[verifier::rlimit(60)]
    #[verifier::spinoff_prover]
    pub fn collect_prefixes<F>(&self, text: &str, start: usize, to_edge: F) -> (edges: Vec<DagEdge>) where
        F: Fn(usize, usize, &[V]) -> Option<DagEdge>,

        requires
            self.wf(),
            forall|a: usize, b: usize, c: &[V]| #[trigger] to_edge.requires((a, b, c)),
        ensures
            ({
                let t = text.spec_bytes();
                let ends = self.prefix_ends(t, start as int, t.len() as int);
                exists|outs: Seq<Option<DagEdge>>, args: Seq<&[V]>|
                    {
                        &&& outs.len() == ends.len()
                        &&& args.len() == ends.len()
                        &&& forall|m: int|
                            0 <= m < ends.len() ==> (#[trigger] args[m])@ == self.entries_at(
                                t.subrange(start as int, ends[m] as int),
                            ) && to_edge.ensures((start, ends[m], args[m]), outs[m])
                        &&& edges@ == present_edges(outs)
                    }
            }),
    {
        let bytes = text.as_bytes();
        let n = bytes.len();
        let ghost t = bytes@;
        let mut edges: Vec<DagEdge> = Vec::new();
        let ghost mut outs: Seq<Option<DagEdge>> = Seq::empty();
        let ghost mut args: Seq<&[V]> = Seq::empty();
        if start >= n {
            assert(self.prefix_ends(t, start as int, n as int) == Seq::<usize>::empty());
            assert(edges@ =~= present_edges(outs));
            assert({
                &&& outs.len() == 0
                &&& args.len() == 0
                &&& edges@ == present_edges(outs)
            });
            return edges;
        }
        let mut cur: usize = 0;
        let mut i: usize = start;
        assert(t.subrange(start as int, start as int) =~= Seq::<u8>::empty());
        while i < n
            invariant_except_break
                self.wf(),
                bytes@ == t,
                n == t.len(),
                start <= i <= n,
                cur < self.nodes@.len(),
                self.paths@[cur as int] == t.subrange(start as int, i as int),
                forall|a: usize, b: usize, c: &[V]| #[trigger] to_edge.requires((a, b, c)),
                outs.len() == self.prefix_ends(t, start as int, i as int).len(),
                args.len() == outs.len(),
                forall|m: int|
                    0 <= m < outs.len() ==> (#[trigger] args[m])@ == self.entries_at(
                        t.subrange(start as int, self.prefix_ends(t, start as int, i as int)[m] as int),
                    ) && to_edge.ensures((start, self.prefix_ends(t, start as int, i as int)[m], args[m]), outs[m]),
                edges@ == present_edges(outs),
            ensures
                self.prefix_ends(t, start as int, n as int) == self.prefix_ends(t, start as int, i as int),
                outs.len() == self.prefix_ends(t, start as int, i as int).len(),
                args.len() == outs.len(),
                forall|m: int|
                    0 <= m < outs.len() ==> (#[trigger] args[m])@ == self.entries_at(
                        t.subrange(start as int, self.prefix_ends(t, start as int, i as int)[m] as int),
                    ) && to_edge.ensures((start, self.prefix_ends(t, start as int, i as int)[m], args[m]), outs[m]),
                edges@ == present_edges(outs),
            decreases n - i,
        {
            let ghost prev_ends = self.prefix_ends(t, start as int, i as int);
            assert(t.subrange(start as int, i + 1) =~= t.subrange(start as int, i as int).push(t[i as int]));
            match self.find_child(cur, bytes[i]) {
                Some(j) => {
                    cur = j;
                    proof {
                        self.lemma_node_of(j as int);
                    }
                    let entries = &self.nodes[cur].entries;
                    if entries.len() > 0 {
                        let sl = entries.as_slice();
                        let r = to_edge(start, i + 1, sl);
                        let ghost outs0 = outs;
                        proof {
                            outs = outs.push(r);
                            args = args.push(sl);
                        }
                        match r {
                            Some(e) => {
                                edges.push(e);
                            },
                            None => {},
                        }
                        proof {
                            assert(outs.drop_last() =~= outs0);
                        }
                    }
                    i = i + 1;
                    proof {
                        let ends = self.prefix_ends(t, start as int, i as int);
                        assert forall|m: int| 0 <= m < outs.len() implies (#[trigger] args[m])@ == self.entries_at(
                            t.subrange(start as int, ends[m] as int),
                        ) && to_edge.ensures((start, ends[m], args[m]), outs[m]) by {
                            if m < prev_ends.len() {
                                assert(ends[m] == prev_ends[m]);
                            }
                        }
                    }
                },
                None => {
                    proof {
                        self.lemma_prefix_ends_stop(t, start as int, i as int, n as int);
                    }
                    break;
                },
            }
        }
        edges
    }
}


/// The values behind a sequence of references.
pub open spec fn deref_all<V>(s: Seq<&V>) -> Seq<V> {
    s.map_values(|r: &V| *r)
}

/// The order of a listing of (key, position) pairs: positions of one key
/// rise, the pairs of one key stand together, and a key comes before every
/// key that extends it.
pub open spec fn listed_in_order(origin: Seq<(Seq<u8>, int)>) -> bool {
    &&& forall|m1: int, m2: int|
        0 <= m1 < m2 < origin.len() && (#[trigger] origin[m1]).0 == (#[trigger] origin[m2]).0 ==> origin[m1].1
            < origin[m2].1
    &&& forall|m1: int, m2: int, m3: int|
        0 <= m1 < m2 < m3 < origin.len() && (#[trigger] origin[m1]).0 == (#[trigger] origin[m3]).0 ==> (
        #[trigger] origin[m2]).0 == origin[m1].0
    &&& forall|m1: int, m2: int|
        0 <= m1 < origin.len() && 0 <= m2 < origin.len() && strictly_extends(
            (#[trigger] origin[m2]).0,
            (#[trigger] origin[m1]).0,
        ) ==> m1 < m2
}

/// `k` extends `prefix` by at least one byte.
pub open spec fn strictly_extends(k: Seq<u8>, prefix: Seq<u8>) -> bool {
    k.len() > prefix.len() && k.take(prefix.len() as int) == prefix
}

impl<V> Trie<V> {
    /// `out` lists every entry stored under a key that strictly extends
    /// `prefix`, each exactly once; `origin[m]` names the key and the position
    /// among that key's entries of `out[m]`. The entries of each key come as
    /// one block, in insertion order, before the blocks of the keys that
    /// extend that key (see `listed_in_order`).
    pub open spec fn lists_extensions(self, prefix: Seq<u8>, out: Seq<V>, origin: Seq<(Seq<u8>, int)>) -> bool {
        &&& listed_in_order(origin)
        &&& out.len() == origin.len()
        &&& forall|m: int|
            #![trigger origin[m]]
            0 <= m < origin.len() ==> {
                let (k, t) = origin[m];
                &&& strictly_extends(k, prefix)
                &&& 0 <= t < self.entries_at(k).len()
                &&& out[m] == self.entries_at(k)[t]
            }
        &&& forall|m1: int, m2: int|
            0 <= m1 < origin.len() && 0 <= m2 < origin.len() && m1 != m2 ==> #[trigger] origin[m1]
                != #[trigger] origin[m2]
        &&& forall|k: Seq<u8>, t: int|
            strictly_extends(k, prefix) && #[trigger] self.has_entry(k, t) ==> exists|m: int|
                0 <= m < origin.len() && #[trigger] origin[m] == (k, t)
    }

    /// Key `k` has an entry at position `t`.
    pub open spec fn has_entry(self, k: Seq<u8>, t: int) -> bool {
        0 <= t < self.entries_at(k).len()
    }

    spec fn node_has_entry(self, j: int, t: int) -> bool {
        0 <= j < self.nodes@.len() && 0 <= t < self.nodes@[j].entries@.len()
    }

    /// Node `j` lies strictly below node `i`.
    spec fn below(self, i: int, j: int) -> bool {
        strictly_extends(self.paths@[j], self.paths@[i])
    }

    /// Node `j` is the `k`-th child of node `i` or lies below one of its first `kk` children.
    spec fn within_children(self, i: int, kk: int, j: int) -> bool {
        exists|k: int|
            0 <= k < kk && (#[trigger] self.nodes@[i].children@[k].1 == j || self.below(
                self.nodes@[i].children@[k].1 as int,
                j,
            ))
    }

    /// Node-level version of `lists_extensions`, restricted to nodes satisfying `sel`.
    spec fn lists_nodes(self, sel: spec_fn(int) -> bool, out: Seq<&V>, origin: Seq<(int, int)>) -> bool {
        &&& out.len() == origin.len()
        &&& forall|m: int|
            #![trigger origin[m]]
            0 <= m < origin.len() ==> {
                let (j, t) = origin[m];
                &&& 0 <= j < self.nodes@.len()
                &&& sel(j)
                &&& 0 <= t < self.nodes@[j].entries@.len()
                &&& *out[m] == self.nodes@[j].entries@[t]
            }
        &&& forall|m1: int, m2: int|
            0 <= m1 < origin.len() && 0 <= m2 < origin.len() && m1 != m2 ==> #[trigger] origin[m1]
                != #[trigger] origin[m2]
        &&& forall|j: int, t: int|
            #[trigger] self.node_has_entry(j, t) && sel(j) ==> exists|m: int|
                0 <= m < origin.len() && #[trigger] origin[m] == (j, t)
    }

    proof fn lemma_below_trans(self, i: int, c: int, j: int)
        requires
            self.wf(),
            0 <= i < self.nodes@.len(),
            0 <= c < self.nodes@.len(),
            self.below(i, c),
            self.below(c, j) || c == j,
        ensures
            self.below(i, j),
    {
        let pi = self.paths@[i];
        let pc = self.paths@[c];
        let pj = self.paths@[j];
        if c != j {
            assert(pj.take(pi.len() as int) =~= pc.take(pi.len() as int));
        }
    }

    /// A node below `i` is a child of `i` or lies below one.
    proof fn lemma_below_child(self, i: int, j: int)
        requires
            self.wf(),
            0 <= i < self.nodes@.len(),
            0 <= j < self.nodes@.len(),
            self.below(i, j),
        ensures
            self.within_children(i, self.nodes@[i].children@.len() as int, j),
    {
        let pi = self.paths@[i];
        let pj = self.paths@[j];
        let m = pi.len() as int;
        self.lemma_prefix_closed(j, m + 1);
        let c = self.node_of(pj.take(m + 1));
        assert(self.paths@[c] == pj.take(m + 1));
        assert(self.paths@[c].drop_last() =~= pi);
        assert(self.has_child(i, self.paths@[c].last(), c as usize));
        let k = choose|k: int|
            0 <= k < self.nodes@[i].children@.len() && #[trigger] self.nodes@[i].children@[k] == (
            self.paths@[c].last(),
            c as usize,
            );
        let ck = self.nodes@[i].children@[k].1 as int;
        assert(self.paths@[ck] == self.paths@[i].push(self.nodes@[i].children@[k].0));
        assert(self.paths@[i].push(self.paths@[c].last()) =~= self.paths@[c]);
        assert(ck == c);
        if pj.len() == m + 1 {
            assert(pj.take(m + 1) =~= pj);
            assert(self.paths@[c] == self.paths@[j]);
            assert(c == j);
        } else {
            assert(pj.take(m + 1) =~= self.paths@[c]);
            assert(self.below(c, j));
        }
        assert(ck == j || self.below(ck, j));
    }

    /// Different children of a node have disjoint subtrees.
    proof fn lemma_children_disjoint(self, i: int, k1: int, k2: int, j: int)
        requires
            self.wf(),
            0 <= i < self.nodes@.len(),
            0 <= k1 < self.nodes@[i].children@.len(),
            0 <= k2 < self.nodes@[i].children@.len(),
            k1 != k2,
            0 <= j < self.nodes@.len(),
            self.nodes@[i].children@[k1].1 == j || self.below(self.nodes@[i].children@[k1].1 as int, j),
        ensures
            !(self.nodes@[i].children@[k2].1 == j || self.below(self.nodes@[i].children@[k2].1 as int, j)),
    {
        let (b1, c1) = self.nodes@[i].children@[k1];
        let (b2, c2) = self.nodes@[i].children@[k2];
        let m = self.paths@[i].len() as int;
        let pj = self.paths@[j];
        assert(b1 != b2);
        assert(self.paths@[c1 as int] == self.paths@[i].push(b1));
        assert(self.paths@[c2 as int] == self.paths@[i].push(b2));
        assert(pj[m] == b1) by {
            if c1 != j {
                assert(pj.take(m + 1)[m] == pj[m]);
            }
        }
        if c2 == j || self.below(c2 as int, j) {
            assert(pj[m] == b2) by {
                if c2 != j {
                    assert(pj.take(m + 1)[m] == pj[m]);
                }
            }
        }
    }

    /// Node-level version of `listed_in_order`.
    #[verifier::opaque]
    spec fn nodes_in_order(self, org: Seq<(int, int)>) -> bool {
        &&& forall|m1: int, m2: int|
            0 <= m1 < m2 < org.len() && (#[trigger] org[m1]).0 == (#[trigger] org[m2]).0 ==> org[m1].1 < org[m2].1
        &&& forall|m1: int, m2: int, m3: int|
            0 <= m1 < m2 < m3 < org.len() && (#[trigger] org[m1]).0 == (#[trigger] org[m3]).0 ==> (
            #[trigger] org[m2]).0 == org[m1].0
        &&& forall|m1: int, m2: int|
            0 <= m1 < org.len() && 0 <= m2 < org.len() && self.below((#[trigger] org[m1]).0, (#[trigger] org[m2]).0)
                ==> m1 < m2
    }

    /// A node listing in order is, by the nodes' keys, a key listing in order.
    proof fn lemma_keys_in_order(self, org: Seq<(int, int)>)
        requires
            self.wf(),
            forall|m: int| 0 <= m < org.len() ==> 0 <= (#[trigger] org[m]).0 < self.nodes@.len(),
            self.nodes_in_order(org),
        ensures
            listed_in_order(org.map_values(|p: (int, int)| (self.paths@[p.0], p.1))),
    {
        reveal(Trie::nodes_in_order);
        let origin = org.map_values(|p: (int, int)| (self.paths@[p.0], p.1));
        assert forall|m1: int, m2: int|
            0 <= m1 < m2 < origin.len() && (#[trigger] origin[m1]).0 == (#[trigger] origin[m2]).0 implies origin[m1].1
                < origin[m2].1 by {
            assert(org[m1].0 == org[m2].0);
        }
        assert forall|m1: int, m2: int, m3: int|
            0 <= m1 < m2 < m3 < origin.len() && (#[trigger] origin[m1]).0 == (#[trigger] origin[m3]).0 implies (
            #[trigger] origin[m2]).0 == origin[m1].0 by {
            assert(org[m1].0 == org[m3].0);
            assert(org[m2].0 == org[m1].0);
        }
        assert forall|m1: int, m2: int|
            0 <= m1 < origin.len() && 0 <= m2 < origin.len() && strictly_extends(
                (#[trigger] origin[m2]).0,
                (#[trigger] origin[m1]).0,
            ) implies m1 < m2 by {
            assert(self.below(org[m1].0, org[m2].0));
        }
    }

    /// The nodes listed before child `k` of `i` are neither that child nor below it.
    proof fn lemma_earlier_apart(self, i: int, k: int, org0: Seq<(int, int)>)
        requires
            self.wf(),
            0 <= i < self.nodes@.len(),
            0 <= k < self.nodes@[i].children@.len(),
            forall|m: int|
                0 <= m < org0.len() ==> 0 <= (#[trigger] org0[m]).0 < self.nodes@.len() && self.within_children(
                    i,
                    k,
                    org0[m].0,
                ),
        ensures
            forall|m: int|
                0 <= m < org0.len() ==> (#[trigger] org0[m]).0 != self.nodes@[i].children@[k].1 && !self.below(
                    self.nodes@[i].children@[k].1 as int,
                    org0[m].0,
                ),
    {
        assert forall|m: int| 0 <= m < org0.len() implies (#[trigger] org0[m]).0 != self.nodes@[i].children@[k].1
            && !self.below(self.nodes@[i].children@[k].1 as int, org0[m].0) by {
            let j = org0[m].0;
            let kk = choose|kk: int|
                0 <= kk < k && (#[trigger] self.nodes@[i].children@[kk].1 == j || self.below(
                    self.nodes@[i].children@[kk].1 as int,
                    j,
                ));
            self.lemma_children_disjoint(i, kk, k, j);
        }
    }

    /// Listing one more child keeps the listing in order.
    #[verifier::rlimit(60)]
    #[verifier::spinoff_prover]
    proof fn lemma_order_step(self, i: int, k: int, org0: Seq<(int, int)>, ne: int, sub_org: Seq<(int, int)>)
        requires
            self.wf(),
            0 <= i < self.nodes@.len(),
            0 <= k < self.nodes@[i].children@.len(),
            ne >= 0,
            forall|m: int|
                0 <= m < org0.len() ==> 0 <= (#[trigger] org0[m]).0 < self.nodes@.len() && self.within_children(
                    i,
                    k,
                    org0[m].0,
                ),
            forall|m: int|
                0 <= m < sub_org.len() ==> 0 <= (#[trigger] sub_org[m]).0 < self.nodes@.len() && self.below(
                    self.nodes@[i].children@[k].1 as int,
                    sub_org[m].0,
                ),
            self.nodes_in_order(org0),
            self.nodes_in_order(sub_org),
        ensures
            self.nodes_in_order(org0 + Self::own_origins(self.nodes@[i].children@[k].1 as int, ne) + sub_org),
    {
        reveal(Trie::nodes_in_order);
        let c = self.nodes@[i].children@[k].1 as int;
        let own = Self::own_origins(c, ne);
        let org = org0 + own + sub_org;
        let l0 = org0.len() as int;
        let l1 = l0 + ne;
        assert(c < self.nodes@.len() && self.paths@[c] == self.paths@[i].push(self.nodes@[i].children@[k].0));
        self.lemma_earlier_apart(i, k, org0);
        // the node of each position, by segment
        assert forall|m: int| 0 <= m < org.len() implies {
            &&& (m < l0 ==> #[trigger] org[m] == org0[m] && org0[m].0 != c && !self.below(c, org0[m].0))
            &&& (l0 <= m < l1 ==> org[m] == (c, m - l0))
            &&& (l1 <= m ==> org[m] == sub_org[m - l1] && self.below(c, org[m].0) && org[m].0 != c)
        } by {
            if m < l0 {
                assert(org[m] == org0[m]);
            } else if m < l1 {
                assert(org[m] == own[m - l0]);
            } else {
                assert(org[m] == sub_org[m - l1]);
            }
        }
        assert forall|m1: int, m2: int|
            0 <= m1 < m2 < org.len() && (#[trigger] org[m1]).0 == (#[trigger] org[m2]).0 implies org[m1].1
                < org[m2].1 by {
            if m2 < l0 {
                assert(org0[m1].0 == org0[m2].0);
            } else if m1 >= l1 {
                assert(sub_org[m1 - l1].0 == sub_org[m2 - l1].0);
            }
        }
        assert forall|m1: int, m2: int, m3: int|
            0 <= m1 < m2 < m3 < org.len() && (#[trigger] org[m1]).0 == (#[trigger] org[m3]).0 implies (
            #[trigger] org[m2]).0 == org[m1].0 by {
            if m3 < l0 {
                assert(org0[m1].0 == org0[m3].0);
                assert(org0[m2] == org[m2]);
            } else if m1 >= l1 {
                assert(sub_org[m1 - l1].0 == sub_org[m3 - l1].0);
                assert(sub_org[m2 - l1] == org[m2]);
            } else if l0 <= m1 && m3 < l1 {
            } else if m1 < l0 && m3 >= l1 {
                assert(self.below(c, org[m3].0));
            }
        }
        assert forall|m1: int, m2: int|
            0 <= m1 < org.len() && 0 <= m2 < org.len() && self.below((#[trigger] org[m1]).0, (#[trigger] org[m2]).0)
                implies m1 < m2 by {
            let n1 = org[m1].0;
            let n2 = org[m2].0;
            if m1 < l0 && m2 < l0 {
            } else if m1 >= l1 && m2 >= l1 {
                assert(sub_org[m1 - l1].0 == n1 && sub_org[m2 - l1].0 == n2);
            } else if m2 < l0 {
                if m1 >= l1 {
                    self.lemma_below_trans(c, n1, n2);
                }
            } else if l0 <= m2 && m2 < l1 && m1 >= l1 {
                assert(self.below(c, n1));
            }
        }
    }

    proof fn lemma_order_after_listing(
        self,
        i: int,
        k: int,
        out0: Seq<&V>,
        org0: Seq<(int, int)>,
        ne: int,
        sub_out: Seq<&V>,
        sub_org: Seq<(int, int)>,
    )
        requires
            self.wf(),
            0 <= i < self.nodes@.len(),
            0 <= k < self.nodes@[i].children@.len(),
            ne >= 0,
            self.lists_nodes(|j: int| self.within_children(i, k, j), out0, org0),
            self.lists_nodes(|j: int| self.below(self.nodes@[i].children@[k].1 as int, j), sub_out, sub_org),
            self.nodes_in_order(org0),
            self.nodes_in_order(sub_org),
        ensures
            self.nodes_in_order(org0 + Self::own_origins(self.nodes@[i].children@[k].1 as int, ne) + sub_org),
    {
        assert forall|m: int| 0 <= m < org0.len() implies 0 <= (#[trigger] org0[m]).0 < self.nodes@.len()
            && self.within_children(i, k, org0[m].0) by {
            let (j, tt) = org0[m];
        }
        assert forall|m: int| 0 <= m < sub_org.len() implies 0 <= (#[trigger] sub_org[m]).0 < self.nodes@.len()
            && self.below(self.nodes@[i].children@[k].1 as int, sub_org[m].0) by {
            let (j, tt) = sub_org[m];
        }
        self.lemma_order_step(i, k, org0, ne, sub_org);
    }

    /// The origins of the entries of node `c`, in order.
    spec fn own_origins(c: int, len: int) -> Seq<(int, int)> {
        Seq::new(len as nat, |t: int| (c, t))
    }

    /// Listing one more child of node `i`: its own entries, then its subtree.
    #[verifier::rlimit(100)]
    #[verifier::spinoff_prover]
    proof fn lemma_listing_step(
        self,
        i: int,
        k: int,
        out0: Seq<&V>,
        org0: Seq<(int, int)>,
        ents: Seq<&V>,
        sub_out: Seq<&V>,
        sub_org: Seq<(int, int)>,
    )
        requires
            self.wf(),
            0 <= i < self.nodes@.len(),
            0 <= k < self.nodes@[i].children@.len(),
            self.lists_nodes(|j: int| self.within_children(i, k, j), out0, org0),
            ents.len() == self.nodes@[self.nodes@[i].children@[k].1 as int].entries@.len(),
            forall|t: int|
                0 <= t < ents.len() ==> *#[trigger] ents[t] == self.nodes@[self.nodes@[i].children@[k].1 as int].entries@[t],
            self.lists_nodes(|j: int| self.below(self.nodes@[i].children@[k].1 as int, j), sub_out, sub_org),
        ensures
            self.lists_nodes(
                |j: int| self.within_children(i, k + 1, j),
                out0 + ents + sub_out,
                org0 + Self::own_origins(self.nodes@[i].children@[k].1 as int, ents.len() as int) + sub_org,
            ),
    {
        let c = self.nodes@[i].children@[k].1 as int;
        let ne = ents.len() as int;
        let own = Self::own_origins(c, ne);
        let new_org = org0 + own + sub_org;
        let out = out0 + ents + sub_out;
        let l0 = org0.len() as int;
        let sel = |j: int| self.within_children(i, k + 1, j);
        let sel0 = |j: int| self.within_children(i, k, j);
        assert(c < self.nodes@.len() && self.paths@[c] == self.paths@[i].push(self.nodes@[i].children@[k].0));
        assert(!self.below(c, c));
        assert forall|m: int|
            #![trigger new_org[m]]
            0 <= m < new_org.len() implies {
            let (j, tt) = new_org[m];
            &&& 0 <= j < self.nodes@.len()
            &&& sel(j)
            &&& 0 <= tt < self.nodes@[j].entries@.len()
            &&& *out[m] == self.nodes@[j].entries@[tt]
        } by {
            if m < l0 {
                assert(new_org[m] == org0[m]);
                assert(out[m] == out0[m]);
                let (j, tt) = org0[m];
                assert(sel0(j));
                let kk = choose|kk: int|
                    0 <= kk < k && (#[trigger] self.nodes@[i].children@[kk].1 == j || self.below(
                        self.nodes@[i].children@[kk].1 as int,
                        j,
                    ));
                assert(0 <= kk < k + 1);
            } else if m < l0 + ne {
                assert(new_org[m] == own[m - l0]);
                assert(out[m] == ents[m - l0]);
                assert(self.nodes@[i].children@[k].1 == c);
            } else {
                let q = m - l0 - ne;
                assert(new_org[m] == sub_org[q]);
                assert(out[m] == sub_out[q]);
                let (j, tt) = sub_org[q];
                assert(self.nodes@[i].children@[k].1 == c);
            }
        }
        assert forall|m1: int, m2: int|
            0 <= m1 < new_org.len() && 0 <= m2 < new_org.len() && m1 != m2 implies #[trigger] new_org[m1]
                != #[trigger] new_org[m2] by {
            if new_org[m1] == new_org[m2] {
                let (a, b) = if m1 < m2 { (m1, m2) } else { (m2, m1) };
                let (j, tt) = new_org[a];
                if b < l0 {
                    assert(new_org[a] == org0[a] && new_org[b] == org0[b]);
                } else if a >= l0 + ne {
                    assert(new_org[a] == sub_org[a - l0 - ne] && new_org[b] == sub_org[b - l0 - ne]);
                } else if l0 <= a && b < l0 + ne {
                    assert(new_org[a] == own[a - l0] && new_org[b] == own[b - l0]);
                } else if a < l0 {
                    assert(new_org[a] == org0[a]);
                    assert(sel0(j));
                    let kk = choose|kk: int|
                        0 <= kk < k && (#[trigger] self.nodes@[i].children@[kk].1 == j || self.below(
                            self.nodes@[i].children@[kk].1 as int,
                            j,
                        ));
                    if b < l0 + ne {
                        assert(new_org[b] == own[b - l0]);
                        assert(j == c);
                    } else {
                        assert(new_org[b] == sub_org[b - l0 - ne]);
                        assert(self.below(c, j));
                    }
                    self.lemma_children_disjoint(i, kk, k, j);
                } else {
                    assert(new_org[a] == own[a - l0]);
                    assert(new_org[b] == sub_org[b - l0 - ne]);
                    assert(j == c);
                }
            }
        }
        assert forall|j: int, tt: int| #[trigger] self.node_has_entry(j, tt) && sel(j) implies exists|m: int|
            0 <= m < new_org.len() && #[trigger] new_org[m] == (j, tt) by {
            let kk = choose|kk: int|
                0 <= kk < k + 1 && (#[trigger] self.nodes@[i].children@[kk].1 == j || self.below(
                    self.nodes@[i].children@[kk].1 as int,
                    j,
                ));
            if kk < k {
                assert(sel0(j));
                let m = choose|m: int| 0 <= m < org0.len() && #[trigger] org0[m] == (j, tt);
                assert(new_org[m] == (j, tt));
            } else if j == c {
                assert(new_org[l0 + tt] == (j, tt));
            } else {
                assert(self.below(c, j));
                let q = choose|q: int| 0 <= q < sub_org.len() && #[trigger] sub_org[q] == (j, tt);
                assert(new_org[l0 + ne + q] == (j, tt));
            }
        }
    }

    /// After all children are listed, the listing covers exactly the nodes below `i`.
    proof fn lemma_listing_done(self, i: int, out: Seq<&V>, org: Seq<(int, int)>)
        requires
            self.wf(),
            0 <= i < self.nodes@.len(),
            self.lists_nodes(|j: int| self.within_children(i, self.nodes@[i].children@.len() as int, j), out, org),
        ensures
            self.lists_nodes(|j: int| self.below(i, j), out, org),
    {
        let kk = self.nodes@[i].children@.len() as int;
        assert forall|j: int| 0 <= j < self.nodes@.len() implies #[trigger] self.within_children(i, kk, j)
            == self.below(i, j) by {
            if self.within_children(i, kk, j) {
                let q = choose|q: int|
                    0 <= q < kk && (#[trigger] self.nodes@[i].children@[q].1 == j || self.below(
                        self.nodes@[i].children@[q].1 as int,
                        j,
                    ));
                let c = self.nodes@[i].children@[q].1 as int;
                assert(self.paths@[c] == self.paths@[i].push(self.nodes@[i].children@[q].0));
                assert(self.paths@[c].take(self.paths@[i].len() as int) =~= self.paths@[i]);
                self.lemma_below_trans(i, c, j);
            }
            if self.below(i, j) {
                self.lemma_below_child(i, j);
            }
        }
        assert forall|m: int|
            #![trigger org[m]]
            0 <= m < org.len() implies {
            let (j, tt) = org[m];
            self.below(i, j)
        } by {
            let (j, tt) = org[m];
            assert(self.within_children(i, kk, j));
        }
        assert forall|j: int, tt: int| #[trigger] self.node_has_entry(j, tt) && self.below(i, j) implies exists|
            m: int,
        | 0 <= m < org.len() && #[trigger] org[m] == (j, tt) by {
            assert(self.within_children(i, kk, j));
        }
    }

    /// Appends to `result` the entries of node `node`.
    fn push_entries_of<'a>(&'a self, node: usize, result: &mut Vec<&'a V>)
        requires
            node < self.nodes@.len(),
        ensures
            final(result)@.len() == old(result)@.len() + self.nodes@[node as int].entries@.len(),
            final(result)@.take(old(result)@.len() as int) == old(result)@,
            forall|q: int|
                0 <= q < self.nodes@[node as int].entries@.len() ==> *#[trigger] final(result)@[old(
                    result,
                )@.len() + q] == self.nodes@[node as int].entries@[q],
    {
        let ghost before = result@;
        let entries = &self.nodes[node].entries;
        let mut t: usize = 0;
        while t < entries.len()
            invariant
                node < self.nodes@.len(),
                entries == &self.nodes@[node as int].entries,
                t <= entries@.len(),
                result@.len() == before.len() + t,
                result@.take(before.len() as int) == before,
                forall|q: int| 0 <= q < t ==> *#[trigger] result@[before.len() + q] == entries@[q],
            decreases entries.len() - t,
        {
            result.push(&entries[t]);
            t = t + 1;
            assert(result@.take(before.len() as int) =~= before);
        }
    }

    /// Appends to `result` every entry stored strictly below node `node`.
    #[verifier::rlimit(100)]
    #[verifier::spinoff_prover]
    fn collect_all<'a>(&'a self, node: usize, result: &mut Vec<&'a V>) -> (origin: Ghost<Seq<(int, int)>>)
        requires
            self.wf(),
            node < self.nodes@.len(),
        ensures
            final(result)@.len() >= old(result)@.len(),
            final(result)@.take(old(result)@.len() as int) == old(result)@,
            self.lists_nodes(
                |j: int| self.below(node as int, j),
                final(result)@.skip(old(result)@.len() as int),
                origin@,
            ),
            self.nodes_in_order(origin@),
        decreases self.nodes@.len() - node,
    {
        let ghost start = result@;
        let ghost i = node as int;
        let ghost mut out: Seq<&V> = Seq::empty();
        let ghost mut org: Seq<(int, int)> = Seq::empty();
        assert(self.nodes_in_order(org)) by {
            reveal(Trie::nodes_in_order);
        }
        let children = &self.nodes[node].children;
        let mut k: usize = 0;
        while k < children.len()
            invariant
                self.wf(),
                node < self.nodes@.len(),
                i == node as int,
                children == &self.nodes@[i].children,
                k <= children@.len(),
                result@ == start + out,
                self.lists_nodes(|j: int| self.within_children(i, k as int, j), out, org),
                self.nodes_in_order(org),
            decreases children.len() - k,
        {
            let child = children[k].1;
            assert(self.nodes@[i].children@[k as int] == children@[k as int]);
            assert(child < self.nodes@.len());
            let ghost before = result@;
            self.push_entries_of(child, result);
            let ghost ents = result@.skip(before.len() as int);
            let ghost mid = result@;
            proof {
                assert(self.nodes@[i].children@[k as int].1 == child);
                assert forall|q: int| 0 <= q < ents.len() implies *#[trigger] ents[q]
                    == self.nodes@[self.nodes@[i].children@[k as int].1 as int].entries@[q] by {
                    assert(ents[q] == result@[before.len() + q]);
                }
            }
            let sub = self.collect_all(child, result);
            proof {
                let sub_out = result@.skip(mid.len() as int);
                assert(mid =~= before + ents);
                assert(result@ =~= mid + sub_out) by {
                    assert(result@.take(mid.len() as int) == mid);
                }
                self.lemma_listing_step(i, k as int, out, org, ents, sub_out, sub@);
                self.lemma_order_after_listing(i, k as int, out, org, ents.len() as int, sub_out, sub@);
                out = out + ents + sub_out;
                org = org + Self::own_origins(child as int, ents.len() as int) + sub@;
                assert(result@ =~= start + out);
            }
            k = k + 1;
        }
        proof {
            self.lemma_listing_done(i, out, org);
            assert(result@.take(start.len() as int) =~= start);
            assert(result@.skip(start.len() as int) =~= out);
        }
        Ghost(org)
    }

    /// The entries stored exactly under `prefix`, and the entries stored under
    /// every key that strictly extends `prefix`: each key's entries as one
    /// block in insertion order, a key's block before those of the keys that
    /// extend it (the order of sibling keys is left open).
    #[verifier::rlimit(60)]
    #[verifier::spinoff_prover]
    pub fn prefix_search(&self, prefix: &str) -> (r: (Vec<&V>, Vec<&V>))
        requires
            self.wf(),
        ensures
            r.0@.len() == self.entries_at(prefix.spec_bytes()).len(),
            forall|m: int|
                0 <= m < r.0@.len() ==> *#[trigger] r.0@[m] == self.entries_at(prefix.spec_bytes())[m],
            exists|origin: Seq<(Seq<u8>, int)>| self.lists_extensions(prefix.spec_bytes(), deref_all(r.1@), origin),
    {
        let bytes = prefix.as_bytes();
        let ghost pb = bytes@;
        match self.find_node(bytes) {
            None => {
                let exact: Vec<&V> = Vec::new();
                let rest: Vec<&V> = Vec::new();
                proof {
                    assert(self.entries_at(pb) == Seq::<V>::empty());
                    let origin: Seq<(Seq<u8>, int)> = Seq::empty();
                    assert forall|k: Seq<u8>, t: int|
                        strictly_extends(k, pb) && #[trigger] self.has_entry(k, t) implies exists|m: int|
                            0 <= m < origin.len() && #[trigger] origin[m] == (k, t) by {
                        self.lemma_no_extension(k, pb.len() as int);
                    }
                    assert(self.lists_extensions(pb, deref_all(rest@), origin));
                    assert(pb == prefix.spec_bytes());
                    assert(exists|o: Seq<(Seq<u8>, int)>| self.lists_extensions(prefix.spec_bytes(), deref_all(rest@), o));
                }
                let ghost rv = rest@;
                let r = (exact, rest);
                assert(r.1@ == rv);
                assert(exists|o: Seq<(Seq<u8>, int)>| self.lists_extensions(prefix.spec_bytes(), deref_all(r.1@), o));
                r
            },
            Some(node) => {
                proof {
                    self.lemma_node_of(node as int);
                }
                let entries = &self.nodes[node].entries;
                let mut exact: Vec<&V> = Vec::new();
                let mut t: usize = 0;
                while t < entries.len()
                    invariant
                        entries == &self.nodes@[node as int].entries,
                        t <= entries@.len(),
                        exact@.len() == t,
                        forall|m: int| 0 <= m < t ==> *#[trigger] exact@[m] == entries@[m],
                    decreases entries.len() - t,
                {
                    exact.push(&entries[t]);
                    t = t + 1;
                }
                let mut rest: Vec<&V> = Vec::new();
                let org = self.collect_all(node, &mut rest);
                proof {
                    let i = node as int;
                    assert(rest@.skip(0) =~= rest@);
                    let origin: Seq<(Seq<u8>, int)> = org@.map_values(|p: (int, int)| (self.paths@[p.0], p.1));
                    assert forall|m: int|
                        #![trigger origin[m]]
                        0 <= m < origin.len() implies {
                        let (k, tt) = origin[m];
                        &&& strictly_extends(k, pb)
                        &&& 0 <= tt < self.entries_at(k).len()
                        &&& deref_all(rest@)[m] == self.entries_at(k)[tt]
                    } by {
                        let (j, tt) = org@[m];
                        self.lemma_node_of(j);
                    }
                    assert forall|m1: int, m2: int|
                        0 <= m1 < origin.len() && 0 <= m2 < origin.len() && m1 != m2 implies #[trigger] origin[m1]
                            != #[trigger] origin[m2] by {
                        let (j1, t1) = org@[m1];
                        let (j2, t2) = org@[m2];
                        assert(org@[m1] != org@[m2]);
                    }
                    assert forall|k: Seq<u8>, tt: int|
                        strictly_extends(k, pb) && #[trigger] self.has_entry(k, tt) implies exists|m: int|
                            0 <= m < origin.len() && #[trigger] origin[m] == (k, tt) by {
                        let j = self.node_of(k);
                        self.lemma_node_of(j);
                        assert(self.below(i, j));
                        assert(self.node_has_entry(j, tt));
                        let m = choose|m: int| 0 <= m < org@.len() && #[trigger] org@[m] == (j, tt);
                        assert(origin[m] == (k, tt));
                    }
                    assert forall|m: int| 0 <= m < org@.len() implies 0 <= (#[trigger] org@[m]).0
                        < self.nodes@.len() by {
                        let (j, tt) = org@[m];
                    }
                    self.lemma_keys_in_order(org@);
                    assert(self.lists_extensions(pb, deref_all(rest@), origin));
                    assert(pb == prefix.spec_bytes());
                    assert(exists|o: Seq<(Seq<u8>, int)>| self.lists_extensions(prefix.spec_bytes(), deref_all(rest@), o));
                }
                let ghost rv = rest@;
                let r = (exact, rest);
                assert(r.1@ == rv);
                assert(exists|o: Seq<(Seq<u8>, int)>| self.lists_extensions(prefix.spec_bytes(), deref_all(r.1@), o));
                r
            },
        }
    }
}


impl<V> Trie<V> {
    /// The entries stored under `key`, when `key` leads to a node.
    pub fn lookup(&self, key: &str) -> (r: Option<&Vec<V>>)
        requires
            self.wf(),
        ensures
            match r {
                Some(v) => v@ == self.entries_at(key.spec_bytes()),
                None => self.entries_at(key.spec_bytes()) == Seq::<V>::empty(),
            },
    {
        match self.find_node(key.as_bytes()) {
            Some(j) => {
                proof {
                    self.lemma_node_of(j as int);
                }
                Some(&self.nodes[j].entries)
            },
            None => None,
        }
    }
}

impl<V> Trie<V> {
    proof fn lemma_prefix_ends_grow(self, text: Seq<u8>, start: int, a: int, b: int)
        requires
            start <= a <= b,
        ensures
            self.prefix_ends(text, start, a).len() <= self.prefix_ends(text, start, b).len(),
        decreases b - a,
    {
        if a < b {
            self.lemma_prefix_ends_grow(text, start, a, b - 1);
        }
    }

    /// Whether some key of the trie is a prefix of `text[start..]`.
    pub fn starts_with_key(&self, text: &str, start: usize) -> (b: bool)
        requires
            self.wf(),
        ensures
            b == (self.prefix_ends(text.spec_bytes(), start as int, text.spec_bytes().len() as int).len() > 0),
    {
        let bytes = text.as_bytes();
        let ghost t = bytes@;
        let n = bytes.len();
        if start >= n {
            return false;
        }
        let mut cur: usize = 0;
        let mut i: usize = start;
        assert(t.subrange(start as int, start as int) =~= Seq::<u8>::empty());
        while i < n
            invariant
                self.wf(),
                bytes@ == t,
                n == t.len(),
                start <= i <= n,
                cur < self.nodes@.len(),
                self.paths@[cur as int] == t.subrange(start as int, i as int),
                self.prefix_ends(t, start as int, i as int).len() == 0,
                t == text.spec_bytes(),
            decreases n - i,
        {
            assert(t.subrange(start as int, i + 1) =~= t.subrange(start as int, i as int).push(t[i as int]));
            match self.find_child(cur, bytes[i]) {
                Some(j) => {
                    proof {
                        self.lemma_node_of(j as int);
                    }
                    if self.nodes[j].entries.len() > 0 {
                        proof {
                            assert(self.contains_key(t.subrange(start as int, i + 1)));
                            assert(self.prefix_ends(t, start as int, i + 1).len() > 0);
                            self.lemma_prefix_ends_grow(t, start as int, i + 1, n as int);
                        }
                        return true;
                    }
                    cur = j;
                    i = i + 1;
                },
                None => {
                    proof {
                        self.lemma_prefix_ends_stop(t, start as int, i as int, n as int);
                    }
                    return false;
                },
            }
        }
        false
    }
}

} // verus!
