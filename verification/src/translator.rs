use vstd::prelude::*;

use std::sync::Arc;
use vstd::string::StringSliceAdditionalSpecFns;

use crate::dict::{cand_views, share, DictCandidate, LoadedDictionaries};
use crate::trie::Trie;

verus! {

/// A dictionary word and its weight, as the translator hands it out.
pub struct DictEntry {
    pub word: String,
    pub weight: u32,
}

impl Clone for DictEntry {
    fn clone(&self) -> (r: Self)
        ensures
            r == *self,
    {
        DictEntry { word: self.word.clone(), weight: self.weight }
    }
}

pub open spec fn dict_entry_view(e: DictEntry) -> (Seq<char>, u32) {
    (e.word@, e.weight)
}

/// Looks whole inputs up in the dictionaries, without segmenting them.
pub struct SimpleTranslator {
    pub phrase_index: Arc<Trie<DictCandidate>>,
    pub char_index: Arc<Trie<DictCandidate>>,
    en_index: Arc<Trie<DictCandidate>>,
}

/// The entries stored under exactly `key`, in order.
fn exact_entries(trie: &Trie<DictCandidate>, key: &str) -> (r: Vec<DictEntry>)
    requires
        trie.wf(),
    ensures
        r@.map_values(|e: DictEntry| dict_entry_view(e)) == cand_views(trie.entries_at(key.spec_bytes())),
{
    let mut r: Vec<DictEntry> = Vec::new();
    match trie.lookup(key) {
        Some(list) => {
            let mut i: usize = 0;
            while i < list.len()
                invariant
                    i <= list@.len(),
                    list@ == trie.entries_at(key.spec_bytes()),
                    r@.map_values(|e: DictEntry| dict_entry_view(e)) == cand_views(list@.take(i as int)),
                decreases list.len() - i,
            {
                let ghost r0 = r@;
                let c = &list[i];
                r.push(DictEntry { word: c.text.clone(), weight: c.weight });
                assert(list@.take(i + 1) =~= list@.take(i as int).push(list@[i as int]));
                assert(r@.map_values(|e: DictEntry| dict_entry_view(e)) =~= r0.map_values(
                    |e: DictEntry| dict_entry_view(e),
                ).push((c.text@, c.weight)));
                i = i + 1;
            }
            assert(list@.take(i as int) =~= list@);
        },
        None => {
            assert(r@.map_values(|e: DictEntry| dict_entry_view(e)) =~= cand_views(trie.entries_at(key.spec_bytes())));
        },
    }
    r
}

impl SimpleTranslator {
    pub closed spec fn phrases(&self) -> Trie<DictCandidate> {
        *self.phrase_index
    }

    pub closed spec fn chars(&self) -> Trie<DictCandidate> {
        *self.char_index
    }

    pub closed spec fn english(&self) -> Trie<DictCandidate> {
        *self.en_index
    }

    pub open spec fn wf(&self) -> bool {
        &&& self.phrases().wf()
        &&& self.chars().wf()
        &&& self.english().wf()
    }

    /// A translator sharing the tries of `dicts`.
    pub fn from_loaded_dictionaries(dicts: &LoadedDictionaries) -> (t: Self)
        requires
            dicts.wf(),
        ensures
            t.wf(),
            t.phrases() == *dicts.phrase_trie,
            t.chars() == *dicts.char_trie,
            t.english() == *dicts.en_trie,
    {
        SimpleTranslator {
            phrase_index: share(&dicts.phrase_trie),
            char_index: share(&dicts.char_trie),
            en_index: share(&dicts.en_trie),
        }
    }

    /// The Chinese words whose syllables are exactly `input`, in dictionary order.
    pub fn translate_phrase(&self, input: &str) -> (r: Vec<DictEntry>)
        requires
            self.wf(),
        ensures
            r@.map_values(|e: DictEntry| dict_entry_view(e)) == cand_views(
                self.phrases().entries_at(input.spec_bytes()),
            ),
    {
        exact_entries(&self.phrase_index, input)
    }

    /// The English words whose code is exactly `input`, in dictionary order.
    pub fn translate_en(&self, input: &str) -> (r: Vec<DictEntry>)
        requires
            self.wf(),
        ensures
            r@.map_values(|e: DictEntry| dict_entry_view(e)) == cand_views(self.english().entries_at(input.spec_bytes())),
    {
        exact_entries(&self.en_index, input)
    }
}

} // verus!
