use vstd::prelude::*;

use vstd::string::StringSliceAdditionalSpecFns;

use crate::dict::DictCandidate;
use crate::pipeline::{build_dag, dag, edge_views, unmatched_bytes_ascii};
use crate::trie::{DagEdge, Trie};

verus! {

/// Splits pinyin input into candidate syllable runs.
pub struct PinyinSegmentor;

impl PinyinSegmentor {
    /// The segmentation graph of `input`, found by prefix matching in `trie`
    /// (see `pipeline::build_dag`).
    pub fn build_dag(input: &str, trie: &Trie<DictCandidate>) -> (edges: Vec<DagEdge>)
        requires
            trie.wf(),
            unmatched_bytes_ascii(*trie, input.spec_bytes()),
        ensures
            edge_views(edges@) == dag(*trie, input.spec_bytes(), input.spec_bytes().len() as int),
    {
        build_dag(input, trie)
    }
}

} // verus!
