# ziran-engine

A small pinyin input-method engine: dictionaries are loaded into byte tries,
the input is segmented into a graph of dictionary words, paths through the
graph are scored, and the resulting candidates are ranked, annotated with
English translations and boosted by what the user chose before.

The library under `src/` is written in Verus; every function there carries a
contract that Verus proves.

| module | what it holds |
|---|---|
| `trie` | the byte trie (insert, lookup, prefix walks, prefix search) |
| `text` | character-level helpers: trimming, splitting, number parsing and printing |
| `sort` | a stable sort by descending weight |
| `dict` | dictionary file parsing, grouping and ranking, the bilingual index, loading |
| `dict_compiler` | the `ZIRC` binary dictionary cache and the source checksum |
| `schema` | reading the dictionary lists of a schema file |
| `pipeline` | the segmentation graph, coverage, merging, path backtracking, de-duplication |
| `translator`, `segment`, `segmentor` | whole-input lookups and segment values |
| `user_freq` | the user's word counts, their file format, loading and saving |

`app/` is the command-line program around the library: it reads and writes the
files under `data/`, runs the floating-point path scoring and ranking, and
talks to the user.
