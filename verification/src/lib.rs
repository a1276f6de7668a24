pub mod dict;
pub mod dict_compiler;
pub mod pipeline;
pub mod segment;
pub mod segmentor;
pub mod sort;
pub mod text;
pub mod translator;
pub mod trie;
pub mod user_freq;
pub mod schema;
