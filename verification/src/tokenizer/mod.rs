pub mod dict_reader;
pub mod fallback;
pub mod newmm;
pub mod search;
pub mod tcc;
pub mod tokenizer_trait;
pub mod trie_char;
pub mod ways;
