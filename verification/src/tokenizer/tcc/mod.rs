pub mod tcc_rules;
pub mod tcc_tokenizer;
