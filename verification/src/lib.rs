pub mod fa;
pub mod fa_parser;
pub mod hash_table;
pub mod pif;
pub mod scanner;
pub mod symbol_table;
pub mod text;
pub mod token_manager;
pub mod tokenizer;
