pub mod engine;
pub mod idf;
pub mod index;
pub mod source;
