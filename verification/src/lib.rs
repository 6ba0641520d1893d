//! Core of a question-answering service: builds a term-frequency /
//! inverse-document-frequency model over a corpus of tokenized questions,
//! persists it as a tabular text format, projects queries into the trained
//! vector space, and ranks corpus entries by cosine similarity.
//!
//! All arithmetic is exact: inverse document frequencies are natural
//! logarithms in fixed-point (thousandths), and similarity comparisons
//! against a rational threshold are decided by exact integer arithmetic.

pub mod codec;
pub mod exec_mode;
pub mod idf;
pub mod laws;
pub mod model;
pub mod numfmt;
pub mod table;
pub mod ranker;
pub mod strutil;
pub mod vector;

pub use codec::{
    decode_model, decode_qa, decode_word_lists, encode_model, encode_word_lists, ModelError,
    QaData,
};
pub use exec_mode::{ExecMode, STR_PKEY};
pub use model::{TfIdf, DOC_LIMIT};
pub use ranker::{filter_matches, Similarity};
pub use strutil::{split_tokens, str_eq};
