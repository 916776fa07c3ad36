//! Search over a corpus of Chinese jargon cards: card model, validation,
//! keyword ranking, index documents and the import of an external corpus.
pub mod text;
pub mod card;
pub mod validate;
pub mod search;
pub mod index;
pub mod segment;
pub mod import;
pub mod api;
pub mod load;
