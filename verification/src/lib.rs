//! A dictionary of words with their variants, phones, definitions and
//! parts of speech: the command language, the stored words and their
//! indexes, what lookups find and how words are shown, and the state of the
//! terminal widgets and the word form.
pub mod db;
pub mod doc;
pub mod edit;
pub mod index;
pub mod lang;
pub mod matching;
pub mod parser;
pub mod session;
pub mod text;
pub mod ui;
