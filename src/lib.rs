//! The season node of a static publication generator: the articles it holds,
//! their publication order, the navigation between them, the word-frequency
//! table over their text and the metadata of the season page.
pub mod article;
pub mod season;
pub mod summary;
pub mod words;
