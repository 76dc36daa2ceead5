//! Segmentation of text into maximal runs of word and non-word characters.
//!
//! `Entries` walks a borrowed text and hands out each maximal run of
//! consecutive characters of one class — `Word` for letters and digits of any
//! script, `Other` for everything else — as a slice of the original text,
//! without copying. `Words` is the derived view that keeps only the word
//! runs. The module `model` states what both producers yield, as functions
//! over the text's sequence of characters, and proves the laws the
//! segmentation obeys: the entries tile the text exactly, no two adjacent
//! entries share a tag, and the word view is the filtered entry sequence.

pub mod entries;
pub mod model;
pub mod words;

pub use entries::Entries;
pub use entries::Entry;
pub use words::Words;
pub use words::extract_words;
