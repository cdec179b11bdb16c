//! Haiku segmentation: a vowel-run syllable counter and a greedy 5-7-5
//! line segmenter over whitespace-split words.

pub mod syllables;
pub mod transform;
pub mod words;
