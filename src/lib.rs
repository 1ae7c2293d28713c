//! Corpus-level BLEU statistics for machine translation output.
pub mod text;
pub mod ngram;
pub mod record;
pub mod group;
pub mod score;
