pub mod global_alignment;
pub mod levenshtein;
pub mod text;
