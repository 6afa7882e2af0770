pub mod distinct_subsequences;
pub mod edit_distance;
pub mod text;
