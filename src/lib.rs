pub mod cache;
pub mod retrieval;
pub mod scan;
pub mod score;
pub mod similarity;
