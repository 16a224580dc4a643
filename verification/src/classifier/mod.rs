pub mod classifier;
pub mod class_counts;
pub mod vocabulary;
