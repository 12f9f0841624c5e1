pub mod text;
pub mod normalize;
pub mod fs_utils;
pub mod tag;
pub mod dictionary;
pub mod similarity;
pub mod types;
pub mod order;
pub mod classifier;
pub mod commands;
pub mod dictionary_file;
