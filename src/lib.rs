pub mod dictionary;
pub mod predictor;
pub mod text;
pub mod config;
pub mod codec;
