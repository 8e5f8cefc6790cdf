pub mod archive;
pub mod builder;
pub mod codec;
pub mod error;
pub mod generator;
pub mod model;
pub mod notestock;
pub mod token;
