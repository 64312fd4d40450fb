pub mod history;
pub mod match_object;
pub mod raw;
pub mod frontend;
pub mod encoder;
