pub mod model;
pub mod accum;
pub mod bit_writer;
pub mod byte_bits;
pub mod bit_reader;
