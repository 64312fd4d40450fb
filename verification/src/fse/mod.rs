pub mod constants;
pub mod weight_encoder;
pub mod normalize;
pub mod weights;
pub mod encoder;
pub mod fse_spec;
pub mod tables;
pub mod decoder;
pub mod block;
pub mod literals;
pub mod lmds;
pub mod buffer;
pub mod backend;
pub mod fse_core;
pub mod probe;
pub mod round_trip;
pub mod lmd_round_trip;
pub mod block_round_trip;
pub mod lz_sem;
pub mod stream;
