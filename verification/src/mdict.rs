pub mod mdict_header;
pub mod utils;
pub mod record_block;
pub mod mdict;
pub mod mdx;
pub mod attributes;
