pub mod header;
pub mod parser;
pub mod reassembler;
