pub mod base64;
pub mod burrows_wheeler;
pub mod cli;
pub mod move_to_front;
pub mod bit_stream;
pub mod huffman;
pub mod lzv;
pub mod text;
