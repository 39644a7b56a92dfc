//! A hex dump codec: renders bytes as offset-labelled lines of grouped hex
//! digits with an ASCII column, and reads such lines back into bytes.
pub mod decode;
pub mod encode;
pub mod hex;
pub mod laws;
pub mod options;

pub use decode::{extract_data_from_lines, get_line_bytes, parse_hex_dump_line, FormatError};
pub use encode::{create_hex_dump, get_block_ascii_value, get_block_hex_string, join_dump_lines};
pub use hex::byte_to_hex_string;
pub use options::{window_bounds, Args, HexDumpOptions};
