pub mod common;
pub mod delta;
pub mod hybrid;
pub mod lookup;
pub mod parallel_chunked;
pub mod run_length_encoding;
pub mod variable_run_length_encoding;

pub use common::{get_mode, read_count_bytes, write_count_bytes, write_count_bytes_with_mode};
pub use delta::Delta;
pub use hybrid::{Algorithm, Hybrid};
pub use lookup::Lookup;
pub use parallel_chunked::ParChunked;
pub use run_length_encoding::RLE;
pub use variable_run_length_encoding::VRLE;
