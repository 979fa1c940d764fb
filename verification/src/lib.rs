pub mod args;
pub mod bits;
pub mod decode;
pub mod pipeline;
pub mod render;
pub mod schema;

pub use args::Args;
pub use decode::{write_chunk, write_gap, write_integer_data, write_line, ChunkPiece, LineEvent};
pub use pipeline::{decoder_step, effective_chunksize, pcap_ts_from_magic, source_step,
    split_chunks, ConfigError, PcapTs, SourceAction, Stats};
pub use render::{count_lines, format_number, print_additional, print_bitpos, print_raw_ascii,
    print_raw_bin, print_raw_hex, print_statistics, Format};
pub use schema::{chunksize_by_config, filter_config_lines, kind_of_token, parse_config_line,
    unknown_kind_lines, FieldKind, SchemaError};

use vstd::prelude::*;

verus! {

/// Upper bound, in bytes, on one read from the input source; one message is
/// never longer than this.
pub const MAX_READ_SIZE: usize = 16 * 1024;

/// Number of bits in one byte.
pub const BYTE_TO_BIT: usize = 8;

/// How many bytes of a chunk go on one line of a raw hex or ascii dump.
pub const HEX_LINE_SIZE: usize = 16;

/// How many bytes of a chunk go on one line of a raw binary dump.
pub const BIN_LINE_SIZE: usize = 8;

/// Bit width that values of type `T` occupy in a decode window.
pub fn size_in_bits<T>() -> (n: usize)
    requires
        vstd::layout::size_of::<T>() * 8 <= usize::MAX,
    ensures
        n == vstd::layout::size_of::<T>() * 8,
{
    core::mem::size_of::<T>() * 8
}

} // verus!
