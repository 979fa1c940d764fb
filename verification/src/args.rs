//! Run-time configuration of a viewer run.
//!
//! The values are collected at the program edge (command line parsing
//! lives outside this crate); the decode and render logic here reads
//! them as plain data.

use vstd::prelude::*;

verus! {

/// All options one run consumes.  Empty `infile`/`outfile` mean the
/// standard streams; `chunksize` zero means the window size is derived
/// from the schema.
pub struct Args {
    pub infile: String,
    pub outfile: String,
    pub config: String,
    pub pcap: bool,
    pub chunksize: usize,
    pub offset: usize,
    pub bitoffset: usize,
    pub rawhex: bool,
    pub rawbin: bool,
    pub rawascii: bool,
    pub pause: u64,
    pub little_endian: bool,
    pub timestamp: bool,
    pub read_head: usize,
    pub print_statistics: bool,
    pub print_bitpos: bool,
    pub cursor_jump: bool,
    pub clear: bool,
    pub filter_newlines: bool,
}

} // verus!
