use vstd::prelude::*;

use crate::codec::{compress, compressed_from, decompress, decompressed_from, CodecError, CompressedPayload};
use crate::table::{table_view, CodeEntry};

verus! {

/// The compression service: compress and decompress requests on byte buffers.
#[derive(Default)]
pub struct PistonService;

impl PistonService {
    /// Answers a compress request.
    pub fn compress(&self, data: &Vec<u8>) -> (r: CompressedPayload)
        requires
            255 * data@.len() <= usize::MAX,
        ensures
            compressed_from(data@, r),
    {
        compress(data)
    }

    /// Answers a decompress request.
    pub fn decompress(&self, data: &Vec<u8>, count: usize, table: &Vec<CodeEntry>) -> (r: Result<
        Vec<u8>,
        CodecError,
    >)
        requires
            8 * data@.len() <= usize::MAX,
        ensures
            decompressed_from(data@, count as nat, table_view(table@), r),
    {
        decompress(data, count, table)
    }
}

} // verus!
