//! Byte-range access to a device's contents, bounded by its size.
use vstd::prelude::*;
use vstd::slice::slice_subrange;

verus! {

/// A byte range that does not lie within the store.
#[derive(Debug, Clone, Copy, PartialEq, Eq, Structural)]
pub enum StoreError {
    /// `offset + length` exceeds the store's size.
    OutOfRange,
}

/// The `len` bytes of `data` from `offset` on; fails when they do not all
/// lie within `data`.
pub fn read_range(data: &[u8], offset: usize, len: usize) -> (r: Result<&[u8], StoreError>)
    ensures
        r is Ok <==> offset + len <= data@.len(),
        r matches Ok(b) ==> b@ == data@.subrange(offset as int, offset + len),
{
    if offset > data.len() || len > data.len() - offset {
        return Err(StoreError::OutOfRange);
    }
    Ok(slice_subrange(data, offset, offset + len))
}

} // verus!
