//! The interface of a block device.

use vstd::prelude::*;

verus! {

/// A device that is read and written in units of blocks. The kernel core
/// does not use it; drivers implement it for the file system.
pub trait BlockDevice: Send + Sync {
    /// Reads the block `block_id` into `buf`.
    fn read_block(&self, block_id: usize, buf: &mut [u8]);

    /// Writes `buf` to the block `block_id`.
    fn write_block(&self, block_id: usize, buf: &[u8]);
}

} // verus!
