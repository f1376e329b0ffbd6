//! Blocks, block numbers, and the device they are kept on.
use vstd::prelude::*;

verus! {

/// The number of bytes in a block.
pub const BLOCK_LEN: usize = 512;

/// The number of bytes in a block, as a 32-bit number.
pub const BLOCK_LEN_U32: u32 = 512;

/// One block of a device.
#[derive(Clone, Copy, Debug)]
pub struct Block {
    pub contents: [u8; 512],
}

impl View for Block {
    type V = Seq<u8>;

    open spec fn view(&self) -> Seq<u8> {
        self.contents@
    }
}

/// A block of nothing but zeroes.
pub open spec fn zero_block() -> Seq<u8> {
    Seq::new(512, |i: int| 0u8)
}

/// `base` with the bytes from `at` on replaced by `bytes`.
pub open spec fn overlaid(base: Seq<u8>, at: int, bytes: Seq<u8>) -> Seq<u8> {
    Seq::new(
        base.len(),
        |i: int|
            if at <= i < at + bytes.len() {
                bytes[i - at]
            } else {
                base[i]
            },
    )
}

impl Block {
    /// A block of nothing but zeroes.
    pub fn new() -> (block: Block)
        ensures
            block@ == zero_block(),
    {
        let block = Block { contents: [0u8; 512] };
        proof {
            vstd::array::axiom_spec_array_fill_for_copy_type::<u8, 512>(0u8);
            assert(block@ =~= zero_block());
        }
        block
    }
}

/// Copies `src[from..from + count]` over `dst`, from `at` on.
pub fn copy_bytes(dst: &mut [u8], at: usize, src: &[u8], from: usize, count: usize)
    requires
        at + count <= old(dst)@.len(),
        from + count <= src@.len(),
    ensures
        final(dst)@ == overlaid(old(dst)@, at as int, src@.subrange(from as int, from + count)),
{
    let mut done: usize = 0;
    while done < count
        invariant
            done <= count,
            dst@.len() == old(dst)@.len(),
            at + count <= dst.len(),
            from + count <= src.len(),
            dst@ == overlaid(old(dst)@, at as int, src@.subrange(from as int, from + done)),
        decreases count - done,
    {
        dst[at + done] = src[from + done];
        done = done + 1;
        assert(dst@ =~= overlaid(
            old(dst)@,
            at as int,
            src@.subrange(from as int, from + done),
        ));
    }
}

/// The number of a block on a device.
#[derive(Clone, Copy, Debug, PartialEq, Eq, Structural)]
pub struct BlockIdx(pub u32);

/// A number of blocks.
#[derive(Clone, Copy, Debug, PartialEq, Eq, Structural)]
pub struct BlockCount(pub u32);

/// A device that reads and writes whole blocks.
///
/// Nothing is promised of what a device answers: the volume manager works with whatever it is
/// given, and records it.
pub trait BlockDevice {
    /// What the device reports when it fails.
    type Error: core::fmt::Debug;

    /// Fills `blocks` from the device, starting with block `start_block_idx`. `reason` says in a
    /// word what the blocks are wanted for.
    fn read(&self, blocks: &mut [Block], start_block_idx: BlockIdx, reason: &str) -> Result<
        (),
        Self::Error,
    >;

    /// Stores `blocks` on the device, starting with block `start_block_idx`.
    fn write(&self, blocks: &[Block], start_block_idx: BlockIdx) -> Result<(), Self::Error>;
}

} // verus!
