//! Userspace-side device interface, shaped the way it would look talking to a
//! character-device driver for an accelerator card, and an in-process fake, so
//! that the rest of the stack runs without hardware.

use vstd::prelude::*;

verus! {

/// The commands of the device. Their numbers are the ioctl surface.
#[derive(Debug, PartialEq, Eq, Clone, Copy)]
pub enum Cmd {
    SubmitBatch,
    WaitFence,
    QueryFreeBlocks,
}

impl Cmd {
    /// The command number.
    pub fn number(&self) -> (n: u32)
        ensures
            n == match self {
                Cmd::SubmitBatch => 1u32,
                Cmd::WaitFence => 2u32,
                Cmd::QueryFreeBlocks => 3u32,
            },
    {
        match self {
            Cmd::SubmitBatch => 1,
            Cmd::WaitFence => 2,
            Cmd::QueryFreeBlocks => 3,
        }
    }
}

/// One batch as the device is told of it.
#[derive(Debug, PartialEq, Eq, Clone, Copy)]
pub struct BatchDescriptor {
    pub batch_id: u64,
    pub num_seqs: u32,
    pub ring_offset: u32,
}

impl Default for BatchDescriptor {
    fn default() -> (d: Self)
        ensures
            d == (BatchDescriptor { batch_id: 0, num_seqs: 0, ring_offset: 0 }),
    {
        BatchDescriptor { batch_id: 0, num_seqs: 0, ring_offset: 0 }
    }
}

/// Why a device refused.
#[derive(Debug, PartialEq, Eq, Clone, Copy)]
pub enum DeviceError {
    /// The device has too few free blocks.
    OutOfMemory,
    /// The operating system reported this error code.
    Os(i32),
}

impl DeviceError {
    /// The error in words.
    pub fn message(&self) -> (m: &'static str)
        ensures
            m@ == match self {
                DeviceError::OutOfMemory => "no free blocks"@,
                DeviceError::Os(_) => "device error"@,
            },
    {
        match self {
            DeviceError::OutOfMemory => "no free blocks",
            DeviceError::Os(_) => "device error",
        }
    }
}

/// An accelerator.
pub trait DeviceHandle: Send + Sync {
    /// Hand a batch to the device. Returns the fence that completes with it.
    fn submit_batch(&mut self, desc: BatchDescriptor) -> Result<u64, DeviceError>;

    /// Wait for a fence.
    fn wait_fence(&mut self, fence: u64) -> Result<(), DeviceError>;

    /// The number of free device blocks, for backpressure decisions.
    fn free_blocks(&self) -> Result<u32, DeviceError>;

    /// The command ring, to write into. The borrow keeps every other use of the
    /// device out while the ring is written.
    fn ring(&mut self) -> &mut [u8];
}

/// A device of which only the bookkeeping is real.
pub struct FakeDevice {
    ring: Vec<u8>,
    next_fence: u64,
    allocated_blocks: u32,
    total_blocks: u32,
}

/// What a fake device holds.
#[verifier::ext_equal]
pub struct DeviceState {
    pub ring: Seq<u8>,
    /// The fence handed out last.
    pub fence: u64,
    pub allocated: u32,
    pub total: u32,
}

impl DeviceState {
    /// The blocks that are free; none when more are allocated than there are.
    pub open spec fn free(self) -> u32 {
        if self.allocated <= self.total {
            (self.total - self.allocated) as u32
        } else {
            0
        }
    }
}

impl View for FakeDevice {
    type V = DeviceState;

    closed spec fn view(&self) -> DeviceState {
        DeviceState {
            ring: self.ring@,
            fence: self.next_fence,
            allocated: self.allocated_blocks,
            total: self.total_blocks,
        }
    }
}

impl FakeDevice {
    /// A device with a zeroed ring of `ring_bytes` bytes and `total_blocks`
    /// blocks, none of them allocated.
    pub fn new(ring_bytes: usize, total_blocks: u32) -> (d: Self)
        ensures
            d@ == (DeviceState {
                ring: Seq::new(ring_bytes as nat, |i: int| 0u8),
                fence: 0,
                allocated: 0,
                total: total_blocks,
            }),
    {
        let ring = vec![0u8; ring_bytes];
        assert(ring@ =~= Seq::new(ring_bytes as nat, |i: int| 0u8));
        FakeDevice { ring, next_fence: 0, allocated_blocks: 0, total_blocks }
    }

    /// How many blocks are allocated.
    pub fn allocated_blocks(&self) -> (n: u32)
        ensures
            n == self@.allocated,
    {
        self.allocated_blocks
    }

    /// Allocate `n` blocks, or none if they are not all free.
    pub fn allocate(&mut self, n: u32) -> (r: Result<(), DeviceError>)
        requires
            old(self)@.allocated + n <= u32::MAX,
        ensures
            if old(self)@.allocated + n > old(self)@.total {
                &&& r == Err::<(), DeviceError>(DeviceError::OutOfMemory)
                &&& final(self)@ == old(self)@
            } else {
                &&& r == Ok::<(), DeviceError>(())
                &&& final(self)@ == (DeviceState {
                    allocated: (old(self)@.allocated + n) as u32,
                    ..old(self)@
                })
            },
    {
        if self.allocated_blocks + n > self.total_blocks {
            return Err(DeviceError::OutOfMemory);
        }
        self.allocated_blocks = self.allocated_blocks + n;
        Ok(())
    }

    /// Give `n` blocks back. The count wraps when more come back than were
    /// allocated.
    pub fn deallocate(&mut self, n: u32)
        ensures
            final(self)@ == (DeviceState {
                allocated: old(self)@.allocated.wrapping_sub(n),
                ..old(self)@
            }),
    {
        self.allocated_blocks = self.allocated_blocks.wrapping_sub(n);
    }
}

impl DeviceHandle for FakeDevice {
    /// Fences count up from 1, and wrap.
    fn submit_batch(&mut self, desc: BatchDescriptor) -> (r: Result<u64, DeviceError>)
        ensures
            r == Ok::<u64, DeviceError>(old(self)@.fence.wrapping_add(1)),
            final(self)@ == (DeviceState { fence: old(self)@.fence.wrapping_add(1), ..old(self)@ }),
    {
        self.next_fence = self.next_fence.wrapping_add(1);
        Ok(self.next_fence)
    }

    /// A fake fence is complete from the start.
    fn wait_fence(&mut self, fence: u64) -> (r: Result<(), DeviceError>)
        ensures
            r == Ok::<(), DeviceError>(()),
            final(self)@ == old(self)@,
    {
        Ok(())
    }

    fn free_blocks(&self) -> (r: Result<u32, DeviceError>)
        ensures
            r == Ok::<u32, DeviceError>(self@.free()),
    {
        Ok(self.total_blocks.saturating_sub(self.allocated_blocks))
    }

    fn ring(&mut self) -> (r: &mut [u8])
        ensures
            r@ == old(self)@.ring,
            final(self)@ == (DeviceState { ring: final(r)@, ..old(self)@ }),
    {
        self.ring.as_mut_slice()
    }
}

/// What was allocated comes back: allocating blocks and giving them back leaves
/// the device with the free blocks it had.
pub proof fn law_allocate_then_deallocate(s: DeviceState, n: u32)
    requires
        s.allocated + n <= s.total,
    ensures
        ({
            let taken = DeviceState { allocated: (s.allocated + n) as u32, ..s };
            &&& taken.free() == s.free() - n
            &&& DeviceState { allocated: taken.allocated.wrapping_sub(n), ..taken } == s
        }),
{
}

/// Free and allocated blocks make up the device, unless more are allocated than
/// there are: then none is free.
pub proof fn law_free_and_allocated_make_up_the_device(s: DeviceState)
    ensures
        s.allocated <= s.total ==> s.free() + s.allocated == s.total,
        s.allocated > s.total ==> s.free() == 0,
{
}

} // verus!
