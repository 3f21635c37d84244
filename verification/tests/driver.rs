use iron_batch::driver::{BatchDescriptor, Cmd, DeviceError, DeviceHandle, FakeDevice};

#[test]
fn fake_device_roundtrip() {
    let mut dev = FakeDevice::new(4096, 1024);
    assert_eq!(dev.free_blocks().unwrap(), 1024);
    let fence = dev
        .submit_batch(BatchDescriptor {
            batch_id: 1,
            num_seqs: 8,
            ring_offset: 0,
        })
        .unwrap();
    dev.wait_fence(fence).unwrap();
    assert_eq!(fence, 1);
}

#[test]
fn free_blocks_tracks_allocations() {
    let mut dev = FakeDevice::new(4096, 1024);
    dev.allocate(100).unwrap();
    assert_eq!(dev.free_blocks().unwrap(), 924);
    dev.deallocate(50);
    assert_eq!(dev.free_blocks().unwrap(), 974);
}

#[test]
fn allocate_beyond_total_fails() {
    let mut dev = FakeDevice::new(4096, 10);
    assert!(dev.allocate(11).is_err());
    assert_eq!(dev.free_blocks().unwrap(), 10); // unchanged
    assert_eq!(dev.allocate(11), Err(DeviceError::OutOfMemory));
    assert_eq!(DeviceError::OutOfMemory.message(), "no free blocks");
    assert_eq!(DeviceError::Os(5).message(), "device error");
    assert_eq!(dev.allocate(10), Ok(()));
    assert_eq!(dev.free_blocks(), Ok(0));
    assert_eq!(dev.allocated_blocks(), 10);
}

#[test]
fn fences_count_up() {
    let mut dev = FakeDevice::new(0, 0);
    assert_eq!(dev.submit_batch(BatchDescriptor::default()), Ok(1));
    assert_eq!(dev.submit_batch(BatchDescriptor::default()), Ok(2));
    assert_eq!(dev.wait_fence(7), Ok(()));
}

#[test]
fn giving_back_too_much_leaves_nothing_free() {
    let mut dev = FakeDevice::new(0, 10);
    dev.deallocate(1);
    assert_eq!(dev.allocated_blocks(), u32::MAX);
    assert_eq!(dev.free_blocks(), Ok(0));
}

#[test]
fn allocate_then_deallocate_restores() {
    let mut dev = FakeDevice::new(0, 10);
    dev.allocate(3).unwrap();
    dev.allocate(4).unwrap();
    dev.deallocate(4);
    assert_eq!(dev.free_blocks(), Ok(7));
}

#[test]
fn ring_is_zeroed_and_writable() {
    let mut dev = FakeDevice::new(4, 0);
    dev.ring()[2] = 9;
    assert_eq!(dev.ring().to_vec(), vec![0, 0, 9, 0]);
}

#[test]
fn command_numbers() {
    assert_eq!(Cmd::SubmitBatch.number(), 1);
    assert_eq!(Cmd::WaitFence.number(), 2);
    assert_eq!(Cmd::QueryFreeBlocks.number(), 3);
    let d = BatchDescriptor::default();
    assert_eq!((d.batch_id, d.num_seqs, d.ring_offset), (0, 0, 0));
}
