//! Fields, descriptors and ring elements in the memory of a virtqueue.

use rustfw::virtqueue::{VirtQueue, VirtqDescriptor, VirtqUsedElem, VIRTQ_DESC_F_NEXT};

fn descriptor() -> VirtqDescriptor {
    VirtqDescriptor {
        addr: 0x0102_0304_0506_0708,
        len: 0x1112_1314,
        flags: VIRTQ_DESC_F_NEXT,
        next: 0x2122,
    }
}

#[test]
fn descriptors_are_little_endian() {
    let queue = VirtQueue::from_ptr(0x8000, 4, true).unwrap();
    let mut memory = vec![0u8; queue.total_size()];
    queue.write_descriptor(&mut memory, 1, descriptor());
    assert_eq!(
        memory[16..32].to_vec(),
        vec![8, 7, 6, 5, 4, 3, 2, 1, 0x14, 0x13, 0x12, 0x11, 1, 0, 0x22, 0x21]
    );
    assert!(memory[..16].iter().all(|byte| *byte == 0));
    assert!(memory[32..].iter().all(|byte| *byte == 0));
    assert_eq!(queue.read_descriptor(&memory, 1), descriptor());
    let empty = VirtqDescriptor { addr: 0, len: 0, flags: 0, next: 0 };
    assert_eq!(queue.read_descriptor(&memory, 0), empty);
}

#[test]
fn ring_fields_read_back() {
    let queue = VirtQueue::from_ptr(0x8000, 4, true).unwrap();
    let mut memory = vec![0u8; queue.total_size()];
    queue.set_avail_flags(&mut memory, 0x0101);
    queue.set_avail_idx(&mut memory, 0x0202);
    queue.set_avail_ring(&mut memory, 3, 0x0303);
    queue.set_used_event(&mut memory, 0x0404);
    queue.set_used_flags(&mut memory, 0x0505);
    queue.set_used_idx(&mut memory, 0x0606);
    queue.set_used_elem(&mut memory, 2, VirtqUsedElem { id: 7, len: 0x0908_0706 });
    queue.set_avail_event(&mut memory, 0x0a0a);
    queue.write_descriptor(&mut memory, 3, descriptor());
    assert_eq!(queue.avail_flags(&memory), 0x0101);
    assert_eq!(queue.avail_idx(&memory), 0x0202);
    assert_eq!(queue.avail_ring(&memory, 3), 0x0303);
    assert_eq!(queue.avail_ring(&memory, 2), 0);
    assert_eq!(queue.used_event(&memory), Some(0x0404));
    assert_eq!(queue.used_flags(&memory), 0x0505);
    assert_eq!(queue.used_idx(&memory), 0x0606);
    assert_eq!(queue.used_elem(&memory, 2), VirtqUsedElem { id: 7, len: 0x0908_0706 });
    assert_eq!(queue.used_elem(&memory, 1), VirtqUsedElem { id: 0, len: 0 });
    assert_eq!(queue.avail_event(&memory), Some(0x0a0a));
    assert_eq!(queue.read_descriptor(&memory, 3), descriptor());
    assert_eq!(memory[64..68].to_vec(), vec![1, 1, 2, 2]);
    assert_eq!(memory[76..84].to_vec(), vec![4, 4, 0, 0, 5, 5, 6, 6]);
}

#[test]
fn queues_without_events_have_no_event_fields() {
    let queue = VirtQueue::from_ptr(0x8000, 4, false).unwrap();
    let memory = vec![0xffu8; queue.total_size()];
    assert_eq!(queue.used_event(&memory), None);
    assert_eq!(queue.avail_event(&memory), None);
    assert_eq!(queue.avail_idx(&memory), 0xffff);
}
