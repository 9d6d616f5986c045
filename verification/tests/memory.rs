//! Physical frames, the kernel heap, and page tables.
use jungey::mm::frames::{alloc_contiguous, alloc_frame, free, free_count, total_count, Frames};
use jungey::mm::heap::{align_up, check, stats, Block, Check, Heap};
use jungey::mm::paging::{alloc_table, index, AddressSpace, Perm};
use jungey::mm::ram::Ram;
use jungey::mm::uaccess::{copy_from_user, copy_to_user};
use jungey::mm::{page_align_down, page_align_up, phys_to_virt, virt_to_phys};

const BASE: u64 = 0x4000_0000;

fn memory(pages: u64) -> (Frames, Ram) {
    let mut frames = Frames::new();
    jungey::mm::frames::init(&mut frames, &[(BASE, pages * 4096)], &[]);
    (frames, Ram::new(BASE, (pages * 4096) as usize))
}

#[test]
fn addresses_round_and_map() {
    assert_eq!(page_align_up(4097), 8192);
    assert_eq!(page_align_up(4096), 4096);
    assert_eq!(page_align_down(8191), 4096);
    assert_eq!(phys_to_virt(0x4008_0000), 0xFFFF_0000_4008_0000);
    assert_eq!(virt_to_phys(phys_to_virt(0x4008_0000)), 0x4008_0000);
}

#[test]
fn frames_step_over_what_is_reserved() {
    let mut f = Frames::new();
    assert_eq!(alloc_frame(&mut f), None);
    jungey::mm::frames::init(
        &mut f,
        &[(0x1000, 0x1000), (BASE, 0x8000), (0x9000_0000, 0x2000)],
        &[(BASE + 0x1800, BASE + 0x2800), (BASE + 0x7000, BASE + 0x7001)],
    );
    // Eight frames, of which 1 and 2 and the last are reserved.
    assert_eq!((total_count(&f), free_count(&f)), (5, 5));
    let mut got = Vec::new();
    while let Some(p) = alloc_frame(&mut f) {
        got.push(p - BASE);
    }
    assert_eq!(got, [0, 0x3000, 0x4000, 0x5000, 0x6000]);
    assert_eq!(free_count(&f), 0);
    assert_eq!(f.blocked_until(BASE + 0x1000), Some(BASE + 0x3000));
    assert_eq!(f.blocked_until(BASE), None);
}

#[test]
fn every_reserved_range_counts() {
    let mut f = Frames::new();
    let reserved: Vec<(u64, u64)> = (0..12).map(|i| (BASE + i * 0x2000, BASE + i * 0x2000 + 1)).collect();
    jungey::mm::frames::init(&mut f, &[(BASE, 24 * 0x1000)], &reserved);
    assert_eq!(total_count(&f), 12);
    while let Some(p) = alloc_frame(&mut f) {
        assert_eq!(p % 0x2000, 0x1000);
    }
}

#[test]
fn a_freed_frame_is_handed_out_again() {
    let (mut f, _) = memory(4);
    let a = alloc_frame(&mut f).unwrap();
    let b = alloc_frame(&mut f).unwrap();
    assert_ne!(a, b);
    free(&mut f, a);
    assert_eq!(free_count(&f), 3);
    assert_eq!(alloc_frame(&mut f), Some(a));
}

#[test]
fn a_run_of_frames_steps_over_what_is_reserved() {
    let mut f = Frames::new();
    assert_eq!(alloc_contiguous(&mut f, 1), None);
    jungey::mm::frames::init(&mut f, &[(BASE, 0x8000)], &[(BASE + 0x2000, BASE + 0x3000)]);
    // Frames 0 and 1 are too few: they are kept for later.
    assert_eq!(alloc_contiguous(&mut f, 3), Some(BASE + 0x3000));
    assert_eq!(free_count(&f), 4);
    assert_eq!(alloc_contiguous(&mut f, 3), None);
    assert_eq!(free_count(&f), 4);
    assert_eq!(alloc_contiguous(&mut f, 2), Some(BASE + 0x6000));
    assert_eq!(alloc_frame(&mut f), Some(BASE + 0x1000));
    assert_eq!(alloc_frame(&mut f), Some(BASE));
    assert_eq!(alloc_frame(&mut f), None);
}

#[test]
fn memory_holds_what_is_written() {
    let mut ram = Ram::new(BASE, 8192);
    ram.write_u64(BASE + 16, 0x1122_3344_5566_7788);
    assert_eq!(ram.read_u64(BASE + 16), 0x1122_3344_5566_7788);
    assert_eq!(ram.bytes[16], 0x88);
    ram.write_bytes(BASE + 4095, &[1, 2]);
    let mut out = vec![9];
    ram.read_bytes(BASE + 4095, 2, &mut out);
    assert_eq!(out, [9, 1, 2]);
    ram.zero_page(BASE);
    assert_eq!(ram.read_u64(BASE + 16), 0);
    assert_eq!(ram.bytes[4096], 2);
}

#[test]
fn the_heap_gives_and_takes_back() {
    let mut h = Heap::new();
    assert_eq!(h.allocate(8, 8), None);
    h.add_region(0x1000, 0x1000);
    assert_eq!(stats(&h), (0x1000, 0));
    let a = h.allocate(24, 8).unwrap();
    let b = h.allocate(1, 1).unwrap();
    let c = h.allocate(16, 256).unwrap();
    assert_eq!((a, b, c), (0x1000, 0x1018, 0x1100));
    assert_eq!(stats(&h), (0x1000, 24 + 16 + 16));
    h.dealloc(b, 1);
    h.dealloc(a, 24);
    h.dealloc(c, 16);
    // Neighbours have been joined: it is one block again.
    assert_eq!(h.free, vec![Block { addr: 0x1000, size: 0x1000 }]);
    assert_eq!(stats(&h), (0x1000, 0));
    assert_eq!(h.allocate(0x1001, 8), None);
    assert_eq!(h.allocate(0x1000, 8), Some(0x1000));
}

#[test]
fn a_damaged_heap_is_noticed() {
    let block = |addr, size| Block { addr, size };
    let mut h = Heap::new();
    assert_eq!(check(&h), Check { blocks: 0, free_bytes: 0, error: None, at: 0 });
    h.free = vec![block(0x1000, 64), block(0x2000, 32)];
    assert_eq!(check(&h), Check { blocks: 2, free_bytes: 96, error: None, at: 0 });
    let found = |h: &Heap| (check(h).error, check(h).at, check(h).blocks, check(h).free_bytes);
    h.free = vec![block(0x1000, 64), block(0x1040, 32)];
    assert_eq!(found(&h), (Some("block does not follow the one before"), 0x1040, 1, 64));
    h.free = vec![block(0x1000, 0)];
    assert_eq!(found(&h), (Some("empty block"), 0x1000, 0, 0));
    h.free = vec![block(0x1000, 8), block(u64::MAX, 1)];
    assert_eq!(found(&h), (Some("block has no end"), u64::MAX, 1, 8));
}

#[test]
fn a_heap_is_made_of_pages() {
    let mut h = Heap::new();
    assert_eq!(
        jungey::mm::heap::init(&mut h, None, 4),
        Err("no contiguous frames for heap")
    );
    assert_eq!(jungey::mm::heap::init(&mut h, Some(0x2000), 4), Ok(()));
    assert_eq!(stats(&h), (0x4000, 0));
    assert_eq!(align_up(17, 8), 24);
    assert_eq!(align_up(16, 8), 16);
    // A region too small for a block is not taken.
    h.add_region(0x9000, 15);
    assert_eq!(stats(&h), (0x4000, 0));
}

#[test]
fn permissions_as_descriptors_say_them() {
    // Valid page, normal memory, EL0, inner shareable, accessed, not global, PXN.
    assert_eq!(Perm::UserData.bits(), 0x0060_0000_0000_0f47);
    assert_eq!(Perm::UserText.bits(), 0x0020_0000_0000_0fc7);
    assert_eq!(Perm::UserReadOnly.bits(), 0x0060_0000_0000_0fc7);
    for p in [Perm::UserText, Perm::UserReadOnly, Perm::UserData, Perm::UserDevice] {
        let writable = p.bits() & 0x80 == 0;
        let executable = p.bits() & (1 << 54) == 0;
        assert!(!(writable && executable));
        assert!(p.bits() & (1 << 53) != 0);
    }
}

#[test]
fn the_indices_of_an_address() {
    let va = 0x0000_7F12_3456_7ABC;
    assert_eq!(index(va, 0), (va >> 39) & 511);
    assert_eq!(index(va, 1), (va >> 30) & 511);
    assert_eq!(index(va, 2), (va >> 21) & 511);
    assert_eq!(index(va, 3), (va >> 12) & 511);
}

#[test]
fn no_space_gets_the_reserved_identifier() {
    let (mut frames, mut ram) = memory(32);
    let mut asid = 0xffff;
    let a = AddressSpace::new(&mut frames, &mut ram, &mut asid).unwrap();
    let b = AddressSpace::new(&mut frames, &mut ram, &mut asid).unwrap();
    let c = AddressSpace::new(&mut frames, &mut ram, &mut asid).unwrap();
    assert_eq!((a.asid(), b.asid(), c.asid()), (0xffff, 1, 2));
    let mut asid = u64::MAX;
    let d = AddressSpace::new(&mut frames, &mut ram, &mut asid).unwrap();
    let e = AddressSpace::new(&mut frames, &mut ram, &mut asid).unwrap();
    assert_eq!((d.asid(), e.asid()), (0xffff, 1));
}

#[test]
fn a_mapping_leads_to_its_frames() {
    let (mut frames, mut ram) = memory(32);
    let mut asid = 0x1_0005;
    let mut s = AddressSpace::new(&mut frames, &mut ram, &mut asid).unwrap();
    assert_eq!((s.asid(), asid), (5, 0x1_0006));
    assert_eq!(s.ttbr0(), (5 << 48) | s.root());
    assert_eq!(s.translate(&ram, 0x40_0000), None);
    assert_eq!(s.map(&mut frames, &mut ram, 0x40_0000, 0x1234_5000, 2, Perm::UserDevice), Ok(()));
    assert_eq!(s.translate(&ram, 0x40_0abc), Some(0x1234_5abc));
    assert_eq!(s.translate(&ram, 0x40_1abc), Some(0x1234_6abc));
    assert_eq!(s.translate(&ram, 0x40_2000), None);
    assert_eq!(
        s.map(&mut frames, &mut ram, 0x40_0001, 0, 1, Perm::UserData),
        Err("unaligned mapping")
    );
    s.unmap(&mut ram, 0x40_0000, 1);
    assert_eq!(s.translate(&ram, 0x40_0000), None);
    assert_eq!(s.translate(&ram, 0x40_1000), Some(0x1234_6000));
    // A kernel address is never a user address.
    assert_eq!(s.translate(&ram, 0xFFFF_0000_0040_1000), None);
    let slot = s.entry_for(&mut frames, &mut ram, 0x40_1000).unwrap();
    assert_eq!(ram.read_u64(slot), 0x1234_6000 | Perm::UserDevice.bits());
    // Root and three tables; all of them come back.
    assert_eq!(s.owned.len(), 4);
    s.release(&mut frames);
    assert_eq!(free_count(&frames), 32);
}

#[test]
fn mapping_runs_out_of_frames() {
    let (mut frames, mut ram) = memory(2);
    let mut asid = 1;
    let mut s = AddressSpace::new(&mut frames, &mut ram, &mut asid).unwrap();
    assert_eq!(
        s.map(&mut frames, &mut ram, 0x40_0000, 0, 1, Perm::UserData),
        Err("out of frames for page tables")
    );
    assert_eq!(
        s.map_anonymous(&mut frames, &mut ram, 0x40_0000, 1, Perm::UserData),
        Err("out of frames")
    );
    assert!(AddressSpace::new(&mut frames, &mut ram, &mut asid).is_none());
    assert_eq!(alloc_table(&mut frames, &mut ram), None);
}

#[test]
fn anonymous_memory_is_fresh_and_zero() {
    let (mut frames, mut ram) = memory(32);
    for b in ram.bytes.iter_mut() {
        *b = 0xee;
    }
    let mut asid = 1;
    let mut a = AddressSpace::new(&mut frames, &mut ram, &mut asid).unwrap();
    let mut b = AddressSpace::new(&mut frames, &mut ram, &mut asid).unwrap();
    a.map_anonymous(&mut frames, &mut ram, 0x40_0000, 2, Perm::UserData).unwrap();
    b.map_anonymous(&mut frames, &mut ram, 0x40_0000, 2, Perm::UserData).unwrap();
    assert_eq!(copy_from_user(&a, &ram, 0x40_0ff8, 16), Ok(vec![0; 16]));
    copy_to_user(&a, &mut ram, 0x40_0ff8, &[7; 16]).unwrap();
    assert_eq!(copy_from_user(&a, &ram, 0x40_0ff8, 16), Ok(vec![7; 16]));
    assert_eq!(copy_from_user(&b, &ram, 0x40_0ff8, 16), Ok(vec![0; 16]));
    assert_eq!(
        a.map_anonymous(&mut frames, &mut ram, 0x50_0001, 1, Perm::UserData),
        Err("unaligned mapping")
    );
    assert_eq!(copy_from_user(&a, &ram, 0x40_0000, 4097), Err("transfer too large"));
}

#[test]
fn the_empty_space_maps_nothing() {
    let (mut frames, mut ram) = memory(1);
    let root = jungey::mm::paging::init(&mut frames, &mut ram).unwrap();
    assert_eq!(root, BASE);
    assert_eq!(&ram.bytes[..], &[0u8; 4096][..]);
    assert_eq!(
        jungey::mm::paging::init(&mut frames, &mut ram),
        Err("no frame for the empty address space")
    );
}
