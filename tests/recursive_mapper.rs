use paging::x86_64::{Bit, EntryRef, FrameAllocator, RecursiveMapper, TableMemory};
use paging::{Error, Mapper, PhysicalAddress, VirtualAddress};

/// Hands out frames upwards from a start address, and counts them.
struct BumpAllocator {
    next: u64,
    end: u64,
    handed_out: usize,
}

impl BumpAllocator {
    fn new(start: u64, end: u64) -> Self {
        BumpAllocator { next: start, end, handed_out: 0 }
    }
}

impl FrameAllocator for BumpAllocator {
    fn alloc_frame(&mut self) -> Result<PhysicalAddress, Error> {
        if self.next >= self.end {
            return Err(Error::NoMemory);
        }
        let frame = self.next;
        self.next += 0x1000;
        self.handed_out += 1;
        Ok(frame.into())
    }
}

fn mapper(frames: usize) -> RecursiveMapper<BumpAllocator> {
    RecursiveMapper::new(
        PhysicalAddress::new(0),
        TableMemory::new(frames),
        BumpAllocator::new(0x1000, frames as u64 * 0x1000),
    )
}

fn link(m: &RecursiveMapper<BumpAllocator>, frame: u64, index: usize) -> u64 {
    let e = m.memory().table(PhysicalAddress::new(frame)).entries[index];
    assert!(e.bit(Bit::Present));
    assert!(e.bit(Bit::Writable));
    assert!(e.bit(Bit::User));
    assert!(!e.bit(Bit::Huge));
    e.address().as_u64()
}

#[test]
fn recursive_mapper_map_tables() {
    let mut m = mapper(16);
    let entry = m.entry(0xffff_8000_0000_0000.into(), 1).unwrap();

    let pt3 = link(&m, 0, 256);
    let pt2 = link(&m, pt3, 0);
    let pt1 = link(&m, pt2, 0);

    assert_eq!(pt3, 0x1000);
    assert_eq!(pt2, pt3 + 0x1000);
    assert_eq!(pt1, pt2 + 0x1000);
    assert_eq!(entry, EntryRef { frame: PhysicalAddress::new(pt1), index: 0 });
    assert_eq!(m.frame_allocator().handed_out, 3);
}

#[test]
fn new_tables_per_level_from_empty_tree() {
    let requests: [(u8, u64); 4] = [
        (4, 0x0000_0080_0000_0000),
        (3, 0x0000_0000_4000_0000),
        (2, 0x0000_0000_0020_0000),
        (1, 0x0000_0000_0000_1000),
    ];
    for &(level, va) in requests.iter() {
        let mut m = mapper(8);
        let e = m.entry(VirtualAddress::new(va), level).unwrap();
        assert_eq!(m.frame_allocator().handed_out, 4 - level as usize);
        assert_eq!(e.index, 1);
        for n in 1..=(4 - level as u64) {
            let t = m.memory().table(PhysicalAddress::new(n * 0x1000));
            let used = t.entries.iter().filter(|x| x.bit(Bit::Present)).count();
            assert_eq!(used, if n == 4 - level as u64 { 0 } else { 1 });
        }
    }
}

#[test]
fn entry_twice_is_the_same_slot() {
    let mut m = mapper(16);
    let va = VirtualAddress::new(0x0000_7fff_ffe0_3000);
    let first = m.entry(va, 1).unwrap();
    assert_eq!(m.frame_allocator().handed_out, 3);
    let second = m.entry(va, 1).unwrap();
    assert_eq!(first, second);
    assert_eq!(m.frame_allocator().handed_out, 3);
    assert_eq!(first.index, 3);
}

#[test]
fn huge_level_two_entry_overlaps() {
    let mut m = mapper(16);
    let va = VirtualAddress::new(0x0000_0000_4060_0000);
    let at = m.entry(va, 2).unwrap();
    assert_eq!(m.frame_allocator().handed_out, 2);
    let mut e = m.memory().read_entry(at);
    e.set_address(PhysicalAddress::new(0x20_0000)).set_bit(Bit::Present).set_bit(Bit::Huge);
    m.memory_mut().write_entry(at, e);

    assert_eq!(m.entry(va, 1), Err(Error::Overlap));
    assert_eq!(m.entry(VirtualAddress::new(0x0000_0000_4060_5000), 1), Err(Error::Overlap));
    assert_eq!(m.frame_allocator().handed_out, 2);
    // The huge entry itself is still reachable at its own level.
    assert_eq!(m.entry(va, 2), Ok(at));
}

#[test]
fn sign_extension_bits_are_ignored() {
    let mut m = mapper(16);
    let low = m.entry(VirtualAddress::new(0x0000_8000_0000_0000), 1).unwrap();
    let high = m.entry(VirtualAddress::new(0xffff_8000_0000_0000), 1).unwrap();
    let odd = m.entry(VirtualAddress::new(0x1234_8000_0000_0000), 1).unwrap();
    assert_eq!(low, high);
    assert_eq!(low, odd);
    assert_eq!(m.frame_allocator().handed_out, 3);
}

#[test]
fn allocator_failure_is_no_memory() {
    let mut m = RecursiveMapper::new(
        PhysicalAddress::new(0),
        TableMemory::new(16),
        BumpAllocator::new(0x1000, 0x3000),
    );
    assert_eq!(m.entry(VirtualAddress::new(0x1000), 1), Err(Error::NoMemory));
    // The two tables made before the failure stay linked.
    let pt3 = link(&m, 0, 0);
    let pt2 = link(&m, pt3, 0);
    assert_eq!(pt2, 0x2000);
    assert_eq!(m.entry(VirtualAddress::new(0x20_0000), 2).unwrap().index, 1);
}

#[test]
fn frame_outside_memory_is_no_memory() {
    let mut m = RecursiveMapper::new(
        PhysicalAddress::new(0),
        TableMemory::new(2),
        BumpAllocator::new(0x1000, 0x10_0000),
    );
    assert_eq!(m.entry(VirtualAddress::new(0), 2), Err(Error::NoMemory));
    assert_eq!(m.frame_allocator().handed_out, 2);
}

#[test]
fn top_level_entry_needs_no_table() {
    let mut m = mapper(1);
    let e = m.entry(VirtualAddress::new(0xffff_ff80_0000_0000), 4).unwrap();
    assert_eq!(e, EntryRef { frame: PhysicalAddress::new(0), index: 511 });
    assert_eq!(m.frame_allocator().handed_out, 0);
}

fn through_mapper<M: Mapper>(m: &mut M, va: u64, level: u8) -> Result<M::Entry, Error> {
    m.entry(VirtualAddress::new(va), level)
}

#[test]
fn mapper_trait_walks_like_entry() {
    let mut m = mapper(16);
    let via_trait = through_mapper(&mut m, 0x0000_0000_0040_0000, 2).unwrap();
    assert_eq!(via_trait, EntryRef { frame: PhysicalAddress::new(0x2000), index: 2 });
    assert_eq!(m.frame_allocator().handed_out, 2);
    let direct = m.entry(VirtualAddress::new(0x0000_0000_0040_0000), 2).unwrap();
    assert_eq!(via_trait, direct);
}

#[test]
fn new_tables_are_zeroed_before_linking() {
    let mut memory = TableMemory::new(8);
    // Leave stale words in the frames the allocator is about to hand out.
    for frame in 1..4u64 {
        let mut e = memory.read_entry(EntryRef { frame: PhysicalAddress::new(frame * 0x1000), index: 7 });
        e.set_bit(Bit::Present).set_address(PhysicalAddress::new(0x9000));
        memory.write_entry(EntryRef { frame: PhysicalAddress::new(frame * 0x1000), index: 7 }, e);
    }
    let mut m = RecursiveMapper::new(PhysicalAddress::new(0), memory, BumpAllocator::new(0x1000, 0x8000));
    let e = m.entry(VirtualAddress::new(0), 1).unwrap();
    assert_eq!(e, EntryRef { frame: PhysicalAddress::new(0x3000), index: 0 });
    for frame in 1..4u64 {
        let t = m.memory().table(PhysicalAddress::new(frame * 0x1000));
        assert!(!t.entries[7].bit(Bit::Present));
        assert_eq!(t.entries[7].address().as_u64(), 0);
    }
}

/// Hands out the same frame every time.
struct StuckAllocator {
    frame: u64,
}

impl FrameAllocator for StuckAllocator {
    fn alloc_frame(&mut self) -> Result<PhysicalAddress, Error> {
        Ok(PhysicalAddress::new(self.frame))
    }
}

#[test]
fn frame_already_on_the_walk_is_no_memory() {
    let mut root_again = RecursiveMapper::new(
        PhysicalAddress::new(0),
        TableMemory::new(4),
        StuckAllocator { frame: 0 },
    );
    assert_eq!(root_again.entry(VirtualAddress::new(0), 3), Err(Error::NoMemory));
    assert!(!root_again.memory().table(PhysicalAddress::new(0)).entries[0].bit(Bit::Present));

    let mut repeated = RecursiveMapper::new(
        PhysicalAddress::new(0),
        TableMemory::new(4),
        StuckAllocator { frame: 0x2000 },
    );
    assert_eq!(repeated.entry(VirtualAddress::new(0), 2), Err(Error::NoMemory));
    let first = repeated.memory().table(PhysicalAddress::new(0)).entries[0];
    assert!(first.bit(Bit::Present));
    assert_eq!(first.address().as_u64(), 0x2000);
}

#[test]
fn stale_huge_bit_is_cleared_when_linking() {
    let mut memory = TableMemory::new(8);
    let root_slot = EntryRef { frame: PhysicalAddress::new(0), index: 0 };
    let mut stale = memory.read_entry(root_slot);
    stale.set_bit(Bit::Huge).set_avail(2);
    memory.write_entry(root_slot, stale);
    let mut m = RecursiveMapper::new(PhysicalAddress::new(0), memory, BumpAllocator::new(0x1000, 0x8000));

    let first = m.entry(VirtualAddress::new(0x1000), 1).unwrap();
    let link = m.memory().read_entry(root_slot);
    assert!(link.bit(Bit::Present));
    assert!(!link.bit(Bit::Huge));
    assert_eq!(link.avail(), 2);
    assert_eq!(link.address().as_u64(), 0x1000);

    let second = m.entry(VirtualAddress::new(0x1000), 1).unwrap();
    assert_eq!(first, second);
    assert_eq!(m.frame_allocator().handed_out, 3);
}

#[test]
fn addresses_convert_and_check_alignment() {
    let p = PhysicalAddress::new(0x3000);
    assert_eq!(u64::from(p), 0x3000);
    assert!(p.is_aligned(0x1000));
    assert!(!p.is_aligned(0x2000));
    let v = VirtualAddress::new(0x20_1000);
    assert_eq!(u64::from(v), 0x20_1000);
    assert!(v.is_aligned(0x1000));
    assert!(!v.is_aligned(0x20_0000));
}
