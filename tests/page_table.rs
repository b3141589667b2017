use paging::x86_64::{Bit, Entry, PageTable};
use paging::PhysicalAddress;

const ALL_BITS: [Bit; 10] = [
    Bit::Present,
    Bit::Writable,
    Bit::User,
    Bit::Direct,
    Bit::Nocache,
    Bit::Accessed,
    Bit::Dirty,
    Bit::Huge,
    Bit::Global,
    Bit::Noexec,
];

#[test]
fn int_consistency() {
    let mut entry = Entry::new();
    entry.set_address(0x4242000.into());
    assert_eq!(entry.address().as_u64(), 0x4242000);

    entry.set_avail(7);
    assert_eq!(entry.avail(), 7);
    entry.set_avail(0);
    assert_eq!(entry.avail(), 0);
}

#[test]
fn bit_consistency() {
    let mut entry = Entry::new();
    entry.set_address(0x000ffffffffff000.into());
    assert!(!entry.bit(Bit::Present));
    assert!(!entry.bit(Bit::Writable));
    assert!(!entry.bit(Bit::User));
    assert!(!entry.bit(Bit::Direct));
    assert!(!entry.bit(Bit::Nocache));
    assert!(!entry.bit(Bit::Accessed));
    assert!(!entry.bit(Bit::Dirty));
    assert!(!entry.bit(Bit::Huge));
    assert!(!entry.bit(Bit::Global));
    assert!(!entry.bit(Bit::Noexec));

    entry.set_bit(Bit::Present);
    assert!(entry.bit(Bit::Present));
    entry.unset_bit(Bit::Present);

    entry.set_bit(Bit::Writable);
    assert!(entry.bit(Bit::Writable));
    entry.unset_bit(Bit::Writable);

    entry.set_bit(Bit::User);
    assert!(entry.bit(Bit::User));
    entry.unset_bit(Bit::User);

    entry.set_bit(Bit::Direct);
    assert!(entry.bit(Bit::Direct));
    entry.unset_bit(Bit::Direct);

    entry.set_bit(Bit::Nocache);
    assert!(entry.bit(Bit::Nocache));
    entry.unset_bit(Bit::Nocache);

    entry.set_bit(Bit::Accessed);
    assert!(entry.bit(Bit::Accessed));
    entry.unset_bit(Bit::Accessed);

    entry.set_bit(Bit::Dirty);
    assert!(entry.bit(Bit::Dirty));
    entry.unset_bit(Bit::Dirty);

    entry.set_bit(Bit::Huge);
    assert!(entry.bit(Bit::Huge));
    entry.unset_bit(Bit::Huge);

    entry.set_bit(Bit::Global);
    assert!(entry.bit(Bit::Global));
    entry.unset_bit(Bit::Global);

    entry.set_bit(Bit::Noexec);
    assert!(entry.bit(Bit::Noexec));
    entry.unset_bit(Bit::Noexec);
}

#[test]
fn flag_round_trip_keeps_other_fields() {
    for &b in ALL_BITS.iter() {
        let mut entry = Entry::new();
        entry.set_address(PhysicalAddress::new(0x0000_1234_5678_9000));
        entry.set_avail(5);
        entry.set_bit(Bit::Writable).set_bit(Bit::Noexec);
        let before: Vec<bool> = ALL_BITS.iter().map(|&o| entry.bit(o)).collect();

        entry.set_bit(b);
        assert!(entry.bit(b));
        entry.unset_bit(b);
        assert!(!entry.bit(b));

        assert_eq!(entry.address().as_u64(), 0x0000_1234_5678_9000);
        assert_eq!(entry.avail(), 5);
        for (i, &o) in ALL_BITS.iter().enumerate() {
            if o != b {
                assert_eq!(entry.bit(o), before[i]);
            }
        }
    }
}

#[test]
fn flag_positions_in_word() {
    let mut entry = Entry::new();
    entry.set_bit(Bit::Noexec);
    assert_eq!(entry.address().as_u64(), 0);
    assert_eq!(entry.avail(), 0);
    entry.set_bit(Bit::Huge);
    assert!(entry.bit(Bit::Huge));
    assert!(!entry.bit(Bit::Global));
    entry.clear();
    for &b in ALL_BITS.iter() {
        assert!(!entry.bit(b));
    }
}

#[test]
fn address_round_trip_keeps_flags() {
    let mut entry = Entry::new();
    entry.set_bit(Bit::Present).set_bit(Bit::Noexec).set_avail(3);
    entry.set_address(PhysicalAddress::new(0x000f_ffff_ffff_f000));
    assert_eq!(entry.address().as_u64(), 0x000f_ffff_ffff_f000);
    entry.set_address(PhysicalAddress::new(0x2000));
    assert_eq!(entry.address().as_u64(), 0x2000);
    assert!(entry.bit(Bit::Present));
    assert!(entry.bit(Bit::Noexec));
    assert_eq!(entry.avail(), 3);
}

#[test]
fn avail_keeps_address_and_flags() {
    let mut entry = Entry::new();
    entry.set_address(PhysicalAddress::new(0x7000)).set_bit(Bit::Global);
    entry.set_avail(6);
    assert_eq!(entry.avail(), 6);
    assert_eq!(entry.address().as_u64(), 0x7000);
    assert!(entry.bit(Bit::Global));
    assert!(!entry.bit(Bit::Huge));
}

#[test]
fn page_table_new_and_clear() {
    let mut table = PageTable::new();
    for e in table.entries.iter() {
        assert_eq!(e.address().as_u64(), 0);
        assert!(!e.bit(Bit::Present));
    }
    table.entries[511].set_bit(Bit::Present).set_address(PhysicalAddress::new(0x5000));
    table.entries[0].set_avail(7);
    table.clear();
    for e in table.entries.iter() {
        assert_eq!(e.address().as_u64(), 0);
        assert_eq!(e.avail(), 0);
        assert!(!e.bit(Bit::Present));
    }
}
