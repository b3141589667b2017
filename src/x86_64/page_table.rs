use vstd::prelude::*;

use crate::types::PhysicalAddress;

verus! {

/// Bits 12 to 51 of an entry: the physical frame it refers to.
pub const ADDRESS_MASK: u64 = 0x000f_ffff_ffff_f000;

/// Bits 9 to 11 of an entry: left to the operating system.
pub const AVAIL_MASK: u64 = 0x0e00;

/// Number of entries in one table.
pub const TABLE_ENTRIES: usize = 512;

/// Defines a mapping from virtual to physical address space.
pub struct PageTable {
    pub entries: [Entry; 512],
}

/// Page table entry: one 64-bit word in the hardware format.
#[derive(Debug, Clone, Copy)]
pub struct Entry {
    entry: u64,
}

/// Properties of a page table entry, each a single bit of the word.
#[derive(Debug, Clone, Copy, PartialEq, Eq, Structural)]
pub enum Bit {
    Present,
    Writable,
    User,
    Direct,
    Nocache,
    Accessed,
    Dirty,
    Huge,
    Global,
    Noexec,
}

impl Bit {
    /// Position of the bit in the entry word.
    pub open spec fn spec_position(self) -> u64 {
        match self {
            Bit::Present => 0,
            Bit::Writable => 1,
            Bit::User => 2,
            Bit::Direct => 3,
            Bit::Nocache => 4,
            Bit::Accessed => 5,
            Bit::Dirty => 6,
            Bit::Huge => 7,
            Bit::Global => 8,
            Bit::Noexec => 63,
        }
    }

    /// Position of the bit in the entry word.
    pub fn position(self) -> (r: u64)
        ensures
            r == self.spec_position(),
    {
        match self {
            Bit::Present => 0,
            Bit::Writable => 1,
            Bit::User => 2,
            Bit::Direct => 3,
            Bit::Nocache => 4,
            Bit::Accessed => 5,
            Bit::Dirty => 6,
            Bit::Huge => 7,
            Bit::Global => 8,
            Bit::Noexec => 63,
        }
    }
}

/// The one-bit mask of a flag.
pub open spec fn flag_mask(b: Bit) -> u64 {
    1u64 << b.spec_position()
}

/// The frame address held in an entry word.
pub open spec fn word_address(w: u64) -> u64 {
    w & ADDRESS_MASK
}

/// The operating system's three bits of an entry word.
pub open spec fn word_avail(w: u64) -> u64 {
    (w & AVAIL_MASK) >> 9
}

/// Whether a flag is set in an entry word.
pub open spec fn word_flag(w: u64, b: Bit) -> bool {
    w & flag_mask(b) != 0
}

/// The word with its frame address replaced by `a`.
pub open spec fn with_address(w: u64, a: u64) -> u64 {
    (w & !ADDRESS_MASK) | a
}

/// The word with its operating system bits replaced by `v`.
pub open spec fn with_avail(w: u64, v: u64) -> u64 {
    (w & !AVAIL_MASK) | (v << 9)
}

/// The word with one flag set or cleared.
pub open spec fn with_flag(w: u64, b: Bit, on: bool) -> u64 {
    if on {
        w | flag_mask(b)
    } else {
        w & !flag_mask(b)
    }
}

/// An address that an entry can hold: frame-aligned and inside the 52-bit
/// physical address space, so that it has no bit outside the address field.
pub open spec fn valid_frame_address(a: u64) -> bool {
    a % 0x1000 == 0 && a <= ADDRESS_MASK
}

impl View for Entry {
    type V = u64;

    closed spec fn view(&self) -> u64 {
        self.entry
    }
}

impl PageTable {
    /// The entry words of the table, in slot order.
    pub open spec fn words(&self) -> Seq<u64> {
        Seq::new(512, |i: int| self.entries[i]@)
    }

    /// Create a new page table with every entry zero.
    pub fn new() -> (r: Self)
        ensures
            r.words() == Seq::new(512, |i: int| 0u64),
    {
        let t = PageTable { entries: [Entry::new(); 512] };
        assert(t.words() =~= Seq::new(512, |i: int| 0u64));
        t
    }

    /// Set every entry of the table to zero.
    pub fn clear(&mut self)
        ensures
            final(self).words() == Seq::new(512, |i: int| 0u64),
    {
        let mut i: usize = 0;
        while i < TABLE_ENTRIES
            invariant
                i <= 512,
                forall|j: int| 0 <= j < i ==> self.entries[j]@ == 0,
            decreases 512 - i,
        {
            self.entries[i] = Entry::new();
            i = i + 1;
        }
        assert(self.words() =~= Seq::new(512, |i: int| 0u64));
    }
}

impl Entry {
    /// Create a new page table entry, all zero.
    pub fn new() -> (r: Self)
        ensures
            r@ == 0,
    {
        Entry { entry: 0 }
    }

    /// Read the entry word.
    fn read(&self) -> (r: u64)
        ensures
            r == self@,
    {
        self.entry
    }

    /// Write the entry word.
    fn write(&mut self, entry: u64)
        ensures
            final(self)@ == entry,
    {
        self.entry = entry;
    }

    /// Set the entry to zero, which marks it absent.
    pub fn clear(&mut self)
        ensures
            final(self)@ == 0,
    {
        self.write(0);
    }

    /// Physical memory address referenced by this entry.
    pub fn address(&self) -> (r: PhysicalAddress)
        ensures
            r@ == word_address(self@),
    {
        PhysicalAddress::new(self.read() & ADDRESS_MASK)
    }

    /// Set the physical memory address of this entry, keeping every other field.
    pub fn set_address(&mut self, address: PhysicalAddress) -> (r: &mut Self)
        requires
            valid_frame_address(address@),
        ensures
            r@ == with_address(old(self)@, address@),
            *final(self) == *final(r),
    {
        let w = self.read();
        self.write((w & !ADDRESS_MASK) | address.as_u64());
        self
    }

    /// Bits available to the operating system.
    pub fn avail(&self) -> (r: u8)
        ensures
            r as u64 == word_avail(self@),
            r <= 7,
    {
        let w = self.read();
        assert((w & AVAIL_MASK) >> 9 <= 7) by (bit_vector);
        ((w & AVAIL_MASK) >> 9) as u8
    }

    /// Set the bits available to the operating system, keeping every other field.
    pub fn set_avail(&mut self, val: u8) -> (r: &mut Self)
        requires
            val <= 7,
        ensures
            r@ == with_avail(old(self)@, val as u64),
            *final(self) == *final(r),
    {
        let w = self.read();
        self.write((w & !AVAIL_MASK) | ((val as u64) << 9));
        self
    }

    /// Whether a certain bit is set.
    pub fn bit(&self, bit: Bit) -> (r: bool)
        ensures
            r == word_flag(self@, bit),
    {
        (self.read() & (1u64 << bit.position())) != 0
    }

    /// Set or clear a bit.
    fn modify_bit(&mut self, bit: Bit, val: bool)
        ensures
            final(self)@ == with_flag(old(self)@, bit, val),
    {
        let w = self.read();
        let mask = 1u64 << bit.position();
        if val {
            self.write(w | mask);
        } else {
            self.write(w & !mask);
        }
    }

    /// Set a bit, keeping every other field.
    pub fn set_bit(&mut self, bit: Bit) -> (r: &mut Self)
        ensures
            r@ == with_flag(old(self)@, bit, true),
            *final(self) == *final(r),
    {
        self.modify_bit(bit, true);
        self
    }

    /// Clear a bit, keeping every other field.
    pub fn unset_bit(&mut self, bit: Bit) -> (r: &mut Self)
        ensures
            r@ == with_flag(old(self)@, bit, false),
            *final(self) == *final(r),
    {
        self.modify_bit(bit, false);
        self
    }
}

/// Facts about single-bit masks at positions that name flags.
proof fn lemma_flag_bits(w: u64, n: u64, m: u64)
    by (bit_vector)
    requires
        n <= 8 || n == 63,
        m < 64,
        n != m,
    ensures
        (w | (1u64 << n)) & (1u64 << n) != 0,
        (w & !(1u64 << n)) & (1u64 << n) == 0,
        ((w | (1u64 << n)) & (1u64 << m) != 0) == (w & (1u64 << m) != 0),
        ((w & !(1u64 << n)) & (1u64 << m) != 0) == (w & (1u64 << m) != 0),
        (w | (1u64 << n)) & ADDRESS_MASK == w & ADDRESS_MASK,
        (w & !(1u64 << n)) & ADDRESS_MASK == w & ADDRESS_MASK,
        ((w | (1u64 << n)) & AVAIL_MASK) >> 9 == (w & AVAIL_MASK) >> 9,
        ((w & !(1u64 << n)) & AVAIL_MASK) >> 9 == (w & AVAIL_MASK) >> 9,
{
}

/// Flag round trip: after `set_bit(b)` the flag `b` reads as set, after
/// `unset_bit(b)` it reads as clear, and neither changes any other flag, the
/// frame address or the operating system bits of the entry.
pub proof fn lemma_flag_round_trip(w: u64, b: Bit)
    ensures
        word_flag(with_flag(w, b, true), b),
        !word_flag(with_flag(w, b, false), b),
        forall|other: Bit, on: bool|
            other != b ==> #[trigger] word_flag(with_flag(w, b, on), other) == word_flag(w, other),
        forall|on: bool| word_address(#[trigger] with_flag(w, b, on)) == word_address(w),
        forall|on: bool| word_avail(#[trigger] with_flag(w, b, on)) == word_avail(w),
{
    let n = b.spec_position();
    lemma_flag_bits(w, n, if n == 0 { 1 } else { 0 });
    assert forall|other: Bit, on: bool|
        other != b implies #[trigger] word_flag(with_flag(w, b, on), other) == word_flag(w, other) by {
        lemma_flag_bits(w, n, other.spec_position());
    }
}

/// Address round trip: after `set_address(a)`, `address()` returns exactly
/// `a`, and every flag and the operating system bits are as before.
pub proof fn lemma_address_round_trip(w: u64, a: u64)
    requires
        valid_frame_address(a),
    ensures
        word_address(with_address(w, a)) == a,
        word_avail(with_address(w, a)) == word_avail(w),
        forall|b: Bit| word_flag(with_address(w, a), b) == word_flag(w, b),
{
    assert(a % 0x1000 == 0 && a <= ADDRESS_MASK ==> ((w & !ADDRESS_MASK) | a) & ADDRESS_MASK == a
        && (((w & !ADDRESS_MASK) | a) & AVAIL_MASK) >> 9 == (w & AVAIL_MASK) >> 9) by (bit_vector);
    assert forall|b: Bit| word_flag(with_address(w, a), b) == word_flag(w, b) by {
        let n = b.spec_position();
        assert((n <= 8 || n == 63) && a % 0x1000 == 0 && a <= ADDRESS_MASK ==> (((w & !ADDRESS_MASK)
            | a) & (1u64 << n) != 0) == (w & (1u64 << n) != 0)) by (bit_vector);
    }
}

} // verus!
