use vstd::prelude::*;

use crate::types::PhysicalAddress;
use crate::x86_64::page_table::{Entry, PageTable, TABLE_ENTRIES};

verus! {

/// Size of a frame, and of a page table.
pub const PAGE_SIZE: u64 = 0x1000;

/// The frames of physical memory that can hold page tables, as the walker
/// reaches them: the frame at physical address `p` is table number
/// `p / PAGE_SIZE`. Every read and write of a table goes through here.
pub struct TableMemory {
    tables: Vec<PageTable>,
}

/// Where an entry lives: the frame of its table and its slot in that table.
#[derive(Debug, Clone, Copy, PartialEq, Eq, Structural)]
pub struct EntryRef {
    pub frame: PhysicalAddress,
    pub index: usize,
}

/// A table of 512 zero words.
pub open spec fn zero_table() -> Seq<u64> {
    Seq::new(512, |i: int| 0u64)
}

/// The table number of a frame address.
pub open spec fn frame_slot(frame: u64) -> int {
    (frame / PAGE_SIZE) as int
}

impl View for TableMemory {
    type V = Seq<Seq<u64>>;

    /// The words of each table, by table number.
    closed spec fn view(&self) -> Seq<Seq<u64>> {
        self.tables@.map_values(|t: PageTable| t.words())
    }
}

impl EntryRef {
    /// Whether the entry lies inside `mem`.
    pub open spec fn within(self, mem: Seq<Seq<u64>>) -> bool {
        frame_slot(self.frame@) < mem.len() && self.index < TABLE_ENTRIES
    }
}

impl TableMemory {
    /// Table number of a frame that the memory holds.
    fn slot(&self, frame: PhysicalAddress) -> (r: usize)
        requires
            frame_slot(frame@) < self@.len(),
        ensures
            r == frame_slot(frame@),
    {
        let n = frame.as_u64() / PAGE_SIZE;
        let len = self.tables.len();
        assert(n < len);
        n as usize
    }

    /// Memory of `frames` frames, each holding a zeroed table.
    pub fn new(frames: usize) -> (r: Self)
        ensures
            r@ == Seq::new(frames as nat, |i: int| zero_table()),
    {
        let mut tables: Vec<PageTable> = Vec::new();
        let mut i: usize = 0;
        while i < frames
            invariant
                i <= frames,
                tables@.len() == i,
                forall|j: int| 0 <= j < i ==> (#[trigger] tables@[j]).words() == zero_table(),
            decreases frames - i,
        {
            tables.push(PageTable::new());
            i = i + 1;
        }
        let r = TableMemory { tables };
        assert(r@ =~= Seq::new(frames as nat, |i: int| zero_table()));
        r
    }

    /// Every table holds 512 words.
    pub proof fn lemma_table_sizes(&self)
        ensures
            forall|t: int| 0 <= t < self@.len() ==> (#[trigger] self@[t]).len() == 512,
    {
    }

    /// Number of frames.
    pub fn frames(&self) -> (r: usize)
        ensures
            r == self@.len(),
    {
        self.tables.len()
    }

    /// The table held in a frame.
    pub fn table(&self, frame: PhysicalAddress) -> (r: &PageTable)
        requires
            frame_slot(frame@) < self@.len(),
        ensures
            r.words() == self@[frame_slot(frame@)],
    {
        &self.tables[self.slot(frame)]
    }

    /// Read one entry.
    pub fn read_entry(&self, at: EntryRef) -> (r: Entry)
        requires
            at.within(self@),
        ensures
            r@ == self@[frame_slot(at.frame@)][at.index as int],
    {
        self.tables[self.slot(at.frame)].entries[at.index]
    }

    /// Write one entry, leaving every other word as it was.
    pub fn write_entry(&mut self, at: EntryRef, e: Entry)
        requires
            at.within(old(self)@),
        ensures
            final(self)@ == old(self)@.update(
                frame_slot(at.frame@),
                old(self)@[frame_slot(at.frame@)].update(at.index as int, e@),
            ),
            final(self)@[frame_slot(at.frame@)][at.index as int] == e@,
    {
        let slot = self.slot(at.frame);
        self.tables[slot].entries[at.index] = e;
        assert(self.tables@[slot as int].words() =~= old(self)@[frame_slot(at.frame@)].update(
            at.index as int,
            e@,
        ));
        assert(self@ =~= old(self)@.update(
            frame_slot(at.frame@),
            old(self)@[frame_slot(at.frame@)].update(at.index as int, e@),
        ));
    }

    /// Zero the table held in a frame.
    pub fn clear_table(&mut self, frame: PhysicalAddress)
        requires
            frame_slot(frame@) < old(self)@.len(),
        ensures
            final(self)@ == old(self)@.update(frame_slot(frame@), zero_table()),
    {
        let slot = self.slot(frame);
        self.tables[slot].clear();
        assert(self.tables@[slot as int].words() =~= zero_table());
        assert(self@ =~= old(self)@.update(frame_slot(frame@), zero_table()));
    }
}

} // verus!
