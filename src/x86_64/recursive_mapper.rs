use vstd::prelude::*;

use crate::result::Error;
use crate::Mapper;
use crate::types::{lemma_physical_address_eq, PhysicalAddress, VirtualAddress};
use crate::x86_64::page_table::{
    lemma_address_round_trip, lemma_flag_round_trip, valid_frame_address, with_address, with_flag,
    word_address, word_flag, Bit, ADDRESS_MASK,
};
use crate::x86_64::table_memory::{frame_slot, zero_table, EntryRef, TableMemory, PAGE_SIZE};

verus! {

/// Bytes covered by one entry of a level-1 table.
pub const PT1_SPAN: u64 = 0x1000;

/// Bytes covered by one entry of a level-2 table.
pub const PT2_SPAN: u64 = 0x20_0000;

/// Bytes covered by one entry of a level-3 table.
pub const PT3_SPAN: u64 = 0x4000_0000;

/// Bytes covered by one entry of a level-4 table.
pub const PT4_SPAN: u64 = 0x80_0000_0000;

/// The sign-extension bits of a virtual address, which play no part in indexing.
pub const CANONICAL_MASK: u64 = 0xffff_0000_0000_0000;

/// Source of fresh physical frames for new tables.
pub trait FrameAllocator {
    /// Hand out one free frame, or fail with `Error::NoMemory`.
    fn alloc_frame(&mut self) -> (r: Result<PhysicalAddress, Error>)
        ensures
            r matches Ok(f) ==> valid_frame_address(f@),
            r matches Err(e) ==> e == Error::NoMemory,
    ;
}

/// Bytes covered by one entry of a table at `level`: the page size times
/// 512 to the power `level - 1`.
pub open spec fn span(level: int) -> int {
    if level <= 1 {
        0x1000
    } else if level == 2 {
        0x20_0000
    } else if level == 3 {
        0x4000_0000
    } else {
        0x80_0000_0000
    }
}

/// A request that the walker serves: a level from 1 to 4 and an address
/// aligned to what one entry of that level covers.
pub open spec fn valid_request(va: u64, level: int) -> bool {
    1 <= level <= 4 && va % (span(level) as u64) == 0
}

/// The address with its sign-extension bits cleared.
pub open spec fn canonical_cleared(va: u64) -> int {
    va as int % 0x1_0000_0000_0000
}

/// Slot of the entry for `va` in a table at `level`.
pub open spec fn table_index(va: u64, level: int) -> int {
    (canonical_cleared(va) % (span(level) * 512)) / span(level)
}

/// An entry that the walker descends through: present and not a huge page.
pub open spec fn leads_down(w: u64) -> bool {
    word_flag(w, Bit::Present) && !word_flag(w, Bit::Huge)
}

/// Table number of the table at `level` on the path of `va`, starting at the
/// root table `root`.
pub open spec fn path_table(mem: Seq<Seq<u64>>, root: int, va: u64, level: int) -> int
    decreases 4 - level,
{
    if level >= 4 {
        root
    } else {
        let above = path_table(mem, root, va, level + 1);
        frame_slot(word_address(mem[above][table_index(va, level + 1)]))
    }
}

/// The entry for `va` in the table at `level` on its path.
pub open spec fn path_word(mem: Seq<Seq<u64>>, root: int, va: u64, level: int) -> u64 {
    mem[path_table(mem, root, va, level)][table_index(va, level)]
}

/// Whether the path of `va` leads down from the root to the table at `level`
/// through existing sub-tables only.
pub open spec fn path_reaches(mem: Seq<Seq<u64>>, root: int, va: u64, level: int) -> bool
    decreases 4 - level,
{
    if level >= 4 {
        true
    } else {
        path_reaches(mem, root, va, level + 1) && leads_down(path_word(mem, root, va, level + 1))
    }
}

/// Whether the path of `va`, on its way down to `level`, meets a huge-page
/// mapping where a sub-table is expected.
pub open spec fn path_blocked(mem: Seq<Seq<u64>>, root: int, va: u64, level: int) -> bool
    decreases 4 - level,
{
    if level >= 4 {
        false
    } else {
        path_blocked(mem, root, va, level + 1) || (path_reaches(mem, root, va, level + 1)
            && word_flag(path_word(mem, root, va, level + 1), Bit::Present) && word_flag(
            path_word(mem, root, va, level + 1),
            Bit::Huge,
        ))
    }
}

/// Whether every table that the path of `va` reaches, down to `level`, lies in `mem`.
pub open spec fn path_in_memory(mem: Seq<Seq<u64>>, root: int, va: u64, level: int) -> bool
    decreases 4 - level,
{
    if level >= 4 {
        0 <= root < mem.len()
    } else {
        path_in_memory(mem, root, va, level + 1) && (path_reaches(mem, root, va, level) ==> 0
            <= path_table(mem, root, va, level) < mem.len())
    }
}

/// Walks the four-level table tree held in a `TableMemory`, creating missing
/// sub-tables with frames from its allocator.
pub struct RecursiveMapper<A: FrameAllocator> {
    pt4: PhysicalAddress,
    memory: TableMemory,
    alloc_frame: A,
    frames_taken: Ghost<nat>,
}

impl<A: FrameAllocator> RecursiveMapper<A> {
    /// Table number of the root table.
    pub closed spec fn root(&self) -> int {
        frame_slot(self.pt4@)
    }

    /// The words of every table in memory.
    pub closed spec fn tables(&self) -> Seq<Seq<u64>> {
        self.memory@
    }

    /// The frame allocator.
    pub closed spec fn allocator(&self) -> A {
        self.alloc_frame
    }

    /// How many frames the allocator has handed to this mapper.
    pub closed spec fn frames_taken(&self) -> nat {
        self.frames_taken@
    }

    /// The root table is a frame-aligned frame of the memory.
    pub closed spec fn wf(&self) -> bool {
        self.pt4@ % PAGE_SIZE == 0 && frame_slot(self.pt4@) < self.memory@.len()
    }
}

/// The path down to `level` reaches that table, or stops above it for good.
proof fn lemma_path_levels(mem: Seq<Seq<u64>>, root: int, va: u64, level: int, k: int)
    requires
        1 <= level <= k <= 4,
    ensures
        path_reaches(mem, root, va, level) ==> path_reaches(mem, root, va, k),
        path_in_memory(mem, root, va, level) ==> path_in_memory(mem, root, va, k),
        path_blocked(mem, root, va, k) ==> path_blocked(mem, root, va, level),
        !path_reaches(mem, root, va, k) ==> path_blocked(mem, root, va, level) == path_blocked(
            mem,
            root,
            va,
            k,
        ),
    decreases k - level,
{
    if level < k {
        lemma_path_levels(mem, root, va, level + 1, k);
    }
}

/// The word of the entry at `at`.
pub open spec fn word_at(mem: Seq<Seq<u64>>, at: EntryRef) -> u64 {
    mem[frame_slot(at.frame@)][at.index as int]
}

/// How many tables a walk to `level` has to create: one for each level
/// below the first entry on the path that does not lead down.
pub open spec fn tables_needed(mem: Seq<Seq<u64>>, root: int, va: u64, level: int) -> nat
    decreases 4 - level,
{
    if level >= 4 || path_reaches(mem, root, va, level) {
        0
    } else {
        tables_needed(mem, root, va, level + 1) + 1
    }
}

/// The lowest level, from `level` up, that the path of `va` reaches: below
/// it the walk has to create tables.
pub open spec fn reach_level(mem: Seq<Seq<u64>>, root: int, va: u64, level: int) -> int
    decreases 4 - level,
{
    if level >= 4 || path_reaches(mem, root, va, level) {
        level
    } else {
        reach_level(mem, root, va, level + 1)
    }
}

proof fn lemma_reach_level(mem: Seq<Seq<u64>>, root: int, va: u64, level: int)
    requires
        1 <= level <= 4,
    ensures
        level <= reach_level(mem, root, va, level) <= 4,
        path_reaches(mem, root, va, reach_level(mem, root, va, level)),
        forall|k: int|
            level <= k < reach_level(mem, root, va, level) ==> !#[trigger] path_reaches(
                mem,
                root,
                va,
                k,
            ),
    decreases 4 - level,
{
    if level < 4 && !path_reaches(mem, root, va, level) {
        lemma_reach_level(mem, root, va, level + 1);
    }
}

/// Below the first level where the path stops, the count of tables needed
/// is that of that level plus one for each level further down.
proof fn lemma_below_stop(mem: Seq<Seq<u64>>, root: int, va: u64, level: int, k: int)
    requires
        1 <= level <= k < 4,
        !path_reaches(mem, root, va, k),
    ensures
        tables_needed(mem, root, va, level) == tables_needed(mem, root, va, k) + (k - level),
        !path_reaches(mem, root, va, level),
    decreases k - level,
{
    if level < k {
        lemma_below_stop(mem, root, va, level + 1, k);
    }
}

/// The path down to `l` depends only on the words it passes through.
proof fn lemma_path_unchanged(mem: Seq<Seq<u64>>, mem2: Seq<Seq<u64>>, root: int, va: u64, l: int)
    requires
        1 <= l <= 4,
        forall|j: int|
            l < j <= 4 ==> mem2[path_table(mem, root, va, j)][table_index(va, j)] == #[trigger] mem[path_table(
                mem,
                root,
                va,
                j,
            )][table_index(va, j)],
    ensures
        path_table(mem2, root, va, l) == path_table(mem, root, va, l),
        path_reaches(mem2, root, va, l) == path_reaches(mem, root, va, l),
        forall|k: int|
            l <= k <= 4 ==> #[trigger] path_table(mem2, root, va, k) == path_table(mem, root, va, k),
    decreases 4 - l,
{
    if l < 4 {
        lemma_path_unchanged(mem, mem2, root, va, l + 1);
        assert(mem2[path_table(mem, root, va, l + 1)][table_index(va, l + 1)] == mem[path_table(
            mem,
            root,
            va,
            l + 1,
        )][table_index(va, l + 1)]);
    }
}

/// Distinct frame-aligned addresses are distinct frames.
proof fn lemma_slots_differ(a: u64, b: u64)
    requires
        a % PAGE_SIZE == 0,
        b % PAGE_SIZE == 0,
        a != b,
    ensures
        frame_slot(a) != frame_slot(b),
{
    assert(a % 0x1000 == 0 && b % 0x1000 == 0 && a != b ==> a / 0x1000 != b / 0x1000) by (bit_vector);
}

/// The word that links an absent entry `w` to the new table at `frame`. Any
/// huge-page bit left in the absent entry is cleared, since the link leads to
/// a table and not to a huge page.
pub open spec fn link_word(w: u64, frame: u64) -> u64 {
    with_flag(
        with_flag(
            with_flag(with_flag(with_address(w, frame), Bit::Huge, false), Bit::Present, true),
            Bit::Writable,
            true,
        ),
        Bit::User,
        true,
    )
}

proof fn lemma_link_word(w: u64, frame: u64)
    requires
        valid_frame_address(frame),
    ensures
        leads_down(link_word(w, frame)),
        word_address(link_word(w, frame)) == frame,
{
    let w0 = with_address(w, frame);
    let w1 = with_flag(w0, Bit::Huge, false);
    let w2 = with_flag(w1, Bit::Present, true);
    let w3 = with_flag(w2, Bit::Writable, true);
    lemma_address_round_trip(w, frame);
    lemma_flag_round_trip(w0, Bit::Huge);
    lemma_flag_round_trip(w1, Bit::Present);
    lemma_flag_round_trip(w2, Bit::Writable);
    lemma_flag_round_trip(w3, Bit::User);
    assert(word_flag(w3, Bit::Present));
}

/// `span` for an executable level.
fn span_of(level: u8) -> (r: u64)
    requires
        1 <= level <= 4,
    ensures
        r == span(level as int),
{
    if level == 1 {
        PT1_SPAN
    } else if level == 2 {
        PT2_SPAN
    } else if level == 3 {
        PT3_SPAN
    } else {
        PT4_SPAN
    }
}

/// Slot of the entry for `va` in a table at `level`.
fn index_at(va: u64, level: u8) -> (r: usize)
    requires
        1 <= level <= 4,
    ensures
        r == table_index(va, level as int),
        r < 512,
{
    let cleared = va & !CANONICAL_MASK;
    assert(va & !0xffff_0000_0000_0000u64 == va % 0x1_0000_0000_0000) by (bit_vector);
    let s = span_of(level);
    let m = s * 512;
    let x = cleared % m;
    let r = x / s;
    assert(r < 512) by (nonlinear_arith)
        requires
            x < m,
            m == s * 512,
            s > 0,
            r == x / s,
    ;
    r as usize
}

impl<A: FrameAllocator> RecursiveMapper<A> {
    /// Create a mapper over `memory` whose root table is the frame at `pt4`.
    pub fn new(pt4: PhysicalAddress, memory: TableMemory, alloc_frame: A) -> (r: Self)
        requires
            pt4@ % PAGE_SIZE == 0,
            frame_slot(pt4@) < memory@.len(),
        ensures
            r.wf(),
            r.root() == frame_slot(pt4@),
            r.tables() == memory@,
            r.allocator() == alloc_frame,
            r.frames_taken() == 0,
    {
        RecursiveMapper { pt4, memory, alloc_frame, frames_taken: Ghost(0) }
    }

    /// The memory that holds the tables.
    pub fn memory(&self) -> (r: &TableMemory)
        ensures
            r@ == self.tables(),
    {
        &self.memory
    }

    /// The memory that holds the tables, for changing entries in place.
    pub fn memory_mut(&mut self) -> (r: &mut TableMemory)
        ensures
            r@ == old(self).tables(),
            final(self).tables() == final(r)@,
            final(self).root() == old(self).root(),
            final(self).allocator() == old(self).allocator(),
            final(self).frames_taken() == old(self).frames_taken(),
            old(self).wf() && final(r)@.len() == old(self).tables().len() ==> final(self).wf(),
    {
        &mut self.memory
    }

    /// The frame allocator.
    pub fn frame_allocator(&self) -> (r: &A)
        ensures
            *r == self.allocator(),
    {
        &self.alloc_frame
    }
}

/// Whether `frame` is one of `visited`.
fn frame_in_use(visited: &Vec<PhysicalAddress>, frame: PhysicalAddress) -> (r: bool)
    ensures
        r == exists|j: int| 0 <= j < visited@.len() && (#[trigger] visited@[j])@ == frame@,
{
    let mut i: usize = 0;
    while i < visited.len()
        invariant
            i <= visited@.len(),
            forall|j: int| 0 <= j < i ==> (#[trigger] visited@[j])@ != frame@,
        decreases visited@.len() - i,
    {
        if visited[i].as_u64() == frame.as_u64() {
            return true;
        }
        i = i + 1;
    }
    false
}

/// The frame that the entry at `at` refers to.
pub open spec fn linked_frame(mem: Seq<Seq<u64>>, at: EntryRef) -> u64 {
    word_address(word_at(mem, at))
}

impl<A: FrameAllocator> RecursiveMapper<A> {
    /// Link the frame that the allocator handed out, `alloc`, into the absent
    /// entry at `at`: zero the table it holds, then point the entry at it as
    /// present, writable and user-accessible. A frame that the memory does not
    /// hold, or one of the tables in `visited` that the walk has passed
    /// through (the last of them the one holding `at`), is no fresh table and
    /// gives `Error::NoMemory`. An allocator error is handed back as it is.
    fn link_frame(
        &mut self,
        at: EntryRef,
        visited: &Vec<PhysicalAddress>,
        alloc: Result<PhysicalAddress, Error>,
    ) -> (r: Result<(), Error>)
        requires
            old(self).wf(),
            at.within(old(self).tables()),
            at.frame@ % PAGE_SIZE == 0,
            !word_flag(word_at(old(self).tables(), at), Bit::Present),
            visited@.len() > 0,
            visited@.last() == at.frame,
            forall|j: int| 0 <= j < visited@.len() ==> (#[trigger] visited@[j])@ % PAGE_SIZE == 0,
            alloc matches Ok(f) ==> valid_frame_address(f@),
        ensures
            final(self).wf(),
            final(self).root() == old(self).root(),
            final(self).allocator() == old(self).allocator(),
            final(self).frames_taken() == old(self).frames_taken(),
            final(self).tables().len() == old(self).tables().len(),
            alloc matches Err(e) ==> r == Err::<(), Error>(e),
            alloc matches Ok(f) ==> (r is Ok <==> frame_slot(f@) < old(self).tables().len() && forall|
                j: int,
            |
                0 <= j < visited@.len() ==> (#[trigger] visited@[j])@ != f@),
            alloc matches Ok(f) ==> (r matches Err(e) ==> e == Error::NoMemory),
            r is Err ==> final(self).tables() == old(self).tables(),
            alloc matches Ok(f) ==> (r is Ok ==> {
                &&& frame_slot(f@) != frame_slot(at.frame@)
                &&& linked_frame(final(self).tables(), at) == f@
                &&& word_at(final(self).tables(), at) == link_word(word_at(old(self).tables(), at), f@)
                &&& final(self).tables() == old(self).tables().update(frame_slot(f@), zero_table()).update(
                    frame_slot(at.frame@),
                    old(self).tables()[frame_slot(at.frame@)].update(
                        at.index as int,
                        link_word(word_at(old(self).tables(), at), f@),
                    ),
                )
            }),
    {
        let frame = match alloc {
            Ok(f) => f,
            Err(e) => {
                return Err(e);
            },
        };
        if frame.as_u64() / PAGE_SIZE >= self.memory.frames() as u64 || frame_in_use(visited, frame) {
            return Err(Error::NoMemory);
        }
        proof {
            let last = (visited@.len() - 1) as int;
            assert(visited@[last]@ != frame@);
            lemma_slots_differ(frame@, at.frame@);
        }
        self.memory.clear_table(frame);
        let mut entry = self.memory.read_entry(at);
        entry.set_address(frame);

        // The entry leads to a table now, not to a huge page.
        entry.unset_bit(Bit::Huge);

        // Mark table present.
        entry.set_bit(Bit::Present);

        // Set writable and user bit. If we didn't set these bits
        // the user wouldn't be able to.
        entry.set_bit(Bit::Writable);
        entry.set_bit(Bit::User);
        self.memory.write_entry(at, entry);
        proof {
            lemma_link_word(word_at(old(self).tables(), at), frame@);
            assert(word_at(self.memory@, at) == entry@);
            assert(self.memory@ =~= old(self).tables().update(frame_slot(frame@), zero_table()).update(
                frame_slot(at.frame@),
                old(self).tables()[frame_slot(at.frame@)].update(
                    at.index as int,
                    link_word(word_at(old(self).tables(), at), frame@),
                ),
            ));
        }
        Ok(())
    }

    /// Make sure the entry at `at` leads to a sub-table: link a fresh zeroed
    /// table into it when it is absent, and refuse a huge-page entry.
    fn ensure_subtable(&mut self, at: EntryRef, visited: &Vec<PhysicalAddress>) -> (r: Result<
        (),
        Error,
    >)
        requires
            old(self).wf(),
            at.within(old(self).tables()),
            at.frame@ % PAGE_SIZE == 0,
            visited@.len() > 0,
            visited@.last() == at.frame,
            forall|j: int| 0 <= j < visited@.len() ==> (#[trigger] visited@[j])@ % PAGE_SIZE == 0,
        ensures
            final(self).wf(),
            final(self).root() == old(self).root(),
            final(self).tables().len() == old(self).tables().len(),
            leads_down(word_at(old(self).tables(), at)) ==> r == Ok::<(), Error>(())
                && final(self).tables() == old(self).tables() && final(self).allocator() == old(
                self,
            ).allocator() && final(self).frames_taken() == old(self).frames_taken(),
            word_flag(word_at(old(self).tables(), at), Bit::Present) && word_flag(
                word_at(old(self).tables(), at),
                Bit::Huge,
            ) ==> r == Err::<(), Error>(Error::Overlap) && final(self).tables() == old(self).tables()
                && final(self).allocator() == old(self).allocator() && final(self).frames_taken()
                == old(self).frames_taken(),
            !word_flag(word_at(old(self).tables(), at), Bit::Present) ==> (r matches Err(e) ==> e
                == Error::NoMemory),
            !word_flag(word_at(old(self).tables(), at), Bit::Present) && r is Err
                ==> final(self).tables() == old(self).tables(),
            !word_flag(word_at(old(self).tables(), at), Bit::Present) && r is Ok ==> ({
                let f = linked_frame(final(self).tables(), at);
                &&& f % PAGE_SIZE == 0
                &&& frame_slot(f) < final(self).tables().len()
                &&& frame_slot(f) != frame_slot(at.frame@)
                &&& forall|j: int| 0 <= j < visited@.len() ==> (#[trigger] visited@[j])@ != f
                &&& final(self).tables() == old(self).tables().update(frame_slot(f), zero_table()).update(
                    frame_slot(at.frame@),
                    old(self).tables()[frame_slot(at.frame@)].update(
                        at.index as int,
                        link_word(word_at(old(self).tables(), at), f),
                    ),
                )
                &&& final(self).frames_taken() == old(self).frames_taken() + 1
                &&& word_at(final(self).tables(), at) == link_word(word_at(old(self).tables(), at), f)
                &&& leads_down(link_word(word_at(old(self).tables(), at), f))
            }),
    {
        let entry = self.memory.read_entry(at);
        if !entry.bit(Bit::Present) {
            let alloc = self.alloc_frame.alloc_frame();
            if alloc.is_ok() {
                self.frames_taken = Ghost(self.frames_taken@ + 1);
            }
            let r = self.link_frame(at, visited, alloc);
            proof {
                if r is Ok {
                    let f = alloc->Ok_0;
                    lemma_link_word(word_at(old(self).tables(), at), f@);
                }
            }
            r
        } else if entry.bit(Bit::Huge) {
            Err(Error::Overlap)
        } else {
            Ok(())
        }
    }

    /// Make sure the entry at `at` leads to a sub-table, and hand back that
    /// sub-table's frame.
    fn descend_entry(&mut self, at: EntryRef, visited: &Vec<PhysicalAddress>) -> (r: Result<
        PhysicalAddress,
        Error,
    >)
        requires
            old(self).wf(),
            at.within(old(self).tables()),
            at.frame@ % PAGE_SIZE == 0,
            visited@.len() > 0,
            visited@.last() == at.frame,
            forall|j: int| 0 <= j < visited@.len() ==> (#[trigger] visited@[j])@ % PAGE_SIZE == 0,
        ensures
            final(self).wf(),
            final(self).root() == old(self).root(),
            final(self).tables().len() == old(self).tables().len(),
            r matches Ok(f) ==> f@ == linked_frame(final(self).tables(), at) && f@ % PAGE_SIZE == 0,
            leads_down(word_at(old(self).tables(), at)) ==> r is Ok && final(self).tables() == old(
                self,
            ).tables() && final(self).allocator() == old(self).allocator()
                && final(self).frames_taken() == old(self).frames_taken(),
            word_flag(word_at(old(self).tables(), at), Bit::Present) && word_flag(
                word_at(old(self).tables(), at),
                Bit::Huge,
            ) ==> r == Err::<PhysicalAddress, Error>(Error::Overlap) && final(self).tables() == old(
                self,
            ).tables() && final(self).allocator() == old(self).allocator()
                && final(self).frames_taken() == old(self).frames_taken(),
            !word_flag(word_at(old(self).tables(), at), Bit::Present) ==> (r matches Err(e) ==> e
                == Error::NoMemory),
            !word_flag(word_at(old(self).tables(), at), Bit::Present) ==> (r matches Ok(f) ==> ({
                &&& frame_slot(f@) < final(self).tables().len()
                &&& frame_slot(f@) != frame_slot(at.frame@)
                &&& forall|j: int| 0 <= j < visited@.len() ==> (#[trigger] visited@[j])@ != f@
                &&& final(self).tables() == old(self).tables().update(frame_slot(f@), zero_table()).update(
                    frame_slot(at.frame@),
                    old(self).tables()[frame_slot(at.frame@)].update(
                        at.index as int,
                        link_word(word_at(old(self).tables(), at), f@),
                    ),
                )
                &&& final(self).frames_taken() == old(self).frames_taken() + 1
                &&& word_address(link_word(word_at(old(self).tables(), at), f@)) == f@
                &&& leads_down(link_word(word_at(old(self).tables(), at), f@))
            })),
            !word_flag(word_at(old(self).tables(), at), Bit::Present) && r is Err
                ==> final(self).tables() == old(self).tables(),
    {
        match self.ensure_subtable(at, visited) {
            Ok(()) => {},
            Err(e) => {
                return Err(e);
            },
        }
        let phys_addr = self.memory.read_entry(at).address();
        proof {
            let w = word_at(self.tables(), at);
            assert(w & ADDRESS_MASK == (w & ADDRESS_MASK) / 0x1000 * 0x1000) by (bit_vector);
        }
        Ok(phys_addr)
    }

    /// The entry that controls `virt_addr` at `level` (4 for the root table,
    /// down to 1 for the tables that map single pages). The sign-extension
    /// bits of the address take no part. Missing tables on the way are taken
    /// from the allocator, zeroed, and linked in as present, writable and
    /// user-accessible; a huge-page entry on the way is `Error::Overlap`.
    ///
    /// `Error::NoMemory` comes when the allocator fails, and also when it hands
    /// out a frame that the memory does not hold or that the walk has already
    /// passed through: no such frame can serve as a fresh table. Tables linked
    /// in before the failure stay linked.
    pub fn entry(&mut self, virt_addr: VirtualAddress, level: u8) -> (r: Result<EntryRef, Error>)
        requires
            old(self).wf(),
            valid_request(virt_addr@, level as int),
            path_in_memory(old(self).tables(), old(self).root(), virt_addr@, level as int),
        ensures
            final(self).wf(),
            final(self).root() == old(self).root(),
            final(self).tables().len() == old(self).tables().len(),
            path_reaches(old(self).tables(), old(self).root(), virt_addr@, level as int) ==> (r matches Ok(
                e,
            ) && locates(
                e,
                path_table(old(self).tables(), old(self).root(), virt_addr@, level as int),
                table_index(virt_addr@, level as int),
            )) && final(self).tables() == old(self).tables() && final(self).allocator() == old(
                self,
            ).allocator() && final(self).frames_taken() == old(self).frames_taken(),
            path_blocked(old(self).tables(), old(self).root(), virt_addr@, level as int) ==> r
                == Err::<EntryRef, Error>(Error::Overlap) && final(self).tables() == old(self).tables()
                && final(self).allocator() == old(self).allocator() && final(self).frames_taken()
                == old(self).frames_taken(),
            r matches Ok(e) ==> e.within(final(self).tables()) && e.frame@ % PAGE_SIZE == 0
                && e.index == table_index(virt_addr@, level as int),
            r matches Ok(e) ==> final(self).frames_taken() == old(self).frames_taken()
                + tables_needed(old(self).tables(), old(self).root(), virt_addr@, level as int),
            r matches Ok(e) ==> (tables_needed(
                old(self).tables(),
                old(self).root(),
                virt_addr@,
                level as int,
            ) > 0 ==> final(self).tables()[frame_slot(e.frame@)] == zero_table()),
            r matches Ok(e) ==> path_reaches(
                final(self).tables(),
                final(self).root(),
                virt_addr@,
                level as int,
            ) && locates(
                e,
                path_table(final(self).tables(), final(self).root(), virt_addr@, level as int),
                table_index(virt_addr@, level as int),
            ),
            r is Ok ==> forall|k: int, j: int|
                level <= k < reach_level(old(self).tables(), old(self).root(), virt_addr@, level as int)
                    && 0 <= j < 512 && (k == level || j != table_index(virt_addr@, k))
                    ==> #[trigger] final(self).tables()[path_table(
                    final(self).tables(),
                    final(self).root(),
                    virt_addr@,
                    k,
                )][j] == 0,
            r is Ok || r == Err::<EntryRef, Error>(Error::NoMemory) ==> forall|k: int|
                reach_level(old(self).tables(), old(self).root(), virt_addr@, level as int) <= k
                    <= 4 ==> path_reaches(final(self).tables(), final(self).root(), virt_addr@, k)
                    && #[trigger] path_table(final(self).tables(), final(self).root(), virt_addr@, k)
                    == path_table(old(self).tables(), old(self).root(), virt_addr@, k),
            r == Err::<EntryRef, Error>(Error::Overlap) ==> path_blocked(
                old(self).tables(),
                old(self).root(),
                virt_addr@,
                level as int,
            ),
            r == Err::<EntryRef, Error>(Error::NoMemory) ==> !path_reaches(
                old(self).tables(),
                old(self).root(),
                virt_addr@,
                level as int,
            ) && !path_blocked(old(self).tables(), old(self).root(), virt_addr@, level as int)
                && !path_reaches(final(self).tables(), final(self).root(), virt_addr@, level as int),
    {
        let va = virt_addr.as_u64();
        let ghost tables0 = self.tables();
        let ghost root = self.root();
        let mut frame = self.pt4;
        let mut l: u8 = 4;
        let mut idx = index_at(va, 4);
        proof {
            lemma_reach_level(tables0, root, va, level as int);
        }
        let mut visited: Vec<PhysicalAddress> = Vec::new();
        visited.push(frame);
        let ghost mut touched = false;
        while l > level
            invariant
                1 <= level <= l <= 4,
                self.wf(),
                self.root() == root,
                root == old(self).root(),
                tables0 == old(self).tables(),
                va == virt_addr@,
                self.tables().len() == tables0.len(),
                frame@ % PAGE_SIZE == 0,
                frame_slot(frame@) < self.tables().len(),
                idx == table_index(va, l as int),
                idx < 512,
                path_in_memory(tables0, root, va, level as int),
                visited@.len() == 5 - l,
                visited@.last() == frame,
                forall|j: int| 0 <= j < visited@.len() ==> (#[trigger] visited@[j])@ % PAGE_SIZE == 0,
                forall|j: int|
                    0 <= j < visited@.len() ==> frame_slot((#[trigger] visited@[j])@) < self.tables().len(),
                self.frames_taken() == old(self).frames_taken() + tables_needed(
                    tables0,
                    root,
                    va,
                    l as int,
                ),
                !touched ==> self.tables() == tables0 && self.allocator() == old(self).allocator()
                    && frame_slot(frame@) == path_table(tables0, root, va, l as int)
                    && path_reaches(tables0, root, va, l as int) && !path_blocked(
                    tables0,
                    root,
                    va,
                    l as int,
                ),
                touched ==> !path_reaches(tables0, root, va, l as int) && !path_blocked(
                    tables0,
                    root,
                    va,
                    level as int,
                ) && self.tables()[frame_slot(frame@)] == zero_table(),
                forall|k: int|
                    l <= k <= 4 && reach_level(tables0, root, va, level as int) <= k
                        ==> #[trigger] path_table(self.tables(), root, va, k) == path_table(
                        tables0,
                        root,
                        va,
                        k,
                    ),
                forall|k: int, j: int|
                    l <= k < reach_level(tables0, root, va, level as int) && 0 <= j < 512 && (k
                        == l || j != table_index(va, k)) ==> #[trigger] self.tables()[path_table(
                        self.tables(),
                        root,
                        va,
                        k,
                    )][j] == 0,
                forall|a: int, i: int|
                    #![trigger visited@[a], visited@[i]]
                    0 <= a < visited@.len() && 0 <= i < visited@.len() && i != a && 4 - a
                        < reach_level(tables0, root, va, level as int) ==> visited@[i]@ != visited@[a]@,
                path_reaches(
                    self.tables(),
                    root,
                    va,
                    l as int,
                ) && path_table(self.tables(), root, va, l as int) == frame_slot(frame@) && forall|
                    j: int,
                |
                    0 <= j < visited@.len() ==> frame_slot((#[trigger] visited@[j])@) == path_table(
                        self.tables(),
                        root,
                        va,
                        4 - j,
                    ),
            decreases l,
        {
            let at = EntryRef { frame, index: idx };
            let ghost w = word_at(self.tables(), at);
            let ghost mem = self.tables();
            proof {
                self.memory.lemma_table_sizes();
                lemma_reach_level(tables0, root, va, level as int);
                lemma_path_levels(tables0, root, va, level as int, (l - 1) as int);
                assert(!word_flag(0, Bit::Present)) by (bit_vector);
                assert(!word_flag(0, Bit::Huge)) by (bit_vector);
                if !touched {
                    assert(w == path_word(tables0, root, va, l as int));
                    assert(path_reaches(tables0, root, va, (l - 1) as int) == leads_down(w));
                    assert(path_blocked(tables0, root, va, (l - 1) as int) == (word_flag(
                        w,
                        Bit::Present,
                    ) && word_flag(w, Bit::Huge)));
                } else {
                    assert(w == self.tables()[frame_slot(frame@)][idx as int]);
                    assert(w == 0);
                }
            }
            match self.descend_entry(at, &visited) {
                Ok(f) => {
                    proof {
                        let mem2 = self.tables();
                        self.memory.lemma_table_sizes();
                        if !word_flag(w, Bit::Present) {
                            if !touched {
                                lemma_below_stop(tables0, root, va, level as int, (l - 1) as int);
                            }
                            {
                                assert forall|j: int| l < j <= 4 implies mem2[path_table(
                                    mem,
                                    root,
                                    va,
                                    j,
                                )][table_index(va, j)] == #[trigger] mem[path_table(
                                    mem,
                                    root,
                                    va,
                                    j,
                                )][table_index(va, j)] by {
                                    lemma_path_levels(mem, root, va, l as int, j - 1);
                                    let vj = visited@[4 - j];
                                    lemma_slots_differ(vj@, f@);
                                }
                                lemma_path_unchanged(mem, mem2, root, va, l as int);
                                assert(mem2[frame_slot(frame@)][idx as int] == link_word(w, f@));
                                assert(path_table(mem2, root, va, (l - 1) as int) == frame_slot(f@));
                                let rl = reach_level(tables0, root, va, level as int);
                                assert forall|k: int, j: int|
                                    l - 1 <= k < rl && 0 <= j < 512 && (k == l - 1 || j
                                        != table_index(va, k)) implies #[trigger] mem2[path_table(
                                    mem2,
                                    root,
                                    va,
                                    k,
                                )][j] == 0 by {
                                    if k >= l {
                                        assert(path_table(mem2, root, va, k) == path_table(
                                            mem,
                                            root,
                                            va,
                                            k,
                                        ));
                                        if k > l {
                                            let a = 4 - k;
                                            let i = 4 - l;
                                            assert(visited@[i]@ != visited@[a]@);
                                            lemma_slots_differ(visited@[i]@, visited@[a]@);
                                            lemma_slots_differ(visited@[a]@, f@);
                                        }
                                    }
                                }
                            }
                        }
                        if !touched && !word_flag(w, Bit::Present) {
                            touched = true;
                        }
                    }
                    frame = f;
                },
                Err(e) => {
                    proof {
                        if e == Error::NoMemory {
                            assert(path_word(self.tables(), root, va, l as int) == w);
                            lemma_path_levels(self.tables(), root, va, level as int, (l - 1) as int);
                        }
                    }
                    return Err(e);
                },
            }
            visited.push(frame);
            l = l - 1;
            idx = index_at(va, l);
        }
        proof {
            lemma_reach_level(tables0, root, va, level as int);
            assert forall|k: int| reach_level(tables0, root, va, level as int) <= k <= 4 implies path_reaches(
                self.tables(),
                root,
                va,
                k,
            ) by {
                lemma_path_levels(self.tables(), root, va, level as int, k);
            }
        }
        Ok(EntryRef { frame, index: idx })
    }
}

impl<A: FrameAllocator> Mapper for RecursiveMapper<A> {
    type Entry = EntryRef;

    open spec fn serves(&self, virt_addr: u64, level: int) -> bool {
        &&& self.wf()
        &&& valid_request(virt_addr, level)
        &&& path_in_memory(self.tables(), self.root(), virt_addr, level)
    }

    open spec fn controls(&self, virt_addr: u64, level: int, e: EntryRef) -> bool {
        &&& path_reaches(self.tables(), self.root(), virt_addr, level)
        &&& locates(e, path_table(self.tables(), self.root(), virt_addr, level), table_index(virt_addr, level))
    }

    fn entry(&mut self, virt_addr: VirtualAddress, level: u8) -> (r: Result<EntryRef, Error>) {
        RecursiveMapper::entry(self, virt_addr, level)
    }
}

/// `e` names slot `index` of table number `slot`.
pub open spec fn locates(e: EntryRef, slot: int, index: int) -> bool {
    e.frame@ % PAGE_SIZE == 0 && frame_slot(e.frame@) == slot && e.index == index
}

/// Overlap: where the path of `va` reaches a present huge-page entry at
/// level `k`, a walk to any lower level is blocked, so `entry` fails with
/// `Error::Overlap` and leaves the tables and the allocator untouched.
pub proof fn lemma_huge_entry_blocks(mem: Seq<Seq<u64>>, root: int, va: u64, k: int, level: int)
    requires
        1 <= level < k <= 4,
        path_reaches(mem, root, va, k),
        word_flag(path_word(mem, root, va, k), Bit::Present),
        word_flag(path_word(mem, root, va, k), Bit::Huge),
    ensures
        path_blocked(mem, root, va, level),
        !path_reaches(mem, root, va, level),
{
    lemma_path_levels(mem, root, va, level, k - 1);
}

/// Canonical masking: two addresses that differ only in their sign-extension
/// bits have the same path at every level, and so lead `entry` to the same
/// entry.
pub proof fn lemma_canonical_masking(
    mem: Seq<Seq<u64>>,
    root: int,
    va1: u64,
    va2: u64,
    level: int,
)
    requires
        1 <= level <= 4,
        canonical_cleared(va1) == canonical_cleared(va2),
    ensures
        table_index(va1, level) == table_index(va2, level),
        path_table(mem, root, va1, level) == path_table(mem, root, va2, level),
        path_reaches(mem, root, va1, level) == path_reaches(mem, root, va2, level),
        path_blocked(mem, root, va1, level) == path_blocked(mem, root, va2, level),
        path_in_memory(mem, root, va1, level) == path_in_memory(mem, root, va2, level),
    decreases 4 - level,
{
    if level < 4 {
        lemma_canonical_masking(mem, root, va1, va2, level + 1);
    }
}

/// The slot of `va` in any table lies inside the table.
proof fn lemma_index_in_table(va: u64, level: int)
    requires
        1 <= level <= 4,
    ensures
        0 <= table_index(va, level) < 512,
{
    let x = canonical_cleared(va) % (span(level) * 512);
    assert(0 <= x < span(level) * 512);
    assert(0 <= x / span(level) < 512) by (nonlinear_arith)
        requires
            0 <= x < span(level) * 512,
            span(level) > 0,
    ;
}

/// From an empty root table: a walk to `level` finds nothing in its way and
/// has to create exactly `4 - level` tables, so a successful `entry` takes
/// exactly that many frames from the allocator, each zeroed before it is
/// linked in.
pub proof fn lemma_walk_from_empty_root(mem: Seq<Seq<u64>>, root: int, va: u64, level: int)
    requires
        1 <= level <= 4,
        0 <= root < mem.len(),
        mem[root] == zero_table(),
    ensures
        tables_needed(mem, root, va, level) == 4 - level,
        !path_blocked(mem, root, va, level),
        path_in_memory(mem, root, va, level),
{
    lemma_index_in_table(va, 4);
    assert(!word_flag(0, Bit::Present)) by (bit_vector);
    assert(path_word(mem, root, va, 4) == 0);
    if level < 4 {
        assert(!path_reaches(mem, root, va, 3));
        assert(tables_needed(mem, root, va, 4) == 0);
        assert(tables_needed(mem, root, va, 3) == 1);
        assert(!word_flag(0, Bit::Huge)) by (bit_vector);
        assert(!path_blocked(mem, root, va, 4));
        assert(!path_blocked(mem, root, va, 3));
        assert(path_in_memory(mem, root, va, 4));
        assert(path_in_memory(mem, root, va, 3));
        lemma_below_stop(mem, root, va, level, 3);
        lemma_path_levels(mem, root, va, level, 3);
        lemma_not_reached_in_memory(mem, root, va, level, 3);
    }
}

/// Below a level that the path does not reach, every table on it counts as
/// in memory, since the walk creates it.
proof fn lemma_not_reached_in_memory(mem: Seq<Seq<u64>>, root: int, va: u64, level: int, k: int)
    requires
        1 <= level <= k < 4,
        !path_reaches(mem, root, va, k),
        path_in_memory(mem, root, va, k),
    ensures
        path_in_memory(mem, root, va, level),
    decreases k - level,
{
    if level < k {
        lemma_not_reached_in_memory(mem, root, va, level + 1, k);
        lemma_path_levels(mem, root, va, level, k);
    }
}

/// Walking twice: after `entry` succeeds it ensures that the path reaches
/// `level` and names the entry it returned; a second walk over
/// that tree then creates no table and is not blocked, so `entry` leaves the
/// tables and the allocator as they are and returns the identical entry.
pub proof fn lemma_walk_twice(
    mem: Seq<Seq<u64>>,
    root: int,
    va: u64,
    level: int,
    first: EntryRef,
    second: EntryRef,
)
    requires
        1 <= level <= 4,
        path_reaches(mem, root, va, level),
        locates(first, path_table(mem, root, va, level), table_index(va, level)),
        locates(second, path_table(mem, root, va, level), table_index(va, level)),
    ensures
        tables_needed(mem, root, va, level) == 0,
        !path_blocked(mem, root, va, level),
        first == second,
{
    lemma_path_levels(mem, root, va, level, level);
    assert(first.frame@ == second.frame@) by (nonlinear_arith)
        requires
            first.frame@ % PAGE_SIZE == 0,
            second.frame@ % PAGE_SIZE == 0,
            first.frame@ / PAGE_SIZE == second.frame@ / PAGE_SIZE,
    ;
    lemma_physical_address_eq(first.frame, second.frame);
    lemma_reached_not_blocked(mem, root, va, level);
}

/// A path that reaches `level` is not blocked above it.
proof fn lemma_reached_not_blocked(mem: Seq<Seq<u64>>, root: int, va: u64, level: int)
    requires
        1 <= level <= 4,
        path_reaches(mem, root, va, level),
    ensures
        !path_blocked(mem, root, va, level),
    decreases 4 - level,
{
    if level < 4 {
        lemma_reached_not_blocked(mem, root, va, level + 1);
    }
}

} // verus!
