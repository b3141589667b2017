//! Bit-exact access to four-level x86-64 page tables, and a walker that finds
//! or creates the entry that controls a virtual address at a given level.
use vstd::prelude::*;

mod result;
mod types;
pub mod x86_64;

pub use result::Error;
pub use types::{PhysicalAddress, VirtualAddress};

verus! {

/// Provides access to page table entries.
pub trait Mapper {
    /// Where an entry lives.
    type Entry;

    /// Whether a request for `virt_addr` at `level` is one this mapper serves.
    spec fn serves(&self, virt_addr: u64, level: int) -> bool;

    /// Whether `e` is the entry that controls `virt_addr` at `level`: the one
    /// the hardware walk for `virt_addr` passes through at that level.
    spec fn controls(&self, virt_addr: u64, level: int, e: Self::Entry) -> bool;

    /// Get the page table entry for a virtual address. The only failures are
    /// running out of frames for new tables and meeting a huge-page mapping.
    fn entry(&mut self, virt_addr: VirtualAddress, level: u8) -> (r: Result<Self::Entry, Error>)
        requires
            old(self).serves(virt_addr@, level as int),
        ensures
            r matches Ok(e) ==> final(self).controls(virt_addr@, level as int, e),
            r matches Err(e) ==> e == Error::NoMemory || e == Error::Overlap,
    ;
}

} // verus!
