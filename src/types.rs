use vstd::prelude::*;

verus! {

/// A physical memory address.
#[derive(Debug, Clone, Copy, PartialEq, Eq, Structural)]
pub struct PhysicalAddress(u64);

/// A virtual memory address.
#[derive(Debug, Clone, Copy, PartialEq, Eq, Structural)]
pub struct VirtualAddress(u64);

impl View for PhysicalAddress {
    type V = u64;

    closed spec fn view(&self) -> u64 {
        self.0
    }
}

impl View for VirtualAddress {
    type V = u64;

    closed spec fn view(&self) -> u64 {
        self.0
    }
}

impl PhysicalAddress {
    /// Whether the address is a multiple of `align`, such as a page size.
    pub fn is_aligned(self, align: u64) -> (r: bool)
        requires
            align > 0,
        ensures
            r == (self@ % align == 0),
    {
        self.0 % align == 0
    }

    /// Create a new address.
    pub fn new(numeric: u64) -> (r: Self)
        ensures
            r@ == numeric,
    {
        PhysicalAddress(numeric)
    }

    /// The numeric value of the address.
    pub fn as_u64(self) -> (r: u64)
        ensures
            r == self@,
    {
        self.0
    }
}

/// Physical addresses with the same value are the same address.
pub(crate) proof fn lemma_physical_address_eq(a: PhysicalAddress, b: PhysicalAddress)
    requires
        a@ == b@,
    ensures
        a == b,
{
}

impl VirtualAddress {
    /// Whether the address is a multiple of `align`, such as a page size.
    pub fn is_aligned(self, align: u64) -> (r: bool)
        requires
            align > 0,
        ensures
            r == (self@ % align == 0),
    {
        self.0 % align == 0
    }

    /// Create a new address.
    pub fn new(numeric: u64) -> (r: Self)
        ensures
            r@ == numeric,
    {
        VirtualAddress(numeric)
    }

    /// The numeric value of the address.
    pub fn as_u64(self) -> (r: u64)
        ensures
            r == self@,
    {
        self.0
    }
}

impl From<u64> for PhysicalAddress {
    fn from(addr: u64) -> (r: Self) {
        PhysicalAddress(addr)
    }
}

impl vstd::std_specs::convert::FromSpecImpl<u64> for PhysicalAddress {
    open spec fn obeys_from_spec() -> bool {
        true
    }

    closed spec fn from_spec(addr: u64) -> Self {
        PhysicalAddress(addr)
    }
}

impl From<u64> for VirtualAddress {
    fn from(addr: u64) -> (r: Self) {
        VirtualAddress(addr)
    }
}

impl vstd::std_specs::convert::FromSpecImpl<u64> for VirtualAddress {
    open spec fn obeys_from_spec() -> bool {
        true
    }

    closed spec fn from_spec(addr: u64) -> Self {
        VirtualAddress(addr)
    }
}

impl From<PhysicalAddress> for u64 {
    fn from(addr: PhysicalAddress) -> (r: u64) {
        addr.0
    }
}

impl vstd::std_specs::convert::FromSpecImpl<PhysicalAddress> for u64 {
    open spec fn obeys_from_spec() -> bool {
        true
    }

    open spec fn from_spec(addr: PhysicalAddress) -> u64 {
        addr@
    }
}

impl From<VirtualAddress> for u64 {
    fn from(addr: VirtualAddress) -> (r: u64) {
        addr.0
    }
}

impl vstd::std_specs::convert::FromSpecImpl<VirtualAddress> for u64 {
    open spec fn obeys_from_spec() -> bool {
        true
    }

    open spec fn from_spec(addr: VirtualAddress) -> u64 {
        addr@
    }
}

} // verus!
