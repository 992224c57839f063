//! Physical memory pages, modelled by their content and address values.
//! The kernel's page type wraps a raw pointer to page-aligned memory; here
//! a page's address is carried as a plain value, so the conversions the
//! rest of the kernel relies on can be stated and checked.

use vstd::prelude::*;

verus! {

/// Bytes in one physical page.
pub const PGSIZE: usize = 4096;

/// A physical address.
pub struct PAddr {
    pub value: usize,
}

impl PAddr {
    pub fn new(value: usize) -> (r: PAddr)
        ensures
            r.value == value,
    {
        PAddr { value }
    }
}

/// One page's worth of bytes.
pub struct RawPage {
    data: Vec<u8>,
}

impl View for RawPage {
    type V = Seq<u8>;

    closed spec fn view(&self) -> Seq<u8> {
        self.data@
    }
}

impl RawPage {
    pub open spec fn wf(&self) -> bool {
        self@.len() == PGSIZE
    }

    /// A page of zero bytes.
    pub fn zeroed() -> (r: RawPage)
        ensures
            r.wf(),
            forall|i: int| 0 <= i < PGSIZE ==> r@[i] == 0u8,
    {
        let mut data: Vec<u8> = Vec::new();
        let mut i: usize = 0;
        while i < PGSIZE
            invariant
                i <= PGSIZE,
                data@.len() == i,
                forall|j: int| 0 <= j < i ==> data@[j] == 0u8,
            decreases PGSIZE - i,
        {
            data.push(0u8);
            i += 1;
        }
        RawPage { data }
    }

    /// Read the byte at offset `i`.
    pub fn get(&self, i: usize) -> (r: u8)
        requires
            self.wf(),
            i < PGSIZE,
        ensures
            r == self@[i as int],
    {
        self.data[i]
    }

    /// Fill the whole page with `value`.
    pub fn write_bytes(&mut self, value: u8)
        requires
            old(self).wf(),
        ensures
            final(self).wf(),
            forall|i: int| 0 <= i < PGSIZE ==> final(self)@[i] == value,
    {
        let mut i: usize = 0;
        while i < PGSIZE
            invariant
                self.wf(),
                i <= PGSIZE,
                forall|j: int| 0 <= j < i ==> self@[j] == value,
            decreases PGSIZE - i,
        {
            self.data.set(i, value);
            i += 1;
        }
    }
}

/// A handle on one physical page, identified by its address.
pub struct Page {
    addr: usize,
}

impl Page {
    pub closed spec fn spec_addr(&self) -> usize {
        self.addr
    }

    /// Surrender the handle, keeping only the raw address.
    pub fn into_usize(self) -> (r: usize)
        ensures
            r == self.spec_addr(),
    {
        self.addr
    }

    /// Re-adopt a page from a raw address previously taken out of a
    /// handle.
    pub fn from_usize(addr: usize) -> (r: Page)
        ensures
            r.spec_addr() == addr,
    {
        Page { addr }
    }

    /// The page's physical address.
    pub fn addr(&self) -> (r: PAddr)
        ensures
            r.value == self.spec_addr(),
    {
        PAddr::new(self.addr)
    }
}

} // verus!
