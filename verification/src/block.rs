//! Owned regions: one heap buffer each, released when the block is dropped,
//! and the handles by which callers name them.

use vstd::prelude::*;

verus! {

/// Every region starts at a multiple of this many bytes.
pub const ALIGNMENT: usize = 8;

/// What the bookkeeping knows of a region: the address at which it starts
/// and the number of bytes it holds.
pub struct Region {
    pub addr: nat,
    pub size: nat,
}

impl Region {
    /// A region is valid when it is not empty, starts at an aligned address
    /// other than null, and ends within the address space.
    pub open spec fn valid(self) -> bool {
        &&& self.size > 0
        &&& self.addr != 0
        &&& self.addr % (ALIGNMENT as nat) == 0
        &&& self.addr + self.size <= usize::MAX
    }
}

/// A non-owning name for a region: the address at which it starts.
///
/// A handle says nothing about the size of the region behind it, and it
/// stays meaningful only while the pool that issued it keeps the region
/// active.
#[derive(Clone, Copy, Debug, PartialEq, Eq, Structural)]
pub struct Handle {
    addr: usize,
}

impl View for Handle {
    type V = nat;

    closed spec fn view(&self) -> nat {
        self.addr as nat
    }
}

impl Handle {
    /// The handle that names the region starting at `addr`.
    pub fn from_address(addr: usize) -> (handle: Handle)
        ensures
            handle@ == addr,
    {
        Handle { addr }
    }

    /// The address this handle names.
    pub fn address(&self) -> (addr: usize)
        ensures
            addr == self@,
    {
        self.addr
    }
}

/// The least multiple of [`ALIGNMENT`] that is not below `addr`.
pub fn align_up(addr: usize) -> (aligned: usize)
    requires
        addr + (ALIGNMENT - 1) <= usize::MAX,
    ensures
        aligned % ALIGNMENT == 0,
        addr <= aligned < addr + ALIGNMENT,
{
    let rest: usize = addr % ALIGNMENT;
    if rest == 0 {
        addr
    } else {
        addr + (ALIGNMENT - rest)
    }
}

/// One contiguous region of memory of a fixed size, owned by whoever holds
/// the block.
///
/// The memory is obtained from the system when the block is made and handed
/// back when the block is dropped; a block cannot be copied, so that
/// happens once. The buffer behind a block is a little longer than the
/// region, so that the region can start at an aligned address wherever the
/// system placed the buffer.
pub struct MemoryBlock {
    /// The memory itself. It is only held: dropping it gives it back.
    #[allow(dead_code)]
    buf: Vec<u8>,
    /// Where the region starts.
    addr: usize,
    /// How many bytes the region holds.
    size: usize,
}

impl View for MemoryBlock {
    type V = Region;

    closed spec fn view(&self) -> Region {
        Region { addr: self.addr as nat, size: self.size as nat }
    }
}

impl MemoryBlock {
    /// The buffer has room for the region behind any padding that the
    /// alignment may take.
    pub closed spec fn fits_buffer(&self) -> bool {
        self.size + (ALIGNMENT - 1) == self.buf@.len()
    }

    /// A block is well formed when its region is valid and its buffer has
    /// room for it.
    pub open spec fn wf(&self) -> bool {
        self@.valid() && self.fits_buffer()
    }

    /// Obtains a zeroed region of exactly `size` bytes from the system,
    /// starting at a multiple of [`ALIGNMENT`].
    ///
    /// No buffer can hold more than `isize::MAX` bytes, which bounds `size`
    /// and the padding together. If the system has no memory left the
    /// process is aborted; a null or short region is never returned.
    pub fn new(size: usize) -> (block: Self)
        requires
            0 < size <= isize::MAX - (ALIGNMENT - 1),
        ensures
            block.wf(),
            block@.size == size,
    {
        let mut buf: Vec<u8> = vec![0u8; size + (ALIGNMENT - 1)];
        let base: usize = base_address(&mut buf);
        let addr: usize = align_up(base);
        MemoryBlock { buf, addr, size }
    }

    /// The number of bytes in the region.
    pub fn size(&self) -> (size: usize)
        ensures
            size == self@.size,
    {
        self.size
    }

    /// The handle that names this block's region.
    pub fn handle(&self) -> (handle: Handle)
        ensures
            handle@ == self@.addr,
    {
        Handle { addr: self.addr }
    }
}

/// Trusted: `Vec::as_mut_ptr`, with the pointer read as an integer.
///
/// The contract claims that the call leaves the contents alone, that the
/// address is not null, and that the buffer does not run past the end of
/// the address space. The documentation of `Vec` guarantees the first two
/// of its pointer, and that of `std::ptr` the last of every allocation.
/// Which address comes back is up to the allocator, so nothing else is said
/// of it.
#[verifier::external_body]
fn base_address(buf: &mut Vec<u8>) -> (addr: usize)
    ensures
        final(buf)@ == old(buf)@,
        addr != 0,
        addr + old(buf)@.len() <= usize::MAX,
{
    buf.as_mut_ptr() as usize
}

} // verus!
