//! The thin verbs-style API surface: registration requests, access
//! flags, and the memory-region capability handed back to callers.

use vstd::prelude::*;

use crate::device::RdmaDevice;

verus! {

/// The verbs-style entry point a host API exposes over the device.
pub trait IbVerbs {
    /// Registers the buffer region for access under a protection domain.
    fn ibv_reg_mr(&self, pd: &mut IbvPd, buf: IbvBuf, access: IbvAccess) -> IbvMr;
}

/// A registered memory region: the capability token returned to the
/// caller. The key fields are opaque indices into the translation
/// table; they are generated by the device, never chosen by callers.
#[derive(Clone, Copy, Debug, PartialEq, Eq, Structural)]
pub struct IbvMr {
    pub addr: u64,
    pub length: u32,
    pub access: u32,
    pub lkey: u32,
    pub rkey: u32,
}

impl IbvMr {
    pub fn new(addr: u64, length: u32, access: u32, lkey: u32, rkey: u32) -> (r: IbvMr)
        ensures
            r.addr == addr,
            r.length == length,
            r.access == access,
            r.lkey == lkey,
            r.rkey == rkey,
    {
        IbvMr { addr, length, access, lkey, rkey }
    }

    pub fn addr(&self) -> (r: u64)
        ensures
            r == self.addr,
    {
        self.addr
    }

    pub fn length(&self) -> (r: u32)
        ensures
            r == self.length,
    {
        self.length
    }

    pub fn access(&self) -> (r: u32)
        ensures
            r == self.access,
    {
        self.access
    }

    pub fn lkey(&self) -> (r: u32)
        ensures
            r == self.lkey,
    {
        self.lkey
    }

    pub fn rkey(&self) -> (r: u32)
        ensures
            r == self.rkey,
    {
        self.rkey
    }
}

/// A protection domain: one device instance with its own allocators
/// and translation table.
pub struct IbvPd {
    pub dev: RdmaDevice,
}

/// A virtual buffer a caller asks to register.
pub struct IbvBuf {
    pub addr: u64,
    pub length: usize,
}

/// One access right of a region; a region's access field is the bitset
/// over these flags.
#[derive(Clone, Copy, Debug, PartialEq, Eq, Structural)]
pub enum IbvAccess {
    LocalWrite,
    RemoteWrite,
    RemoteRead,
    RemoteAtomic,
}

impl IbvAccess {
    pub open spec fn bit_spec(self) -> u32 {
        match self {
            IbvAccess::LocalWrite => 1u32,
            IbvAccess::RemoteWrite => 2u32,
            IbvAccess::RemoteRead => 4u32,
            IbvAccess::RemoteAtomic => 8u32,
        }
    }

    /// This flag's bit within the access bitset.
    pub fn bit(self) -> (b: u32)
        ensures
            b == self.bit_spec(),
    {
        match self {
            IbvAccess::LocalWrite => 1,
            IbvAccess::RemoteWrite => 2,
            IbvAccess::RemoteRead => 4,
            IbvAccess::RemoteAtomic => 8,
        }
    }
}

} // verus!
