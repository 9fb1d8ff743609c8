//! The flag bits of a page-table entry and the permissions of a map area.

use vstd::prelude::*;

verus! {

/// Valid.
pub const PTE_V: u8 = 0x01;

/// Readable.
pub const PTE_R: u8 = 0x02;

/// Writable.
pub const PTE_W: u8 = 0x04;

/// Executable.
pub const PTE_X: u8 = 0x08;

/// Accessible in user mode.
pub const PTE_U: u8 = 0x10;

/// Global.
pub const PTE_G: u8 = 0x20;

/// Accessed.
pub const PTE_A: u8 = 0x40;

/// Dirty.
pub const PTE_D: u8 = 0x80;

/// The flags `V R W X U G A D` of a page-table entry, one bit each from bit 0
/// upwards.
#[derive(Copy, Clone, Debug, PartialEq, Eq, Structural)]
pub struct PTEFlags {
    pub bits: u8,
}

impl PTEFlags {
    /// No flag set.
    pub fn empty() -> (r: PTEFlags)
        ensures
            r.bits == 0,
    {
        PTEFlags { bits: 0 }
    }

    /// The flags that `bits` holds. Every bit is a flag, so this never fails.
    pub fn from_bits(bits: u8) -> (r: Option<PTEFlags>)
        ensures
            r == Some(PTEFlags { bits }),
    {
        Some(PTEFlags { bits })
    }

    /// The flags as a byte.
    pub fn bits(&self) -> (r: u8)
        ensures
            r == self.bits,
    {
        self.bits
    }

    /// Whether every flag of `other` is set in `self`.
    pub open spec fn spec_contains(&self, other: PTEFlags) -> bool {
        self.bits & other.bits == other.bits
    }

    /// Whether every flag of `other` is set in `self`.
    #[verifier::when_used_as_spec(spec_contains)]
    pub fn contains(&self, other: PTEFlags) -> (r: bool)
        ensures
            r == self.spec_contains(other),
    {
        self.bits & other.bits == other.bits
    }

    /// The flags of `self` together with those of `other`.
    pub open spec fn spec_union(self, other: PTEFlags) -> PTEFlags {
        PTEFlags { bits: self.bits | other.bits }
    }

    /// The flags of `self` together with those of `other`.
    #[verifier::when_used_as_spec(spec_union)]
    pub fn union(self, other: PTEFlags) -> (r: PTEFlags)
        ensures
            r == self.spec_union(other),
    {
        PTEFlags { bits: self.bits | other.bits }
    }
}

/// Readable.
pub const MAP_R: u8 = 0x02;

/// Writable.
pub const MAP_W: u8 = 0x04;

/// Executable.
pub const MAP_X: u8 = 0x08;

/// Accessible in user mode.
pub const MAP_U: u8 = 0x10;

/// Every permission bit.
pub const MAP_ALL: u8 = 0x1e;

/// The permissions `R W X U` of a map area, each on the bit that the flag of
/// the same name has in a page-table entry.
#[derive(Copy, Clone, Debug, PartialEq, Eq, Structural)]
pub struct MapPermission {
    bits: u8,
}

impl MapPermission {
    /// The permissions as a byte.
    pub closed spec fn spec_bits(&self) -> u8 {
        self.bits
    }

    /// A permission set holds no bit but `R W X U`.
    pub open spec fn wf(&self) -> bool {
        self.spec_bits() & !MAP_ALL == 0
    }

    /// No permission.
    pub fn empty() -> (r: MapPermission)
        ensures
            r.bits() == 0,
            r.wf(),
    {
        assert(0u8 & !0x1eu8 == 0) by (bit_vector);
        MapPermission { bits: 0 }
    }

    /// The permissions that `bits` holds; `None` where a bit other than
    /// `R W X U` is set.
    pub fn from_bits(bits: u8) -> (r: Option<MapPermission>)
        ensures
            r.is_some() <==> bits & !MAP_ALL == 0,
            r matches Some(p) ==> p.bits() == bits && p.wf(),
    {
        if bits & !MAP_ALL == 0 {
            Some(MapPermission { bits })
        } else {
            None
        }
    }

    /// The permissions as a byte.
    #[verifier::when_used_as_spec(spec_bits)]
    pub fn bits(&self) -> (r: u8)
        ensures
            r == self.spec_bits(),
    {
        self.bits
    }

    /// Whether every permission of `other` is in `self`.
    pub fn contains(&self, other: MapPermission) -> (r: bool)
        ensures
            r == (self.bits() & other.bits() == other.bits()),
    {
        self.bits & other.bits == other.bits
    }

    /// The permissions of `self` together with those of `other`.
    pub fn union(self, other: MapPermission) -> (r: MapPermission)
        requires
            self.wf(),
            other.wf(),
        ensures
            r.bits() == self.bits() | other.bits(),
            r.wf(),
    {
        let a: u8 = self.bits;
        let b: u8 = other.bits;
        assert((a | b) & !0x1eu8 == 0) by (bit_vector)
            requires
                a & !0x1eu8 == 0,
                b & !0x1eu8 == 0,
        ;
        MapPermission { bits: a | b }
    }

    /// The page-table flags that carry these permissions.
    pub fn as_pte_flags(&self) -> (r: PTEFlags)
        ensures
            r.bits == self.bits(),
    {
        PTEFlags { bits: self.bits }
    }
}

} // verus!
