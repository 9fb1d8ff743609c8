//! The Sv39 page table: a three-level radix tree of 512-entry nodes, each
//! node backed by one physical frame.

use vstd::prelude::*;
use crate::mm::address::{PhysPageNum, VirtPageNum, PPN_LIMIT, VPN_LIMIT};
use crate::mm::error::{MMError, MMResult, PageError};
use crate::mm::flags::{PTEFlags, PTE_R, PTE_V, PTE_W, PTE_X};
use crate::mm::frame_allocator::{frame_alloc, frame_dealloc, FrameAllocator, FrameTracker};

verus! {

/// The mode bits of an address-space token: Sv39, in the top four bits.
pub const SATP_MODE_SV39: u64 = 0x8000_0000_0000_0000;

/// A page-table entry: a 64-bit word with a physical page number in bits 10
/// to 53 and the flags in bits 0 to 7.
#[derive(Copy, Clone, Debug, PartialEq, Eq, Structural)]
pub struct PageTableEntry {
    pub bits: u64,
}

impl PageTableEntry {
    /// The entry that names the frame `ppn` with the flags `flags`.
    pub open spec fn spec_new(ppn: PhysPageNum, flags: PTEFlags) -> PageTableEntry {
        PageTableEntry { bits: ((ppn.0 % PPN_LIMIT) * 1024 + flags.bits) as u64 }
    }

    /// The all-zero entry, which is not valid.
    pub open spec fn spec_empty() -> PageTableEntry {
        PageTableEntry { bits: 0 }
    }

    /// The physical page number that the entry names.
    pub open spec fn spec_ppn(&self) -> PhysPageNum {
        PhysPageNum((self.bits / 1024) % PPN_LIMIT)
    }

    /// The flags of the entry.
    pub open spec fn spec_flags(&self) -> PTEFlags {
        PTEFlags { bits: (self.bits % 256) as u8 }
    }

    /// Whether the flag `V` is set.
    pub open spec fn spec_is_valid(&self) -> bool {
        self.bits % 2 == 1
    }

    /// An entry built from a page number and flags gives both back.
    pub proof fn lemma_new(ppn: PhysPageNum, flags: PTEFlags)
        ensures
            Self::spec_new(ppn, flags).spec_ppn().0 == ppn.0 % PPN_LIMIT,
            Self::spec_new(ppn, flags).spec_flags() == flags,
            Self::spec_new(ppn, flags).spec_is_valid() <==> flags.bits % 2 == 1,
    {
    }

    /// Builds the entry that names the frame `ppn` with the flags `flags`.
    #[verifier::when_used_as_spec(spec_new)]
    pub fn new(ppn: PhysPageNum, flags: PTEFlags) -> (r: PageTableEntry)
        ensures
            r == Self::spec_new(ppn, flags),
    {
        let p: u64 = ppn.0;
        let f: u8 = flags.bits;
        assert(((p & 0xfff_ffff_ffff) << 10) | (f as u64) == ((p % 0x1000_0000_0000) * 1024
            + f) as u64) by (bit_vector);
        PageTableEntry { bits: ((p & 0xfff_ffff_ffff) << 10) | (f as u64) }
    }

    /// The all-zero entry.
    #[verifier::when_used_as_spec(spec_empty)]
    pub fn empty() -> (r: PageTableEntry)
        ensures
            r == Self::spec_empty(),
    {
        PageTableEntry { bits: 0 }
    }

    /// The physical page number that the entry names.
    #[verifier::when_used_as_spec(spec_ppn)]
    pub fn ppn(&self) -> (r: PhysPageNum)
        ensures
            r == self.spec_ppn(),
    {
        let b: u64 = self.bits;
        assert((b >> 10) & 0xfff_ffff_ffff == (b / 1024) % 0x1000_0000_0000) by (bit_vector);
        PhysPageNum((b >> 10) & 0xfff_ffff_ffff)
    }

    /// The flags of the entry.
    #[verifier::when_used_as_spec(spec_flags)]
    pub fn flags(&self) -> (r: PTEFlags)
        ensures
            r == self.spec_flags(),
    {
        let b: u64 = self.bits;
        assert((b & 0xff) == b % 256) by (bit_vector);
        PTEFlags { bits: (b & 0xff) as u8 }
    }

    /// Whether the flag `V` is set.
    #[verifier::when_used_as_spec(spec_is_valid)]
    pub fn is_valid(&self) -> (r: bool)
        ensures
            r == self.spec_is_valid(),
    {
        let b: u64 = self.bits;
        assert(((b & 1) != 0) == (b % 2 == 1)) by (bit_vector);
        (b & 1) != 0
    }

    /// Whether the flag `R` is set.
    pub fn readable(&self) -> (r: bool)
        ensures
            r == (self.spec_flags().bits & PTE_R != 0),
    {
        self.flags().bits & PTE_R != 0
    }

    /// Whether the flag `W` is set.
    pub fn writable(&self) -> (r: bool)
        ensures
            r == (self.spec_flags().bits & PTE_W != 0),
    {
        self.flags().bits & PTE_W != 0
    }

    /// Whether the flag `X` is set.
    pub fn executable(&self) -> (r: bool)
        ensures
            r == (self.spec_flags().bits & PTE_X != 0),
    {
        self.flags().bits & PTE_X != 0
    }
}

/// A node of the lowest level: 512 leaf entries.
pub struct LeafTable {
    frame: FrameTracker,
    entries: Vec<PageTableEntry>,
}

/// A node of the middle level: 512 slots, each empty or holding a leaf table.
pub struct MidTable {
    frame: FrameTracker,
    children: Vec<Option<LeafTable>>,
}

/// A page table. It owns the frames of its root and of every node below it.
pub struct PageTable {
    root_ppn: PhysPageNum,
    root: Option<FrameTracker>,
    children: Vec<Option<MidTable>>,
}

impl LeafTable {
    pub closed spec fn wf(&self) -> bool {
        &&& self.entries@.len() == 512
        &&& forall|i: int|
            0 <= i < 512 ==> (#[trigger] self.entries@[i]).spec_is_valid() || self.entries@[i]
                == PageTableEntry::spec_empty()
    }

    fn new(frame: FrameTracker) -> (r: LeafTable)
        ensures
            r.wf(),
            r.frame == frame,
            forall|i: int| 0 <= i < 512 ==> r.entries@[i] == PageTableEntry::spec_empty(),
    {
        let mut entries: Vec<PageTableEntry> = Vec::new();
        let mut i: usize = 0;
        while i < 512
            invariant
                0 <= i <= 512,
                entries@.len() == i,
                forall|j: int| 0 <= j < i ==> entries@[j] == PageTableEntry::spec_empty(),
            decreases 512 - i,
        {
            entries.push(PageTableEntry::empty());
            i = i + 1;
        }
        LeafTable { frame, entries }
    }
}

impl MidTable {
    pub closed spec fn wf(&self) -> bool {
        &&& self.children@.len() == 512
        &&& forall|i: int|
            0 <= i < 512 ==> (#[trigger] self.children@[i] matches Some(leaf) ==> leaf.wf())
    }

    /// Whether slot `j` holds the leaf table in frame `p`.
    pub closed spec fn owns_leaf(&self, j: int, p: u64) -> bool {
        self.children@[j] matches Some(leaf) && leaf.frame.ppn().0 == p
    }

    /// The numbers of the frames of this directory and of its leaf tables.
    pub closed spec fn frames(&self) -> Set<u64> {
        Set::new(
            |p: u64|
                self.frame.ppn().0 == p || exists|j: int| 0 <= j < 512 && self.owns_leaf(j, p),
        )
    }

    /// Gives the frames of the directory and of its leaf tables back.
    fn release(self, allocator: &mut FrameAllocator)
        requires
            self.wf(),
            old(allocator).wf(),
        ensures
            final(allocator).wf(),
            final(allocator).first() == old(allocator).first(),
            final(allocator).limit() == old(allocator).limit(),
            final(allocator).allocated() == old(allocator).allocated().difference(self.frames()),
    {
        let ghost me = self;
        let ghost alloc0 = allocator.allocated();
        let MidTable { frame, children } = self;
        let mut children = children;
        frame_dealloc(allocator, frame);
        while children.len() > 0
            invariant
                me.wf(),
                children@.len() <= 512,
                children@ == me.children@.subrange(0, children@.len() as int),
                allocator.wf(),
                allocator.first() == old(allocator).first(),
                allocator.limit() == old(allocator).limit(),
                allocator.allocated() == alloc0.difference(
                    Set::new(
                        |p: u64|
                            me.frame.ppn().0 == p || exists|j: int|
                                children@.len() <= j < 512 && me.owns_leaf(j, p),
                    ),
                ),
            decreases children@.len(),
        {
            let ghost n = children@.len() as int;
            let ghost before = allocator.allocated();
            let slot = children.pop().unwrap();
            assert(slot == me.children@[n - 1]);
            match slot {
                Some(leaf) => {
                    let LeafTable { frame: leaf_frame, entries: _ } = leaf;
                    frame_dealloc(allocator, leaf_frame);
                    assert(me.owns_leaf(n - 1, leaf_frame.ppn().0));
                    assert forall|j: int, p: u64| n - 1 <= j < 512 && me.owns_leaf(j, p) implies (
                    p == leaf_frame.ppn().0 || (n <= j < 512 && me.owns_leaf(j, p))) by {}
                },
                None => {
                    assert forall|j: int, p: u64| n - 1 <= j < 512 && me.owns_leaf(j, p) implies (
                    n <= j < 512 && me.owns_leaf(j, p)) by {}
                },
            }
            assert(allocator.allocated() =~= alloc0.difference(
                Set::new(
                    |p: u64|
                        me.frame.ppn().0 == p || exists|j: int|
                            n - 1 <= j < 512 && me.owns_leaf(j, p),
                ),
            ));
        }
        assert(allocator.allocated() =~= alloc0.difference(me.frames()));
    }

    fn new(frame: FrameTracker) -> (r: MidTable)
        ensures
            r.wf(),
            r.frame == frame,
            forall|i: int| 0 <= i < 512 ==> r.children@[i] is None,
    {
        let mut children: Vec<Option<LeafTable>> = Vec::new();
        let mut i: usize = 0;
        while i < 512
            invariant
                0 <= i <= 512,
                children@.len() == i,
                forall|j: int| 0 <= j < i ==> children@[j] is None,
            decreases 512 - i,
        {
            children.push(None);
            i = i + 1;
        }
        MidTable { frame, children }
    }
}

impl PageTable {
    /// The invariant of the tree: every node has its 512 slots.
    pub closed spec fn wf(&self) -> bool {
        &&& self.children@.len() == 512
        &&& forall|i: int|
            0 <= i < 512 ==> (#[trigger] self.children@[i] matches Some(mid) ==> mid.wf())
        &&& self.root matches Some(f) ==> f.ppn() == self.root_ppn
    }

    /// The number of the root frame.
    pub closed spec fn spec_root_ppn(&self) -> PhysPageNum {
        self.root_ppn
    }

    /// Whether both directories on the way to the leaf entry of `vpn` exist.
    pub closed spec fn has_dir(&self, vpn: VirtPageNum) -> bool {
        let (i2, i1, i0) = vpn.spec_indexes();
        &&& self.children@[i2] is Some
        &&& self.children@[i2]->0.children@[i1] is Some
    }

    /// The leaf entry of `vpn`: what its slot holds, or the empty entry where
    /// a directory on the way is absent.
    pub closed spec fn entry(&self, vpn: VirtPageNum) -> PageTableEntry {
        let (i2, i1, i0) = vpn.spec_indexes();
        if self.has_dir(vpn) {
            self.children@[i2]->0.children@[i1]->0.entries@[i0]
        } else {
            PageTableEntry::spec_empty()
        }
    }

    /// How many nodes a mapping of `vpn` would have to add: none, the leaf
    /// table, or the leaf table and the directory above it.
    pub closed spec fn tables_needed(&self, vpn: VirtPageNum) -> nat {
        let (i2, i1, i0) = vpn.spec_indexes();
        if self.children@[i2] is None {
            2
        } else if self.children@[i2]->0.children@[i1] is None {
            1
        } else {
            0
        }
    }

    /// Whether slot `i` of the root holds a directory that owns frame `p`.
    pub closed spec fn owns_mid(&self, i: int, p: u64) -> bool {
        self.children@[i] matches Some(mid) && mid.frames().contains(p)
    }

    /// The numbers of the frames that the table owns: its root and its nodes.
    pub closed spec fn frames(&self) -> Set<u64> {
        Set::new(
            |p: u64|
                (self.root matches Some(f) && f.ppn().0 == p) || exists|i: int|
                    0 <= i < 512 && self.owns_mid(i, p),
        )
    }

    /// The value that selects this address space: the Sv39 mode bits and the
    /// number of the root frame.
    pub open spec fn spec_token(&self) -> u64 {
        (SATP_MODE_SV39 + self.spec_root_ppn().0 % PPN_LIMIT) as u64
    }

    /// Two pages share a leaf slot exactly when their indexes agree.
    pub open spec fn same_slot(a: VirtPageNum, b: VirtPageNum) -> bool {
        a.spec_indexes() == b.spec_indexes()
    }

    /// Two pages share a leaf table exactly when their upper indexes agree.
    pub open spec fn same_leaf_table(a: VirtPageNum, b: VirtPageNum) -> bool {
        a.spec_indexes().0 == b.spec_indexes().0 && a.spec_indexes().1 == b.spec_indexes().1
    }

    /// What a mapping of `vpn` returns, given how many frames are left.
    pub open spec fn map_result(&self, free: nat, vpn: VirtPageNum) -> MMResult<()> {
        if self.entry(vpn).spec_is_valid() {
            Err(MMError::PageError(PageError::PageAlreadyMapped))
        } else if free < self.tables_needed(vpn) {
            Err(MMError::NotEnoughMemory)
        } else {
            Ok(())
        }
    }

    /// What an unmapping of `vpn` returns.
    pub open spec fn unmap_result(&self, vpn: VirtPageNum) -> MMResult<()> {
        if !self.has_dir(vpn) {
            Err(MMError::PageError(PageError::InvalidDirPage))
        } else if !self.entry(vpn).spec_is_valid() {
            Err(MMError::PageError(PageError::PageInvalid))
        } else {
            Ok(())
        }
    }

    /// `self` is `pre` after a successful mapping of `vpn` to the entry
    /// `pte`, for which the nodes in the frames `added` were created.
    pub open spec fn mapped_from(
        &self,
        pre: &PageTable,
        vpn: VirtPageNum,
        pte: PageTableEntry,
        added: Set<u64>,
    ) -> bool {
        &&& self.spec_root_ppn() == pre.spec_root_ppn()
        &&& forall|v: VirtPageNum|
            #[trigger] self.entry(v) == if Self::same_slot(v, vpn) {
                pte
            } else {
                pre.entry(v)
            }
        &&& forall|v: VirtPageNum|
            #[trigger] self.has_dir(v) == (pre.has_dir(v) || Self::same_leaf_table(v, vpn))
        &&& forall|v: VirtPageNum|
            #[trigger] self.tables_needed(v) == if Self::same_leaf_table(v, vpn) {
                0nat
            } else if v.spec_indexes().0 == vpn.spec_indexes().0 && pre.tables_needed(v) == 2 {
                1nat
            } else {
                pre.tables_needed(v)
            }
        &&& self.frames() == pre.frames().union(added)
    }

    /// `self` is `pre` after the leaf entry of `vpn` was cleared.
    pub open spec fn unmapped_from(&self, pre: &PageTable, vpn: VirtPageNum) -> bool {
        &&& self.spec_root_ppn() == pre.spec_root_ppn()
        &&& forall|v: VirtPageNum|
            #[trigger] self.entry(v) == if Self::same_slot(v, vpn) {
                PageTableEntry::spec_empty()
            } else {
                pre.entry(v)
            }
        &&& forall|v: VirtPageNum| #[trigger] self.has_dir(v) == pre.has_dir(v)
        &&& forall|v: VirtPageNum| #[trigger] self.tables_needed(v) == pre.tables_needed(v)
        &&& self.frames() == pre.frames()
    }

    /// Below the limit of virtual page numbers, two pages share a leaf slot
    /// only when they are the same page.
    pub proof fn lemma_slot_injective(a: VirtPageNum, b: VirtPageNum)
        requires
            a.0 < VPN_LIMIT,
            b.0 < VPN_LIMIT,
            Self::same_slot(a, b),
        ensures
            a == b,
    {
    }

    /// A page without its directories has the empty entry.
    pub proof fn lemma_entry_without_dir(&self, vpn: VirtPageNum)
        requires
            !self.has_dir(vpn),
        ensures
            self.entry(vpn) == PageTableEntry::spec_empty(),
            !self.entry(vpn).spec_is_valid(),
    {
    }

    /// A leaf entry that is not valid is the empty entry.
    pub proof fn lemma_invalid_is_empty(&self, vpn: VirtPageNum)
        requires
            self.wf(),
            !self.entry(vpn).spec_is_valid(),
        ensures
            self.entry(vpn) == PageTableEntry::spec_empty(),
    {
        let (i2, i1, i0) = vpn.spec_indexes();
        if self.has_dir(vpn) {
            let mid = self.children@[i2]->0;
            assert(mid.wf());
            let leaf = mid.children@[i1]->0;
            assert(leaf.wf());
            assert(leaf.entries@[i0].spec_is_valid() || leaf.entries@[i0]
                == PageTableEntry::spec_empty());
        }
    }

    /// The leaf entry of a page is the empty entry unless its directories
    /// exist.
    pub proof fn lemma_entry_without_dir_or_not(&self, vpn: VirtPageNum)
        ensures
            !self.has_dir(vpn) ==> self.entry(vpn) == PageTableEntry::spec_empty(),
            self.spec_translate(vpn) is Ok ==> self.spec_translate(vpn)->Ok_0 == self.entry(vpn),
    {
    }

    /// A page needs no new node exactly when its directories exist.
    pub proof fn lemma_tables_needed(&self, vpn: VirtPageNum)
        ensures
            self.tables_needed(vpn) <= 2,
            self.tables_needed(vpn) == 0 <==> self.has_dir(vpn),
    {
    }

    /// The token of the table.
    #[verifier::when_used_as_spec(spec_token)]
    pub fn token(&self) -> (r: u64)
        ensures
            r == self.spec_token(),
    {
        let p: u64 = self.root_ppn.0;
        assert(0x8000_0000_0000_0000u64 | (p & 0xfff_ffff_ffff) == (0x8000_0000_0000_0000u64 + p
            % 0x1000_0000_0000) as u64) by (bit_vector);
        SATP_MODE_SV39 | (p & 0xfff_ffff_ffff)
    }

    /// What a walk to the leaf entry of `vpn` finds: the entry, or the
    /// absence of a directory on the way.
    pub open spec fn spec_translate(&self, vpn: VirtPageNum) -> MMResult<PageTableEntry> {
        if self.has_dir(vpn) {
            Ok(self.entry(vpn))
        } else {
            Err(MMError::PageError(PageError::InvalidDirPage))
        }
    }

    /// Reads the leaf entry of `vpn` without changing the table. The entry
    /// is handed back whether or not it is valid.
    #[verifier::when_used_as_spec(spec_translate)]
    pub fn translate(&self, vpn: VirtPageNum) -> (r: MMResult<PageTableEntry>)
        requires
            self.wf(),
        ensures
            r == self.spec_translate(vpn),
    {
        let idx = vpn.indexes();
        match &self.children[idx[0]] {
            Some(mid) => {
                match &mid.children[idx[1]] {
                    Some(leaf) => Ok(leaf.entries[idx[2]]),
                    None => Err(MMError::PageError(PageError::InvalidDirPage)),
                }
            },
            None => Err(MMError::PageError(PageError::InvalidDirPage)),
        }
    }

    /// Clears the leaf entry of `vpn`. Directories stay in place.
    pub fn unmap(&mut self, vpn: VirtPageNum) -> (r: MMResult<()>)
        requires
            old(self).wf(),
        ensures
            final(self).wf(),
            r == old(self).unmap_result(vpn),
            r is Err ==> *final(self) == *old(self),
            r is Ok ==> final(self).unmapped_from(old(self), vpn),
    {
        let idx = vpn.indexes();
        match self.translate(vpn) {
            Err(e) => {
                return Err(e);
            },
            Ok(pte) => {
                if !pte.is_valid() {
                    return Err(MMError::PageError(PageError::PageInvalid));
                }
            },
        }
        match &mut self.children[idx[0]] {
            Some(mid) => {
                match &mut mid.children[idx[1]] {
                    Some(leaf) => {
                        leaf.entries[idx[2]] = PageTableEntry::empty();
                    },
                    None => {},
                }
            },
            None => {},
        }
        proof {
            let i2 = idx[0] as int;
            let i1 = idx[1] as int;
            let i0 = idx[2] as int;
            let old_mid = old(self).children@[i2]->0;
            let new_mid = self.children@[i2]->0;
            assert(new_mid.frame == old_mid.frame);
            assert(new_mid.children@[i1]->0.frame == old_mid.children@[i1]->0.frame);
            let pre = *old(self);
            assert forall|j: int, p: u64|
                #![trigger new_mid.owns_leaf(j, p)]
                #![trigger old_mid.owns_leaf(j, p)]
                0 <= j < 512 implies new_mid.owns_leaf(j, p) == old_mid.owns_leaf(j, p) by {}
            assert(new_mid.frames() =~= old_mid.frames());
            assert forall|i: int, p: u64|
                #![trigger self.owns_mid(i, p)]
                #![trigger pre.owns_mid(i, p)]
                0 <= i < 512 implies self.owns_mid(i, p) == pre.owns_mid(i, p) by {}
            assert(self.frames() =~= pre.frames());
            assert forall|v: VirtPageNum| self.has_dir(v) == old(self).has_dir(v) by {}
            assert forall|v: VirtPageNum| self.tables_needed(v) == old(self).tables_needed(v) by {}
            assert forall|v: VirtPageNum| #[trigger]
                self.entry(v) == if Self::same_slot(v, vpn) {
                    PageTableEntry::spec_empty()
                } else {
                    old(self).entry(v)
                } by {}
        }
        Ok(())
    }

    /// The 512 empty slots of a root.
    fn empty_slots() -> (r: Vec<Option<MidTable>>)
        ensures
            r@.len() == 512,
            forall|i: int| 0 <= i < 512 ==> r@[i] is None,
    {
        let mut children: Vec<Option<MidTable>> = Vec::new();
        let mut i: usize = 0;
        while i < 512
            invariant
                0 <= i <= 512,
                children@.len() == i,
                forall|j: int| 0 <= j < i ==> children@[j] is None,
            decreases 512 - i,
        {
            children.push(None);
            i = i + 1;
        }
        children
    }

    /// A page table with a freshly allocated root and no directory below it.
    /// Fails exactly when the allocator has no frame left.
    pub fn new(allocator: &mut FrameAllocator) -> (r: MMResult<PageTable>)
        requires
            old(allocator).wf(),
        ensures
            final(allocator).wf(),
            final(allocator).first() == old(allocator).first(),
            final(allocator).limit() == old(allocator).limit(),
            r is Ok <==> old(allocator).free_count() > 0,
            r matches Ok(pt) ==> {
                &&& pt.wf()
                &&& pt.spec_root_ppn().0 == old(allocator).next()
                &&& pt.frames() == set![pt.spec_root_ppn().0]
                &&& !old(allocator).allocated().contains(pt.spec_root_ppn().0)
                &&& final(allocator).allocated() == old(allocator).allocated().insert(
                    pt.spec_root_ppn().0,
                )
                &&& final(allocator).free_count() == old(allocator).free_count() - 1
                &&& forall|v: VirtPageNum| !pt.has_dir(v)
                &&& forall|v: VirtPageNum| pt.entry(v) == PageTableEntry::spec_empty()
                &&& forall|v: VirtPageNum| pt.tables_needed(v) == 2
            },
            r matches Err(e) ==> e == MMError::NotEnoughMemory && *final(allocator) == *old(
                allocator,
            ),
    {
        match frame_alloc(allocator) {
            Some(frame) => {
                let pt = PageTable {
                    root_ppn: frame.ppn(),
                    root: Some(frame),
                    children: Self::empty_slots(),
                };
                proof {
                    assert forall|i: int, p: u64| 0 <= i < 512 implies !#[trigger] pt.owns_mid(
                        i,
                        p,
                    ) by {}
                    assert(pt.frames() =~= set![pt.spec_root_ppn().0]);
                    assert forall|v: VirtPageNum| !pt.has_dir(v) by {}
                    assert forall|v: VirtPageNum| pt.tables_needed(v) == 2 by {}
                }
                Ok(pt)
            },
            None => Err(MMError::NotEnoughMemory),
        }
    }

    /// A view of the address space that `token` selects. The view owns no
    /// frame, so releasing it frees nothing. It holds no directory either:
    /// a table owns its directories, and a token does not lead to them. So
    /// nothing can be read through the view, and every translation through
    /// it fails. The entries of an address space are read through the
    /// address space itself, as [`crate::mm::user_buffer`] does.
    pub fn from_token(token: u64) -> (r: PageTable)
        ensures
            r.wf(),
            r.spec_root_ppn().0 == token % PPN_LIMIT,
            r.frames() == Set::<u64>::empty(),
            forall|v: VirtPageNum| !r.has_dir(v),
            forall|v: VirtPageNum| r.entry(v) == PageTableEntry::spec_empty(),
    {
        assert(token & 0xfff_ffff_ffff == token % 0x1000_0000_0000) by (bit_vector);
        let pt = PageTable {
            root_ppn: PhysPageNum(token & 0xfff_ffff_ffff),
            root: None,
            children: Self::empty_slots(),
        };
        proof {
            assert forall|i: int, p: u64| 0 <= i < 512 implies !#[trigger] pt.owns_mid(i, p) by {}
            assert(pt.frames() =~= Set::<u64>::empty());
            assert forall|v: VirtPageNum| !pt.has_dir(v) by {}
        }
        pt
    }

    /// Installs the leaf entry `(ppn, flags | V)` for `vpn`, adding the
    /// directories on the way where they are absent. Nothing changes unless
    /// the call succeeds: it fails where the page has a valid entry already,
    /// and where the allocator cannot supply every node that is needed.
    pub fn map(
        &mut self,
        allocator: &mut FrameAllocator,
        vpn: VirtPageNum,
        ppn: PhysPageNum,
        flags: PTEFlags,
    ) -> (r: MMResult<()>)
        requires
            old(self).wf(),
            old(allocator).wf(),
        ensures
            final(self).wf(),
            final(allocator).wf(),
            final(allocator).first() == old(allocator).first(),
            final(allocator).limit() == old(allocator).limit(),
            r == old(self).map_result(old(allocator).free_count(), vpn),
            r is Err ==> *final(allocator) == *old(allocator) && *final(self) == *old(self),
            r is Ok ==> {
                &&& final(self).mapped_from(
                    old(self),
                    vpn,
                    PageTableEntry::spec_new(ppn, PTEFlags { bits: flags.bits | PTE_V }),
                    final(allocator).allocated().difference(old(allocator).allocated()),
                )
                &&& final(allocator).free_count() == old(allocator).free_count() - old(
                    self,
                ).tables_needed(vpn)
                &&& old(allocator).allocated().subset_of(final(allocator).allocated())
            },
    {
        let idx = vpn.indexes();
        let need: usize = match &self.children[idx[0]] {
            None => 2,
            Some(mid) => match &mid.children[idx[1]] {
                None => 1,
                Some(leaf) => {
                    if leaf.entries[idx[2]].is_valid() {
                        return Err(MMError::PageError(PageError::PageAlreadyMapped));
                    }
                    0
                },
            },
        };
        if allocator.remaining() < need {
            return Err(MMError::NotEnoughMemory);
        }
        let ghost i2 = idx[0] as int;
        let ghost i1 = idx[1] as int;
        let ghost i0 = idx[2] as int;
        let ghost pre = *old(self);
        let ghost alloc0 = old(allocator).allocated();
        if need == 2 {
            let frame = frame_alloc(allocator).unwrap();
            self.children[idx[0]] = Some(MidTable::new(frame));
        }
        let ghost mid0 = self.children@[i2]->0;
        let ghost alloc1 = allocator.allocated();
        match &mut self.children[idx[0]] {
            Some(mid) => {
                if need >= 1 {
                    let frame = frame_alloc(allocator).unwrap();
                    mid.children[idx[1]] = Some(LeafTable::new(frame));
                }
                let ghost leaf0 = mid.children@[i1]->0;
                match &mut mid.children[idx[1]] {
                    Some(leaf) => {
                        leaf.entries[idx[2]] = PageTableEntry::new(
                            ppn,
                            PTEFlags { bits: flags.bits | PTE_V },
                        );
                    },
                    None => {},
                }
            },
            None => {},
        }
        proof {
            let alloc2 = allocator.allocated();
            let mid1 = self.children@[i2]->0;
            let leaf1 = mid1.children@[i1]->0;
            assert(mid1.frame == mid0.frame);
            let fb: u8 = flags.bits;
            assert((fb | 1u8) % 2 == 1) by (bit_vector);
            assert(leaf1.wf());
            assert(mid1.wf());
            assert(self.wf());
            // the leaf tables of the directory on the way
            assert forall|j: int, p: u64|
                #![trigger mid1.owns_leaf(j, p)]
                #![trigger mid0.owns_leaf(j, p)]
                0 <= j < 512 implies mid1.owns_leaf(j, p) == (mid0.owns_leaf(j, p) || (j == i1
                && need >= 1 && p == leaf1.frame.ppn().0)) by {}
            assert(need >= 1 ==> mid1.owns_leaf(i1, leaf1.frame.ppn().0));
            assert(mid1.frames() =~= if need >= 1 {
                mid0.frames().insert(leaf1.frame.ppn().0)
            } else {
                mid0.frames()
            });
            if need == 2 {
                assert forall|j: int, p: u64| 0 <= j < 512 implies !#[trigger] mid0.owns_leaf(
                    j,
                    p,
                ) by {}
                assert(mid0.frames() =~= set![mid0.frame.ppn().0]);
            }
            assert forall|i: int, p: u64|
                #![trigger self.owns_mid(i, p)]
                #![trigger pre.owns_mid(i, p)]
                0 <= i < 512 implies self.owns_mid(i, p) == (pre.owns_mid(i, p) || (i == i2
                && alloc2.contains(p) && !alloc0.contains(p))) by {
                if i == i2 {
                    if need == 2 {
                    } else {
                        assert(mid0 == pre.children@[i2]->0);
                    }
                }
            }
            assert forall|p: u64| alloc2.contains(p) && !alloc0.contains(p) implies self.owns_mid(
                i2,
                p,
            ) by {}
            assert(self.frames() =~= pre.frames().union(alloc2.difference(alloc0)));
            assert forall|v: VirtPageNum| #[trigger]
                self.has_dir(v) == (pre.has_dir(v) || Self::same_leaf_table(v, vpn)) by {}
            assert forall|v: VirtPageNum| #[trigger]
                self.entry(v) == if Self::same_slot(v, vpn) {
                    PageTableEntry::spec_new(ppn, PTEFlags { bits: flags.bits | PTE_V })
                } else {
                    pre.entry(v)
                } by {}
        }
        Ok(())
    }

    /// Gives every frame that the table owns back to the allocator.
    pub fn release(self, allocator: &mut FrameAllocator)
        requires
            self.wf(),
            old(allocator).wf(),
        ensures
            final(allocator).wf(),
            final(allocator).first() == old(allocator).first(),
            final(allocator).limit() == old(allocator).limit(),
            final(allocator).allocated() == old(allocator).allocated().difference(self.frames()),
    {
        let ghost me = self;
        let ghost alloc0 = allocator.allocated();
        let PageTable { root_ppn: _, root, children } = self;
        let mut children = children;
        match root {
            Some(frame) => {
                frame_dealloc(allocator, frame);
            },
            None => {},
        }
        assert(allocator.allocated() =~= alloc0.difference(
            Set::new(
                |p: u64|
                    (me.root matches Some(f) && f.ppn().0 == p) || exists|i: int|
                        512 <= i < 512 && me.owns_mid(i, p),
            ),
        ));
        while children.len() > 0
            invariant
                me.wf(),
                children@.len() <= 512,
                children@ == me.children@.subrange(0, children@.len() as int),
                allocator.wf(),
                allocator.first() == old(allocator).first(),
                allocator.limit() == old(allocator).limit(),
                allocator.allocated() == alloc0.difference(
                    Set::new(
                        |p: u64|
                            (me.root matches Some(f) && f.ppn().0 == p) || exists|i: int|
                                children@.len() <= i < 512 && me.owns_mid(i, p),
                    ),
                ),
            decreases children@.len(),
        {
            let ghost n = children@.len() as int;
            let slot = children.pop().unwrap();
            assert(slot == me.children@[n - 1]);
            match slot {
                Some(mid) => {
                    mid.release(allocator);
                    assert forall|p: u64| mid.frames().contains(p) implies me.owns_mid(
                        n - 1,
                        p,
                    ) by {}
                    assert forall|i: int, p: u64| n - 1 <= i < 512 && me.owns_mid(i, p) implies (
                    mid.frames().contains(p) || (n <= i < 512 && me.owns_mid(i, p))) by {}
                },
                None => {
                    assert forall|i: int, p: u64| n - 1 <= i < 512 && me.owns_mid(i, p) implies (
                    n <= i < 512 && me.owns_mid(i, p)) by {}
                },
            }
            assert(allocator.allocated() =~= alloc0.difference(
                Set::new(
                    |p: u64|
                        (me.root matches Some(f) && f.ppn().0 == p) || exists|i: int|
                            n - 1 <= i < 512 && me.owns_mid(i, p),
                ),
            ));
        }
        assert(allocator.allocated() =~= alloc0.difference(me.frames()));
    }
}

} // verus!
