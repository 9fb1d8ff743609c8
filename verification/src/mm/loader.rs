//! Loading a program: the loadable segments of an ELF image, and the address
//! space that is built from them.

use vstd::prelude::*;
use vstd::bytes::{
    spec_u16_from_le_bytes,
    spec_u32_from_le_bytes,
    spec_u64_from_le_bytes,
    u16_from_le_bytes,
    u32_from_le_bytes,
    u64_from_le_bytes,
};
use crate::config::{PAGE_SIZE_U64, USER_STACK_SIZE};
use crate::mm::address::{VirtAddr, VA_LIMIT};
use crate::mm::flags::{MapPermission, MAP_R, MAP_U, MAP_W, MAP_X};
use crate::mm::frame_allocator::{FrameAllocator, FrameTracker};
use crate::mm::memory_area::{zero_page, MapArea, MapType};
use crate::mm::memory_set::MemorySet;
use crate::mm::page_table::PageTable;
use crate::mm::user_buffer::{byte_at, maps_range, segment_bounds, segment_count, user_bytes};

verus! {

/// The address of the trampoline page: the last page of the virtual
/// addresses.
pub const TRAMPOLINE: u64 = 0x7f_ffff_f000;

/// The address of the page that holds the trap context of a task: the page
/// below the trampoline.
pub const TRAP_CONTEXT: u64 = 0x7f_ffff_e000;

/// The address below which the segments of a program must end, so that a
/// guard page and the user stack fit between them and the trap context.
pub const USER_SPACE_TOP: u64 = 0x7f_ffff_b000;

/// The size of the header of an ELF image of 64 bits.
pub const ELF_HEADER_SIZE: usize = 64;

/// The size of a program header of an ELF image of 64 bits.
pub const ELF_PH_SIZE: usize = 56;

/// The type of a program header that describes a loadable segment.
pub const PT_LOAD: u32 = 1;

/// The flag of a segment that may be executed.
pub const PF_X: u32 = 1;

/// The flag of a segment that may be written.
pub const PF_W: u32 = 2;

/// The flag of a segment that may be read.
pub const PF_R: u32 = 4;

/// Why a program could not be loaded.
#[derive(Copy, Clone, Debug, PartialEq, Eq, Structural)]
pub enum LoadError {
    /// The image is not one that can be loaded.
    Invalid,
    /// The frame allocator has no frame left.
    NotEnoughMemory,
}

/// A program header of an ELF image, as far as loading reads it.
#[derive(Copy, Clone, Debug, PartialEq, Eq, Structural)]
pub struct ProgramHeader {
    pub p_type: u32,
    pub flags: u32,
    pub offset: u64,
    pub vaddr: u64,
    pub file_size: u64,
    pub mem_size: u64,
}

/// The 16-bit number that the image holds at `at`, low byte first.
pub open spec fn le16(elf: Seq<u8>, at: int) -> u16 {
    spec_u16_from_le_bytes(elf.subrange(at, at + 2))
}

/// The 32-bit number that the image holds at `at`, low byte first.
pub open spec fn le32(elf: Seq<u8>, at: int) -> u32 {
    spec_u32_from_le_bytes(elf.subrange(at, at + 4))
}

/// The 64-bit number that the image holds at `at`, low byte first.
pub open spec fn le64(elf: Seq<u8>, at: int) -> u64 {
    spec_u64_from_le_bytes(elf.subrange(at, at + 8))
}

/// Whether the image starts with the four bytes that mark an ELF image and
/// is long enough for a header.
pub open spec fn has_elf_header(elf: Seq<u8>) -> bool {
    &&& elf.len() >= ELF_HEADER_SIZE
    &&& elf[0] == 0x7f
    &&& elf[1] == 0x45
    &&& elf[2] == 0x4c
    &&& elf[3] == 0x46
}

/// The address at which the program starts.
pub open spec fn elf_entry(elf: Seq<u8>) -> u64 {
    le64(elf, 24)
}

/// The number of program headers.
pub open spec fn elf_ph_count(elf: Seq<u8>) -> int {
    le16(elf, 56) as int
}

/// The position of the program header number `i` in the image.
pub open spec fn elf_ph_at(elf: Seq<u8>, i: int) -> int {
    le64(elf, 32) + i * ELF_PH_SIZE
}

/// Whether the program header number `i` lies within the image.
pub open spec fn elf_ph_in_bounds(elf: Seq<u8>, i: int) -> bool {
    elf_ph_at(elf, i) + ELF_PH_SIZE <= elf.len()
}

/// The program header number `i`.
pub open spec fn elf_ph(elf: Seq<u8>, i: int) -> ProgramHeader {
    let at = elf_ph_at(elf, i);
    ProgramHeader {
        p_type: le32(elf, at),
        flags: le32(elf, at + 4),
        offset: le64(elf, at + 8),
        vaddr: le64(elf, at + 16),
        file_size: le64(elf, at + 32),
        mem_size: le64(elf, at + 40),
    }
}

/// Whether the loadable segment that `ph` describes can be loaded from the
/// image: its bytes lie within the image, it ends low enough for the user
/// stack to fit above it, and its bytes in the image take no more pages than
/// it has in memory.
pub open spec fn segment_ok(elf: Seq<u8>, ph: ProgramHeader) -> bool {
    &&& ph.offset + ph.file_size <= elf.len()
    &&& ph.vaddr + ph.mem_size <= USER_SPACE_TOP
    &&& MapArea::pages_of(ph.file_size as nat) <= VirtAddr(
        (ph.vaddr + ph.mem_size) as u64,
    ).spec_ceil().0 - VirtAddr(ph.vaddr).spec_floor().0
}

/// The permissions of the segment that `ph` describes: user access, and
/// reading, writing and executing as its flags say.
pub open spec fn segment_perm_bits(flags: u32) -> u8 {
    (MAP_U + if flags & PF_R != 0 {
        MAP_R
    } else {
        0u8
    } + if flags & PF_W != 0 {
        MAP_W
    } else {
        0u8
    } + if flags & PF_X != 0 {
        MAP_X
    } else {
        0u8
    }) as u8
}

/// Reads the 16-bit number at `at`.
fn read16(elf: &[u8], at: usize) -> (r: u16)
    requires
        at + 2 <= elf@.len(),
    ensures
        r == le16(elf@, at as int),
{
    let len: usize = elf.len();
    u16_from_le_bytes(vstd::slice::slice_subrange(elf, at, at + 2))
}

/// Reads the 32-bit number at `at`.
fn read32(elf: &[u8], at: usize) -> (r: u32)
    requires
        at + 4 <= elf@.len(),
    ensures
        r == le32(elf@, at as int),
{
    let len: usize = elf.len();
    u32_from_le_bytes(vstd::slice::slice_subrange(elf, at, at + 4))
}

/// Reads the 64-bit number at `at`.
fn read64(elf: &[u8], at: usize) -> (r: u64)
    requires
        at + 8 <= elf@.len(),
    ensures
        r == le64(elf@, at as int),
{
    let len: usize = elf.len();
    u64_from_le_bytes(vstd::slice::slice_subrange(elf, at, at + 8))
}

/// Reads the program header number `i` of the image; `None` where it does
/// not lie within the image.
pub fn read_program_header(elf: &[u8], i: usize) -> (r: Option<ProgramHeader>)
    requires
        has_elf_header(elf@),
        i < 0x1_0000,
    ensures
        r is Some == elf_ph_in_bounds(elf@, i as int),
        r matches Some(ph) ==> ph == elf_ph(elf@, i as int),
{
    let ph_off: u64 = read64(elf, 32);
    let len: usize = elf.len();
    if ph_off > len as u64 {
        return None;
    }
    let step: usize = i * ELF_PH_SIZE;
    if step > len - ph_off as usize {
        return None;
    }
    let at: usize = ph_off as usize + step;
    if len - at < ELF_PH_SIZE {
        return None;
    }
    Some(
        ProgramHeader {
            p_type: read32(elf, at),
            flags: read32(elf, at + 4),
            offset: read64(elf, at + 8),
            vaddr: read64(elf, at + 16),
            file_size: read64(elf, at + 32),
            mem_size: read64(elf, at + 40),
        },
    )
}

/// The permissions of a segment with the flags `flags`.
pub fn segment_perm(flags: u32) -> (r: MapPermission)
    ensures
        r.wf(),
        r.bits() == segment_perm_bits(flags),
{
    let mut bits: u8 = MAP_U;
    if flags & PF_R != 0 {
        bits = bits + MAP_R;
    }
    if flags & PF_W != 0 {
        bits = bits + MAP_W;
    }
    if flags & PF_X != 0 {
        bits = bits + MAP_X;
    }
    assert(bits & !0x1eu8 == 0) by (bit_vector)
        requires
            bits == 0x10 || bits == 0x12 || bits == 0x14 || bits == 0x16 || bits == 0x18 || bits
                == 0x1a || bits == 0x1c || bits == 0x1e,
    ;
    MapPermission::from_bits(bits).unwrap()
}

/// Whether the segment that `ph` describes can be loaded from the image.
pub fn check_segment(elf: &[u8], ph: &ProgramHeader) -> (r: bool)
    ensures
        r == segment_ok(elf@, *ph),
{
    if ph.offset > elf.len() as u64 || ph.file_size > elf.len() as u64 - ph.offset {
        return false;
    }
    if ph.vaddr > USER_SPACE_TOP || ph.mem_size > USER_SPACE_TOP - ph.vaddr {
        return false;
    }
    let first = VirtAddr(ph.vaddr).floor();
    let last = VirtAddr(ph.vaddr + ph.mem_size).ceil();
    let whole: u64 = ph.file_size / PAGE_SIZE_U64;
    let pages: u64 = if ph.file_size % PAGE_SIZE_U64 == 0 {
        whole
    } else {
        whole + 1
    };
    pages <= last.0 - first.0
}

/// An area that holds what was copied into a fresh area from `data`: the
/// pages that `data` takes have frames, each with its part of `data` and
/// zero bytes after it, and no other page has a frame.
pub open spec fn holds_image(area: &MapArea, data: Seq<u8>) -> bool {
    &&& forall|v: u64|
        #[trigger] area.frames().contains_key(v) <==> area.range().start() <= v
            < area.range().start() + MapArea::pages_of(data.len())
    &&& forall|v: u64| #[trigger]
        area.frames().contains_key(v) ==> area.frames()[v]@ == MapArea::page_after_copy(
            zero_page(),
            data,
            v - area.range().start(),
        )
}

/// Copying into an area without frames leaves an area that holds the
/// image of the data, in frames that were free before.
pub proof fn lemma_copy_into_fresh(
    pre: &MapArea,
    pre_pt: &PageTable,
    pre_alloc: &FrameAllocator,
    post: &MapArea,
    post_pt: &PageTable,
    post_alloc: &FrameAllocator,
    data: Seq<u8>,
)
    requires
        pre.frames() == Map::<u64, FrameTracker>::empty(),
        MapArea::copy_outcome(pre, pre_pt, pre_alloc, post, post_pt, post_alloc, data, Ok(())),
    ensures
        post.range() == pre.range(),
        post.spec_map_type() == pre.spec_map_type(),
        post.perm() == pre.perm(),
        holds_image(post, data),
        post.ppns().subset_of(post_alloc.allocated()),
        post.ppns().disjoint(pre_alloc.allocated()),
        post_pt.frames() == pre_pt.frames().union(
            post_alloc.allocated().difference(pre_alloc.allocated()).difference(post.ppns()),
        ),
        pre_alloc.allocated().subset_of(post_alloc.allocated()),
{
    let lo = pre.range().start();
    let hi = lo + MapArea::pages_of(data.len());
    let mid = choose|mid: MapArea|
        {
            &&& #[trigger] MapArea::ensured(
                pre,
                pre_pt,
                pre_alloc,
                &mid,
                post_pt,
                post_alloc,
                lo,
                hi,
            )
            &&& post.holds_data(&mid, data)
        };
    assert forall|v: u64| #[trigger] post.frames().contains_key(v) <==> lo <= v < hi by {
        assert(post.frames().dom().contains(v) == mid.frames().dom().contains(v));
        assert(mid.frames().contains_key(v) <==> pre.frames().contains_key(v) || lo <= v < hi);
    }
    assert forall|v: u64| #[trigger] post.frames().contains_key(v) implies post.frames()[v]@
        == MapArea::page_after_copy(zero_page(), data, v - lo) by {
        assert(mid.frames()[v]@ == zero_page());
    }
    MapArea::lemma_ensured_ppns(pre, pre_pt, pre_alloc, &mid, post_pt, post_alloc, lo, hi);
    assert(pre.ppns() =~= Set::<u64>::empty());
    assert(post.ppns() =~= mid.ppns()) by {
        assert forall|p: u64| post.ppns().contains(p) implies mid.ppns().contains(p) by {
            let v = choose|v: u64| #[trigger]
                post.frames().contains_key(v) && post.frames()[v].ppn().0 == p;
            assert(mid.frames().dom().contains(v));
            assert(mid.frames().contains_key(v) && mid.frames()[v].ppn().0 == p);
        }
        assert forall|p: u64| mid.ppns().contains(p) implies post.ppns().contains(p) by {
            let v = choose|v: u64| #[trigger]
                mid.frames().contains_key(v) && mid.frames()[v].ppn().0 == p;
            assert(post.frames().dom().contains(v));
            assert(post.frames().contains_key(v) && post.frames()[v].ppn().0 == p);
        }
    }
    assert(MapArea::fresh_ppns(pre, &mid, lo, hi) =~= post.ppns());
}

/// What was copied to the start of an area is what a read at the first
/// address of the area gives back: the bytes of `data`, and after them zero
/// bytes up to the end of the last page that `data` takes.
pub proof fn lemma_read_back(ms: &MemorySet, i: int, data: Seq<u8>)
    requires
        ms.wf(),
        0 <= i < ms.spec_areas().len(),
        holds_image(&ms.spec_areas()[i], data),
        MapArea::pages_of(data.len()) <= ms.spec_areas()[i].range().spec_len(),
        data.len() > 0,
    ensures
        ({
            let start = ms.spec_areas()[i].range().start() * 4096;
            let padded = MapArea::pages_of(data.len()) * 4096;
            &&& start + padded <= VA_LIMIT
            &&& forall|k: int| 0 <= k < padded ==> (#[trigger] byte_at(ms, start + k)) is Some
            &&& forall|k: int| 0 <= k < data.len() ==> #[trigger] byte_at(ms, start + k) == Some(data[k])
            &&& forall|k: int|
                data.len() <= k < padded ==> #[trigger] byte_at(ms, start + k) == Some(0u8)
        }),
{
    let area = ms.spec_areas()[i];
    let lo = area.range().start();
    let pages = MapArea::pages_of(data.len());
    let start = lo * 4096;
    let padded = pages * 4096;
    assert(area.wf());
    area.range().lemma_bounds();
    let last: u64 = (lo + pages - 1) as u64;
    assert(area.frames().contains_key(last)) by {
        assert(lo <= last < lo + pages);
    }
    assert(area.range().contains(last as int));
    assert forall|k: int| 0 <= k < padded implies (#[trigger] byte_at(ms, start + k)) is Some
        && byte_at(ms, start + k) == if k < data.len() {
        Some(data[k])
    } else {
        Some(0u8)
    } by {
        let a = start + k;
        let v: u64 = (a / 4096) as u64;
        assert(lo <= v < lo + pages);
        assert(area.frames().contains_key(v));
        assert(ms.holds_page(i, v));
        ms.lemma_page(i, v);
        let page = area.frames()[v]@;
        let n = v - lo;
        assert(page == MapArea::page_after_copy(zero_page(), data, n));
        assert(a % 4096 == k - n * 4096);
    }
}

/// The round trip of copying and reading. Where [`MapArea::copy_data`] has
/// copied `data` into an area that had no frame, and the area stands at the
/// position `i` of a well-formed address space, the buffer of the length of
/// `data` at the first address of the area lies in memory that frames back,
/// so that [`crate::mm::user_buffer::translated_byte_buffer`] can be called
/// for it; the bytes that a read of it gives are `data`; the page of its
/// segment `k` is page `k` of the area; and the bytes after `data` are zero
/// up to the end of the last page that `data` takes.
pub proof fn lemma_copy_round_trip(
    pre: &MapArea,
    pre_pt: &PageTable,
    pre_alloc: &FrameAllocator,
    ms: &MemorySet,
    i: int,
    post_alloc: &FrameAllocator,
    data: Seq<u8>,
    len: usize,
)
    requires
        ms.wf(),
        0 <= i < ms.spec_areas().len(),
        pre.frames() == Map::<u64, FrameTracker>::empty(),
        MapArea::copy_outcome(
            pre,
            pre_pt,
            pre_alloc,
            &ms.spec_areas()[i],
            &ms.table(),
            post_alloc,
            data,
            Ok(()),
        ),
        data.len() == len,
        len > 0,
        MapArea::pages_of(data.len()) <= pre.range().spec_len(),
    ensures
        ({
            let lo = pre.range().start();
            let start = (lo * 4096) as u64;
            &&& start == lo * 4096
            &&& maps_range(ms, start, len)
            &&& user_bytes(ms, start, len) == data
            &&& segment_count(start, len) == MapArea::pages_of(data.len())
            &&& forall|k: int|
                0 <= k < segment_count(start, len) ==> (#[trigger] segment_bounds(start, len, k)).0
                    == lo + k && ms.page((lo + k) as u64) == Some(
                    MapArea::page_after_copy(zero_page(), data, k),
                )
            &&& forall|k: int|
                len <= k < MapArea::pages_of(data.len()) * 4096 ==> #[trigger] byte_at(
                    ms,
                    start + k,
                ) == Some(0u8)
        }),
{
    let area = ms.spec_areas()[i];
    lemma_copy_into_fresh(pre, pre_pt, pre_alloc, &area, &ms.table(), post_alloc, data);
    lemma_read_back(ms, i, data);
    assert(area.wf());
    area.range().lemma_bounds();
    let lo = area.range().start();
    let pages = MapArea::pages_of(data.len());
    let start = (lo * 4096) as u64;
    assert(len <= pages * 4096 < len + 4096);
    assert forall|a: int| start <= a < start + len implies (#[trigger] byte_at(ms, a)) is Some by {
        assert(byte_at(ms, start + (a - start)) is Some);
    }
    assert(user_bytes(ms, start, len) =~= data);
    assert(segment_count(start, len) == pages);
    assert forall|k: int| 0 <= k < pages implies (#[trigger] segment_bounds(start, len, k)).0 == lo
        + k && ms.page((lo + k) as u64) == Some(
        MapArea::page_after_copy(zero_page(), data, k),
    ) by {
        let v: u64 = (lo + k) as u64;
        assert(area.frames().contains_key(v));
        assert(area.range().contains(v as int));
        assert(ms.holds_page(i, v));
        ms.lemma_page(i, v);
    }
}

impl MemorySet {
    /// Adds a framed area for the pages of `[start, end)` with the bytes
    /// `data` at its start, provided that no area holds one of its pages.
    /// After a failure the areas are those of before and every frame that
    /// was taken is accounted for.
    fn load_area(
        &mut self,
        allocator: &mut FrameAllocator,
        start: VirtAddr,
        end: VirtAddr,
        perm: MapPermission,
        data: &[u8],
        Ghost(before): Ghost<Set<u64>>,
    ) -> (r: Result<(), LoadError>)
        requires
            old(self).wf(),
            old(allocator).wf(),
            start.0 <= end.0 <= VA_LIMIT,
            perm.wf(),
            MapArea::pages_of(data@.len()) <= end.spec_ceil().0 - start.spec_floor().0,
            old(self).fresh_in(before, old(allocator).allocated()),
            old(self).owns(old(allocator).allocated()),
        ensures
            final(self).wf(),
            final(allocator).wf(),
            final(self).owns(final(allocator).allocated()),
            final(allocator).first() == old(allocator).first(),
            final(allocator).limit() == old(allocator).limit(),
            final(self).fresh_in(before, final(allocator).allocated()),
            final(self).table().spec_root_ppn() == old(self).table().spec_root_ppn(),
            r is Err ==> final(self).spec_areas() == old(self).spec_areas(),
            r == Err::<(), LoadError>(LoadError::Invalid) <==> !old(self).is_free_between(
                start.spec_floor().0 as int,
                end.spec_ceil().0 as int,
            ),
            r is Ok ==> {
                &&& final(self).spec_areas().len() == old(self).spec_areas().len() + 1
                &&& final(self).spec_areas().drop_last() == old(self).spec_areas()
                &&& final(self).spec_areas().last().range().start() == start.spec_floor().0
                &&& final(self).spec_areas().last().range().end() == end.spec_ceil().0
                &&& final(self).spec_areas().last().spec_map_type() is Framed
                &&& final(self).spec_areas().last().perm() == perm
                &&& holds_image(&final(self).spec_areas().last(), data@)
            },
            old(self).is_free_between(start.spec_floor().0 as int, end.spec_ceil().0 as int) && old(allocator).free_count() >= 3 * MapArea::pages_of(data@.len()) ==> r is Ok,
            r is Ok ==> final(allocator).free_count() >= old(allocator).free_count() - 3
                * MapArea::pages_of(data@.len()),
    {
        let ghost pre = *self;
        let area = MapArea::new(start, end, MapType::Framed, perm);
        if !self.check_free(area.get_range()) {
            return Err(LoadError::Invalid);
        }
        match self.push(allocator, area, Some(data)) {
            Ok(_) => {
                proof {
                    let new_area = self.spec_areas().last();
                    lemma_copy_into_fresh(
                        &area,
                        &pre.table(),
                        old(allocator),
                        &new_area,
                        &self.table(),
                        allocator,
                        data@,
                    );
                    assert(self.spec_areas() =~= pre.spec_areas().push(new_area));
                    Self::lemma_area_ppns_push(&pre, self, &new_area);
                    assert(allocator.allocated() =~= before.union(self.frames()));
                    assert(before.disjoint(self.frames()));
                }
                Ok(())
            },
            Err(_) => {
                proof {
                    assert(self.area_ppns() =~= pre.area_ppns());
                    assert(self.frames() =~= pre.frames().union(
                        allocator.allocated().difference(old(allocator).allocated()),
                    ));
                    assert(allocator.allocated() =~= before.union(self.frames()));
                }
                Err(LoadError::NotEnoughMemory)
            },
        }
    }

    /// Whether no area holds a page of `[lo, hi)`.
    pub open spec fn is_free_between(&self, lo: int, hi: int) -> bool {
        forall|i: int|
            0 <= i < self.spec_areas().len() ==> (#[trigger] self.spec_areas()[i]).range().start()
                >= self.spec_areas()[i].range().end() || lo >= hi
                || self.spec_areas()[i].range().end() <= lo || hi
                <= self.spec_areas()[i].range().start()
    }

    /// Whether the image can be loaded: it has the header of an ELF image,
    /// every program header lies within it, and every loadable segment can
    /// be loaded and shares no page with an earlier one.
    pub open spec fn loadable(elf: Seq<u8>) -> bool {
        &&& has_elf_header(elf)
        &&& forall|i: int| 0 <= i < elf_ph_count(elf) ==> #[trigger] elf_ph_in_bounds(elf, i)
        &&& forall|i: int|
            0 <= i < elf_ph_count(elf) && (#[trigger] elf_ph(elf, i)).p_type == PT_LOAD
                ==> segment_ok(elf, elf_ph(elf, i))
        &&& forall|i: int, j: int|
            0 <= i < j < elf_ph_count(elf) && (#[trigger] elf_ph(elf, i)).p_type == PT_LOAD && (
            #[trigger] elf_ph(elf, j)).p_type == PT_LOAD ==> Self::segments_apart(
                elf_ph(elf, i),
                elf_ph(elf, j),
            )
    }

    /// Whether the two segments share no page.
    pub open spec fn segments_apart(a: ProgramHeader, b: ProgramHeader) -> bool {
        let a_lo = VirtAddr(a.vaddr).spec_floor().0;
        let a_hi = VirtAddr((a.vaddr + a.mem_size) as u64).spec_ceil().0;
        let b_lo = VirtAddr(b.vaddr).spec_floor().0;
        let b_hi = VirtAddr((b.vaddr + b.mem_size) as u64).spec_ceil().0;
        a_lo >= a_hi || b_lo >= b_hi || a_hi <= b_lo || b_hi <= a_lo
    }

    /// The number of loadable segments among the first `n` program headers.
    pub open spec fn load_count(elf: Seq<u8>, n: int) -> int
        decreases n,
    {
        if n <= 0 {
            0
        } else {
            Self::load_count(elf, n - 1) + if elf_ph(elf, n - 1).p_type == PT_LOAD {
                1int
            } else {
                0int
            }
        }
    }

    /// The number of pages that the bytes of the loadable segments among the
    /// first `n` program headers take.
    pub open spec fn file_pages(elf: Seq<u8>, n: int) -> int
        decreases n,
    {
        if n <= 0 {
            0
        } else {
            Self::file_pages(elf, n - 1) + if elf_ph(elf, n - 1).p_type == PT_LOAD {
                MapArea::pages_of(elf_ph(elf, n - 1).file_size as nat)
            } else {
                0int
            }
        }
    }

    /// The pages that the segments take are no fewer among more program
    /// headers.
    pub proof fn lemma_file_pages(elf: Seq<u8>, m: int, n: int)
        requires
            0 <= m <= n,
        ensures
            0 <= Self::file_pages(elf, m) <= Self::file_pages(elf, n),
        decreases n,
    {
        if n > 0 {
            if m < n {
                Self::lemma_file_pages(elf, m, n - 1);
            } else {
                Self::lemma_file_pages(elf, m - 1, n - 1);
            }
        }
    }

    /// Whether the program header number `k` describes a loadable segment
    /// whose area stands at position `a`.
    pub open spec fn loaded_by(elf: Seq<u8>, k: int, a: int) -> bool {
        0 <= k && elf_ph(elf, k).p_type == PT_LOAD && Self::load_count(elf, k) == a
    }

    /// Whether every area ends at or before the page `max_end` and stands
    /// for a loadable segment among the first `n` program headers.
    pub open spec fn areas_traced(ms: &MemorySet, elf: Seq<u8>, n: int, max_end: u64) -> bool {
        forall|a: int|
            0 <= a < ms.spec_areas().len() ==> #[trigger] Self::area_traced(ms, elf, n, max_end, a)
    }

    /// Whether the area at position `a` ends at or before the page `max_end`
    /// and stands for a loadable segment among the first `n` program
    /// headers.
    pub open spec fn area_traced(ms: &MemorySet, elf: Seq<u8>, n: int, max_end: u64, a: int) -> bool {
        ms.spec_areas()[a].range().end() <= max_end && exists|k: int|
            k < n && #[trigger] Self::loaded_by(elf, k, a)
    }

    /// Whether the area is that of the loadable segment that `ph` describes:
    /// a framed area for the pages of the segment, with the permissions that
    /// its flags give, that holds the bytes of the segment.
    pub open spec fn is_segment(area: &MapArea, elf: Seq<u8>, ph: ProgramHeader) -> bool {
        &&& area.range().start() == VirtAddr(ph.vaddr).spec_floor().0
        &&& area.range().end() == VirtAddr((ph.vaddr + ph.mem_size) as u64).spec_ceil().0
        &&& area.spec_map_type() is Framed
        &&& area.perm().bits() == segment_perm_bits(ph.flags)
        &&& holds_image(area, elf.subrange(ph.offset as int, ph.offset + ph.file_size))
    }

    /// Whether the address space is that of the program `elf` with its user
    /// stack ending at `user_sp`: for each loadable segment, in the order of
    /// the program headers, the area of the segment; after them the user
    /// stack, the empty heap at its top, and the page of the trap context.
    pub open spec fn is_program(&self, elf: Seq<u8>, user_sp: u64) -> bool {
        let n = Self::load_count(elf, elf_ph_count(elf));
        &&& self.spec_areas().len() == n + 3
        &&& forall|i: int|
            0 <= i < elf_ph_count(elf) && (#[trigger] elf_ph(elf, i)).p_type == PT_LOAD
                ==> Self::is_segment(
                &self.spec_areas()[Self::load_count(elf, i)],
                elf,
                elf_ph(elf, i),
            )
        &&& Self::is_stack(&self.spec_areas()[n], user_sp)
        &&& Self::is_empty_area(&self.spec_areas()[n + 1], user_sp)
        &&& Self::is_trap_context(&self.spec_areas()[n + 2])
        &&& user_sp % PAGE_SIZE_U64 == 0
        &&& user_sp <= TRAP_CONTEXT
    }

    /// The address space of a program: for each loadable segment of the
    /// image, in the order of the program headers, a framed area with the
    /// bytes of the segment; above the last of them and a guard page, the
    /// user stack; at the top of the stack the heap, empty at first; and
    /// below the trampoline the page of the trap context. With the address
    /// space come the top of the user stack and the address at which the
    /// program starts. Every frame that was taken is given back before a
    /// failure is reported.
    pub fn from_elf(allocator: &mut FrameAllocator, elf_data: &[u8]) -> (r: Result<
        (MemorySet, u64, u64),
        LoadError,
    >)
        requires
            old(allocator).wf(),
        ensures
            final(allocator).wf(),
            final(allocator).first() == old(allocator).first(),
            final(allocator).limit() == old(allocator).limit(),
            r is Err ==> final(allocator).allocated() == old(allocator).allocated(),
            !Self::loadable(elf_data@) ==> r is Err,
            r == Err::<(MemorySet, u64, u64), LoadError>(LoadError::Invalid) ==> !Self::loadable(
                elf_data@,
            ),
            Self::loadable(elf_data@) && old(allocator).free_count() >= 1 + 3 * Self::file_pages(
                elf_data@,
                elf_ph_count(elf_data@),
            ) ==> r is Ok,
            r matches Ok((ms, user_sp, entry)) ==> {
                &&& Self::loadable(elf_data@)
                &&& ms.wf()
                &&& ms.fresh_in(old(allocator).allocated(), final(allocator).allocated())
                &&& ms.owns(final(allocator).allocated())
                &&& entry == elf_entry(elf_data@)
                &&& ms.is_program(elf_data@, user_sp)
            },
    {
        let ghost before = allocator.allocated();
        if elf_data.len() < ELF_HEADER_SIZE || elf_data[0] != 0x7f || elf_data[1] != 0x45
            || elf_data[2] != 0x4c || elf_data[3] != 0x46 {
            return Err(LoadError::Invalid);
        }
        let total: usize = elf_data.len();
        let entry: u64 = read64(elf_data, 24);
        let ph_count: usize = read16(elf_data, 56) as usize;
        let mut ms = match MemorySet::new_bare(allocator) {
            Ok(ms) => ms,
            Err(_) => {
                proof {
                    Self::lemma_file_pages(elf_data@, 0, elf_ph_count(elf_data@));
                }
                return Err(LoadError::NotEnoughMemory);
            },
        };
        proof {
            assert(ms.area_ppns() =~= Set::<u64>::empty());
            assert(ms.frames() =~= set![old(allocator).next()]);
            assert(allocator.allocated() =~= before.union(ms.frames()));
        }
        let mut max_end: u64 = 0;
        let mut i: usize = 0;
        while i < ph_count
            invariant
                has_elf_header(elf_data@),
                ph_count == elf_ph_count(elf_data@),
                0 <= i <= ph_count,
                ms.wf(),
                allocator.wf(),
                allocator.first() == old(allocator).first(),
                allocator.limit() == old(allocator).limit(),
                before == old(allocator).allocated(),
                ms.fresh_in(before, allocator.allocated()),
                ms.owns(allocator.allocated()),
                max_end <= USER_SPACE_TOP / PAGE_SIZE_U64,
                elf_data@.len() <= usize::MAX,
                allocator.free_count() >= old(allocator).free_count() - 1 - 3 * Self::file_pages(
                    elf_data@,
                    i as int,
                ),
                Self::file_pages(elf_data@, i as int) >= 0,
                ms.spec_areas().len() == Self::load_count(elf_data@, i as int),
                forall|k: int| 0 <= k < i ==> #[trigger] elf_ph_in_bounds(elf_data@, k),
                forall|k: int|
                    0 <= k < i && (#[trigger] elf_ph(elf_data@, k)).p_type == PT_LOAD
                        ==> segment_ok(elf_data@, elf_ph(elf_data@, k)) && Self::is_segment(
                        &ms.spec_areas()[Self::load_count(elf_data@, k)],
                        elf_data@,
                        elf_ph(elf_data@, k),
                    ) && 0 <= Self::load_count(elf_data@, k) < ms.spec_areas().len(),
                forall|k: int, j: int|
                    0 <= k < j < i && (#[trigger] elf_ph(elf_data@, k)).p_type == PT_LOAD && (
                    #[trigger] elf_ph(elf_data@, j)).p_type == PT_LOAD ==> Self::segments_apart(
                        elf_ph(elf_data@, k),
                        elf_ph(elf_data@, j),
                    ),
                Self::areas_traced(&ms, elf_data@, i as int, max_end),
            decreases ph_count - i,
        {
            let ph = match read_program_header(elf_data, i) {
                Some(ph) => ph,
                None => {
                    ms.release_fresh(allocator, Ghost(before));
                    return Err(LoadError::Invalid);
                },
            };
            if ph.p_type == PT_LOAD {
                if !check_segment(elf_data, &ph) {
                    ms.release_fresh(allocator, Ghost(before));
                    return Err(LoadError::Invalid);
                }
                let start = VirtAddr(ph.vaddr);
                let end = VirtAddr(ph.vaddr + ph.mem_size);
                let perm = segment_perm(ph.flags);
                let data = vstd::slice::slice_subrange(
                    elf_data,
                    ph.offset as usize,
                    (ph.offset + ph.file_size) as usize,
                );
                let ghost mid = ms;
                proof {
                    Self::lemma_file_pages(elf_data@, i + 1, elf_ph_count(elf_data@));
                    Self::lemma_file_pages(elf_data@, i as int, i + 1);
                    if Self::loadable(elf_data@) {
                        assert forall|a: int| 0 <= a < mid.spec_areas().len() implies (
                        #[trigger] mid.spec_areas()[a]).range().start()
                            >= mid.spec_areas()[a].range().end() || start.spec_floor().0
                            >= end.spec_ceil().0 || mid.spec_areas()[a].range().end()
                            <= start.spec_floor().0 || end.spec_ceil().0
                            <= mid.spec_areas()[a].range().start() by {
                            assert(Self::area_traced(&mid, elf_data@, i as int, max_end, a));
                            let k = choose|k: int|
                                k < i && #[trigger] Self::loaded_by(elf_data@, k, a);
                            assert(Self::is_segment(
                                &mid.spec_areas()[a],
                                elf_data@,
                                elf_ph(elf_data@, k),
                            ));
                            assert(Self::segments_apart(
                                elf_ph(elf_data@, k),
                                elf_ph(elf_data@, i as int),
                            ));
                        }
                    }
                }
                match ms.load_area(allocator, start, end, perm, data, Ghost(before)) {
                    Ok(_) => {},
                    Err(e) => {
                        proof {
                            if e == LoadError::Invalid {
                                let lo = start.spec_floor().0 as int;
                                let hi = end.spec_ceil().0 as int;
                                let a = choose|a: int|
                                    0 <= a < mid.spec_areas().len() && !((
                                    #[trigger] mid.spec_areas()[a]).range().start()
                                        >= mid.spec_areas()[a].range().end() || lo >= hi
                                        || mid.spec_areas()[a].range().end() <= lo || hi
                                        <= mid.spec_areas()[a].range().start());
                                assert(Self::area_traced(&mid, elf_data@, i as int, max_end, a));
                                let k = choose|k: int|
                                    k < i && #[trigger] Self::loaded_by(elf_data@, k, a);
                                assert(Self::is_segment(
                                    &mid.spec_areas()[a],
                                    elf_data@,
                                    elf_ph(elf_data@, k),
                                ));
                                assert(!Self::segments_apart(
                                    elf_ph(elf_data@, k),
                                    elf_ph(elf_data@, i as int),
                                ));
                            }
                        }
                        ms.release_fresh(allocator, Ghost(before));
                        return Err(e);
                    },
                }
                let ghost before_end = max_end;
                let end_vpn: u64 = end.ceil().0;
                if end_vpn > max_end {
                    max_end = end_vpn;
                }
                proof {
                    let n0 = Self::load_count(elf_data@, i as int);
                    assert(ms.spec_areas().drop_last() == mid.spec_areas());
                    assert forall|k: int|
                        0 <= k < i + 1 && (#[trigger] elf_ph(elf_data@, k)).p_type
                            == PT_LOAD implies segment_ok(elf_data@, elf_ph(elf_data@, k))
                        && Self::is_segment(
                        &ms.spec_areas()[Self::load_count(elf_data@, k)],
                        elf_data@,
                        elf_ph(elf_data@, k),
                    ) && 0 <= Self::load_count(elf_data@, k) < ms.spec_areas().len() by {
                        if k < i {
                            let a = Self::load_count(elf_data@, k);
                            assert(ms.spec_areas()[a] == ms.spec_areas().drop_last()[a]);
                        } else {
                            assert(ms.spec_areas()[n0] == ms.spec_areas().last());
                        }
                    }
                    assert forall|k: int, j: int|
                        0 <= k < j < i + 1 && (#[trigger] elf_ph(elf_data@, k)).p_type == PT_LOAD
                            && (#[trigger] elf_ph(elf_data@, j)).p_type
                            == PT_LOAD implies Self::segments_apart(
                        elf_ph(elf_data@, k),
                        elf_ph(elf_data@, j),
                    ) by {
                        if j == i {
                            let a = Self::load_count(elf_data@, k);
                            assert(Self::is_segment(
                                &mid.spec_areas()[a],
                                elf_data@,
                                elf_ph(elf_data@, k),
                            ));
                            assert(mid.is_free_between(
                                start.spec_floor().0 as int,
                                end.spec_ceil().0 as int,
                            ));
                        }
                    }
                    assert forall|a: int| 0 <= a < ms.spec_areas().len() implies #[trigger]
                        Self::area_traced(&ms, elf_data@, i + 1, max_end, a) by {
                        if a < n0 {
                            assert(ms.spec_areas()[a] == mid.spec_areas()[a]);
                            assert(Self::area_traced(&mid, elf_data@, i as int, before_end, a));
                            let k = choose|k: int|
                                k < i && #[trigger] Self::loaded_by(elf_data@, k, a);
                            assert(k < i + 1 && Self::loaded_by(elf_data@, k, a));
                        } else {
                            assert(ms.spec_areas()[a] == ms.spec_areas().last());
                            assert(i < i + 1 && Self::loaded_by(elf_data@, i as int, a));
                        }
                    }
                    assert(Self::areas_traced(&ms, elf_data@, i + 1, max_end));
                }
            } else {
                proof {
                    assert forall|a: int| 0 <= a < ms.spec_areas().len() implies #[trigger]
                        Self::area_traced(&ms, elf_data@, i + 1, max_end, a) by {
                        assert(Self::area_traced(&ms, elf_data@, i as int, max_end, a));
                        let k = choose|k: int|
                            k < i && #[trigger] Self::loaded_by(elf_data@, k, a);
                        assert(k < i + 1 && Self::loaded_by(elf_data@, k, a));
                    }
                    assert(Self::areas_traced(&ms, elf_data@, i + 1, max_end));
                }
            }
            i = i + 1;
        }
        let ghost n = Self::load_count(elf_data@, ph_count as int);
        let ghost loaded = ms;
        // the user stack, above a guard page
        let stack_bottom: u64 = (max_end + 1) * PAGE_SIZE_U64;
        let stack_top: u64 = stack_bottom + USER_STACK_SIZE as u64;
        proof {
            assert forall|a: int| 0 <= a < ms.spec_areas().len() implies (
            #[trigger] ms.spec_areas()[a]).range().end() <= max_end by {
                assert(Self::area_traced(&ms, elf_data@, ph_count as int, max_end, a));
            }
            assert(ms.is_free_between(
                VirtAddr(stack_bottom).spec_floor().0 as int,
                VirtAddr(stack_top).spec_ceil().0 as int,
            ));
        }
        assert(6u32 & 4u32 != 0 && 6u32 & 2u32 != 0 && 6u32 & 1u32 == 0) by (bit_vector);
        let rw = segment_perm(6);
        let empty: [u8; 0] = [];
        let none = empty.as_slice();
        match ms.load_area(
            allocator,
            VirtAddr(stack_bottom),
            VirtAddr(stack_top),
            rw,
            none,
            Ghost(before),
        ) {
            Ok(_) => {},
            Err(_) => {
                ms.release_fresh(allocator, Ghost(before));
                return Err(LoadError::NotEnoughMemory);
            },
        }
        let ghost with_stack = ms;
        proof {
            assert(with_stack.spec_areas().drop_last() == loaded.spec_areas());
            assert forall|a: int| 0 <= a < ms.spec_areas().len() implies (
            #[trigger] ms.spec_areas()[a]).range().end() <= max_end + 3 by {
                if a < loaded.spec_areas().len() {
                    assert(ms.spec_areas()[a] == ms.spec_areas().drop_last()[a]);
                    assert(Self::area_traced(&loaded, elf_data@, ph_count as int, max_end, a));
                } else {
                    assert(ms.spec_areas()[a] == ms.spec_areas().last());
                }
            }
        }
        match ms.load_area(
            allocator,
            VirtAddr(stack_top),
            VirtAddr(stack_top),
            rw,
            none,
            Ghost(before),
        ) {
            Ok(_) => {},
            Err(_) => {
                ms.release_fresh(allocator, Ghost(before));
                return Err(LoadError::NotEnoughMemory);
            },
        }
        let ghost with_heap = ms;
        proof {
            assert(with_heap.spec_areas().drop_last() == with_stack.spec_areas());
            assert forall|a: int| 0 <= a < ms.spec_areas().len() implies (
            #[trigger] ms.spec_areas()[a]).range().end() <= max_end + 3 by {
                if a < with_stack.spec_areas().len() {
                    assert(ms.spec_areas()[a] == ms.spec_areas().drop_last()[a]);
                    assert(with_stack.spec_areas()[a].range().end() <= max_end + 3);
                } else {
                    assert(ms.spec_areas()[a] == ms.spec_areas().last());
                }
            }
            assert(ms.is_free_between(
                VirtAddr(TRAP_CONTEXT).spec_floor().0 as int,
                VirtAddr(TRAMPOLINE).spec_ceil().0 as int,
            ));
        }
        assert(6u8 & !0x1eu8 == 0) by (bit_vector);
        let kernel_rw = MapPermission::from_bits(MAP_R + MAP_W).unwrap();
        match ms.load_area(
            allocator,
            VirtAddr(TRAP_CONTEXT),
            VirtAddr(TRAMPOLINE),
            kernel_rw,
            none,
            Ghost(before),
        ) {
            Ok(_) => {},
            Err(_) => {
                ms.release_fresh(allocator, Ghost(before));
                return Err(LoadError::NotEnoughMemory);
            },
        }
        proof {
            assert(with_stack.spec_areas().drop_last() == loaded.spec_areas());
            assert(with_heap.spec_areas().drop_last() == with_stack.spec_areas());
            assert(ms.spec_areas().drop_last() == with_heap.spec_areas());
            assert(ms.spec_areas()[n + 2] == ms.spec_areas().last());
            assert(none@.len() == 0);
            assert(ms.spec_areas().last().frames() =~= Map::<u64, FrameTracker>::empty());
            assert(with_heap.spec_areas().last().frames() =~= Map::<u64, FrameTracker>::empty());
            assert(with_stack.spec_areas().last().frames() =~= Map::<u64, FrameTracker>::empty());
            assert(ms.spec_areas()[n + 1] == with_heap.spec_areas().last());
            assert(ms.spec_areas()[n] == with_stack.spec_areas().last()) by {
                assert(ms.spec_areas()[n] == with_heap.spec_areas()[n]);
                assert(with_heap.spec_areas()[n] == with_stack.spec_areas()[n]);
            }
            assert forall|k: int|
                0 <= k < elf_ph_count(elf_data@) && (#[trigger] elf_ph(elf_data@, k)).p_type
                    == PT_LOAD implies Self::is_segment(
                &ms.spec_areas()[Self::load_count(elf_data@, k)],
                elf_data@,
                elf_ph(elf_data@, k),
            ) by {
                let a = Self::load_count(elf_data@, k);
                assert(ms.spec_areas()[a] == with_heap.spec_areas()[a]);
                assert(with_heap.spec_areas()[a] == with_stack.spec_areas()[a]);
                assert(with_stack.spec_areas()[a] == loaded.spec_areas()[a]);
            }
        }
        Ok((ms, stack_top, entry))
    }

    /// Whether the area is the user stack that ends at `user_sp`: a framed
    /// area of the size of a user stack, readable and writable by the user,
    /// with no page materialized.
    pub open spec fn is_stack(area: &MapArea, user_sp: u64) -> bool {
        &&& area.range().end() * PAGE_SIZE_U64 == user_sp
        &&& area.range().start() * PAGE_SIZE_U64 + USER_STACK_SIZE == user_sp
        &&& area.spec_map_type() is Framed
        &&& area.perm().bits() == MAP_R + MAP_W + MAP_U
        &&& area.frames() == Map::<u64, FrameTracker>::empty()
    }

    /// Whether the area is the empty framed area at `addr`, readable and
    /// writable by the user: the heap of a program that has not grown yet.
    pub open spec fn is_empty_area(area: &MapArea, addr: u64) -> bool {
        &&& area.range().start() * PAGE_SIZE_U64 == addr
        &&& area.range().end() * PAGE_SIZE_U64 == addr
        &&& area.spec_map_type() is Framed
        &&& area.perm().bits() == MAP_R + MAP_W + MAP_U
        &&& area.frames() == Map::<u64, FrameTracker>::empty()
    }

    /// Whether the area is the page of the trap context: a framed area of
    /// one page below the trampoline, readable and writable by the kernel
    /// only, with its page not materialized.
    pub open spec fn is_trap_context(area: &MapArea) -> bool {
        &&& area.range().start() * PAGE_SIZE_U64 == TRAP_CONTEXT
        &&& area.range().end() * PAGE_SIZE_U64 == TRAMPOLINE
        &&& area.spec_map_type() is Framed
        &&& area.perm().bits() == MAP_R + MAP_W
        &&& area.frames() == Map::<u64, FrameTracker>::empty()
    }

    /// Gives back every frame of an address space whose frames were all
    /// taken since the frames `before` were handed out.
    pub(crate) fn release_fresh(
        self,
        allocator: &mut FrameAllocator,
        Ghost(before): Ghost<Set<u64>>,
    )
        requires
            self.wf(),
            old(allocator).wf(),
            self.fresh_in(before, old(allocator).allocated()),
        ensures
            final(allocator).wf(),
            final(allocator).first() == old(allocator).first(),
            final(allocator).limit() == old(allocator).limit(),
            final(allocator).allocated() == before,
    {
        proof {
            assert(allocator.allocated().difference(self.area_ppns()).difference(
                self.table().frames(),
            ) =~= before);
        }
        self.release(allocator);
    }
}

} // verus!
