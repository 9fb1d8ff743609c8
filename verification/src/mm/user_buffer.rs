//! The bridge between user pointers and the frames behind them: a buffer in
//! user memory as a list of slices of pages, and reading and writing
//! through it.

use vstd::prelude::*;
use crate::config::{PAGE_SIZE, PAGE_SIZE_U64};
use crate::mm::address::{PhysPageNum, VirtAddr, VirtPageNum, VA_LIMIT};
use crate::mm::memory_set::MemorySet;

verus! {

/// A slice of one page of user memory: the bytes `[start, end)` of the page
/// `vpn`, which the frame `ppn` backs.
#[derive(Copy, Clone, Debug, PartialEq, Eq, Structural)]
pub struct Segment {
    pub vpn: VirtPageNum,
    pub ppn: PhysPageNum,
    pub start: usize,
    pub end: usize,
}

/// A buffer in user memory, as the slices of pages that it is made of.
pub struct UserBuffer {
    pub buffers: Vec<Segment>,
}

impl UserBuffer {
    /// The number of bytes in the slices of `segments`.
    pub open spec fn total(segments: Seq<Segment>) -> int
        decreases segments.len(),
    {
        if segments.len() == 0 {
            0
        } else {
            Self::total(segments.drop_last()) + (segments.last().end - segments.last().start)
        }
    }

    /// The buffer made of the slices `buffers`.
    pub fn new(buffers: Vec<Segment>) -> (r: UserBuffer)
        ensures
            r.buffers == buffers,
    {
        UserBuffer { buffers }
    }

    /// The number of bytes of the buffer. Where the sum does not fit in a
    /// machine word, the largest word comes back.
    pub fn len(&self) -> (r: usize)
        requires
            forall|k: int|
                0 <= k < self.buffers@.len() ==> (#[trigger] self.buffers@[k]).start
                    <= self.buffers@[k].end,
        ensures
            r == Self::total(self.buffers@) || (r == usize::MAX && Self::total(self.buffers@)
                > usize::MAX),
    {
        let mut total: usize = 0;
        let mut i: usize = 0;
        while i < self.buffers.len()
            invariant
                0 <= i <= self.buffers@.len(),
                forall|k: int|
                    0 <= k < self.buffers@.len() ==> (#[trigger] self.buffers@[k]).start
                        <= self.buffers@[k].end,
                total == Self::total(self.buffers@.take(i as int)),
            decreases self.buffers@.len() - i,
        {
            let n: usize = self.buffers[i].end - self.buffers[i].start;
            proof {
                assert(self.buffers@.take(i + 1).drop_last() =~= self.buffers@.take(i as int));
                Self::lemma_total_grows(self.buffers@, i + 1);
            }
            if n > usize::MAX - total {
                return usize::MAX;
            }
            total = total + n;
            i = i + 1;
        }
        assert(self.buffers@.take(i as int) =~= self.buffers@);
        total
    }

    /// The bytes of a longer list of slices are at least those of each of
    /// its beginnings.
    pub proof fn lemma_total_grows(segments: Seq<Segment>, n: int)
        requires
            0 <= n <= segments.len(),
            forall|k: int| 0 <= k < segments.len() ==> (#[trigger] segments[k]).start <= segments[k].end,
        ensures
            0 <= Self::total(segments.take(n)) <= Self::total(segments),
        decreases segments.len() - n,
    {
        if n == segments.len() {
            assert(segments.take(n) =~= segments);
            Self::lemma_total_nonneg(segments);
        } else {
            Self::lemma_total_grows(segments, n + 1);
            assert(segments.take(n + 1).drop_last() =~= segments.take(n));
            Self::lemma_total_nonneg(segments.take(n));
        }
    }

    /// A list of slices has no negative number of bytes.
    pub proof fn lemma_total_nonneg(segments: Seq<Segment>)
        requires
            forall|k: int| 0 <= k < segments.len() ==> (#[trigger] segments[k]).start <= segments[k].end,
        ensures
            0 <= Self::total(segments),
        decreases segments.len(),
    {
        if segments.len() > 0 {
            Self::lemma_total_nonneg(segments.drop_last());
        }
    }
}

/// The byte at the address `addr` of the address space, where a frame backs
/// its page.
pub open spec fn byte_at(ms: &MemorySet, addr: int) -> Option<u8> {
    match ms.page((addr / PAGE_SIZE as int) as u64) {
        Some(bytes) => Some(bytes[addr % PAGE_SIZE as int]),
        None => None,
    }
}

/// Whether every byte of `[ptr, ptr + len)` lies within the virtual
/// addresses, on a page that a frame backs.
pub open spec fn maps_range(ms: &MemorySet, ptr: u64, len: usize) -> bool {
    &&& ptr + len <= VA_LIMIT
    &&& forall|a: int| ptr <= a < ptr + len ==> (#[trigger] byte_at(ms, a)) is Some
}

/// The bytes of `[ptr, ptr + len)`.
pub open spec fn user_bytes(ms: &MemorySet, ptr: u64, len: usize) -> Seq<u8> {
    Seq::new(len as nat, |i: int| byte_at(ms, ptr + i)->0)
}

/// The slice of the page `k` pages after that of `ptr` which the buffer
/// `[ptr, ptr + len)` takes.
pub open spec fn segment_bounds(ptr: u64, len: usize, k: int) -> (int, int, int) {
    let vpn = ptr / PAGE_SIZE_U64 + k;
    let lo = if ptr >= vpn * PAGE_SIZE {
        ptr as int
    } else {
        vpn * PAGE_SIZE
    };
    let hi = if ptr + len <= (vpn + 1) * PAGE_SIZE {
        ptr + len
    } else {
        (vpn + 1) * PAGE_SIZE
    };
    (vpn, lo - vpn * PAGE_SIZE, hi - vpn * PAGE_SIZE)
}

/// The number of pages that the buffer `[ptr, ptr + len)` touches.
pub open spec fn segment_count(ptr: u64, len: usize) -> int {
    if len == 0 {
        0
    } else {
        (ptr + len - 1) / PAGE_SIZE as int - ptr / PAGE_SIZE_U64 + 1
    }
}

/// Whether every byte of `[ptr, ptr + len)` lies within the virtual
/// addresses, on a page that a frame backs.
pub fn check_user_range(ms: &MemorySet, ptr: u64, len: usize) -> (r: bool)
    requires
        ms.wf(),
    ensures
        r == maps_range(ms, ptr, len),
{
    if ptr > VA_LIMIT || len as u64 > VA_LIMIT - ptr {
        return false;
    }
    let end: u64 = ptr + len as u64;
    let mut cur: u64 = ptr;
    while cur < end
        invariant
            ms.wf(),
            ptr <= cur <= end,
            end == ptr + len,
            end <= VA_LIMIT,
            forall|a: int| ptr <= a < cur ==> (#[trigger] byte_at(ms, a)) is Some,
        decreases end - cur,
    {
        let vpn = VirtAddr(cur).floor();
        if ms.find_page(vpn).is_none() {
            assert(byte_at(ms, cur as int) is None);
            return false;
        }
        let next: u64 = (vpn.0 + 1) * PAGE_SIZE_U64;
        proof {
            assert forall|a: int| cur <= a < next implies (#[trigger] byte_at(ms, a)) is Some by {
                assert(a / PAGE_SIZE as int == vpn.0);
            }
        }
        cur = if next < end {
            next
        } else {
            end
        };
    }
    true
}

/// The slices of pages that the buffer `[ptr, ptr + len)` is made of, in
/// ascending order: one for each page that the buffer touches, each with the
/// frame that the page table names for the page.
pub fn translated_byte_buffer(ms: &MemorySet, ptr: u64, len: usize) -> (r: Vec<Segment>)
    requires
        ms.wf(),
        maps_range(ms, ptr, len),
    ensures
        r@.len() == segment_count(ptr, len),
        forall|k: int|
            0 <= k < r@.len() ==> {
                &&& (#[trigger] r@[k]).vpn.0 == segment_bounds(ptr, len, k).0
                &&& r@[k].start == segment_bounds(ptr, len, k).1
                &&& r@[k].end == segment_bounds(ptr, len, k).2
                &&& r@[k].start < r@[k].end <= PAGE_SIZE
                &&& r@[k].ppn == ms.table().entry(r@[k].vpn).spec_ppn()
                &&& ms.page(r@[k].vpn.0) is Some
            },
        UserBuffer::total(r@) == len,
{
    let mut v: Vec<Segment> = Vec::new();
    let end: u64 = ptr + len as u64;
    let mut cur: u64 = ptr;
    let ghost first = ptr / PAGE_SIZE_U64;
    while cur < end
        invariant
            ms.wf(),
            maps_range(ms, ptr, len),
            ptr <= cur <= end,
            end == ptr + len,
            first == ptr / PAGE_SIZE_U64,
            cur == ptr || cur == end || cur % PAGE_SIZE_U64 == 0,
            v@.len() == if cur == ptr {
                0
            } else {
                (cur - 1) / PAGE_SIZE as int - first + 1
            },
            forall|k: int|
                0 <= k < v@.len() ==> {
                    &&& (#[trigger] v@[k]).vpn.0 == segment_bounds(ptr, len, k).0
                    &&& v@[k].start == segment_bounds(ptr, len, k).1
                    &&& v@[k].end == segment_bounds(ptr, len, k).2
                    &&& v@[k].start < v@[k].end <= PAGE_SIZE
                    &&& v@[k].ppn == ms.table().entry(v@[k].vpn).spec_ppn()
                    &&& ms.page(v@[k].vpn.0) is Some
                },
            UserBuffer::total(v@) == cur - ptr,
        decreases end - cur,
    {
        let vpn = VirtAddr(cur).floor();
        let ppn = match ms.translate(vpn) {
            Ok(pte) => pte.ppn(),
            Err(_) => PhysPageNum(0),
        };
        let next: u64 = (vpn.0 + 1) * PAGE_SIZE_U64;
        let stop: u64 = if next < end {
            next
        } else {
            end
        };
        let start: usize = (cur - vpn.0 * PAGE_SIZE_U64) as usize;
        let finish: usize = (stop - vpn.0 * PAGE_SIZE_U64) as usize;
        proof {
            assert(byte_at(ms, cur as int) is Some);
            ms.table().lemma_entry_without_dir_or_not(vpn);
            assert(v@.push(Segment { vpn, ppn, start, end: finish }).drop_last() =~= v@);
        }
        v.push(Segment { vpn, ppn, start, end: finish });
        cur = stop;
    }
    v
}

/// Reads the bytes `[ptr, ptr + len)` of the address space. `None` where a
/// byte lies outside the virtual addresses or on a page that no frame
/// backs.
pub fn read_user(ms: &MemorySet, ptr: u64, len: usize) -> (r: Option<Vec<u8>>)
    requires
        ms.wf(),
    ensures
        r is Some == maps_range(ms, ptr, len),
        r matches Some(bytes) ==> bytes@ == user_bytes(ms, ptr, len),
{
    if !check_user_range(ms, ptr, len) {
        return None;
    }
    let segments = translated_byte_buffer(ms, ptr, len);
    let mut out: Vec<u8> = Vec::new();
    let mut i: usize = 0;
    let ghost first = ptr / PAGE_SIZE_U64;
    while i < segments.len()
        invariant
            ms.wf(),
            maps_range(ms, ptr, len),
            0 <= i <= segments@.len(),
            first == ptr / PAGE_SIZE_U64,
            segments@.len() == segment_count(ptr, len),
            forall|k: int|
                0 <= k < segments@.len() ==> {
                    &&& (#[trigger] segments@[k]).vpn.0 == segment_bounds(ptr, len, k).0
                    &&& segments@[k].start == segment_bounds(ptr, len, k).1
                    &&& segments@[k].end == segment_bounds(ptr, len, k).2
                    &&& segments@[k].start < segments@[k].end <= PAGE_SIZE
                    &&& ms.page(segments@[k].vpn.0) is Some
                },
            out@.len() == if i == 0 {
                0
            } else {
                (first + i) * PAGE_SIZE - ptr
            } || (i == segments@.len() && out@.len() == len),
            out@.len() <= len,
            i < segments@.len() ==> out@.len() == if i == 0 {
                0
            } else {
                (first + i) * PAGE_SIZE - ptr
            },
            i == segments@.len() ==> out@.len() == len,
            forall|j: int| 0 <= j < out@.len() ==> out@[j] == (#[trigger] byte_at(ms, ptr + j))->0,
        decreases segments@.len() - i,
    {
        let seg = segments[i];
        let ghost before = out@;
        match ms.read_page(seg.vpn, seg.start, seg.end) {
            Some(part) => {
                let mut j: usize = 0;
                while j < part.len()
                    invariant
                        0 <= j <= part@.len(),
                        out@ == before + part@.take(j as int),
                    decreases part@.len() - j,
                {
                    out.push(part[j]);
                    proof {
                        assert(part@.take(j + 1) =~= part@.take(j as int).push(part@[j as int]));
                        assert(out@ =~= before + part@.take(j + 1));
                    }
                    j = j + 1;
                }
                proof {
                    assert(part@.take(part@.len() as int) =~= part@);
                    assert forall|j: int| 0 <= j < out@.len() implies out@[j] == (
                    #[trigger] byte_at(ms, ptr + j))->0 by {
                        if j >= before.len() {
                            let a = ptr + j;
                            assert(a / PAGE_SIZE as int == seg.vpn.0);
                            assert(a % PAGE_SIZE as int == seg.start + (j - before.len()));
                        }
                    }
                }
            },
            None => {},
        }
        i = i + 1;
    }
    proof {
        assert(out@ =~= user_bytes(ms, ptr, len));
    }
    Some(out)
}

/// What the address space `post` holds when `data` was written at `ptr` into
/// `pre`: the same areas with the same frames, and in each byte what `pre`
/// held there unless the byte lies in the buffer.
pub open spec fn written_user(pre: &MemorySet, post: &MemorySet, ptr: u64, data: Seq<u8>) -> bool {
    &&& post.table() == pre.table()
    &&& post.spec_areas().len() == pre.spec_areas().len()
    &&& post.area_ppns() == pre.area_ppns()
    &&& forall|i: int, v: u64| post.holds_page(i, v) == pre.holds_page(i, v)
    &&& forall|i: int, v: u64|
        pre.holds_page(i, v) ==> (#[trigger] post.spec_areas()[i].frames()[v]).ppn()
            == pre.spec_areas()[i].frames()[v].ppn()
    &&& forall|i: int|
        0 <= i < pre.spec_areas().len() ==> {
            &&& (#[trigger] post.spec_areas()[i]).range() == pre.spec_areas()[i].range()
            &&& post.spec_areas()[i].spec_map_type() == pre.spec_areas()[i].spec_map_type()
            &&& post.spec_areas()[i].perm() == pre.spec_areas()[i].perm()
        }
    &&& forall|v: u64| (#[trigger] post.page(v)) is Some == pre.page(v) is Some
    &&& forall|v: u64| (#[trigger] post.page(v)) matches Some(p) ==> p.len() == PAGE_SIZE
    &&& forall|a: int|
        0 <= a < VA_LIMIT ==> #[trigger] byte_at(post, a) == if ptr <= a < ptr + data.len() {
            Some(data[a - ptr])
        } else {
            byte_at(pre, a)
        }
}

/// Every page of a well-formed address space has a whole page of bytes.
pub proof fn lemma_page_len(ms: &MemorySet, v: u64)
    requires
        ms.wf(),
        ms.page(v) is Some,
    ensures
        ms.page(v)->0.len() == PAGE_SIZE,
{
    let i = choose|i: int| ms.holds_page(i, v);
    ms.lemma_page(i, v);
    assert(ms.spec_areas()[i].wf());
}

/// Writes `data` into the address space at `ptr`. `false` comes back, and
/// nothing happens, where a byte of the buffer lies outside the virtual
/// addresses or on a page that no frame backs.
pub fn write_user(ms: &mut MemorySet, ptr: u64, data: &[u8]) -> (r: bool)
    requires
        old(ms).wf(),
    ensures
        final(ms).wf(),
        r == maps_range(old(ms), ptr, data@.len() as usize) && data@.len() <= usize::MAX,
        !r ==> *final(ms) == *old(ms),
        r ==> written_user(old(ms), final(ms), ptr, data@),
        forall|allocated: Set<u64>| old(ms).owns(allocated) ==> #[trigger] final(ms).owns(allocated),
        final(ms).frames() == old(ms).frames(),
{
    let len: usize = data.len();
    if !check_user_range(ms, ptr, len) {
        return false;
    }
    let segments = translated_byte_buffer(ms, ptr, len);
    let mut i: usize = 0;
    let mut done: usize = 0;
    let ghost first = ptr / PAGE_SIZE_U64;
    proof {
        assert forall|v: u64| (#[trigger] ms.page(v)) is Some implies ms.page(v)->0.len()
            == PAGE_SIZE by {
            lemma_page_len(ms, v);
        }
    }
    while i < segments.len()
        invariant
            old(ms).wf(),
            ms.wf(),
            len == data@.len(),
            ptr + len <= VA_LIMIT,
            0 <= i <= segments@.len(),
            first == ptr / PAGE_SIZE_U64,
            segments@.len() == segment_count(ptr, len),
            forall|k: int|
                0 <= k < segments@.len() ==> {
                    &&& (#[trigger] segments@[k]).vpn.0 == segment_bounds(ptr, len, k).0
                    &&& segments@[k].start == segment_bounds(ptr, len, k).1
                    &&& segments@[k].end == segment_bounds(ptr, len, k).2
                    &&& segments@[k].start < segments@[k].end <= PAGE_SIZE
                    &&& old(ms).page(segments@[k].vpn.0) is Some
                },
            done <= len,
            i < segments@.len() ==> done == if i == 0 {
                0
            } else {
                (first + i) * PAGE_SIZE - ptr
            },
            i == segments@.len() ==> done == len,
            written_user(old(ms), ms, ptr, data@.take(done as int)),
        decreases segments@.len() - i,
    {
        let seg = segments[i];
        let n: usize = seg.end - seg.start;
        let part = vstd::slice::slice_subrange(data, done, done + n);
        let ghost mid = *ms;
        let _ = ms.write_page(seg.vpn, seg.start, part);
        proof {
            assert(mid.page(seg.vpn.0) is Some);
            let pre_page = mid.page(seg.vpn.0)->0;
            assert(pre_page.len() == PAGE_SIZE);
            assert forall|a: int| 0 <= a < VA_LIMIT implies #[trigger] byte_at(ms, a) == if ptr
                <= a < ptr + done + n {
                Some(data@.take(done + n)[a - ptr])
            } else {
                byte_at(old(ms), a)
            } by {
                let v = (a / PAGE_SIZE as int) as u64;
                let off = a % PAGE_SIZE as int;
                assert(byte_at(&mid, a) == if ptr <= a < ptr + done {
                    Some(data@.take(done as int)[a - ptr])
                } else {
                    byte_at(old(ms), a)
                });
                if v == seg.vpn.0 {
                    if seg.start <= off < seg.end {
                        assert(a - ptr == done + (off - seg.start));
                        assert(part@[off - seg.start] == data@[a - ptr]);
                    } else {
                        assert(!(ptr <= a < ptr + done + n));
                    }
                } else {
                    assert(ms.page(v) == mid.page(v));
                    assert(!(ptr + done <= a < ptr + done + n));
                }
            }
            assert forall|v: u64| (#[trigger] ms.page(v)) is Some implies ms.page(v)->0.len()
                == PAGE_SIZE by {
                lemma_page_len(ms, v);
            }
        }
        done = done + n;
        i = i + 1;
    }
    proof {
        assert(data@.take(len as int) =~= data@);
        assert forall|allocated: Set<u64>| old(ms).owns(allocated) implies #[trigger] ms.owns(
            allocated,
        ) by {
            MemorySet::lemma_owns_content(old(ms), ms, allocated);
        }
        assert(ms.frames() =~= old(ms).frames());
    }
    true
}

/// Whether `s` is the string at `ptr`: its bytes lie at `ptr` and after, none
/// of them is zero, and a zero byte follows them, all within the virtual
/// addresses and on pages that frames back.
pub open spec fn is_str(ms: &MemorySet, ptr: u64, s: Seq<u8>) -> bool {
    &&& ptr + s.len() < VA_LIMIT
    &&& forall|i: int| 0 <= i < s.len() ==> #[trigger] byte_at(ms, ptr + i) == Some(s[i])
    &&& forall|i: int| 0 <= i < s.len() ==> #[trigger] s[i] != 0
    &&& byte_at(ms, ptr + s.len()) == Some(0u8)
}

/// The string at `ptr`, where there is one.
pub open spec fn str_at(ms: &MemorySet, ptr: u64) -> Option<Seq<u8>> {
    if exists|s: Seq<u8>| is_str(ms, ptr, s) {
        Some(choose|s: Seq<u8>| is_str(ms, ptr, s))
    } else {
        None
    }
}

/// There is at most one string at an address.
pub proof fn lemma_str_unique(ms: &MemorySet, ptr: u64, a: Seq<u8>, b: Seq<u8>)
    requires
        is_str(ms, ptr, a),
        is_str(ms, ptr, b),
    ensures
        a == b,
{
    if a.len() < b.len() {
        assert(byte_at(ms, ptr + a.len()) == Some(b[a.len() as int]));
        assert(b[a.len() as int] != 0);
    } else if b.len() < a.len() {
        assert(byte_at(ms, ptr + b.len()) == Some(a[b.len() as int]));
        assert(a[b.len() as int] != 0);
    } else {
        assert forall|i: int| 0 <= i < a.len() implies a[i] == b[i] by {
            assert(byte_at(ms, ptr + i) == Some(a[i]));
            assert(byte_at(ms, ptr + i) == Some(b[i]));
        }
        assert(a =~= b);
    }
}

/// The bytes from `ptr` up to, not including, the first zero byte: a
/// string in user memory. `None` where there is no such string, because a
/// byte before the first zero byte lies outside the virtual addresses or on
/// a page that no frame backs.
pub fn translated_str(ms: &MemorySet, ptr: u64) -> (r: Option<Vec<u8>>)
    requires
        ms.wf(),
    ensures
        r matches Some(s) ==> is_str(ms, ptr, s@) && str_at(ms, ptr) == Some(s@),
        r is None ==> str_at(ms, ptr) is None && forall|s: Seq<u8>| !#[trigger] is_str(ms, ptr, s),
{
    let mut out: Vec<u8> = Vec::new();
    if ptr >= VA_LIMIT {
        return None;
    }
    let mut cur: u64 = ptr;
    while cur < VA_LIMIT
        invariant
            ms.wf(),
            ptr <= cur <= VA_LIMIT,
            out@.len() == cur - ptr,
            forall|i: int| 0 <= i < out@.len() ==> #[trigger] byte_at(ms, ptr + i) == Some(out@[i]),
            forall|i: int| 0 <= i < out@.len() ==> #[trigger] out@[i] != 0,
        decreases VA_LIMIT - cur,
    {
        let vpn = VirtAddr(cur).floor();
        let off: usize = VirtAddr(cur).page_offset();
        match ms.read_page(vpn, off, off + 1) {
            Some(b) => {
                let ch: u8 = b[0];
                assert(byte_at(ms, cur as int) == Some(ch));
                if ch == 0 {
                    proof {
                        assert(is_str(ms, ptr, out@));
                        lemma_str_unique(ms, ptr, out@, choose|s: Seq<u8>| is_str(ms, ptr, s));
                    }
                    return Some(out);
                }
                out.push(ch);
            },
            None => {
                proof {
                    let n = (cur - ptr) as int;
                    assert(byte_at(ms, ptr + n) is None);
                    assert forall|s: Seq<u8>| !#[trigger] is_str(ms, ptr, s) by {
                        if is_str(ms, ptr, s) {
                            if s.len() < n {
                                assert(byte_at(ms, ptr + s.len()) == Some(out@[s.len() as int]));
                                assert(out@[s.len() as int] != 0);
                            } else if s.len() > n {
                                assert(byte_at(ms, ptr + n) == Some(s[n]));
                            }
                        }
                    }
                }
                return None;
            },
        }
        cur = cur + 1;
    }
    proof {
        let n = (cur - ptr) as int;
        assert forall|s: Seq<u8>| !#[trigger] is_str(ms, ptr, s) by {
            if is_str(ms, ptr, s) {
                assert(s.len() < n);
                assert(byte_at(ms, ptr + s.len()) == Some(out@[s.len() as int]));
                assert(out@[s.len() as int] != 0);
            }
        }
    }
    None
}

} // verus!
