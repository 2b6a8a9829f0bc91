//! Physical memory manager: a bitmap of page frames, one bit per 4 KiB frame
//! (bit set = frame in use or reserved, bit clear = frame free).
//!
//! `init` reserves usable frames to hold the bitmap; the allocator keeps the
//! bitmap's bytes and hands them out (`bitmap_bytes`) for the kernel to store
//! in those frames.

use vstd::arithmetic::power2::pow2;
use vstd::bits::low_bits_mask;
use vstd::prelude::*;

verus! {

/// The fixed size of a single physical memory page frame (4KB).
pub const PAGE_SIZE: usize = 4096;

/// `a` is a nonzero power of two.
pub open spec fn is_power_of_two(a: usize) -> bool {
    exists|k: nat| k < usize::BITS && a == pow2(k)
}

/// The expression by which `align_up` rounds `addr` up to `align`.
pub open spec fn align_up_spec(addr: usize, align: usize) -> usize
    recommends
        align >= 1,
        addr + align - 1 <= usize::MAX,
{
    ((addr + align - 1) as usize) & !((align - 1) as usize)
}

/// Rounding up to a power of two gives the least multiple of `align` that is
/// not below `addr`.
pub proof fn lemma_align_up_pow2(addr: usize, align: usize)
    requires
        is_power_of_two(align),
        addr + align - 1 <= usize::MAX,
    ensures
        align_up_spec(addr, align) % align == 0,
        addr <= align_up_spec(addr, align),
        align_up_spec(addr, align) < addr + align,
{
    let k = choose|k: nat| k < usize::BITS && align == pow2(k);
    vstd::arithmetic::power2::lemma_pow2_pos(k);
    let s = (addr + align - 1) as usize;
    let m = (align - 1) as usize;
    let r = s & !m;
    assert(r & m == 0 && r <= s && s - r <= m) by (bit_vector)
        requires
            r == s & !m,
    ;
    vstd::bits::lemma_usize_low_bits_mask_is_mod(r, k);
    assert(low_bits_mask(k) == m);
}

/// Helper function to align an address UP to the nearest multiple of `align`.
pub fn align_up(addr: usize, align: usize) -> (r: usize)
    requires
        align >= 1,
        addr + align - 1 <= usize::MAX,
    ensures
        r == align_up_spec(addr, align),
        is_power_of_two(align) ==> r % align == 0 && addr <= r && r < addr + align,
{
    proof {
        if is_power_of_two(align) {
            lemma_align_up_pow2(addr, align);
        }
    }
    let s = addr + (align - 1);
    s & !(align - 1)
}


/// Memory map entry type of RAM that is free for the kernel to use.
pub const MEMMAP_USABLE: u64 = 0;

/// One region of the physical memory map handed over by the bootloader.
#[derive(Clone, Copy, Debug, PartialEq, Eq)]
pub struct MemoryMapEntry {
    pub base: u64,
    pub length: u64,
    pub type_: u64,
}

/// Bit `bit` (0..8) of `byte` is set.
pub open spec fn bit_set(byte: u8, bit: u8) -> bool {
    byte & (1u8 << bit) != 0
}

/// Setting bit `i` of a byte sets exactly that bit.
proof fn lemma_set_bit(b: u8, i: u8, j: u8)
    requires
        i < 8,
        j < 8,
    ensures
        bit_set(b | (1u8 << i), j) == (i == j || bit_set(b, j)),
{
    assert((b | (1u8 << i)) & (1u8 << j) != 0 <==> (i == j || b & (1u8 << j) != 0)) by (bit_vector)
        requires
            i < 8,
            j < 8,
    ;
}

/// Clearing bit `i` of a byte clears exactly that bit.
proof fn lemma_clear_bit(b: u8, i: u8, j: u8)
    requires
        i < 8,
        j < 8,
    ensures
        bit_set(b & !(1u8 << i), j) == (i != j && bit_set(b, j)),
{
    assert((b & !(1u8 << i)) & (1u8 << j) != 0 <==> (i != j && b & (1u8 << j) != 0)) by (bit_vector)
        requires
            i < 8,
            j < 8,
    ;
}

/// A byte has all eight bits set exactly when it is 0xFF.
proof fn lemma_full_byte(b: u8)
    ensures
        (b == 0xFF) <==> (forall|j: u8| j < 8 ==> #[trigger] bit_set(b, j)),
{
    assert(bit_set(b, 0) && bit_set(b, 1) && bit_set(b, 2) && bit_set(b, 3) && bit_set(b, 4)
        && bit_set(b, 5) && bit_set(b, 6) && bit_set(b, 7) <==> b == 0xFF) by (bit_vector);
    if b == 0xFF {
        assert forall|j: u8| j < 8 implies #[trigger] bit_set(b, j) by {
            assert(j < 8 ==> 0xFFu8 & (1u8 << j) != 0) by (bit_vector);
        }
    }
}

/// The abstract state of a `BitmapAllocator`.
pub struct AllocatorView {
    /// The tracking bitmap, one bit per frame (frame `f` is bit `f % 8` of byte `f / 8`).
    pub bitmap: Seq<u8>,
    /// Virtual address of the usable frames that `init` reserves to hold the
    /// bitmap (0 before `init`). The allocator keeps the bitmap's bytes itself;
    /// the kernel stores a copy of them there (see `bitmap_bytes`).
    pub bitmap_addr: u64,
    pub bitmap_length: usize,
    pub total_frames: usize,
    pub free_frames: usize,
}

impl AllocatorView {
    /// Number of frames that the bitmap has a bit for.
    pub open spec fn tracked_frames(self) -> int {
        8 * self.bitmap.len() as int
    }

    /// The tracking bit of `frame` is set.
    pub open spec fn is_used(self, frame: int) -> bool {
        bit_set(self.bitmap[frame / 8], (frame % 8) as u8)
    }

    /// `frame` has a tracking bit and it is clear.
    pub open spec fn is_free(self, frame: int) -> bool {
        0 <= frame < self.tracked_frames() && !self.is_used(frame)
    }

    /// Everything but the bits of the bitmap is the same in `self` and `other`.
    pub open spec fn same_layout(self, other: AllocatorView) -> bool {
        &&& self.bitmap.len() == other.bitmap.len()
        &&& self.bitmap_addr == other.bitmap_addr
        &&& self.bitmap_length == other.bitmap_length
        &&& self.total_frames == other.total_frames
    }

    /// `new` is `self` with the frames in `[lo, hi)` marked used, and no other bit changed.
    pub open spec fn locked_to(self, new: AllocatorView, lo: int, hi: int) -> bool {
        &&& self.same_layout(new)
        &&& forall|f: int|
            0 <= f < self.tracked_frames() ==> #[trigger] new.is_used(f) == (self.is_used(f) || (
            lo <= f < hi))
    }

    /// `new` is `self` with the frames in `[lo, hi)` marked free, and no other bit changed.
    pub open spec fn freed_to(self, new: AllocatorView, lo: int, hi: int) -> bool {
        &&& self.same_layout(new)
        &&& forall|f: int|
            0 <= f < self.tracked_frames() ==> #[trigger] new.is_used(f) == (self.is_used(f) && !(
            lo <= f < hi))
    }

    /// The well-formedness of an allocator: the bitmap has the recorded length and a
    /// bit for every frame of memory, every frame address fits in `usize`, and
    /// frames past the end of memory stay used.
    pub open spec fn wf(self) -> bool {
        &&& self.bitmap.len() == self.bitmap_length
        &&& self.total_frames <= self.tracked_frames()
        &&& 8 * self.bitmap_length <= usize::MAX
        &&& self.total_frames * PAGE_SIZE <= usize::MAX
        &&& forall|f: int|
            self.total_frames <= f < self.tracked_frames() ==> #[trigger] self.is_used(f)
    }
}

/// The number of frames of `[start, start + count)` that lie below `cap`.
pub open spec fn frames_below(start: int, count: int, cap: int) -> int {
    if start >= cap || count <= 0 {
        0
    } else if start + count <= cap {
        count
    } else {
        cap - start
    }
}

/// Number of pages needed to hold `len` bytes.
pub open spec fn pages_for(len: int) -> int {
    (len + PAGE_SIZE - 1) / PAGE_SIZE as int
}

/// 4096 is a power of two.
pub proof fn lemma_page_size_power_of_two()
    ensures
        is_power_of_two(PAGE_SIZE),
{
    vstd::arithmetic::power2::lemma2_to64();
    assert(pow2(12) == PAGE_SIZE);
}

/// `frame` is the lowest free frame of `v`.
pub open spec fn is_lowest_free(v: AllocatorView, frame: int) -> bool {
    v.is_free(frame) && forall|g: int| 0 <= g < frame ==> !#[trigger] v.is_free(g)
}

/// The frames `[start, start + count)` are all free in `v`.
pub open spec fn run_free(v: AllocatorView, start: int, count: int) -> bool {
    forall|f: int| start <= f < start + count ==> #[trigger] v.is_free(f)
}

/// `start` is the lowest frame at which `count` free frames in a row begin and end
/// within the first `v.total_frames` frames.
pub open spec fn is_first_run(v: AllocatorView, start: int, count: int) -> bool {
    &&& 0 <= start
    &&& start + count <= v.total_frames
    &&& run_free(v, start, count)
    &&& forall|s: int| 0 <= s < start ==> !#[trigger] run_free(v, s, count)
}

/// What `allocate_frame` does: it fails, changing nothing, when the free counter
/// is 0 or no frame is free; else it hands out the lowest free frame, marks it
/// used and counts it off.
pub open spec fn allocate_frame_post(old: AllocatorView, new: AllocatorView, r: Option<usize>) -> bool {
    match r {
        None => new == old && (old.free_frames == 0 || forall|f: int| !#[trigger] old.is_free(f)),
        Some(addr) => {
            &&& old.free_frames > 0
            &&& addr % PAGE_SIZE == 0
            &&& is_lowest_free(old, (addr / PAGE_SIZE) as int)
            &&& old.locked_to(new, (addr / PAGE_SIZE) as int, (addr / PAGE_SIZE) as int + 1)
            &&& new.free_frames == old.free_frames - 1
        },
    }
}

/// What `allocate_contiguous` does: it fails, changing nothing, when fewer
/// frames than asked for are counted free, when none are asked for, or when no
/// run of that many free frames lies within memory; else it hands out the
/// lowest such run, marks it used and counts it off.
pub open spec fn allocate_contiguous_post(
    old: AllocatorView,
    new: AllocatorView,
    count: int,
    r: Option<usize>,
) -> bool {
    match r {
        None => new == old && (old.free_frames < count || count == 0 || forall|s: int|
            0 <= s && s + count <= old.total_frames ==> !#[trigger] run_free(old, s, count)),
        Some(addr) => {
            &&& count >= 1
            &&& old.free_frames >= count
            &&& addr % PAGE_SIZE == 0
            &&& is_first_run(old, (addr / PAGE_SIZE) as int, count)
            &&& old.locked_to(new, (addr / PAGE_SIZE) as int, (addr / PAGE_SIZE) as int + count)
            &&& new.free_frames == old.free_frames - count
        },
    }
}

/// End address (exclusive) of a memory map entry.
pub open spec fn entry_end(e: MemoryMapEntry) -> int {
    e.base + e.length
}

/// The frame in which the entry starts.
pub open spec fn entry_first_frame(e: MemoryMapEntry) -> int {
    e.base as int / PAGE_SIZE as int
}

/// Number of whole frames in the entry's length.
pub open spec fn entry_frame_count(e: MemoryMapEntry) -> int {
    e.length as int / PAGE_SIZE as int
}

/// `frame` is among the frames that `init` frees for entry `e`.
pub open spec fn in_entry_frames(e: MemoryMapEntry, frame: int) -> bool {
    entry_first_frame(e) <= frame < entry_first_frame(e) + entry_frame_count(e)
}

/// The highest end address of the entries of the memory map (0 for an empty map).
pub open spec fn memmap_top(m: Seq<MemoryMapEntry>) -> int
    decreases m.len(),
{
    if m.len() == 0 {
        0
    } else {
        let t = memmap_top(m.drop_last());
        let e = entry_end(m.last());
        if e > t {
            e
        } else {
            t
        }
    }
}

/// Number of frames of physical memory that `init` tracks for memory map `m`.
pub open spec fn planned_total_frames(m: Seq<MemoryMapEntry>) -> int {
    memmap_top(m) / PAGE_SIZE as int
}

/// Size in bytes of the bitmap for memory map `m`: one bit per frame, rounded up
/// to whole bytes and then to whole pages.
pub open spec fn planned_bitmap_length(m: Seq<MemoryMapEntry>) -> int {
    pages_for(bytes_for_bits(planned_total_frames(m))) * PAGE_SIZE
}

/// Number of bytes needed to hold `bits` bits.
pub open spec fn bytes_for_bits(bits: int) -> int {
    (bits + 7) / 8
}

/// Entry `e` is usable RAM that can hold a bitmap of `need` bytes.
pub open spec fn fits_bitmap(e: MemoryMapEntry, need: int) -> bool {
    e.type_ == MEMMAP_USABLE && e.length >= need
}

/// `i` is the first entry of `m` that can hold a bitmap of `need` bytes.
pub open spec fn is_first_fit(m: Seq<MemoryMapEntry>, need: int, i: int) -> bool {
    &&& 0 <= i < m.len()
    &&& fits_bitmap(m[i], need)
    &&& forall|j: int| 0 <= j < i ==> !#[trigger] fits_bitmap(m[j], need)
}

/// Some entry of `m` can hold a bitmap of `need` bytes.
pub open spec fn has_fit(m: Seq<MemoryMapEntry>, need: int) -> bool {
    exists|i: int| 0 <= i < m.len() && #[trigger] fits_bitmap(m[i], need)
}

/// The virtual address at which `init` places the bitmap: in the first usable
/// entry large enough, moved by the higher-half offset; where there is none, the
/// address the allocator already had.
pub open spec fn planned_bitmap_addr(old_addr: u64, m: Seq<MemoryMapEntry>, hhdm: u64) -> int {
    let need = planned_bitmap_length(m);
    if has_fit(m, need) {
        m[choose|i: int| is_first_fit(m, need, i)].base + hhdm
    } else {
        old_addr as int
    }
}

/// Frame `frame` lies in a usable entry of `m`.
pub open spec fn covered_by_usable(m: Seq<MemoryMapEntry>, frame: int) -> bool {
    exists|i: int|
        0 <= i < m.len() && m[i].type_ == MEMMAP_USABLE && #[trigger] in_entry_frames(m[i], frame)
}

/// How often `init` counts a frame free: for each usable entry, its frames that
/// have a tracking bit (a frame in two usable entries counts twice).
pub open spec fn usable_frame_count(m: Seq<MemoryMapEntry>, cap: int) -> int
    decreases m.len(),
{
    if m.len() == 0 {
        0
    } else {
        usable_frame_count(m.drop_last(), cap) + if m.last().type_ == MEMMAP_USABLE {
            frames_below(entry_first_frame(m.last()), entry_frame_count(m.last()), cap)
        } else {
            0
        }
    }
}

/// The inputs on which `init` runs without a panic, overflow or underflow: every
/// entry's end fits in `u64` and `usize`, the bitmap gets a nonzero address that the
/// offset can be taken off again, and the free counter neither overflows while
/// regions are freed nor underflows while the bitmap's own frames are locked.
pub open spec fn init_ok(old: AllocatorView, m: Seq<MemoryMapEntry>, hhdm: u64) -> bool {
    let need = planned_bitmap_length(m);
    let addr = planned_bitmap_addr(old.bitmap_addr, m, hhdm);
    let cap = 8 * need;
    let phys = addr - hhdm;
    &&& forall|i: int|
        0 <= i < m.len() ==> entry_end(#[trigger] m[i]) <= u64::MAX && entry_end(m[i])
            <= usize::MAX
    &&& addr <= u64::MAX
    &&& addr != 0
    &&& addr >= hhdm
    &&& phys <= usize::MAX
    &&& usable_frame_count(m, cap) <= usize::MAX
    &&& frames_below(phys / PAGE_SIZE as int, pages_for(need), cap) <= usable_frame_count(m, cap)
}

/// What `init` does: size the bitmap for the memory map, place it, mark every
/// frame used but those of usable entries, then mark the bitmap's own frames used.
pub open spec fn init_post(
    old: AllocatorView,
    new: AllocatorView,
    m: Seq<MemoryMapEntry>,
    hhdm: u64,
) -> bool {
    let need = planned_bitmap_length(m);
    let addr = planned_bitmap_addr(old.bitmap_addr, m, hhdm);
    let cap = 8 * need;
    let phys_frame = (addr - hhdm) / PAGE_SIZE as int;
    &&& new.total_frames == planned_total_frames(m)
    &&& new.total_frames <= 8 * need
    &&& new.bitmap_length == need
    &&& new.bitmap.len() == need
    &&& new.bitmap_addr == addr
    &&& forall|f: int|
        0 <= f < cap ==> #[trigger] new.is_used(f) == (!covered_by_usable(m, f) || (phys_frame <= f
            < phys_frame + pages_for(need)))
    &&& new.free_frames == usable_frame_count(m, cap) - frames_below(
        phys_frame,
        pages_for(need),
        cap,
    )
}

/// `x / 4096 + y / 4096 <= (x + y) / 4096`.
proof fn lemma_frames_add(x: int, y: int)
    requires
        x >= 0,
        y >= 0,
    ensures
        x / PAGE_SIZE as int + y / PAGE_SIZE as int <= (x + y) / PAGE_SIZE as int,
{
    assert(x / 4096 + y / 4096 <= (x + y) / 4096) by (nonlinear_arith)
        requires
            x >= 0,
            y >= 0,
    ;
}

/// A multiple of 4096 in `[a, a + 4096)` is `a` rounded up to whole pages.
proof fn lemma_round_up_unique(a: int, r: int)
    requires
        a >= 0,
        r % PAGE_SIZE as int == 0,
        a <= r < a + PAGE_SIZE,
    ensures
        r == pages_for(a) * PAGE_SIZE,
{
    assert(r == ((a + 4095) / 4096) * 4096) by (nonlinear_arith)
        requires
            a >= 0,
            r % 4096 == 0,
            a <= r < a + 4096,
    ;
}

/// The free count of a prefix of the memory map is at most that of the whole map.
proof fn lemma_usable_count_prefix(m: Seq<MemoryMapEntry>, j: int, cap: int)
    requires
        0 <= j <= m.len(),
    ensures
        0 <= usable_frame_count(m.take(j), cap) <= usable_frame_count(m, cap),
    decreases m.len(),
{
    if j == m.len() {
        assert(m.take(j) =~= m);
        lemma_usable_count_nonneg(m, cap);
    } else {
        lemma_usable_count_prefix(m.drop_last(), j, cap);
        assert(m.drop_last().take(j) =~= m.take(j));
    }
}

/// Free counts are never negative.
proof fn lemma_usable_count_nonneg(m: Seq<MemoryMapEntry>, cap: int)
    ensures
        usable_frame_count(m, cap) >= 0,
    decreases m.len(),
{
    if m.len() > 0 {
        lemma_usable_count_nonneg(m.drop_last(), cap);
    }
}

/// A physical memory manager that tracks page frame availability using a bitmap tracking array.
pub struct BitmapAllocator {
    bitmap: Vec<u8>,
    bitmap_addr: u64,
    bitmap_length: usize,
    total_frames: usize,
    free_frames: usize,
}

impl View for BitmapAllocator {
    type V = AllocatorView;

    closed spec fn view(&self) -> AllocatorView {
        AllocatorView {
            bitmap: self.bitmap@,
            bitmap_addr: self.bitmap_addr,
            bitmap_length: self.bitmap_length,
            total_frames: self.total_frames,
            free_frames: self.free_frames,
        }
    }
}

impl BitmapAllocator {
    /// Creates an uninitialized instance of the bitmap allocator.
    pub fn new() -> (s: Self)
        ensures
            s@.bitmap.len() == 0,
            s@.bitmap_addr == 0,
            s@.bitmap_length == 0,
            s@.total_frames == 0,
            s@.free_frames == 0,
            s@.wf(),
    {
        BitmapAllocator {
            bitmap: Vec::new(),
            bitmap_addr: 0,
            bitmap_length: 0,
            total_frames: 0,
            free_frames: 0,
        }
    }

    /// Number of page frames of physical memory that the allocator tracks.
    pub fn total_frames(&self) -> (r: usize)
        ensures
            r == self@.total_frames,
    {
        self.total_frames
    }

    /// Number of frames that the allocator counts free.
    pub fn free_frames(&self) -> (r: usize)
        ensures
            r == self@.free_frames,
    {
        self.free_frames
    }

    /// Size of the tracking bitmap in bytes.
    pub fn bitmap_length(&self) -> (r: usize)
        ensures
            r == self@.bitmap_length,
    {
        self.bitmap_length
    }

    /// Virtual address of the frames reserved to hold the bitmap (0 before `init`).
    pub fn bitmap_address(&self) -> (r: u64)
        ensures
            r == self@.bitmap_addr,
    {
        self.bitmap_addr
    }

    /// The bitmap's bytes, to be stored at `bitmap_address()` after every call
    /// that changes them: frame `f` is bit `f % 8` of byte `f / 8`.
    pub fn bitmap_bytes(&self) -> (r: &[u8])
        ensures
            r@ == self@.bitmap,
    {
        self.bitmap.as_slice()
    }

    /// Whether `frame` is marked used; `None` where the bitmap has no bit for it.
    pub fn is_frame_used(&self, frame: usize) -> (r: Option<bool>)
        requires
            self@.wf(),
        ensures
            r == if frame < self@.tracked_frames() {
                Some(self@.is_used(frame as int))
            } else {
                None::<bool>
            },
    {
        if frame / 8 < self.bitmap_length {
            let bit = (frame % 8) as u8;
            Some((self.bitmap[frame / 8] & (1u8 << bit)) != 0)
        } else {
            None
        }
    }

    /// Internal helper to set a specific frame's tracking bit to 0 (Free).
    fn free_frame(&mut self, frame: usize)
        requires
            old(self)@.bitmap.len() == old(self)@.bitmap_length,
            frame < old(self)@.tracked_frames() ==> old(self)@.free_frames < usize::MAX,
        ensures
            old(self)@.freed_to(final(self)@, frame as int, frame + 1),
            final(self)@.free_frames == old(self)@.free_frames + if frame
                < old(self)@.tracked_frames() {
                1int
            } else {
                0int
            },
    {
        let byte_idx = frame / 8;
        let bit = (frame % 8) as u8;
        if byte_idx < self.bitmap_length {
            let current = self.bitmap[byte_idx];
            self.bitmap[byte_idx] = current & !(1u8 << bit);
            self.free_frames = self.free_frames + 1;
            proof {
                assert forall|f: int| 0 <= f < old(self)@.tracked_frames() implies #[trigger] self@.is_used(f)
                    == (old(self)@.is_used(f) && !(frame <= f < frame + 1)) by {
                    if f / 8 == byte_idx as int {
                        lemma_clear_bit(current, bit, (f % 8) as u8);
                    }
                }
            }
        }
    }

    /// Internal helper to set a specific frame's tracking bit to 1 (Used/Locked).
    fn lock_frame(&mut self, frame: usize)
        requires
            old(self)@.bitmap.len() == old(self)@.bitmap_length,
            frame < old(self)@.tracked_frames() ==> old(self)@.free_frames > 0,
        ensures
            old(self)@.locked_to(final(self)@, frame as int, frame + 1),
            final(self)@.free_frames == old(self)@.free_frames - if frame
                < old(self)@.tracked_frames() {
                1int
            } else {
                0int
            },
    {
        let byte_idx = frame / 8;
        let bit = (frame % 8) as u8;
        if byte_idx < self.bitmap_length {
            let current = self.bitmap[byte_idx];
            self.bitmap[byte_idx] = current | (1u8 << bit);
            self.free_frames = self.free_frames - 1;
            proof {
                assert forall|f: int| 0 <= f < old(self)@.tracked_frames() implies #[trigger] self@.is_used(f)
                    == (old(self)@.is_used(f) || (frame <= f < frame + 1)) by {
                    if f / 8 == byte_idx as int {
                        lemma_set_bit(current, bit, (f % 8) as u8);
                    }
                }
            }
        }
    }

    /// Frees an entire contiguous region of physical memory frames.
    fn free_region(&mut self, base: usize, length: usize)
        requires
            old(self)@.bitmap.len() == old(self)@.bitmap_length,
            old(self)@.free_frames + frames_below(
                (base / PAGE_SIZE) as int,
                (length / PAGE_SIZE) as int,
                old(self)@.tracked_frames(),
            ) <= usize::MAX,
        ensures
            old(self)@.freed_to(
                final(self)@,
                (base / PAGE_SIZE) as int,
                (base / PAGE_SIZE) as int + (length / PAGE_SIZE) as int,
            ),
            final(self)@.free_frames == old(self)@.free_frames + frames_below(
                (base / PAGE_SIZE) as int,
                (length / PAGE_SIZE) as int,
                old(self)@.tracked_frames(),
            ),
    {
        let start_frame = base / PAGE_SIZE;
        let frames_to_free = length / PAGE_SIZE;
        let ghost cap = old(self)@.tracked_frames();
        let ghost total_count = frames_below(start_frame as int, frames_to_free as int, cap);
        for i in 0..frames_to_free
            invariant
                start_frame == base / PAGE_SIZE,
                frames_to_free == length / PAGE_SIZE,
                cap == old(self)@.tracked_frames(),
                self@.bitmap.len() == self@.bitmap_length,
                old(self)@.freed_to(self@, start_frame as int, start_frame + i),
                self@.free_frames == old(self)@.free_frames + frames_below(
                    start_frame as int,
                    i as int,
                    cap,
                ),
                old(self)@.free_frames + total_count <= usize::MAX,
                total_count == frames_below(start_frame as int, frames_to_free as int, cap),
        {
            let ghost before = self@;
            assert(frames_below(start_frame as int, i as int, cap) <= frames_below(
                start_frame as int,
                frames_to_free as int,
                cap,
            ));
            self.free_frame(start_frame + i);
            assert(frames_below(start_frame as int, i + 1, cap) == frames_below(
                start_frame as int,
                i as int,
                cap,
            ) + if start_frame + i < cap {
                1int
            } else {
                0int
            });
            assert forall|f: int| 0 <= f < old(self)@.tracked_frames() implies #[trigger] self@.is_used(f)
                == (old(self)@.is_used(f) && !(start_frame <= f < start_frame + i + 1)) by {
                assert(before.is_used(f) == (old(self)@.is_used(f) && !(start_frame <= f
                    < start_frame + i)));
            }
        }
    }

    /// Locks an entire contiguous region of physical memory frames.
    fn lock_region(&mut self, base: usize, length: usize)
        requires
            old(self)@.bitmap.len() == old(self)@.bitmap_length,
            length + PAGE_SIZE - 1 <= usize::MAX,
            old(self)@.free_frames >= frames_below(
                (base / PAGE_SIZE) as int,
                pages_for(length as int),
                old(self)@.tracked_frames(),
            ),
        ensures
            old(self)@.locked_to(
                final(self)@,
                (base / PAGE_SIZE) as int,
                (base / PAGE_SIZE) as int + pages_for(length as int),
            ),
            final(self)@.free_frames == old(self)@.free_frames - frames_below(
                (base / PAGE_SIZE) as int,
                pages_for(length as int),
                old(self)@.tracked_frames(),
            ),
    {
        let start_frame = base / PAGE_SIZE;
        proof {
            lemma_page_size_power_of_two();
        }
        let rounded = align_up(length, PAGE_SIZE);
        let frames_to_lock = rounded / PAGE_SIZE;
        assert(frames_to_lock == pages_for(length as int));
        let ghost cap = old(self)@.tracked_frames();
        let ghost total_count = frames_below(start_frame as int, frames_to_lock as int, cap);
        for i in 0..frames_to_lock
            invariant
                start_frame == base / PAGE_SIZE,
                frames_to_lock == pages_for(length as int),
                frames_to_lock <= usize::MAX / PAGE_SIZE + 1,
                cap == old(self)@.tracked_frames(),
                self@.bitmap.len() == self@.bitmap_length,
                old(self)@.locked_to(self@, start_frame as int, start_frame + i),
                self@.free_frames == old(self)@.free_frames - frames_below(
                    start_frame as int,
                    i as int,
                    cap,
                ),
                old(self)@.free_frames >= total_count,
                total_count == frames_below(start_frame as int, frames_to_lock as int, cap),
        {
            let ghost before = self@;
            assert(frames_below(start_frame as int, i + 1, cap) <= frames_below(
                start_frame as int,
                frames_to_lock as int,
                cap,
            ));
            assert(frames_below(start_frame as int, i + 1, cap) == frames_below(
                start_frame as int,
                i as int,
                cap,
            ) + if start_frame + i < cap {
                1int
            } else {
                0int
            });
            self.lock_frame(start_frame + i);
            assert forall|f: int| 0 <= f < old(self)@.tracked_frames() implies #[trigger] self@.is_used(f)
                == (old(self)@.is_used(f) || (start_frame <= f < start_frame + i + 1)) by {
                assert(before.is_used(f) == (old(self)@.is_used(f) || (start_frame <= f
                    < start_frame + i)));
            }
        }
    }

    /// Finds the first available 4KB frame, locks it, and returns its physical address.
    pub fn allocate_frame(&mut self) -> (r: Option<usize>)
        requires
            old(self)@.wf(),
        ensures
            final(self)@.wf(),
            allocate_frame_post(old(self)@, final(self)@, r),
    {
        if self.free_frames == 0 {
            return None;
        }
        let ghost v0 = self@;
        let len = self.bitmap_length;
        for byte_idx in 0..len
            invariant
                self@ == v0,
                old(self)@ == v0,
                v0.wf(),
                v0.free_frames > 0,
                len == v0.bitmap_length,
                forall|g: int| 0 <= g < 8 * byte_idx ==> !#[trigger] v0.is_free(g),
        {
            let byte = self.bitmap[byte_idx];
            if byte != 0xFF {
                for bit_idx in 0u8..8u8
                    invariant
                        self@ == v0,
                        old(self)@ == v0,
                        v0.wf(),
                        v0.free_frames > 0,
                        len == v0.bitmap_length,
                        byte_idx < len,
                        byte == v0.bitmap[byte_idx as int],
                        forall|g: int| 0 <= g < 8 * byte_idx ==> !#[trigger] v0.is_free(g),
                        forall|b: u8| b < bit_idx ==> #[trigger] bit_set(byte, b),
                {
                    if (byte & (1u8 << bit_idx)) == 0 {
                        let frame = (byte_idx * 8) + bit_idx as usize;
                        assert(frame / 8 == byte_idx && frame % 8 == bit_idx);
                        assert(v0.is_free(frame as int));
                        assert forall|g: int| 0 <= g < frame implies !#[trigger] v0.is_free(g) by {
                            if g >= 8 * byte_idx {
                                assert(g / 8 == byte_idx);
                                assert(bit_set(byte, (g % 8) as u8));
                            }
                        }
                        assert(frame < v0.total_frames);
                        self.lock_frame(frame);
                        let addr = frame * PAGE_SIZE;
                        assert(addr % PAGE_SIZE == 0 && addr / PAGE_SIZE == frame) by (nonlinear_arith)
                            requires
                                addr == frame * PAGE_SIZE,
                        ;
                        assert(self@.wf()) by {
                            assert forall|f: int|
                                self@.total_frames <= f < self@.tracked_frames() implies #[trigger] self@.is_used(f) by {
                                assert(v0.is_used(f));
                            }
                        }
                        return Some(addr);
                    }
                }
                assert forall|g: int| 0 <= g < 8 * (byte_idx + 1) implies !#[trigger] v0.is_free(g) by {
                    if g >= 8 * byte_idx {
                        assert(g / 8 == byte_idx);
                        assert(bit_set(byte, (g % 8) as u8));
                    }
                }
            } else {
                proof {
                    lemma_full_byte(byte);
                }
                assert forall|g: int| 0 <= g < 8 * (byte_idx + 1) implies !#[trigger] v0.is_free(g) by {
                    if g >= 8 * byte_idx {
                        assert(g / 8 == byte_idx);
                        assert(bit_set(byte, (g % 8) as u8));
                    }
                }
            }
        }
        None
    }

    /// Finds a contiguous block of N free frames and returns the physical base address.
    pub fn allocate_contiguous(&mut self, num_frames: usize) -> (r: Option<usize>)
        requires
            old(self)@.wf(),
        ensures
            final(self)@.wf(),
            allocate_contiguous_post(old(self)@, final(self)@, num_frames as int, r),
    {
        // A run of 0 frames is never reported.
        if self.free_frames < num_frames || num_frames == 0 {
            return None;
        }
        let ghost v0 = self@;
        let n = num_frames;
        let mut current_consecutive: usize = 0;
        let mut start_frame: usize = 0;
        let total = self.total_frames;
        for frame in 0..total
            invariant
                self@ == v0,
                old(self)@ == v0,
                v0.wf(),
                v0.free_frames >= n,
                n == num_frames,
                n >= 1,
                total == v0.total_frames,
                start_frame <= frame,
                current_consecutive == frame - start_frame,
                n == 0 || current_consecutive < n,
                forall|g: int| start_frame <= g < frame ==> #[trigger] v0.is_free(g),
                start_frame == 0 || !v0.is_free(start_frame - 1),
                n >= 1 ==> forall|s: int|
                    0 <= s && s + n <= frame ==> !#[trigger] run_free(v0, s, n as int),
        {
            let byte_idx = frame / 8;
            let bit_idx = (frame % 8) as u8;
            let is_used = (self.bitmap[byte_idx] & (1u8 << bit_idx)) != 0;
            assert(is_used == v0.is_used(frame as int));
            if is_used {
                assert forall|s: int| 0 <= s && s + n <= frame + 1 && n >= 1 implies !#[trigger] run_free(
                    v0,
                    s,
                    n as int,
                ) by {
                    if s + n == frame + 1 {
                        assert(!v0.is_free(frame as int));
                    }
                }
                current_consecutive = 0;
                start_frame = frame + 1;
            } else {
                current_consecutive += 1;
                if current_consecutive == n {
                    let ghost sf = start_frame as int;
                    assert(run_free(v0, sf, n as int));
                    assert forall|s: int| 0 <= s < sf implies !#[trigger] run_free(v0, s, n as int) by {
                        assert(s + n <= frame);
                    }
                    for i in 0..n
                        invariant
                            old(self)@ == v0,
                            v0.wf(),
                            v0.free_frames >= n,
                            n == num_frames,
                            start_frame == sf,
                            sf + n == frame + 1,
                            frame < v0.total_frames,
                            frame < v0.tracked_frames(),
                            self@.bitmap.len() == self@.bitmap_length,
                            v0.locked_to(self@, sf, sf + i),
                            self@.free_frames == v0.free_frames - i,
                    {
                        let ghost before = self@;
                        self.lock_frame(start_frame + i);
                        assert forall|f: int| 0 <= f < v0.tracked_frames() implies #[trigger] self@.is_used(f)
                            == (v0.is_used(f) || (sf <= f < sf + i + 1)) by {
                            assert(before.is_used(f) == (v0.is_used(f) || (sf <= f < sf + i)));
                        }
                    }
                    let addr = start_frame * PAGE_SIZE;
                    assert(addr % PAGE_SIZE == 0 && addr / PAGE_SIZE == start_frame) by (nonlinear_arith)
                        requires
                            addr == start_frame * PAGE_SIZE,
                    ;
                    assert(self@.wf()) by {
                        assert forall|f: int|
                            self@.total_frames <= f < self@.tracked_frames() implies #[trigger] self@.is_used(f) by {
                            assert(v0.is_used(f));
                        }
                    }
                    return Some(addr);
                }
                assert forall|s: int| 0 <= s && s + n <= frame + 1 && n >= 1 implies !#[trigger] run_free(
                    v0,
                    s,
                    n as int,
                ) by {
                    if s + n == frame + 1 {
                        assert(s < start_frame);
                        assert(!v0.is_free(start_frame - 1));
                    }
                }
            }
        }
        None
    }

    /// Index of the first usable entry of `memmap` that can hold `need` bytes.
    fn find_bitmap_home(memmap: &[MemoryMapEntry], need: usize) -> (r: Option<usize>)
        requires
            forall|i: int| 0 <= i < memmap@.len() ==> entry_end(#[trigger] memmap@[i]) <= usize::MAX,
        ensures
            match r {
                Some(i) => is_first_fit(memmap@, need as int, i as int),
                None => !has_fit(memmap@, need as int),
            },
    {
        let mut i: usize = 0;
        while i < memmap.len()
            invariant
                i <= memmap@.len(),
                forall|k: int| 0 <= k < memmap@.len() ==> entry_end(#[trigger] memmap@[k]) <= usize::MAX,
                forall|j: int| 0 <= j < i ==> !#[trigger] fits_bitmap(memmap@[j], need as int),
            decreases memmap@.len() - i,
        {
            let entry = memmap[i];
            assert(entry_end(memmap@[i as int]) <= usize::MAX);
            if entry.type_ == MEMMAP_USABLE && entry.length as usize >= need {
                return Some(i);
            }
            i += 1;
        }
        None
    }

    /// Initializes the bitmap tracking array using the hardware memory map and virtual offset.
    pub fn init(&mut self, memmap: &[MemoryMapEntry], hhdm_offset: u64)
        requires
            init_ok(old(self)@, memmap@, hhdm_offset),
        ensures
            final(self)@.wf(),
            init_post(old(self)@, final(self)@, memmap@, hhdm_offset),
    {
        let ghost m = memmap@;
        let mut top_address: usize = 0;

        // Scan the entire memory map to find the highest physical address boundary
        let mut i: usize = 0;
        while i < memmap.len()
            invariant
                m == memmap@,
                i <= m.len(),
                init_ok(old(self)@, m, hhdm_offset),
                top_address == memmap_top(m.take(i as int)),
                forall|j: int| 0 <= j < i ==> entry_end(#[trigger] m[j]) <= top_address,
            decreases m.len() - i,
        {
            let entry = memmap[i];
            assert(entry_end(m[i as int]) <= u64::MAX && entry_end(m[i as int]) <= usize::MAX);
            let end = (entry.base + entry.length) as usize;
            assert(m.take(i + 1).drop_last() =~= m.take(i as int));
            if end > top_address {
                top_address = end;
            }
            i += 1;
        }
        assert(m.take(m.len() as int) =~= m);

        self.total_frames = top_address / PAGE_SIZE;
        proof {
            lemma_page_size_power_of_two();
        }
        let bitmap_length = align_up((self.total_frames + 7) / 8, PAGE_SIZE);
        proof {
            lemma_round_up_unique(((self.total_frames + 7) / 8) as int, bitmap_length as int);
        }
        self.bitmap_length = bitmap_length;
        let ghost need = bitmap_length as int;
        assert(need == planned_bitmap_length(m));

        // Find a usable region of memory large enough to store our tracking bitmap
        match Self::find_bitmap_home(memmap, bitmap_length) {
            Some(home) => {
                assert(is_first_fit(m, need, home as int));
                assert(has_fit(m, need));
                let ghost chosen = choose|k: int| is_first_fit(m, need, k);
                assert(chosen == home as int) by {
                    if chosen < home {
                        assert(!fits_bitmap(m[chosen], need));
                    }
                    if chosen > home {
                        assert(!fits_bitmap(m[home as int], need));
                    }
                }
                // Apply the higher-half offset to calculate the virtual memory pointer
                let physical_addr = memmap[home].base;
                self.bitmap_addr = physical_addr + hhdm_offset;
            },
            None => {},
        }
        assert(self.bitmap_addr == planned_bitmap_addr(old(self)@.bitmap_addr, m, hhdm_offset));
        // `init_ok` leaves out the memory maps for which this address would be null.

        // Initially mark all frames as allocated/locked (0xFF) to ensure safety
        self.bitmap = vec![0xFFu8; bitmap_length];
        self.free_frames = 0;
        let ghost cap = 8 * need;
        assert forall|f: int| 0 <= f < cap implies #[trigger] self@.is_used(f) by {
            lemma_full_byte(self@.bitmap[f / 8]);
            assert(self@.bitmap[f / 8] == 0xFF);
        }

        // Liberate pages that map directly to usable RAM chunks
        let mut j: usize = 0;
        while j < memmap.len()
            invariant
                m == memmap@,
                j <= m.len(),
                cap == 8 * need,
                init_ok(old(self)@, m, hhdm_offset),
                self@.bitmap.len() == need,
                self@.bitmap_length == need,
                self@.total_frames == planned_total_frames(m),
                self@.bitmap_addr == planned_bitmap_addr(old(self)@.bitmap_addr, m, hhdm_offset),
                need == planned_bitmap_length(m),
                forall|f: int|
                    0 <= f < cap ==> #[trigger] self@.is_used(f) == !covered_by_usable(
                        m.take(j as int),
                        f,
                    ),
                self@.free_frames == usable_frame_count(m.take(j as int), cap),
            decreases m.len() - j,
        {
            let entry = memmap[j];
            let ghost before = self@;
            let ghost mj = m.take(j + 1);
            assert(mj.drop_last() =~= m.take(j as int));
            assert(entry_end(m[j as int]) <= usize::MAX);
            proof {
                lemma_usable_count_prefix(m, j + 1, cap);
            }
            if entry.type_ == MEMMAP_USABLE {
                self.free_region(entry.base as usize, entry.length as usize);
            }
            assert forall|f: int| 0 <= f < cap implies #[trigger] self@.is_used(f) == !covered_by_usable(
                mj,
                f,
            ) by {
                assert(before.is_used(f) == !covered_by_usable(m.take(j as int), f));
                if covered_by_usable(mj, f) {
                    let k = choose|k: int|
                        0 <= k < mj.len() && mj[k].type_ == MEMMAP_USABLE && #[trigger] in_entry_frames(
                            mj[k],
                            f,
                        );
                    if k < j {
                        assert(m.take(j as int)[k] == mj[k]);
                    }
                }
                if covered_by_usable(m.take(j as int), f) {
                    let k = choose|k: int|
                        0 <= k < j && m.take(j as int)[k].type_ == MEMMAP_USABLE
                            && #[trigger] in_entry_frames(m.take(j as int)[k], f);
                    assert(mj[k] == m.take(j as int)[k]);
                }
                if entry.type_ == MEMMAP_USABLE && in_entry_frames(m[j as int], f) {
                    assert(mj[j as int] == m[j as int]);
                }
            }
            j += 1;
        }
        assert(m.take(m.len() as int) =~= m);

        // Re-lock the physical memory region that holds our newly written allocation bitmap
        let physical_bitmap_addr = (self.bitmap_addr - hhdm_offset) as usize;
        self.lock_region(physical_bitmap_addr, self.bitmap_length);

        proof {
            let v = self@;
            let top = memmap_top(m);
            assert forall|f: int| v.total_frames <= f < v.tracked_frames() implies #[trigger] v.is_used(f) by {
                if covered_by_usable(m, f) {
                    let k = choose|k: int|
                        0 <= k < m.len() && m[k].type_ == MEMMAP_USABLE && #[trigger] in_entry_frames(m[k], f);
                    lemma_frames_add(m[k].base as int, m[k].length as int);
                    assert(entry_end(m[k]) <= top);
                }
            }
        }
    }

    /// The number of frames of `[start, start + count)` that lie below `cap`.
    fn frames_below_exec(start: usize, count: usize, cap: usize) -> (r: usize)
        ensures
            r == frames_below(start as int, count as int, cap as int),
    {
        if start >= cap || count == 0 {
            0
        } else if count <= cap - start {
            count
        } else {
            cap - start
        }
    }

    /// Runs `init` where it runs without a panic, overflow or underflow, and says
    /// whether it did; elsewhere it leaves the allocator unchanged.
    pub fn try_init(&mut self, memmap: &[MemoryMapEntry], hhdm_offset: u64) -> (ok: bool)
        ensures
            ok == init_ok(old(self)@, memmap@, hhdm_offset),
            ok ==> final(self)@.wf() && init_post(old(self)@, final(self)@, memmap@, hhdm_offset),
            !ok ==> final(self)@ == old(self)@,
    {
        let ghost m = memmap@;
        let mut top_address: usize = 0;
        let mut i: usize = 0;
        while i < memmap.len()
            invariant
                m == memmap@,
                i <= m.len(),
                top_address == memmap_top(m.take(i as int)),
                forall|j: int|
                    0 <= j < i ==> entry_end(#[trigger] m[j]) <= u64::MAX && entry_end(m[j])
                        <= usize::MAX && entry_end(m[j]) <= top_address,
            decreases m.len() - i,
        {
            let entry = memmap[i];
            assert(m.take(i + 1).drop_last() =~= m.take(i as int));
            match entry.base.checked_add(entry.length) {
                None => {
                    assert(!init_ok(old(self)@, m, hhdm_offset)) by {
                        assert(entry_end(m[i as int]) > u64::MAX);
                    }
                    return false;
                },
                Some(end) => {
                    if end > usize::MAX as u64 {
                        assert(!init_ok(old(self)@, m, hhdm_offset)) by {
                            assert(entry_end(m[i as int]) > usize::MAX);
                        }
                        return false;
                    }
                    let end = end as usize;
                    if end > top_address {
                        top_address = end;
                    }
                },
            }
            i += 1;
        }
        assert(m.take(m.len() as int) =~= m);
        let total_frames = top_address / PAGE_SIZE;
        proof {
            lemma_page_size_power_of_two();
        }
        let bitmap_length = align_up((total_frames + 7) / 8, PAGE_SIZE);
        proof {
            lemma_round_up_unique(((total_frames + 7) / 8) as int, bitmap_length as int);
        }
        let ghost need = bitmap_length as int;
        assert(need == planned_bitmap_length(m));
        let addr: u64 = match Self::find_bitmap_home(memmap, bitmap_length) {
            Some(home) => {
                assert(has_fit(m, need));
                let ghost chosen = choose|k: int| is_first_fit(m, need, k);
                assert(chosen == home as int) by {
                    if chosen < home {
                        assert(!fits_bitmap(m[chosen], need));
                    }
                    if chosen > home {
                        assert(!fits_bitmap(m[home as int], need));
                    }
                }
                match memmap[home].base.checked_add(hhdm_offset) {
                    None => {
                        return false;
                    },
                    Some(a) => a,
                }
            },
            None => self.bitmap_addr,
        };
        assert(addr == planned_bitmap_addr(old(self)@.bitmap_addr, m, hhdm_offset));
        if addr == 0 || addr < hhdm_offset {
            return false;
        }
        let phys = addr - hhdm_offset;
        if phys > usize::MAX as u64 {
            return false;
        }
        let phys = phys as usize;
        let cap = 8 * bitmap_length;
        let mut count: usize = 0;
        let mut j: usize = 0;
        while j < memmap.len()
            invariant
                m == memmap@,
                j <= m.len(),
                cap == 8 * need,
                need == planned_bitmap_length(m),
                forall|k: int|
                    0 <= k < m.len() ==> entry_end(#[trigger] m[k]) <= usize::MAX,
                count == usable_frame_count(m.take(j as int), cap as int),
            decreases m.len() - j,
        {
            let entry = memmap[j];
            assert(m.take(j + 1).drop_last() =~= m.take(j as int));
            assert(entry_end(m[j as int]) <= usize::MAX);
            if entry.type_ == MEMMAP_USABLE {
                let here = Self::frames_below_exec(
                    entry.base as usize / PAGE_SIZE,
                    entry.length as usize / PAGE_SIZE,
                    cap,
                );
                match count.checked_add(here) {
                    None => {
                        proof {
                            lemma_usable_count_prefix(m, j + 1, cap as int);
                            let mj = m.take(j + 1);
                            assert(mj.last() == entry);
                            assert(usable_frame_count(mj, cap as int) == count + here);
                        }
                        return false;
                    },
                    Some(c) => {
                        count = c;
                    },
                }
            }
            j += 1;
        }
        assert(m.take(m.len() as int) =~= m);
        let locked = Self::frames_below_exec(
            phys / PAGE_SIZE,
            (bitmap_length + (PAGE_SIZE - 1)) / PAGE_SIZE,
            cap,
        );
        if locked > count {
            return false;
        }
        self.init(memmap, hhdm_offset);
        true
    }
}


/// A frame that `allocate_frame` hands out is in use afterwards, so a second
/// `allocate_frame` never hands out the same frame again.
pub proof fn lemma_allocate_frame_twice_distinct(
    v0: AllocatorView,
    v1: AllocatorView,
    v2: AllocatorView,
    a: usize,
    b: usize,
)
    requires
        allocate_frame_post(v0, v1, Some(a)),
        allocate_frame_post(v1, v2, Some(b)),
    ensures
        a != b,
{
    let f = (a / PAGE_SIZE) as int;
    assert(v1.is_used(f));
}

/// A run that `allocate_contiguous` hands out is in use afterwards, so a following
/// `allocate_frame` hands out a frame outside it.
pub proof fn lemma_contiguous_then_frame_disjoint(
    v0: AllocatorView,
    v1: AllocatorView,
    v2: AllocatorView,
    count: int,
    a: usize,
    b: usize,
)
    requires
        allocate_contiguous_post(v0, v1, count, Some(a)),
        allocate_frame_post(v1, v2, Some(b)),
    ensures
        b + PAGE_SIZE <= a || a + count * PAGE_SIZE <= b,
{
    let s = (a / PAGE_SIZE) as int;
    let g = (b / PAGE_SIZE) as int;
    assert(v0.is_free(s));
    if s <= g < s + count {
        assert(v1.is_used(g));
    }
    assert(b + PAGE_SIZE <= a || a + count * PAGE_SIZE <= b) by (nonlinear_arith)
        requires
            a % 4096 == 0,
            b % 4096 == 0,
            s == a / 4096,
            g == b / 4096,
            g < s || s + count <= g,
    ;
}

/// Every frame that `allocate_frame` hands out lies wholly within the physical
/// memory that the allocator tracks.
pub proof fn lemma_allocated_frame_in_memory(v0: AllocatorView, v1: AllocatorView, a: usize)
    requires
        v0.wf(),
        allocate_frame_post(v0, v1, Some(a)),
    ensures
        a + PAGE_SIZE <= v0.total_frames * PAGE_SIZE,
{
    let f = (a / PAGE_SIZE) as int;
    let t = v0.total_frames as int;
    assert(f < t);
    assert(a + 4096 <= t * 4096) by (nonlinear_arith)
        requires
            a % 4096 == 0,
            f == a / 4096,
            f < t,
    ;
}

/// Every run that `allocate_contiguous` hands out lies wholly within the physical
/// memory that the allocator tracks.
pub proof fn lemma_allocated_run_in_memory(
    v0: AllocatorView,
    v1: AllocatorView,
    count: int,
    a: usize,
)
    requires
        allocate_contiguous_post(v0, v1, count, Some(a)),
    ensures
        a + count * PAGE_SIZE <= v0.total_frames * PAGE_SIZE,
{
    let s = (a / PAGE_SIZE) as int;
    let t = v0.total_frames as int;
    assert(a + count * 4096 <= t * 4096) by (nonlinear_arith)
        requires
            a % 4096 == 0,
            s == a / 4096,
            s + count <= t,
    ;
}

/// After `init`, the first frame handed out lies in usable RAM and outside the
/// frames that hold the bitmap itself.
pub proof fn lemma_init_then_allocate_usable(
    v0: AllocatorView,
    v1: AllocatorView,
    v2: AllocatorView,
    m: Seq<MemoryMapEntry>,
    hhdm: u64,
    a: usize,
)
    requires
        init_post(v0, v1, m, hhdm),
        allocate_frame_post(v1, v2, Some(a)),
    ensures
        covered_by_usable(m, (a / PAGE_SIZE) as int),
        ({
            let phys_frame = (planned_bitmap_addr(v0.bitmap_addr, m, hhdm) - hhdm)
                / PAGE_SIZE as int;
            !(phys_frame <= a / PAGE_SIZE < phys_frame + pages_for(planned_bitmap_length(m)))
        }),
{
    let f = (a / PAGE_SIZE) as int;
    assert(v1.is_free(f));
    assert(!v1.is_used(f));
}

/// Number of free frames among frames `0 .. n`.
pub open spec fn free_count(v: AllocatorView, n: int) -> int
    decreases n,
{
    if n <= 0 {
        0
    } else {
        free_count(v, n - 1) + if v.is_free(n - 1) {
            1int
        } else {
            0int
        }
    }
}

/// The free counter agrees with the bitmap: it is the number of free frames.
pub open spec fn counter_exact(v: AllocatorView) -> bool {
    v.free_frames == free_count(v, v.tracked_frames())
}

/// Marking a run of free frames used takes exactly the frames of the run that lie
/// below `n` off the free count below `n`.
proof fn lemma_free_count_locked(v0: AllocatorView, v1: AllocatorView, lo: int, count: int, n: int)
    requires
        v0.locked_to(v1, lo, lo + count),
        0 <= lo,
        0 <= count,
        run_free(v0, lo, count),
        0 <= n <= v0.tracked_frames(),
    ensures
        free_count(v1, n) == free_count(v0, n) - frames_below(lo, count, n),
    decreases n,
{
    if n > 0 {
        lemma_free_count_locked(v0, v1, lo, count, n - 1);
        let f = n - 1;
        if lo <= f < lo + count {
            assert(v0.is_free(f));
        }
        assert(v1.is_used(f) == (v0.is_used(f) || (lo <= f < lo + count)));
    }
}

/// Handing out a frame keeps the free counter in step with the bitmap.
pub proof fn lemma_allocate_frame_keeps_counter_exact(
    v0: AllocatorView,
    v1: AllocatorView,
    r: Option<usize>,
)
    requires
        counter_exact(v0),
        allocate_frame_post(v0, v1, r),
    ensures
        counter_exact(v1),
{
    if let Some(a) = r {
        let f = (a / PAGE_SIZE) as int;
        assert(run_free(v0, f, 1));
        lemma_free_count_locked(v0, v1, f, 1, v0.tracked_frames());
    }
}

/// Handing out a run of frames keeps the free counter in step with the bitmap.
pub proof fn lemma_allocate_contiguous_keeps_counter_exact(
    v0: AllocatorView,
    v1: AllocatorView,
    count: int,
    r: Option<usize>,
)
    requires
        counter_exact(v0),
        allocate_contiguous_post(v0, v1, count, r),
    ensures
        counter_exact(v1),
{
    if let Some(a) = r {
        let s = (a / PAGE_SIZE) as int;
        assert forall|f: int| s <= f < s + count implies #[trigger] v0.is_free(f) by {
            assert(run_free(v0, s, count));
        }
        assert(v0.is_free(s + count - 1));
        lemma_free_count_locked(v0, v1, s, count, v0.tracked_frames());
    }
}

/// Number of frames among `0 .. n` that have property `p`.
pub open spec fn count_frames(p: spec_fn(int) -> bool, n: int) -> int
    decreases n,
{
    if n <= 0 {
        0
    } else {
        count_frames(p, n - 1) + if p(n - 1) {
            1int
        } else {
            0int
        }
    }
}

proof fn lemma_count_ext(p: spec_fn(int) -> bool, q: spec_fn(int) -> bool, n: int)
    requires
        forall|f: int| 0 <= f < n ==> #[trigger] p(f) == q(f),
    ensures
        count_frames(p, n) == count_frames(q, n),
    decreases n,
{
    if n > 0 {
        lemma_count_ext(p, q, n - 1);
    }
}

proof fn lemma_count_disjoint_or(p: spec_fn(int) -> bool, q: spec_fn(int) -> bool, n: int)
    requires
        forall|f: int| 0 <= f < n ==> !(#[trigger] p(f) && q(f)),
    ensures
        count_frames(|f: int| p(f) || q(f), n) == count_frames(p, n) + count_frames(q, n),
    decreases n,
{
    if n > 0 {
        lemma_count_disjoint_or(p, q, n - 1);
    }
}

proof fn lemma_count_and_not(p: spec_fn(int) -> bool, q: spec_fn(int) -> bool, n: int)
    requires
        forall|f: int| 0 <= f < n ==> #[trigger] q(f) ==> p(f),
    ensures
        count_frames(|f: int| p(f) && !q(f), n) == count_frames(p, n) - count_frames(q, n),
    decreases n,
{
    if n > 0 {
        lemma_count_and_not(p, q, n - 1);
    }
}

proof fn lemma_count_interval(lo: int, k: int, n: int)
    requires
        lo >= 0,
        n >= 0,
    ensures
        count_frames(|f: int| lo <= f < lo + k, n) == frames_below(lo, k, n),
    decreases n,
{
    if n > 0 {
        lemma_count_interval(lo, k, n - 1);
    }
}

proof fn lemma_free_count_is_count(v: AllocatorView, n: int)
    requires
        n <= v.tracked_frames(),
    ensures
        free_count(v, n) == count_frames(|f: int| v.is_free(f), n),
    decreases n,
{
    if n > 0 {
        lemma_free_count_is_count(v, n - 1);
    }
}

/// No frame lies in two usable entries of `m`.
pub open spec fn usable_disjoint(m: Seq<MemoryMapEntry>) -> bool {
    forall|i: int, j: int|
        0 <= i < j < m.len() && m[i].type_ == MEMMAP_USABLE && m[j].type_ == MEMMAP_USABLE
            ==> entry_first_frame(#[trigger] m[i]) + entry_frame_count(m[i]) <= entry_first_frame(
            #[trigger] m[j],
        ) || entry_first_frame(m[j]) + entry_frame_count(m[j]) <= entry_first_frame(m[i])
}

proof fn lemma_usable_count_is_covered_count(m: Seq<MemoryMapEntry>, cap: int)
    requires
        usable_disjoint(m),
        cap >= 0,
    ensures
        usable_frame_count(m, cap) == count_frames(|f: int| covered_by_usable(m, f), cap),
    decreases m.len(),
{
    let cov = |f: int| covered_by_usable(m, f);
    if m.len() == 0 {
        lemma_count_ext(cov, |f: int| false, cap);
        lemma_count_interval(0, 0, cap);
        lemma_count_ext(|f: int| 0 <= f < 0 + 0, |f: int| false, cap);
    } else {
        let d = m.drop_last();
        let e = m.last();
        assert(usable_disjoint(d)) by {
            assert forall|i: int, j: int|
                0 <= i < j < d.len() && d[i].type_ == MEMMAP_USABLE && d[j].type_
                    == MEMMAP_USABLE implies entry_first_frame(#[trigger] d[i]) + entry_frame_count(
                d[i],
            ) <= entry_first_frame(#[trigger] d[j]) || entry_first_frame(d[j])
                + entry_frame_count(d[j]) <= entry_first_frame(d[i]) by {
                assert(d[i] == m[i] && d[j] == m[j]);
            }
        }
        lemma_usable_count_is_covered_count(d, cap);
        let cd = |f: int| covered_by_usable(d, f);
        let lo = entry_first_frame(e);
        let k = if e.type_ == MEMMAP_USABLE {
            entry_frame_count(e)
        } else {
            0
        };
        let ie = |f: int| lo <= f < lo + k;
        assert forall|f: int| 0 <= f < cap implies #[trigger] cov(f) == (cd(f) || ie(f)) by {
            if covered_by_usable(m, f) {
                let i = choose|i: int|
                    0 <= i < m.len() && m[i].type_ == MEMMAP_USABLE && #[trigger] in_entry_frames(
                        m[i],
                        f,
                    );
                if i < d.len() {
                    assert(d[i] == m[i]);
                }
            }
            if covered_by_usable(d, f) {
                let i = choose|i: int|
                    0 <= i < d.len() && d[i].type_ == MEMMAP_USABLE && #[trigger] in_entry_frames(
                        d[i],
                        f,
                    );
                assert(m[i] == d[i]);
            }
            if ie(f) {
                assert(in_entry_frames(m[m.len() - 1], f));
            }
        }
        lemma_count_ext(cov, |f: int| cd(f) || ie(f), cap);
        assert forall|f: int| 0 <= f < cap implies !(#[trigger] cd(f) && ie(f)) by {
            if cd(f) && ie(f) {
                let i = choose|i: int|
                    0 <= i < d.len() && d[i].type_ == MEMMAP_USABLE && #[trigger] in_entry_frames(
                        d[i],
                        f,
                    );
                assert(m[i] == d[i]);
                assert(m[m.len() - 1] == e);
            }
        }
        lemma_count_disjoint_or(cd, ie, cap);
        lemma_count_interval(lo, k, cap);
        assert(lo >= 0);
    }
}

/// After `init` places the bitmap in a usable entry of a memory map whose usable
/// entries do not overlap, the free counter is exactly the number of free frames.
pub proof fn lemma_init_counter_exact(
    v0: AllocatorView,
    v1: AllocatorView,
    m: Seq<MemoryMapEntry>,
    hhdm: u64,
)
    requires
        init_ok(v0, m, hhdm),
        init_post(v0, v1, m, hhdm),
        has_fit(m, planned_bitmap_length(m)),
        usable_disjoint(m),
    ensures
        counter_exact(v1),
{
    let need = planned_bitmap_length(m);
    let cap = 8 * need;
    lemma_first_fit_exists(m, need);
    let home = choose|i: int| is_first_fit(m, need, i);
    let e = m[home];
    let phys_frame = (planned_bitmap_addr(v0.bitmap_addr, m, hhdm) - hhdm) / PAGE_SIZE as int;
    assert(phys_frame == entry_first_frame(e));
    let t = planned_total_frames(m);
    assert(t >= 0) by {
        lemma_memmap_top_nonneg(m);
    }
    let pages = pages_for(need);
    assert(pages == pages_for(bytes_for_bits(t))) by {
        let q = pages_for(bytes_for_bits(t));
        assert((q * 4096 + 4095) / 4096 == q) by (nonlinear_arith)
            requires
                q >= 0,
        ;
    }
    assert(pages <= entry_frame_count(e)) by {
        assert(pages * 4096 <= e.length ==> pages <= e.length / 4096) by (nonlinear_arith);
    }
    let cov = |f: int| covered_by_usable(m, f);
    let b = |f: int| phys_frame <= f < phys_frame + pages;
    assert forall|f: int| 0 <= f < cap && #[trigger] b(f) implies cov(f) by {
        assert(in_entry_frames(m[home], f));
    }
    lemma_count_and_not(cov, b, cap);
    lemma_count_interval(phys_frame, pages, cap);
    lemma_usable_count_is_covered_count(m, cap);
    lemma_free_count_is_count(v1, cap);
    lemma_count_ext(|f: int| v1.is_free(f), |f: int| cov(f) && !b(f), cap);
}

/// Where some entry can hold the bitmap, there is a first such entry.
proof fn lemma_first_fit_exists(m: Seq<MemoryMapEntry>, need: int)
    requires
        has_fit(m, need),
    ensures
        exists|i: int| is_first_fit(m, need, i),
    decreases m.len(),
{
    let d = m.drop_last();
    if has_fit(d, need) {
        lemma_first_fit_exists(d, need);
        let i = choose|i: int| is_first_fit(d, need, i);
        assert forall|j: int| 0 <= j < i implies !#[trigger] fits_bitmap(m[j], need) by {
            assert(m[j] == d[j]);
        }
        assert(m[i] == d[i]);
        assert(is_first_fit(m, need, i));
    } else {
        let w = choose|i: int| 0 <= i < m.len() && #[trigger] fits_bitmap(m[i], need);
        if w < d.len() {
            assert(d[w] == m[w]);
        }
        assert forall|j: int| 0 <= j < m.len() - 1 implies !#[trigger] fits_bitmap(m[j], need) by {
            assert(m[j] == d[j]);
        }
        assert(is_first_fit(m, need, m.len() - 1));
    }
}

/// The top of a memory map is never negative.
proof fn lemma_memmap_top_nonneg(m: Seq<MemoryMapEntry>)
    ensures
        memmap_top(m) >= 0,
    decreases m.len(),
{
    if m.len() > 0 {
        lemma_memmap_top_nonneg(m.drop_last());
    }
}

/// Bytes with the same eight bits are the same byte.
proof fn lemma_byte_from_bits(a: u8, b: u8)
    requires
        forall|j: u8| j < 8 ==> #[trigger] bit_set(a, j) == bit_set(b, j),
    ensures
        a == b,
{
    assert(bit_set(a, 0) == bit_set(b, 0) && bit_set(a, 1) == bit_set(b, 1));
    assert(bit_set(a, 2) == bit_set(b, 2) && bit_set(a, 3) == bit_set(b, 3));
    assert(bit_set(a, 4) == bit_set(b, 4) && bit_set(a, 5) == bit_set(b, 5));
    assert(bit_set(a, 6) == bit_set(b, 6) && bit_set(a, 7) == bit_set(b, 7));
    assert(a == b) by (bit_vector)
        requires
            (a & (1u8 << 0u8) != 0) == (b & (1u8 << 0u8) != 0),
            (a & (1u8 << 1u8) != 0) == (b & (1u8 << 1u8) != 0),
            (a & (1u8 << 2u8) != 0) == (b & (1u8 << 2u8) != 0),
            (a & (1u8 << 3u8) != 0) == (b & (1u8 << 3u8) != 0),
            (a & (1u8 << 4u8) != 0) == (b & (1u8 << 4u8) != 0),
            (a & (1u8 << 5u8) != 0) == (b & (1u8 << 5u8) != 0),
            (a & (1u8 << 6u8) != 0) == (b & (1u8 << 6u8) != 0),
            (a & (1u8 << 7u8) != 0) == (b & (1u8 << 7u8) != 0),
    ;
}

/// Freeing frames `[lo, hi)` that were all in use and then locking the same
/// frames again gives back the allocator as it was, bitmap bytes and free counter
/// alike: `lock_frame` undoes `free_frame`, and `lock_region` undoes `free_region`.
pub proof fn lemma_lock_undoes_free(
    v0: AllocatorView,
    v1: AllocatorView,
    v2: AllocatorView,
    lo: int,
    hi: int,
    k: int,
)
    requires
        v0.freed_to(v1, lo, hi),
        v1.locked_to(v2, lo, hi),
        forall|f: int| lo <= f < hi && 0 <= f < v0.tracked_frames() ==> #[trigger] v0.is_used(f),
        v1.free_frames == v0.free_frames + k,
        v2.free_frames == v1.free_frames - k,
    ensures
        v2 == v0,
{
    assert forall|i: int| 0 <= i < v0.bitmap.len() implies v2.bitmap[i] == v0.bitmap[i] by {
        assert forall|j: u8| j < 8 implies #[trigger] bit_set(v2.bitmap[i], j) == bit_set(
            v0.bitmap[i],
            j,
        ) by {
            let f = 8 * i + j;
            assert(f / 8 == i && f % 8 == j as int);
            assert(v2.is_used(f) == v0.is_used(f));
        }
        lemma_byte_from_bits(v2.bitmap[i], v0.bitmap[i]);
    }
    assert(v2.bitmap =~= v0.bitmap);
}

/// After `init`, the bitmap has the smallest size in whole pages that gives every
/// frame of memory its own bit: a whole number of pages, at least one bit per
/// frame, and less than one page more than the bytes that those bits need.
pub proof fn lemma_init_bitmap_size(
    v0: AllocatorView,
    v1: AllocatorView,
    m: Seq<MemoryMapEntry>,
    hhdm: u64,
)
    requires
        init_post(v0, v1, m, hhdm),
    ensures
        v1.bitmap.len() == v1.bitmap_length,
        v1.bitmap_length % PAGE_SIZE == 0,
        8 * v1.bitmap_length >= v1.total_frames,
        v1.bitmap_length < (v1.total_frames + 7) / 8 + PAGE_SIZE,
{
    lemma_memmap_top_nonneg(m);
    let t = planned_total_frames(m);
    let q = pages_for(bytes_for_bits(t));
    assert(q * 4096 % 4096 == 0 && 8 * (q * 4096) >= t && q * 4096 < (t + 7) / 8 + 4096)
        by (nonlinear_arith)
        requires
            t >= 0,
            q == ((t + 7) / 8 + 4095) / 4096,
    ;
}

/// After `init`, the allocator tracks memory up to the highest end of any entry
/// of the memory map, in whole frames: no entry ends a whole frame or more past
/// `total_frames` frames, and some entry ends at or past them (none for an empty map).
pub proof fn lemma_init_total_frames(
    v0: AllocatorView,
    v1: AllocatorView,
    m: Seq<MemoryMapEntry>,
    hhdm: u64,
)
    requires
        init_post(v0, v1, m, hhdm),
    ensures
        forall|i: int|
            0 <= i < m.len() ==> entry_end(#[trigger] m[i]) < (v1.total_frames + 1) * PAGE_SIZE,
        m.len() > 0 ==> exists|i: int|
            0 <= i < m.len() && v1.total_frames * PAGE_SIZE <= entry_end(#[trigger] m[i]),
        m.len() == 0 ==> v1.total_frames == 0,
{
    lemma_memmap_top_bounds(m);
    let top = memmap_top(m);
    let t = v1.total_frames as int;
    assert(t * 4096 <= top && top < (t + 1) * 4096) by (nonlinear_arith)
        requires
            t == top / 4096,
            top >= 0,
    ;
    if m.len() > 0 {
        let i = choose|i: int| 0 <= i < m.len() && entry_end(#[trigger] m[i]) == top;
        assert(t * PAGE_SIZE <= entry_end(m[i]));
    }
}

/// The top of a memory map bounds every entry's end and, for a nonempty map, is
/// the end of one of them.
proof fn lemma_memmap_top_bounds(m: Seq<MemoryMapEntry>)
    ensures
        memmap_top(m) >= 0,
        forall|i: int| 0 <= i < m.len() ==> entry_end(#[trigger] m[i]) <= memmap_top(m),
        m.len() > 0 ==> exists|i: int| 0 <= i < m.len() && entry_end(#[trigger] m[i]) == memmap_top(m),
        m.len() == 0 ==> memmap_top(m) == 0,
    decreases m.len(),
{
    if m.len() > 0 {
        let d = m.drop_last();
        lemma_memmap_top_bounds(d);
        assert forall|i: int| 0 <= i < m.len() implies entry_end(#[trigger] m[i]) <= memmap_top(m) by {
            if i < d.len() {
                assert(m[i] == d[i]);
            }
        }
        if entry_end(m.last()) > memmap_top(d) {
            assert(entry_end(m[m.len() - 1]) == memmap_top(m));
        } else if d.len() > 0 {
            let i = choose|i: int| 0 <= i < d.len() && entry_end(#[trigger] d[i]) == memmap_top(d);
            assert(m[i] == d[i]);
            assert(entry_end(m[i]) == memmap_top(m));
        } else {
            assert(entry_end(m[0]) >= 0);
            assert(entry_end(m[m.len() - 1]) == memmap_top(m));
        }
    }
}

} // verus!
