//! The physical page allocator.
//!
//! Memory is handed out in whole pages of `PGSIZE` bytes. A free page carries
//! its own list linkage: its first word holds the address of the next free
//! page. The allocator models each page of the managed region as a `Frame`,
//! which is either owned by a caller (and then holds plain bytes) or free (and
//! then holds a link). Exclusive access through `&mut self` plays the part of
//! the allocator's lock.

use crate::riscv::{pgroundup, round_up, PGSIZE};
use vstd::prelude::*;

verus! {

/// Byte written over a page when it is freed, so that a stale reference to
/// freed memory reads recognisable junk.
pub const FREE_FILL: u8 = 1;

/// Byte written over a page when it is allocated, so that a caller cannot
/// mistake it for zeroed memory.
pub const ALLOC_FILL: u8 = 5;

/// Byte that every page of the managed region holds before it is first freed.
pub const BOOT_FILL: u8 = 0;

/// The state of one page of the managed region.
#[derive(Clone, Copy, Debug, PartialEq, Eq)]
pub enum Frame {
    /// Owned by a caller; every byte of the page holds the given value.
    Owned(u8),
    /// On the free list; the first word links to the next free page.
    Free(Option<u64>),
}

/// Why a page handed to `kfree` was refused. Either one means that the
/// caller or memory is corrupt, and the kernel halts.
#[derive(Clone, Copy, Debug, PartialEq, Eq)]
pub enum FreeError {
    /// The address is not a multiple of `PGSIZE`.
    Misaligned,
    /// The address lies outside the managed region.
    OutOfRange,
}

/// The allocator: the managed region `[start, end)`, one frame for each
/// whole page of it, and the free list, whose nodes live in the frames.
pub struct KMem {
    start: u64,
    end: u64,
    base: u64,
    frames: Vec<Frame>,
    freelist: Option<u64>,
    nfree: u64,
    stack: Ghost<Seq<u64>>,
}

/// The first element of `s`, if any: the head of a list whose nodes are `s`.
pub open spec fn head_of(s: Seq<u64>) -> Option<u64> {
    if s.len() == 0 {
        None
    } else {
        Some(s[0])
    }
}

/// The link stored in the node at position `i` of the list `s`.
pub open spec fn next_in(s: Seq<u64>, i: int) -> Option<u64> {
    if i + 1 < s.len() {
        Some(s[i + 1])
    } else {
        None
    }
}

/// The byte at position `off` (0 for the lowest) of a little-endian word.
pub open spec fn word_byte(w: u64, off: u64) -> u8 {
    ((w >> (8 * off)) & 0xff) as u8
}

/// The byte at offset `off` of a page in state `f`: a free page holds its
/// link in its first word and the free filler after it.
pub open spec fn frame_byte(f: Frame, off: u64) -> u8 {
    match f {
        Frame::Owned(b) => b,
        Frame::Free(next) => if off < 8 {
            word_byte(
                match next {
                    Some(a) => a,
                    None => 0,
                },
                off,
            )
        } else {
            FREE_FILL
        },
    }
}

/// The free list after freeing page `pa`: it goes on top.
pub open spec fn free_step(s: Seq<u64>, pa: u64) -> Seq<u64> {
    seq![pa].add(s)
}

/// The free list and the result after one allocation: the top page leaves,
/// or nothing does when the list is empty.
pub open spec fn alloc_step(s: Seq<u64>) -> (Seq<u64>, Option<u64>) {
    if s.len() == 0 {
        (s, None)
    } else {
        (s.drop_first(), Some(s[0]))
    }
}

/// The results of `n` allocations in a row from the free list `s`.
pub open spec fn alloc_results(s: Seq<u64>, n: nat) -> Seq<Option<u64>>
    decreases n,
{
    if n == 0 {
        Seq::empty()
    } else {
        seq![alloc_step(s).1].add(alloc_results(alloc_step(s).0, (n - 1) as nat))
    }
}

/// The free list that freeing each page `p, p + PGSIZE, ...` with
/// `page + PGSIZE <= hi` in turn puts on top of an existing list: the last
/// page freed comes first.
pub open spec fn seed_order(p: int, hi: int) -> Seq<u64>
    decreases hi - p,
{
    if p + PGSIZE <= hi {
        seed_order(p + PGSIZE, hi).push(p as u64)
    } else {
        Seq::empty()
    }
}

/// Whether `s` is the chain of nodes reached from the head of `k` by
/// following the links stored in the pages.
pub open spec fn is_chain(k: &KMem, s: Seq<u64>) -> bool {
    &&& k.head() == head_of(s)
    &&& forall|i: int|
        0 <= i < s.len() ==> #[trigger] k.page(s[i]) == Frame::Free(next_in(s, i))
}

impl KMem {
    /// First address of the managed region (the end of the kernel image).
    pub closed spec fn region_start(&self) -> u64 {
        self.start
    }

    /// End of the managed region, exclusive (the top of physical memory).
    pub closed spec fn region_end(&self) -> u64 {
        self.end
    }

    /// The pages on the free list, from the head on.
    pub closed spec fn free_list(&self) -> Seq<u64> {
        self.stack@
    }

    /// The head of the free list.
    pub closed spec fn head(&self) -> Option<u64> {
        self.freelist
    }

    /// The state of the page that starts at `pa`.
    pub closed spec fn page(&self, pa: u64) -> Frame {
        self.frames@[(pa - self.base) / (PGSIZE as int)]
    }

    /// Whether `pa` is an address that `kfree` accepts: page-aligned and
    /// inside the managed region.
    pub open spec fn is_page(&self, pa: u64) -> bool {
        &&& pa % PGSIZE == 0
        &&& self.region_start() <= pa < self.region_end()
    }

    /// The region's bounds and the frames that cover it agree.
    closed spec fn region_wf(&self) -> bool {
        &&& self.start <= self.end
        &&& self.end % PGSIZE == 0
        &&& self.end <= u64::MAX - PGSIZE
        &&& self.base as int == round_up(self.start as int)
        &&& self.frames@.len() == (self.end - self.base) / (PGSIZE as int)
        &&& self.frames@.len() <= usize::MAX
    }

    /// The allocator's invariant: the free list is a chain of distinct pages
    /// of the region, linked through the pages themselves, and the count is
    /// its length.
    pub closed spec fn wf(&self) -> bool {
        &&& self.region_wf()
        &&& self.nfree == self.stack@.len()
        &&& self.freelist == head_of(self.stack@)
        &&& self.stack@.no_duplicates()
        &&& forall|i: int| 0 <= i < self.stack@.len() ==> self.is_page(#[trigger] self.stack@[i])
        &&& is_chain(self, self.stack@)
        &&& forall|j: int|
            0 <= j < self.frames@.len() && (#[trigger] self.frames@[j]) is Free ==> self.stack@.contains(
                (self.base + j * PGSIZE) as u64,
            )
    }
}

/// An aligned address of `[base, end)`, both ends aligned, lies a whole
/// number of pages above `base`, and that number is below the number of
/// pages in the range.
proof fn lemma_index(base: int, end: int, pa: int)
    requires
        base % 4096 == 0,
        end % 4096 == 0,
        pa % 4096 == 0,
        base <= pa < end,
    ensures
        pa == base + ((pa - base) / 4096) * 4096,
        0 <= (pa - base) / 4096 < (end - base) / 4096,
{
    assert((pa - base) % 4096 == 0) by (nonlinear_arith)
        requires
            base % 4096 == 0,
            pa % 4096 == 0,
            base <= pa,
    ;
    assert((end - base) % 4096 == 0) by (nonlinear_arith)
        requires
            base % 4096 == 0,
            end % 4096 == 0,
            base <= end,
    ;
    let k = (pa - base) / 4096;
    let m = (end - base) / 4096;
    assert(pa - base == k * 4096);
    assert(end - base == m * 4096);
    assert(k < m) by (nonlinear_arith)
        requires
            k * 4096 < m * 4096,
    ;
}

/// An aligned address at or above `start` is at or above `start` rounded up.
proof fn lemma_round_up_below(start: int, pa: int)
    requires
        0 <= start <= pa,
        pa % 4096 == 0,
    ensures
        round_up(start) <= pa,
        round_up(start) % 4096 == 0,
{
    if start % 4096 != 0 {
        assert(pa - start >= 4096 - start % 4096) by (nonlinear_arith)
            requires
                0 <= start <= pa,
                pa % 4096 == 0,
                start % 4096 != 0,
        ;
    }
}

impl KMem {
    /// Facts about one page address that the methods need: it maps to a frame
    /// of its own.
    proof fn lemma_page_index(&self, pa: u64)
        requires
            self.region_wf(),
            self.is_page(pa),
        ensures
            self.base <= pa,
            pa == self.base + ((pa - self.base) / (PGSIZE as int)) * PGSIZE,
            0 <= (pa - self.base) / (PGSIZE as int) < self.frames@.len(),
    {
        lemma_round_up_below(self.start as int, pa as int);
        lemma_index(self.base as int, self.end as int, pa as int);
    }

    /// The free list has no more nodes than the region has pages.
    proof fn lemma_list_bound(&self, s: Seq<u64>)
        requires
            self.region_wf(),
            s.no_duplicates(),
            forall|i: int| 0 <= i < s.len() ==> self.is_page(#[trigger] s[i]),
        ensures
            s.len() <= self.frames@.len(),
    {
        let n = self.frames@.len() as int;
        let ix = s.map_values(|a: u64| (a - self.base) / (PGSIZE as int));
        assert forall|i: int, j: int| 0 <= i < s.len() && 0 <= j < s.len() && i != j implies ix[i]
            != ix[j] by {
            self.lemma_page_index(s[i]);
            self.lemma_page_index(s[j]);
        }
        assert(ix.no_duplicates());
        ix.unique_seq_to_set();
        assert forall|x: int| ix.to_set().contains(x) implies vstd::set_lib::set_int_range(
            0,
            n,
        ).contains(x) by {
            let i = choose|i: int| 0 <= i < ix.len() && ix[i] == x;
            self.lemma_page_index(s[i]);
        }
        vstd::set_lib::lemma_int_range(0, n);
        vstd::set_lib::lemma_len_subset(ix.to_set(), vstd::set_lib::set_int_range(0, n));
    }

    /// Writing the frame of page `pa` leaves every other page as it was.
    proof fn lemma_frame_update(&self, other: &Self, pa: u64)
        requires
            self.region_wf(),
            other.start == self.start,
            other.end == self.end,
            other.base == self.base,
            self.is_page(pa),
            other.frames@ == self.frames@.update(
                (pa - self.base) / (PGSIZE as int),
                other.frames@[(pa - self.base) / (PGSIZE as int)],
            ),
        ensures
            forall|a: u64| self.is_page(a) && a != pa ==> #[trigger] other.page(a) == self.page(a),
    {
        self.lemma_page_index(pa);
        assert forall|a: u64| self.is_page(a) && a != pa implies #[trigger] other.page(a)
            == self.page(a) by {
            self.lemma_page_index(a);
        }
    }

    /// Tells whether `kfree` accepts `pa`, and if not, why: an address that
    /// is not page-aligned, or that lies outside the managed region, means
    /// that the caller or memory is corrupt, and the kernel halts.
    pub fn check_free(&self, pa: u64) -> (r: Result<(), FreeError>)
        requires
            self.wf(),
        ensures
            r is Ok <==> self.is_page(pa),
            r == Err::<(), FreeError>(FreeError::Misaligned) <==> pa % PGSIZE != 0,
    {
        if pa % PGSIZE != 0 {
            Err(FreeError::Misaligned)
        } else if pa < self.start || pa >= self.end {
            Err(FreeError::OutOfRange)
        } else {
            Ok(())
        }
    }

    /// Returns the page at `pa` to the free list.
    ///
    /// The address must be one that `check_free` accepts, and the page must
    /// not be on the free list already: freeing a page twice would link it
    /// into the list twice.
    pub fn kfree(&mut self, pa: u64)
        requires
            old(self).wf(),
            old(self).is_page(pa),
            !old(self).free_list().contains(pa),
        ensures
            final(self).wf(),
            final(self).region_start() == old(self).region_start(),
            final(self).region_end() == old(self).region_end(),
            final(self).free_list() == free_step(old(self).free_list(), pa),
            final(self).page(pa) == Frame::Free(head_of(old(self).free_list())),
            forall|a: u64|
                final(self).is_page(a) && a != pa ==> #[trigger] final(self).page(a) == old(
                    self,
                ).page(a),
    {
        proof {
            self.lemma_page_index(pa);
        }
        let idx = ((pa - self.base) / PGSIZE) as usize;
        assert(idx as int == (pa - self.base) / (PGSIZE as int));
        // Link the page in; the rest of it reads as the free filler.
        self.frames.set(idx, Frame::Free(self.freelist));
        self.freelist = Some(pa);
        let ghost old_stack = self.stack@;
        self.stack = Ghost(free_step(old_stack, pa));
        proof {
            assert forall|i: int| 0 <= i < self.stack@.len() implies self.is_page(
                #[trigger] self.stack@[i],
            ) by {
                if i > 0 {
                    assert(old_stack.contains(self.stack@[i]));
                }
            }
            assert(self.stack@.no_duplicates());
            self.lemma_list_bound(self.stack@);
        }
        self.nfree = self.nfree + 1;
        assert forall|a: u64| self.is_page(a) && a != pa implies #[trigger] self.page(a) == old(
            self,
        ).page(a) by {
            self.lemma_page_index(a);
            assert((a - self.base) / (PGSIZE as int) != idx as int);
        }
        assert forall|j: int|
            0 <= j < self.frames@.len() && (#[trigger] self.frames@[j]) is Free implies self.stack@.contains(
            (self.base + j * PGSIZE) as u64,
        ) by {
            if j == idx {
                assert(self.stack@[0] == pa);
            } else {
                assert(old(self).frames@[j] is Free);
                let a = (self.base + j * PGSIZE) as u64;
                assert(old_stack.contains(a));
                let m = choose|m: int| 0 <= m < old_stack.len() && old_stack[m] == a;
                assert(self.stack@[m + 1] == a);
            }
        }
        assert forall|i: int| 0 <= i < self.stack@.len() implies #[trigger] self.page(
            self.stack@[i],
        ) == Frame::Free(next_in(self.stack@, i)) by {
            if i > 0 {
                assert(self.stack@[i] == old_stack[i - 1]);
                assert(old_stack.contains(old_stack[i - 1]));
                assert(old(self).page(old_stack[i - 1]) == Frame::Free(next_in(old_stack, i - 1)));
            }
        }
    }

    /// Takes the page at the head of the free list, fills it with
    /// `ALLOC_FILL` and returns its address; `None` when no page is free.
    /// The page returned is the one freed last.
    pub fn kalloc(&mut self) -> (r: Option<u64>)
        requires
            old(self).wf(),
        ensures
            final(self).wf(),
            final(self).region_start() == old(self).region_start(),
            final(self).region_end() == old(self).region_end(),
            (final(self).free_list(), r) == alloc_step(old(self).free_list()),
            r matches Some(a) ==> a % PGSIZE == 0,
            r matches Some(a) ==> final(self).region_start() <= a < final(self).region_end(),
            r matches Some(a) ==> final(self).page(a) == Frame::Owned(ALLOC_FILL),
            forall|a: u64|
                final(self).is_page(a) && r != Some(a) ==> #[trigger] final(self).page(a) == old(
                    self,
                ).page(a),
    {
        let head = self.freelist;
        match head {
            None => None,
            Some(pa) => {
                let ghost old_stack = self.stack@;
                assert(old_stack.contains(old_stack[0]));
                proof {
                    self.lemma_page_index(pa);
                }
                let idx = ((pa - self.base) / PGSIZE) as usize;
                assert(idx as int == (pa - self.base) / (PGSIZE as int));
                assert(self.page(old_stack[0]) == Frame::Free(next_in(old_stack, 0)));
                let next = match self.frames[idx] {
                    Frame::Free(next) => next,
                    Frame::Owned(_) => None,
                };
                self.freelist = next;
                self.stack = Ghost(old_stack.drop_first());
                self.nfree = self.nfree - 1;
                // Fill with junk so that the caller cannot rely on the contents.
                self.frames.set(idx, Frame::Owned(ALLOC_FILL));
                proof {
                    old(self).lemma_frame_update(self, pa);
                    assert forall|i: int| 0 <= i < self.stack@.len() implies self.is_page(
                        #[trigger] self.stack@[i],
                    ) by {
                        assert(old_stack.contains(old_stack[i + 1]));
                    }
                    assert forall|i: int| 0 <= i < self.stack@.len() implies #[trigger] self.page(
                        self.stack@[i],
                    ) == Frame::Free(next_in(self.stack@, i)) by {
                        assert(self.stack@[i] == old_stack[i + 1]);
                        assert(old_stack.contains(old_stack[i + 1]));
                        assert(old(self).page(old_stack[i + 1]) == Frame::Free(
                            next_in(old_stack, i + 1),
                        ));
                    }
                    assert(self.stack@.no_duplicates());
                    assert forall|j: int|
                        0 <= j < self.frames@.len() && (#[trigger] self.frames@[j]) is Free implies self.stack@.contains(
                        (self.base + j * PGSIZE) as u64,
                    ) by {
                        let a = (self.base + j * PGSIZE) as u64;
                        assert(old(self).frames@[j] is Free);
                        assert(old_stack.contains(a));
                        let m = choose|m: int| 0 <= m < old_stack.len() && old_stack[m] == a;
                        assert(j != idx);
                        assert(m != 0);
                        assert(self.stack@[m - 1] == a);
                    }
                }
                Some(pa)
            },
        }
    }

    /// Whether the page at `pa` is on the free list, so that freeing it
    /// again would link it in twice.
    pub fn is_free(&self, pa: u64) -> (r: bool)
        requires
            self.wf(),
        ensures
            r == self.free_list().contains(pa),
    {
        if pa % PGSIZE != 0 || pa < self.start || pa >= self.end {
            assert(!self.free_list().contains(pa)) by {
                if self.free_list().contains(pa) {
                    let m = choose|m: int| 0 <= m < self.stack@.len() && self.stack@[m] == pa;
                    assert(self.is_page(self.stack@[m]));
                }
            }
            return false;
        }
        proof {
            self.lemma_page_index(pa);
        }
        let idx = ((pa - self.base) / PGSIZE) as usize;
        match self.frames[idx] {
            Frame::Free(_) => {
                assert(self.frames@[idx as int] is Free);
                true
            },
            Frame::Owned(_) => {
                assert(!self.free_list().contains(pa)) by {
                    if self.free_list().contains(pa) {
                        let m = choose|m: int| 0 <= m < self.stack@.len() && self.stack@[m] == pa;
                        assert(self.page(self.stack@[m]) == Frame::Free(next_in(self.stack@, m)));
                    }
                }
                false
            },
        }
    }

    /// The number of pages on the free list.
    pub fn sys_nfree(&self) -> (r: u64)
        requires
            self.wf(),
        ensures
            r == self.free_list().len(),
    {
        self.nfree
    }

    /// Reads the byte of physical memory at `addr`, in the page that holds it.
    pub fn read_byte(&self, addr: u64) -> (r: u8)
        requires
            self.wf(),
            self.is_page((addr - addr % PGSIZE) as u64),
        ensures
            r == frame_byte(self.page((addr - addr % PGSIZE) as u64), addr % PGSIZE),
    {
        let off = addr % PGSIZE;
        let pa = addr - off;
        proof {
            self.lemma_page_index(pa);
        }
        let idx = ((pa - self.base) / PGSIZE) as usize;
        match self.frames[idx] {
            Frame::Owned(b) => b,
            Frame::Free(next) => if off < 8 {
                let w = match next {
                    Some(a) => a,
                    None => 0,
                };
                ((w >> (8 * off)) & 0xff) as u8
            } else {
                FREE_FILL
            },
        }
    }
    /// Sets up the allocator for the managed region `[start, end)` and frees
    /// every whole page of it, so that the free list holds all of them, the
    /// highest on top.
    ///
    /// The top of physical memory, `end`, is a page boundary on this
    /// platform (`PHYSTOP` is), so every aligned address below it starts a
    /// whole page.
    pub fn kinit(start: u64, end: u64) -> (r: KMem)
        requires
            start <= end,
            end % PGSIZE == 0,
            end <= u64::MAX - PGSIZE,
            (end - round_up(start as int)) / (PGSIZE as int) <= usize::MAX,
        ensures
            r.wf(),
            r.region_start() == start,
            r.region_end() == end,
            r.free_list() == seed_order(round_up(start as int), end as int),
    {
        let base = pgroundup(start);
        proof {
            lemma_round_up_below(start as int, end as int);
        }
        let n = ((end - base) / PGSIZE) as usize;
        let mut frames: Vec<Frame> = Vec::new();
        while frames.len() < n
            invariant
                frames@.len() <= n,
                forall|j: int| 0 <= j < frames@.len() ==> #[trigger] frames@[j] == Frame::Owned(BOOT_FILL),
            decreases n - frames@.len(),
        {
            frames.push(Frame::Owned(BOOT_FILL));
        }
        let mut k = KMem {
            start,
            end,
            base,
            frames,
            freelist: None,
            nfree: 0,
            stack: Ghost(Seq::empty()),
        };
        assert(k.free_list().add(Seq::empty()) =~= Seq::<u64>::empty());
        proof {
            let r0 = round_up(start as int);
            lemma_seed_bounds(r0, end as int);
            assert forall|a: u64| #[trigger] seed_order(r0, end as int).contains(a) implies k.is_page(
                a,
            ) by {
                let i = choose|i: int|
                    0 <= i < seed_order(r0, end as int).len() && #[trigger] seed_order(
                        r0,
                        end as int,
                    )[i] == a;
                assert(r0 % 4096 == 0);
                assert((a - r0) % 4096 == 0);
                assert(a % 4096 == 0);
            }
        }
        k.freerange(start, end);
        assert(k.free_list() =~= seed_order(round_up(start as int), end as int).add(
            Seq::empty(),
        ));
        k
    }

    /// Frees every whole page of `[pa_start, pa_end)`, from the lowest up.
    /// None of them may be free already. Every other page keeps its state.
    pub fn freerange(&mut self, pa_start: u64, pa_end: u64)
        requires
            old(self).wf(),
            pa_start <= u64::MAX - (PGSIZE - 1),
            forall|a: u64|
                #[trigger] seed_order(round_up(pa_start as int), pa_end as int).contains(a)
                    ==> old(self).is_page(a),
            forall|a: u64|
                #[trigger] seed_order(round_up(pa_start as int), pa_end as int).contains(a)
                    ==> !old(self).free_list().contains(a),
        ensures
            final(self).wf(),
            final(self).region_start() == old(self).region_start(),
            final(self).region_end() == old(self).region_end(),
            final(self).free_list() == seed_order(round_up(pa_start as int), pa_end as int).add(
                old(self).free_list(),
            ),
            forall|a: u64|
                final(self).is_page(a) && !seed_order(
                    round_up(pa_start as int),
                    pa_end as int,
                ).contains(a) ==> #[trigger] final(self).page(a) == old(self).page(a),
    {
        let ghost r0 = round_up(pa_start as int);
        let ghost seeds = seed_order(r0, pa_end as int);
        let mut p = pgroundup(pa_start);
        while p <= pa_end && PGSIZE <= pa_end - p
            invariant
                self.wf(),
                self.region_start() == old(self).region_start(),
                self.region_end() == old(self).region_end(),
                r0 <= p,
                forall|a: u64| #[trigger] seeds.contains(a) ==> self.is_page(a),
                p % PGSIZE == 0,
                (p - r0) % (PGSIZE as int) == 0,
                r0 == round_up(pa_start as int),
                seeds == seed_order(r0, pa_end as int),
                seed_order(p as int, pa_end as int).add(self.free_list()) == seeds.add(
                    old(self).free_list(),
                ),
                forall|a: u64|
                    #[trigger] seed_order(p as int, pa_end as int).contains(a)
                        ==> !self.free_list().contains(a),
                forall|a: u64|
                    self.is_page(a) && !seeds.contains(a) ==> #[trigger] self.page(a) == old(
                        self,
                    ).page(a),
            decreases pa_end - p,
        {
            let ghost before = self.free_list();
            let ghost mid = *self;
            assert(seed_order(p as int, pa_end as int) == seed_order(
                p + PGSIZE,
                pa_end as int,
            ).push(p));
            assert(seed_order(p as int, pa_end as int)[seed_order(
                p + PGSIZE,
                pa_end as int,
            ).len() as int] == p);
            assert(seed_order(p as int, pa_end as int).contains(p));
            proof {
                lemma_seed_member(r0, p as int, pa_end as int);
                lemma_seed_bounds(p + PGSIZE, pa_end as int);
            }
            self.kfree(p);
            assert(seed_order(p + PGSIZE, pa_end as int).add(self.free_list()) =~= seed_order(
                p as int,
                pa_end as int,
            ).add(before));
            assert forall|a: u64| #[trigger]
                seed_order(p + PGSIZE, pa_end as int).contains(a) implies !self.free_list().contains(
                a,
            ) by {
                let rest = seed_order(p + PGSIZE, pa_end as int);
                let i = choose|i: int| 0 <= i < rest.len() && #[trigger] rest[i] == a;
                assert(seed_order(p as int, pa_end as int)[i] == a);
                assert(seed_order(p as int, pa_end as int).contains(a));
                if self.free_list().contains(a) {
                    let j = choose|j: int| 0 <= j < self.free_list().len() && self.free_list()[j] == a;
                    assert(self.free_list() == free_step(before, p));
                    if j > 0 {
                        assert(before[j - 1] == a);
                        assert(before.contains(a));
                    }
                }
            }
            assert forall|a: u64| self.is_page(a) && !seeds.contains(a) implies #[trigger] self.page(a)
                == old(self).page(a) by {
                assert(mid.page(a) == old(self).page(a));
            }
            p = p + PGSIZE;
        }
    }
}

/// The pages that freeing a range puts on the list: `(hi - p) / PGSIZE` of
/// them, each a whole number of pages above `p`, each ending by `hi`, and
/// distinct.
pub proof fn lemma_seed_bounds(p: int, hi: int)
    requires
        0 <= p,
        hi <= u64::MAX,
    ensures
        p <= hi ==> seed_order(p, hi).len() == (hi - p) / (PGSIZE as int),
        seed_order(p, hi).no_duplicates(),
        forall|i: int|
            0 <= i < seed_order(p, hi).len() ==> p <= #[trigger] seed_order(p, hi)[i] && seed_order(
                p,
                hi,
            )[i] + PGSIZE <= hi && (seed_order(p, hi)[i] - p) % (PGSIZE as int) == 0,
    decreases hi - p,
{
    if p + PGSIZE <= hi {
        lemma_seed_bounds(p + PGSIZE, hi);
        let rest = seed_order(p + PGSIZE, hi);
        assert(seed_order(p, hi) == rest.push(p as u64));
        assert((hi - p) / 4096 == (hi - (p + 4096)) / 4096 + 1);
        assert forall|i: int| 0 <= i < seed_order(p, hi).len() implies p <= #[trigger] seed_order(
            p,
            hi,
        )[i] && seed_order(p, hi)[i] + PGSIZE <= hi && (seed_order(p, hi)[i] - p) % 4096 == 0 by {
            if i < rest.len() {
                assert((rest[i] - p) == (rest[i] - (p + 4096)) + 4096);
            }
        }
        assert forall|i: int, j: int|
            0 <= i < seed_order(p, hi).len() && 0 <= j < seed_order(p, hi).len() && i != j implies seed_order(
            p,
            hi,
        )[i] != seed_order(p, hi)[j] by {
            if i < rest.len() && j < rest.len() {
            } else if i < rest.len() {
                assert(rest[i] >= p + 4096);
            } else {
                assert(rest[j] >= p + 4096);
            }
        }
    }
}

/// Freeing a range from `q` on frees every page a whole number of pages
/// above `q` that ends by `hi`.
proof fn lemma_seed_member(q: int, p: int, hi: int)
    requires
        0 <= q <= p,
        p <= u64::MAX,
        (p - q) % (PGSIZE as int) == 0,
        p + PGSIZE <= hi,
    ensures
        seed_order(q, hi).contains(p as u64),
    decreases p - q,
{
    assert(seed_order(q, hi) == seed_order(q + PGSIZE, hi).push(q as u64));
    if p == q {
        assert(seed_order(q, hi).last() == q as u64);
    } else {
        lemma_seed_member(q + PGSIZE, p, hi);
        let rest = seed_order(q + PGSIZE, hi);
        let i = choose|i: int| 0 <= i < rest.len() && #[trigger] rest[i] == p as u64;
        assert(seed_order(q, hi)[i] == p as u64);
    }
}

/// In every well-formed state, each page on the free list is page-aligned
/// and lies in the managed region, no page is on it twice, and the list is
/// the chain of links that starts at the head.
pub proof fn lemma_free_pages_valid(k: &KMem)
    requires
        k.wf(),
    ensures
        k.free_list().no_duplicates(),
        forall|i: int|
            0 <= i < k.free_list().len() ==> #[trigger] k.free_list()[i] % PGSIZE == 0
                && k.region_start() <= k.free_list()[i] < k.region_end(),
        is_chain(k, k.free_list()),
{
    assert forall|i: int| 0 <= i < k.free_list().len() implies #[trigger] k.free_list()[i] % PGSIZE
        == 0 && k.region_start() <= k.free_list()[i] < k.region_end() by {
        assert(k.is_page(k.free_list()[i]));
    }
}

} // verus!
