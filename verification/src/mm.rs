//! The part of a process's address space that the kernel core decides on:
//! which page ranges are mapped, where the program break stands, and how a
//! kernel structure is copied into a user buffer that arrives in pieces.
//! Page tables and frames are someone else's business.

use vstd::prelude::*;
use crate::config::PAGE_SIZE;

verus! {

/// A mapped range of virtual pages, `start_vpn` up to but without `end_vpn`.
#[derive(Clone, Copy, Debug, PartialEq, Eq, Structural)]
pub struct MapArea {
    pub start_vpn: usize,
    pub end_vpn: usize,
    /// Permission bits: 2 read, 4 write, 8 execute, 16 user.
    pub perm: u8,
}

/// Page number `page` lies in the range from `start_vpn` up to but without
/// `end_vpn`.
pub open spec fn within(page: int, start_vpn: int, end_vpn: int) -> bool {
    start_vpn <= page < end_vpn
}

impl MapArea {
    /// The area shares at least one page with the range from `start_vpn` up
    /// to but without `end_vpn`.
    pub open spec fn meets(self, start_vpn: int, end_vpn: int) -> bool {
        exists|page: int| #[trigger]
            within(page, self.start_vpn as int, self.end_vpn as int) && within(
                page,
                start_vpn,
                end_vpn,
            )
    }

    /// The area and the range share a page exactly when each begins before
    /// the other ends and neither is empty.
    pub proof fn lemma_meets(self, start_vpn: int, end_vpn: int)
        ensures
            self.meets(start_vpn, end_vpn) <==> self.start_vpn < end_vpn && start_vpn
                < self.end_vpn && start_vpn < end_vpn && self.start_vpn < self.end_vpn,
    {
        if self.start_vpn < end_vpn && start_vpn < self.end_vpn && start_vpn < end_vpn
            && self.start_vpn < self.end_vpn {
            let page = if self.start_vpn < start_vpn {
                start_vpn
            } else {
                self.start_vpn as int
            };
            assert(within(page, self.start_vpn as int, self.end_vpn as int) && within(
                page,
                start_vpn,
                end_vpn,
            ));
        }
    }

    /// The area is exactly the range from `start_vpn` up to but without
    /// `end_vpn`.
    pub open spec fn spans(self, start_vpn: int, end_vpn: int) -> bool {
        self.start_vpn == start_vpn && self.end_vpn == end_vpn
    }
}

/// Number of the page that holds address `addr`.
pub open spec fn page_floor(addr: int) -> int {
    addr / PAGE_SIZE as int
}

/// Number of the first page that starts at or after address `addr`.
pub open spec fn page_ceil(addr: int) -> int {
    (addr + PAGE_SIZE - 1) / PAGE_SIZE as int
}

/// Position of the first area of `areas` that is exactly the given range,
/// or the length of `areas` when there is none.
pub open spec fn first_spanning(areas: Seq<MapArea>, start_vpn: int, end_vpn: int) -> int
    decreases areas.len(),
{
    if areas.len() == 0 {
        0
    } else if areas[0].spans(start_vpn, end_vpn) {
        0
    } else {
        1 + first_spanning(areas.subrange(1, areas.len() as int), start_vpn, end_vpn)
    }
}

proof fn lemma_first_spanning(areas: Seq<MapArea>, start_vpn: int, end_vpn: int, i: int)
    requires
        0 <= i <= areas.len(),
        forall|k: int| 0 <= k < i ==> !(#[trigger] areas[k]).spans(start_vpn, end_vpn),
        i < areas.len() ==> areas[i].spans(start_vpn, end_vpn),
    ensures
        first_spanning(areas, start_vpn, end_vpn) == i,
    decreases areas.len(),
{
    if areas.len() > 0 && i > 0 {
        let rest = areas.subrange(1, areas.len() as int);
        assert(!areas[0].spans(start_vpn, end_vpn));
        assert forall|k: int| 0 <= k < i - 1 implies !(#[trigger] rest[k]).spans(
            start_vpn,
            end_vpn,
        ) by {
            assert(rest[k] == areas[k + 1]);
        }
        if i < areas.len() {
            assert(rest[i - 1] == areas[i]);
        }
        lemma_first_spanning(rest, start_vpn, end_vpn, i - 1);
    }
}

/// The mapped areas of a process and its program break.
pub struct MemorySet {
    pub areas: Vec<MapArea>,
    /// Lowest address the program break may take.
    pub heap_bottom: usize,
    /// Current program break.
    pub program_brk: usize,
}

impl MemorySet {
    /// The break is not below the heap bottom and fits a signed word.
    pub open spec fn wf(&self) -> bool {
        self.heap_bottom <= self.program_brk <= isize::MAX
    }

    /// The two address spaces map the same areas in the same order and have
    /// the same heap.
    pub open spec fn same_as(&self, other: &MemorySet) -> bool {
        &&& self.areas@ == other.areas@
        &&& self.heap_bottom == other.heap_bottom
        &&& self.program_brk == other.program_brk
    }

    /// Some mapped area shares a page with the given range.
    pub open spec fn overlaps(&self, start_vpn: int, end_vpn: int) -> bool {
        exists|i: int| 0 <= i < self.areas@.len() && (#[trigger] self.areas@[i]).meets(start_vpn, end_vpn)
    }

    /// Some mapped area is exactly the given range.
    pub open spec fn has_area(&self, start_vpn: int, end_vpn: int) -> bool {
        exists|i: int| 0 <= i < self.areas@.len() && (#[trigger] self.areas@[i]).spans(start_vpn, end_vpn)
    }

    /// An address space with nothing mapped and an empty heap at
    /// `heap_bottom`.
    pub fn new(heap_bottom: usize) -> (memory: MemorySet)
        requires
            heap_bottom <= isize::MAX,
        ensures
            memory.areas@ == Seq::<MapArea>::empty(),
            memory.heap_bottom == heap_bottom,
            memory.program_brk == heap_bottom,
            memory.wf(),
    {
        MemorySet { areas: Vec::new(), heap_bottom, program_brk: heap_bottom }
    }

    /// A copy of this address space, as a forked child gets it.
    pub fn duplicate(&self) -> (copy: MemorySet)
        ensures
            copy.same_as(self),
    {
        let mut areas: Vec<MapArea> = Vec::new();
        let n: usize = self.areas.len();
        let mut i: usize = 0;
        while i < n
            invariant
                n == self.areas@.len(),
                i <= n,
                areas@ == self.areas@.take(i as int),
            decreases n - i,
        {
            areas.push(self.areas[i]);
            proof {
                assert(self.areas@.take(i + 1) =~= self.areas@.take(i as int).push(
                    self.areas@[i as int],
                ));
            }
            i = i + 1;
        }
        proof {
            assert(self.areas@.take(n as int) =~= self.areas@);
        }
        MemorySet { areas, heap_bottom: self.heap_bottom, program_brk: self.program_brk }
    }

    /// Whether some mapped area shares a page with the given range.
    pub fn is_mapped(&self, start_vpn: usize, end_vpn: usize) -> (hit: bool)
        ensures
            hit == self.overlaps(start_vpn as int, end_vpn as int),
    {
        let n: usize = self.areas.len();
        let mut i: usize = 0;
        while i < n
            invariant
                n == self.areas@.len(),
                i <= n,
                forall|k: int| 0 <= k < i ==> !(#[trigger] self.areas@[k]).meets(start_vpn as int, end_vpn as int),
            decreases n - i,
        {
            let area: MapArea = self.areas[i];
            proof {
                area.lemma_meets(start_vpn as int, end_vpn as int);
            }
            if area.start_vpn < end_vpn && start_vpn < area.end_vpn && start_vpn < end_vpn
                && area.start_vpn < area.end_vpn {
                return true;
            }
            i = i + 1;
        }
        false
    }

    /// Whether some mapped area is exactly the given range.
    pub fn contains_area(&self, start_vpn: usize, end_vpn: usize) -> (hit: bool)
        ensures
            hit == self.has_area(start_vpn as int, end_vpn as int),
    {
        let n: usize = self.areas.len();
        let mut i: usize = 0;
        while i < n
            invariant
                n == self.areas@.len(),
                i <= n,
                forall|k: int| 0 <= k < i ==> !(#[trigger] self.areas@[k]).spans(start_vpn as int, end_vpn as int),
            decreases n - i,
        {
            let area: MapArea = self.areas[i];
            if area.start_vpn == start_vpn && area.end_vpn == end_vpn {
                return true;
            }
            i = i + 1;
        }
        false
    }

    /// Whether the program break can move by `size` bytes: the new break
    /// is not below the heap bottom and fits a signed word.
    pub fn can_move_brk(&self, size: i32) -> (fits: bool)
        ensures
            fits == (self.heap_bottom <= self.program_brk + size <= isize::MAX),
    {
        let moved: i128 = self.program_brk as i128 + size as i128;
        !(moved < self.heap_bottom as i128 || moved > isize::MAX as i128)
    }

    /// Maps the given range with the given permissions, behind the areas
    /// that are already there.
    pub fn insert_framed_area(&mut self, start_vpn: usize, end_vpn: usize, perm: u8)
        ensures
            final(self).areas@ == old(self).areas@.push(MapArea { start_vpn, end_vpn, perm }),
            final(self).heap_bottom == old(self).heap_bottom,
            final(self).program_brk == old(self).program_brk,
    {
        self.areas.push(MapArea { start_vpn, end_vpn, perm });
    }

    /// Unmaps the first area that is exactly the given range. Returns
    /// whether there was one; without one nothing changes.
    pub fn remove_area(&mut self, start_vpn: usize, end_vpn: usize) -> (removed: bool)
        ensures
            removed == old(self).has_area(start_vpn as int, end_vpn as int),
            removed ==> final(self).areas@ == old(self).areas@.remove(
                first_spanning(old(self).areas@, start_vpn as int, end_vpn as int),
            ),
            !removed ==> final(self).areas@ == old(self).areas@,
            final(self).heap_bottom == old(self).heap_bottom,
            final(self).program_brk == old(self).program_brk,
    {
        let n: usize = self.areas.len();
        let mut i: usize = 0;
        while i < n
            invariant
                n == self.areas@.len(),
                i <= n,
                *self == *old(self),
                forall|k: int| 0 <= k < i ==> !(#[trigger] self.areas@[k]).spans(start_vpn as int, end_vpn as int),
            decreases n - i,
        {
            let area: MapArea = self.areas[i];
            if area.start_vpn == start_vpn && area.end_vpn == end_vpn {
                proof {
                    lemma_first_spanning(self.areas@, start_vpn as int, end_vpn as int, i as int);
                }
                self.areas.remove(i);
                return true;
            }
            i = i + 1;
        }
        false
    }

    /// Moves the program break by `size` bytes. Returns the old break, or
    /// `None`, with nothing changed, when the new break would fall below the
    /// heap bottom or would not fit a signed word.
    pub fn change_program_brk(&mut self, size: i32) -> (old_brk: Option<usize>)
        requires
            old(self).wf(),
        ensures
            final(self).wf(),
            final(self).areas == old(self).areas,
            final(self).heap_bottom == old(self).heap_bottom,
            old(self).heap_bottom <= old(self).program_brk + size <= isize::MAX ==> old_brk == Some(
                old(self).program_brk,
            ) && final(self).program_brk == old(self).program_brk + size,
            !(old(self).heap_bottom <= old(self).program_brk + size <= isize::MAX) ==> old_brk
                is None && final(self).program_brk == old(self).program_brk,
    {
        let brk: i128 = self.program_brk as i128;
        let moved: i128 = brk + size as i128;
        if moved < self.heap_bottom as i128 || moved > isize::MAX as i128 {
            None
        } else {
            let old_brk: usize = self.program_brk;
            self.program_brk = moved as usize;
            Some(old_brk)
        }
    }
}

/// Lengths of the pieces into which page boundaries cut a buffer of `len`
/// bytes at address `start`: the first piece runs to the end of its page or
/// of the buffer, whichever comes first, and the rest is cut likewise from
/// there.
pub open spec fn page_pieces(start: int, len: int) -> Seq<usize>
    decreases len,
{
    if len <= 0 || start < 0 {
        Seq::empty()
    } else {
        let room = PAGE_SIZE - start % (PAGE_SIZE as int);
        let piece = if room < len {
            room
        } else {
            len
        };
        seq![piece as usize] + page_pieces(start + piece, len - piece)
    }
}

/// Sum of the lengths.
pub open spec fn total(pieces: Seq<usize>) -> int
    decreases pieces.len(),
{
    if pieces.len() == 0 {
        0
    } else {
        pieces[0] + total(pieces.subrange(1, pieces.len() as int))
    }
}

/// The pieces of a buffer add up to the buffer, none is empty, and none
/// crosses a page boundary: the first ends within the page in which the
/// buffer starts.
pub proof fn lemma_page_pieces(start: int, len: int)
    requires
        0 <= start,
        0 <= len,
        start + len <= usize::MAX,
    ensures
        total(page_pieces(start, len)) == len,
        forall|i: int|
            0 <= i < page_pieces(start, len).len() ==> 0 < #[trigger] page_pieces(start, len)[i]
                <= PAGE_SIZE,
        len > 0 ==> page_pieces(start, len).len() > 0 && page_floor(
            start + page_pieces(start, len)[0] - 1,
        ) == page_floor(start),
    decreases len,
{
    if len > 0 {
        let room = PAGE_SIZE - start % (PAGE_SIZE as int);
        let piece = if room < len {
            room
        } else {
            len
        };
        let rest = page_pieces(start + piece, len - piece);
        lemma_page_pieces(start + piece, len - piece);
        let all = page_pieces(start, len);
        assert(all == seq![piece as usize] + rest);
        assert(all.subrange(1, all.len() as int) =~= rest);
        assert forall|i: int| 0 <= i < all.len() implies 0 < #[trigger] all[i] <= PAGE_SIZE by {
            if i > 0 {
                assert(all[i] == rest[i - 1]);
            }
        }
        assert(page_floor(start + piece - 1) == page_floor(start)) by (nonlinear_arith)
            requires
                0 <= start,
                0 < piece <= 4096 - start % 4096,
                PAGE_SIZE == 4096,
        ;
    }
}

/// Cuts a buffer of `len` bytes at address `start` at the page boundaries
/// and returns the lengths of the pieces, in order. The buffer must end
/// within the address space.
pub fn split_at_pages(start: usize, len: usize) -> (pieces: Vec<usize>)
    requires
        start + len <= usize::MAX,
    ensures
        pieces@ == page_pieces(start as int, len as int),
{
    let mut pieces: Vec<usize> = Vec::new();
    let mut at: usize = start;
    let mut left: usize = len;
    while left > 0
        invariant
            at + left == start + len,
            start + len <= usize::MAX,
            pieces@ + page_pieces(at as int, left as int) == page_pieces(start as int, len as int),
        decreases left,
    {
        let room: usize = PAGE_SIZE - at % PAGE_SIZE;
        let piece: usize = if room < left {
            room
        } else {
            left
        };
        let ghost before = pieces@;
        proof {
            let tail = page_pieces(at + piece, left - piece);
            assert(page_pieces(at as int, left as int) == seq![piece] + tail);
            assert(before.push(piece) + tail =~= before + (seq![piece] + tail));
        }
        pieces.push(piece);
        at = at + piece;
        left = left - piece;
    }
    proof {
        assert(pieces@ + page_pieces(at as int, 0) =~= pieces@);
    }
    pieces
}

/// Total length of the first `n` chunks.
pub open spec fn chunks_len(chunks: Seq<Vec<u8>>, n: int) -> int
    decreases n,
{
    if n <= 0 {
        0
    } else {
        chunks_len(chunks, n - 1) + chunks[n - 1]@.len()
    }
}

/// The chunks have the same number and lengths.
pub open spec fn same_shape(a: Seq<Vec<u8>>, b: Seq<Vec<u8>>) -> bool {
    &&& a.len() == b.len()
    &&& forall|i: int| 0 <= i < a.len() ==> (#[trigger] a[i])@.len() == b[i]@.len()
}

proof fn lemma_chunks_len_same_shape(a: Seq<Vec<u8>>, b: Seq<Vec<u8>>, n: int)
    requires
        same_shape(a, b),
        0 <= n <= a.len(),
    ensures
        chunks_len(a, n) == chunks_len(b, n),
    decreases n,
{
    if n > 0 {
        lemma_chunks_len_same_shape(a, b, n - 1);
        assert(a[n - 1]@.len() == b[n - 1]@.len());
    }
}

proof fn lemma_chunks_len_monotone(chunks: Seq<Vec<u8>>, i: int, n: int)
    requires
        0 <= i <= n <= chunks.len(),
    ensures
        0 <= chunks_len(chunks, i) <= chunks_len(chunks, n),
    decreases n,
{
    if i < n {
        lemma_chunks_len_monotone(chunks, i, n - 1);
    } else if n > 0 {
        lemma_chunks_len_monotone(chunks, i - 1, n - 1);
    }
}

/// Byte `k` of chunk `i` holds byte `chunks_len(chunks, i) + k` of `src`, for
/// every chunk below `n`.
pub open spec fn chunks_hold(chunks: Seq<Vec<u8>>, src: Seq<u8>, n: int) -> bool {
    forall|i: int, k: int|
        0 <= i < n && 0 <= k < chunks[i]@.len() ==> #[trigger] chunks[i]@[k] == src[chunks_len(
            chunks,
            i,
        ) + k]
}

/// Copies `src` into a user buffer that arrives as a sequence of chunks, one
/// per page that the buffer touches. The chunks are filled in order, each
/// with the next bytes of `src`, so the buffer reads the same whether or not
/// it crosses page boundaries. The chunks together must not be longer than
/// `src`.
pub fn copy_to_chunks(src: &Vec<u8>, chunks: &mut Vec<Vec<u8>>)
    requires
        chunks_len(old(chunks)@, old(chunks)@.len() as int) <= src@.len(),
    ensures
        same_shape(final(chunks)@, old(chunks)@),
        chunks_hold(final(chunks)@, src@, final(chunks)@.len() as int),
{
    let n: usize = chunks.len();
    let total: usize = src.len();
    let mut start: usize = 0;
    let mut i: usize = 0;
    while i < n
        invariant
            n == chunks@.len(),
            total == src@.len(),
            i <= n,
            same_shape(chunks@, old(chunks)@),
            chunks_len(old(chunks)@, n as int) <= src@.len(),
            start == chunks_len(chunks@, i as int),
            chunks_hold(chunks@, src@, i as int),
        decreases n - i,
    {
        let ghost before = chunks@;
        proof {
            lemma_chunks_len_same_shape(chunks@, old(chunks)@, n as int);
            lemma_chunks_len_monotone(chunks@, i + 1, n as int);
        }
        let width: usize = chunks[i].len();
        assert(start + width == chunks_len(chunks@, i + 1));
        assert(start + width <= src@.len() <= usize::MAX);
        let mut k: usize = 0;
        while k < width
            invariant
                n == chunks@.len(),
                i < n,
                k <= width,
                width == chunks@[i as int]@.len(),
                same_shape(chunks@, before),
                forall|c: int| 0 <= c < n && c != i ==> chunks@[c] == before[c],
                start + width <= src@.len() <= usize::MAX,
                forall|b: int| 0 <= b < k ==> #[trigger] chunks@[i as int]@[b] == src@[start + b],
            decreases width - k,
        {
            let byte: u8 = src[start + k];
            chunks[i].set(k, byte);
            k = k + 1;
        }
        proof {
            let after = chunks@;
            assert forall|c: int| 0 <= c <= i implies chunks_len(after, c) == chunks_len(before, c) by {
                lemma_chunks_len_same_shape(after, before, c);
            }
            assert forall|c: int, b: int| 0 <= c < i + 1 && 0 <= b < after[c]@.len() implies #[trigger] after[c]@[b]
                == src@[chunks_len(after, c) + b] by {
                if c < i {
                    assert(after[c] == before[c]);
                    assert(before[c]@[b] == src@[chunks_len(before, c) + b]);
                }
            }
        }
        start = start + width;
        i = i + 1;
    }
}

} // verus!
