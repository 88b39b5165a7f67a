//! A bump allocator for the kernel heap: a cursor that only moves up.
//! Memory that is given back is never handed out again.
use std::sync::atomic::AtomicU64;
use std::sync::atomic::Ordering;
use vstd::prelude::*;
use crate::memory::MemoryError;

verus! {

/// The alignment is a power of two.
pub open spec fn power_of_two(align: u64) -> bool {
    align != 0 && align & ((align - 1) as u64) == 0
}

/// The powers of two are the numbers with a single bit: 1 shifted to the
/// left by less than 64 places.
pub proof fn lemma_power_of_two(align: u64)
    ensures
        power_of_two(align) <==> exists|k: u64| k < 64 && align == #[trigger] (1u64 << k),
{
    if power_of_two(align) {
        let below = (align - 1) as u64;
        assert(align != 0 && below == (align - 1) as u64 && align & below == 0 ==> (
        align == 1u64 << 0u64 || align == 1u64 << 1u64 || align == 1u64 << 2u64 || align == 1u64 << 3u64 || align == 1u64 << 4u64 || align == 1u64 << 5u64 || align == 1u64 << 6u64 || align == 1u64 << 7u64 || align == 1u64 << 8u64 || align == 1u64 << 9u64 || align == 1u64 << 10u64 || align == 1u64 << 11u64 || align == 1u64 << 12u64 || align == 1u64 << 13u64 || align == 1u64 << 14u64 || align == 1u64 << 15u64 || align == 1u64 << 16u64 || align == 1u64 << 17u64 || align == 1u64 << 18u64 || align == 1u64 << 19u64 || align == 1u64 << 20u64 || align == 1u64 << 21u64 || align == 1u64 << 22u64 || align == 1u64 << 23u64 || align == 1u64 << 24u64 || align == 1u64 << 25u64 || align == 1u64 << 26u64 || align == 1u64 << 27u64 || align == 1u64 << 28u64 || align == 1u64 << 29u64 || align == 1u64 << 30u64 || align == 1u64 << 31u64 || align == 1u64 << 32u64 || align == 1u64 << 33u64 || align == 1u64 << 34u64 || align == 1u64 << 35u64 || align == 1u64 << 36u64 || align == 1u64 << 37u64 || align == 1u64 << 38u64 || align == 1u64 << 39u64 || align == 1u64 << 40u64 || align == 1u64 << 41u64 || align == 1u64 << 42u64 || align == 1u64 << 43u64 || align == 1u64 << 44u64 || align == 1u64 << 45u64 || align == 1u64 << 46u64 || align == 1u64 << 47u64 || align == 1u64 << 48u64 || align == 1u64 << 49u64 || align == 1u64 << 50u64 || align == 1u64 << 51u64 || align == 1u64 << 52u64 || align == 1u64 << 53u64 || align == 1u64 << 54u64 || align == 1u64 << 55u64 || align == 1u64 << 56u64 || align == 1u64 << 57u64 || align == 1u64 << 58u64 || align == 1u64 << 59u64 || align == 1u64 << 60u64 || align == 1u64 << 61u64 || align == 1u64 << 62u64 || align == 1u64 << 63u64)) by (bit_vector);
    }
    assert forall|k: u64| k < 64 && align == #[trigger] (1u64 << k) implies power_of_two(
        align,
    ) by {
        let below = (align - 1) as u64;
        assert(k < 64 && align == 1u64 << k ==> align != 0) by (bit_vector);
        assert(k < 64 && align == 1u64 << k && below == (align - 1) as u64 ==> align & below
            == 0) by (bit_vector);
    }
}

/// The greatest address at or below `addr` that is a multiple of `align`;
/// `addr` itself where `align` is 0.
pub open spec fn aligned_down(addr: u64, align: u64) -> int {
    if align == 0 {
        addr as int
    } else {
        addr - addr % align
    }
}

/// The least address at or above `addr` that is a multiple of `align`.
pub open spec fn aligned_up(addr: u64, align: u64) -> int {
    if addr % align == 0 {
        addr as int
    } else {
        addr - addr % align + align
    }
}

/// Rounding `addr + align - 1` down rounds `addr` up.
proof fn lemma_round_up(addr: u64, align: u64)
    requires
        align > 0,
        addr + align - 1 <= u64::MAX,
    ensures
        (addr + align - 1) - (addr + align - 1) % (align as int) == aligned_up(addr, align),
        aligned_up(addr, align) % (align as int) == 0,
        addr <= aligned_up(addr, align) < addr + align,
{
    let a = align as int;
    let x = addr as int;
    let q = x / a;
    let r = x % a;
    vstd::arithmetic::div_mod::lemma_fundamental_div_mod(x, a);
    assert(x == a * q + r);
    assert(a * q == q * a) by (nonlinear_arith);
    if r == 0 {
        assert(x + a - 1 == q * a + (a - 1));
        vstd::arithmetic::div_mod::lemma_fundamental_div_mod_converse(x + a - 1, a, q, a - 1);
        vstd::arithmetic::div_mod::lemma_fundamental_div_mod_converse(x, a, q, 0);
    } else {
        assert((q + 1) * a == q * a + a) by (nonlinear_arith);
        assert(x + a - 1 == (q + 1) * a + (r - 1));
        vstd::arithmetic::div_mod::lemma_fundamental_div_mod_converse(x + a - 1, a, q + 1, r - 1);
        assert(x - r + a == (q + 1) * a + 0);
        vstd::arithmetic::div_mod::lemma_fundamental_div_mod_converse(x - r + a, a, q + 1, 0);
    }
}

/// Rounding down gives a multiple that is less than one alignment below.
proof fn lemma_round_down(addr: u64, align: u64)
    requires
        align > 0,
    ensures
        (addr - addr % align) % (align as int) == 0,
        0 <= addr % align < align,
        addr % align <= addr,
{
    vstd::arithmetic::div_mod::lemma_mod_decreases(addr as nat, align as nat);
    let a = align as int;
    let x = addr as int;
    let q = x / a;
    let r = x % a;
    vstd::arithmetic::div_mod::lemma_fundamental_div_mod(x, a);
    assert(a * q == q * a) by (nonlinear_arith);
    assert(x - r == q * a + 0);
    vstd::arithmetic::div_mod::lemma_fundamental_div_mod_converse(x - r, a, q, 0);
}

/// Whether `align` is a power of two.
pub fn is_power_of_two(align: u64) -> (result: bool)
    ensures
        result == power_of_two(align),
{
    align != 0 && align & (align - 1) == 0
}

/// Align downwards: the greatest address with alignment `align` that is not
/// above `addr`. The alignment must be a power of two, or 0 for no
/// alignment at all.
pub fn align_down(addr: u64, align: u64) -> (aligned: u64)
    requires
        align == 0 || power_of_two(align),
    ensures
        aligned == aligned_down(addr, align),
        aligned <= addr,
        align != 0 ==> aligned % align == 0 && addr - aligned < align,
{
    if is_power_of_two(align) {
        proof {
            lemma_round_down(addr, align);
        }
        addr - addr % align
    } else {
        addr
    }
}

/// Align upwards: the least address with alignment `align` that is not
/// below `addr`. The alignment must be a power of two.
pub fn align_up(addr: u64, align: u64) -> (aligned: u64)
    requires
        power_of_two(align),
        addr + align - 1 <= u64::MAX,
    ensures
        aligned == aligned_up(addr, align),
        aligned % align == 0,
        addr <= aligned < addr + align,
{
    proof {
        lemma_round_up(addr, align);
    }
    align_down(addr + (align - 1), align)
}

/// Where a request of `size` bytes with alignment `align` is placed when the
/// cursor stands at `cursor`: the first and the end address of the block,
/// or `None` where the block would pass `heap_end`.
pub open spec fn placement(cursor: u64, size: u64, align: u64, heap_end: u64) -> Option<
    (u64, u64),
> {
    if cursor + align - 1 <= u64::MAX && aligned_up(cursor, align) + size <= heap_end {
        Some((aligned_up(cursor, align) as u64, (aligned_up(cursor, align) + size) as u64))
    } else {
        None
    }
}

/// The heap from `heap_start` up to, not including, `heap_end`, with the
/// cursor `next` at the first address that was not handed out.
#[derive(Debug)]
pub struct BumpAllocator {
    heap_start: u64,
    heap_end: u64,
    next: AtomicU64,
}

impl BumpAllocator {
    /// First address of the heap.
    pub closed spec fn heap_start(&self) -> u64 {
        self.heap_start
    }

    /// Address just past the heap.
    pub closed spec fn heap_end(&self) -> u64 {
        self.heap_end
    }

    /// An allocator for the heap from `heap_start` to `heap_end`, with the
    /// cursor at `heap_start`.
    pub fn new(heap_start: u64, heap_end: u64) -> (allocator: Self)
        ensures
            allocator.heap_start() == heap_start,
            allocator.heap_end() == heap_end,
    {
        Self { heap_start, heap_end, next: AtomicU64::new(heap_start) }
    }

    /// Where a request is placed when the cursor stands at `current_next`.
    pub fn place(&self, current_next: u64, size: u64, align: u64) -> (placed: Option<(u64, u64)>)
        requires
            power_of_two(align),
        ensures
            placed == placement(current_next, size, align, self.heap_end()),
            placed matches Some((start, end)) ==> {
                &&& start % align == 0
                &&& current_next <= start < current_next + align
                &&& end == start + size
                &&& end <= self.heap_end()
            },
    {
        if current_next > u64::MAX - (align - 1) {
            return None;
        }
        let alloc_start = align_up(current_next, align);
        let alloc_end = alloc_start.saturating_add(size);
        if alloc_end <= self.heap_end {
            proof {
                if alloc_start + size > u64::MAX {
                    assert(alloc_end == u64::MAX);
                }
            }
            if alloc_start > u64::MAX - size {
                // The sum saturated: the block would pass the end of the
                // address space, and so the end of the heap.
                return None;
            }
            Some((alloc_start, alloc_end))
        } else {
            None
        }
    }

    /// The cursor as it stands now.
    pub fn next(&self) -> u64 {
        self.next.load(Ordering::Relaxed)
    }

    /// Moves the cursor from `observed` to `alloc_end` if it still stands
    /// at `observed`, and says whether it did.
    pub fn claim(&self, observed: u64, alloc_end: u64) -> bool {
        match self.next.compare_exchange(observed, alloc_end, Ordering::Relaxed, Ordering::Relaxed) {
            Ok(_) => true,
            Err(_) => false,
        }
    }

    /// Hands out a block of `size` bytes with alignment `align`: it reads
    /// the cursor, places the block, and moves the cursor past it; where
    /// the cursor moved in between, it starts over. Fails with
    /// `HeapExhausted`, and leaves the cursor alone, where the block would
    /// pass the end of the heap.
    ///
    /// The block that comes back is the placement for a value that the
    /// cursor held during the call. The call also fails after `u64::MAX`
    /// lost races for the cursor, which bounds the retries.
    pub fn allocate(&self, size: u64, align: u64) -> (result: Result<u64, MemoryError>)
        requires
            power_of_two(align),
        ensures
            match result {
                Ok(address) => exists|observed: u64|
                    (#[trigger] placement(observed, size, align, self.heap_end())) is Some
                        && placement(observed, size, align, self.heap_end())->Some_0.0 == address,
                Err(e) => e == (MemoryError::HeapExhausted { size, align }),
            },
    {
        let mut attempts: u64 = u64::MAX;
        while attempts > 0
            invariant
                power_of_two(align),
            decreases attempts,
        {
            attempts -= 1;
            let current_next = self.next();
            match self.place(current_next, size, align) {
                Some((alloc_start, alloc_end)) => {
                    if self.claim(current_next, alloc_end) {
                        return Ok(alloc_start);
                    }
                },
                None => {
                    return Err(MemoryError::HeapExhausted { size, align });
                },
            }
        }
        Err(MemoryError::HeapExhausted { size, align })
    }

    /// Takes a block back. The memory is not handed out again.
    pub fn deallocate(&self, address: u64, size: u64, align: u64) {
    }
}

/// One request served with the cursor at `cursor`: the first address of
/// the block if it fits, and the cursor after the request.
pub open spec fn bump_step(cursor: u64, size: u64, align: u64, heap_end: u64) -> (Option<u64>, u64) {
    match placement(cursor, size, align, heap_end) {
        Some((start, end)) => (Some(start), end),
        None => (None, cursor),
    }
}

/// A run of requests, each served with the cursor where the one before
/// left it: `cursors[k]` is the cursor before request `k`, `sizes[k]` and
/// `aligns[k]` the request, and `blocks[k]` what it got.
pub open spec fn bump_run(
    heap_end: u64,
    cursors: Seq<u64>,
    sizes: Seq<u64>,
    aligns: Seq<u64>,
    blocks: Seq<Option<u64>>,
) -> bool {
    &&& cursors.len() == blocks.len() + 1
    &&& sizes.len() == blocks.len()
    &&& aligns.len() == blocks.len()
    &&& forall|k: int|
        0 <= k < blocks.len() ==> aligns[k] > 0 && bump_step(
            cursors[k],
            sizes[k],
            aligns[k],
            heap_end,
        ) == (#[trigger] blocks[k], cursors[k + 1])
}

/// The cursor never moves back.
proof fn lemma_cursor_rises(
    heap_end: u64,
    cursors: Seq<u64>,
    sizes: Seq<u64>,
    aligns: Seq<u64>,
    blocks: Seq<Option<u64>>,
    i: int,
    j: int,
)
    requires
        bump_run(heap_end, cursors, sizes, aligns, blocks),
        0 <= i <= j <= blocks.len(),
    ensures
        cursors[i] <= cursors[j],
    decreases j - i,
{
    if i < j {
        lemma_cursor_rises(heap_end, cursors, sizes, aligns, blocks, i, j - 1);
        lemma_block(heap_end, cursors, sizes, aligns, blocks, j - 1);
    }
}

/// What one request of a run gets: an aligned block of the size asked for
/// between the cursor and the end of the heap, with the cursor moved just
/// past it; or nothing, with the cursor left alone.
pub proof fn lemma_block(
    heap_end: u64,
    cursors: Seq<u64>,
    sizes: Seq<u64>,
    aligns: Seq<u64>,
    blocks: Seq<Option<u64>>,
    k: int,
)
    requires
        bump_run(heap_end, cursors, sizes, aligns, blocks),
        0 <= k < blocks.len(),
    ensures
        match blocks[k] {
            Some(start) => {
                &&& start % aligns[k] == 0
                &&& cursors[k] <= start
                &&& start + sizes[k] == cursors[k + 1]
                &&& cursors[k + 1] <= heap_end
            },
            None => cursors[k + 1] == cursors[k],
        },
{
    assert(bump_step(cursors[k], sizes[k], aligns[k], heap_end) == (blocks[k], cursors[k + 1]));
    if cursors[k] + aligns[k] - 1 <= u64::MAX {
        lemma_round_up(cursors[k], aligns[k]);
    }
}

/// The blocks of a run do not overlap: a later block starts at or after
/// the end of every earlier one.
pub proof fn lemma_blocks_disjoint(
    heap_end: u64,
    cursors: Seq<u64>,
    sizes: Seq<u64>,
    aligns: Seq<u64>,
    blocks: Seq<Option<u64>>,
    i: int,
    j: int,
)
    requires
        bump_run(heap_end, cursors, sizes, aligns, blocks),
        0 <= i < j < blocks.len(),
        blocks[i] is Some,
        blocks[j] is Some,
    ensures
        blocks[i]->Some_0 + sizes[i] <= blocks[j]->Some_0,
{
    lemma_block(heap_end, cursors, sizes, aligns, blocks, i);
    lemma_block(heap_end, cursors, sizes, aligns, blocks, j);
    lemma_cursor_rises(heap_end, cursors, sizes, aligns, blocks, i + 1, j);
}

} // verus!
