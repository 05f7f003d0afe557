//! Blocks of pages in powers of two, split to be given out and joined when they come
//! back.
use crate::consts::PAGE_SZ;
use crate::memory::addr::log2_floor;
use vstd::prelude::*;

verus! {

/// The number of pages of a block of the order.
pub open spec fn pages(order: int) -> nat {
    vstd::arithmetic::power2::pow2(order as nat)
}

/// The number of bytes of a block of the order.
pub open spec fn block_size(order: int) -> int {
    pages(order) * PAGE_SZ
}

/// How many pages the free blocks of the first `n` orders have together.
pub open spec fn pages_in(lists: Seq<Vec<usize>>, n: int) -> int
    decreases n,
{
    if n <= 0 {
        0
    } else {
        pages_in(lists, n - 1) + lists[n - 1]@.len() * pages(n - 1)
    }
}

/// The byte lies in the block at `a` of the size.
pub open spec fn lies_in(a: int, size: int, x: int) -> bool {
    a <= x < a + size
}

/// How many of the blocks of one size hold the byte.
pub open spec fn covers_one(list: Seq<usize>, size: int, x: int) -> int
    decreases list.len(),
{
    if list.len() == 0 {
        0
    } else {
        covers_one(list.drop_last(), size, x) + (if lies_in(list.last() as int, size, x) {
            1int
        } else {
            0
        })
    }
}

/// How many free blocks of the first `n` orders hold the byte.
pub open spec fn covers(lists: Seq<Vec<usize>>, n: int, x: int) -> int
    decreases n,
{
    if n <= 0 {
        0
    } else {
        covers(lists, n - 1, x) + covers_one(lists[n - 1]@, block_size(n - 1), x)
    }
}

/// One if the byte lies in the block, and nothing if not.
pub open spec fn held(a: int, size: int, x: int) -> int {
    if lies_in(a, size, x) {
        1
    } else {
        0
    }
}

/// The lists with another list for one order.
pub open spec fn relisted(a: Seq<Vec<usize>>, o: int, list: Seq<usize>, b: Seq<Vec<usize>>) -> bool {
    &&& b.len() == a.len()
    &&& 0 <= o < a.len()
    &&& b[o]@ == list
    &&& forall|i: int| 0 <= i < a.len() && i != o ==> #[trigger] b[i] == a[i]
}

/// A change in one list changes the pages by what that list gained or lost.
proof fn lemma_pages_change(a: Seq<Vec<usize>>, o: int, list: Seq<usize>, b: Seq<Vec<usize>>, n: int)
    requires
        relisted(a, o, list, b),
        0 <= n <= a.len(),
    ensures
        pages_in(b, n) == (if o < n {
            pages_in(a, n) + (list.len() - a[o]@.len()) * pages(o)
        } else {
            pages_in(a, n)
        }),
    decreases n,
{
    if n > 0 {
        lemma_pages_change(a, o, list, b, n - 1);
        if o == n - 1 {
            let p = pages(o) as int;
            let (x, y) = (list.len() as int, a[o]@.len() as int);
            assert((x - y) * p == x * p - y * p) by (nonlinear_arith);
        }
    }
}

/// A change in one list changes what is covered by what that list gained or lost.
proof fn lemma_covers_change(
    a: Seq<Vec<usize>>,
    o: int,
    list: Seq<usize>,
    b: Seq<Vec<usize>>,
    n: int,
    x: int,
)
    requires
        relisted(a, o, list, b),
        0 <= n <= a.len(),
    ensures
        covers(b, n, x) == (if o < n {
            covers(a, n, x) + covers_one(list, block_size(o), x) - covers_one(
                a[o]@,
                block_size(o),
                x,
            )
        } else {
            covers(a, n, x)
        }),
    decreases n,
{
    if n > 0 {
        lemma_covers_change(a, o, list, b, n - 1, x);
    }
}

/// One block more covers its bytes once more.
proof fn lemma_covers_push(list: Seq<usize>, a: usize, size: int, x: int)
    ensures
        covers_one(list.push(a), size, x) == covers_one(list, size, x) + held(a as int, size, x),
{
    assert(list.push(a).drop_last() =~= list);
}

/// One block less covers its bytes once less.
proof fn lemma_covers_remove(list: Seq<usize>, i: int, size: int, x: int)
    requires
        0 <= i < list.len(),
    ensures
        covers_one(list.remove(i), size, x) == covers_one(list, size, x) - held(
            list[i] as int,
            size,
            x,
        ),
    decreases list.len(),
{
    if i == list.len() - 1 {
        assert(list.remove(i) =~= list.drop_last());
    } else {
        lemma_covers_remove(list.drop_last(), i, size, x);
        assert(list.remove(i).drop_last() =~= list.drop_last().remove(i));
        assert(list.remove(i).last() == list.last());
    }
}

proof fn lemma_covers_nonneg(list: Seq<usize>, size: int, x: int)
    ensures
        covers_one(list, size, x) >= 0,
    decreases list.len(),
{
    if list.len() > 0 {
        lemma_covers_nonneg(list.drop_last(), size, x);
    }
}

/// A block is two of the order below.
proof fn lemma_block_halves(o: int)
    requires
        o >= 0,
    ensures
        pages(o + 1) == 2 * pages(o),
        block_size(o + 1) == 2 * block_size(o),
        pages(o) > 0,
        block_size(o) > 0,
{
    vstd::arithmetic::power2::lemma_pow2_unfold((o + 1) as nat);
    vstd::arithmetic::power2::lemma_pow2_pos(o as nat);
}

/// Blocks of higher orders are larger.
proof fn lemma_block_grows(a: int, b: int)
    requires
        0 <= a <= b,
    ensures
        pages(a) <= pages(b),
        block_size(a) <= block_size(b),
{
    if a < b {
        vstd::arithmetic::power2::lemma_pow2_strictly_increases(a as nat, b as nat);
    }
}

/// The block and its buddy lie side by side: the buddy's address is one block further on
/// or one block back.
proof fn lemma_buddy_is_adjacent(addr: usize, size: usize, o: nat)
    requires
        size == block_size(o as int),
    ensures
        (addr ^ size) == addr + size || (addr ^ size) == addr - size,
{
    let k: usize = (o + 12) as usize;
    vstd::arithmetic::power2::lemma_pow2_adds(o, 12);
    vstd::arithmetic::power2::lemma2_to64();
    vstd::arithmetic::power2::lemma2_to64_rest();
    assert(size == vstd::arithmetic::power2::pow2(o + 12));
    vstd::layout::unsigned_int_max_values();
    if o + 12 >= usize::BITS {
        if o + 12 > usize::BITS {
            vstd::arithmetic::power2::lemma_pow2_strictly_increases(usize::BITS as nat, o + 12);
        }
    }
    assert(o + 12 < usize::BITS);
    vstd::bits::lemma_usize_pow2_no_overflow(k as nat);
    vstd::bits::lemma_usize_shl_is_mul(1usize, k);
    assert(size == 1usize << k);
    assert((addr ^ size) == addr + size || (addr ^ size) == addr - size) by (bit_vector)
        requires
            size == 1usize << k,
            k < usize::BITS,
    ;
}

/// The block lies at a multiple of its size.
pub open spec fn fits(addr: usize, o: int) -> bool {
    addr as int % block_size(o) == 0
}

/// The block that a block of the order is joined with.
pub open spec fn buddy_of(addr: usize, o: int) -> usize {
    addr ^ (block_size(o) as usize)
}

/// Every free block lies at a multiple of its size, and below the largest order none is
/// free beside its buddy.
pub open spec fn tidy_lists(lists: Seq<Seq<usize>>, max: int) -> bool {
    &&& lists.len() == max + 1
    &&& forall|o: int, i: int|
        0 <= o <= max && 0 <= i < lists[o].len() ==> fits(#[trigger] lists[o][i], o)
    &&& forall|o: int, i: int|
        0 <= o < max && 0 <= i < lists[o].len() ==> !lists[o].contains(
            buddy_of(#[trigger] lists[o][i], o),
        )
}

/// What fits a block fits every smaller one.
proof fn lemma_fits_smaller(x: int, a: int, b: int)
    requires
        0 <= a <= b,
        x % block_size(b) == 0,
    ensures
        x % block_size(a) == 0,
    decreases b - a,
{
    if a < b {
        lemma_block_halves(b - 1);
        lemma_block_halves(a);
        let d = block_size(b - 1);
        assert(d * 2 == block_size(b));
        vstd::arithmetic::div_mod::lemma_mod_mod(x, d, 2);
        lemma_fits_smaller(x, a, b - 1);
    }
}

/// The buddy of a block that fits lies above it if it fits the next order too, and below it
/// if not; the lower of the two fits the next order.
proof fn lemma_buddy_of(addr: usize, o: int)
    requires
        o >= 0,
        block_size(o) <= usize::MAX,
        fits(addr, o),
    ensures
        buddy_of(addr, o) != addr,
        fits(addr, o + 1) ==> buddy_of(addr, o) == addr + block_size(o),
        !fits(addr, o + 1) ==> buddy_of(addr, o) == addr - block_size(o) && fits(
            buddy_of(addr, o),
            o + 1,
        ),
{
    let size = block_size(o) as usize;
    let k: usize = (o + 12) as usize;
    vstd::arithmetic::power2::lemma_pow2_adds(o as nat, 12);
    vstd::arithmetic::power2::lemma2_to64();
    vstd::arithmetic::power2::lemma2_to64_rest();
    vstd::layout::unsigned_int_max_values();
    if o + 12 > usize::BITS {
        vstd::arithmetic::power2::lemma_pow2_strictly_increases(
            usize::BITS as nat,
            (o + 12) as nat,
        );
    }
    assert(o + 12 < usize::BITS);
    vstd::bits::lemma_usize_pow2_no_overflow(k as nat);
    vstd::bits::lemma_usize_shl_is_mul(1usize, k);
    vstd::bits::lemma_usize_shr_is_div(addr, k);
    assert(size == 1usize << k);
    lemma_block_halves(o);
    let q = addr as int / size as int;
    vstd::arithmetic::div_mod::lemma_fundamental_div_mod(addr as int, size as int);
    assert(addr >> k == q);
    assert(((addr >> k) % 2 == 0 ==> (addr ^ size) == addr + size) && ((addr >> k) % 2 == 1
        ==> (addr ^ size) == addr - size)) by (bit_vector)
        requires
            size == 1usize << k,
            k < usize::BITS,
    ;
    if q % 2 == 0 {
        let h = q / 2;
        assert(addr == h * (2 * size)) by (nonlinear_arith)
            requires
                addr == size * q,
                q == 2 * h,
        ;
        vstd::arithmetic::div_mod::lemma_mod_multiples_basic(h, 2 * size);
    } else {
        let h = q / 2;
        assert(addr == h * (2 * size) + size) by (nonlinear_arith)
            requires
                addr == size * q,
                q == 2 * h + 1,
        ;
        vstd::arithmetic::div_mod::lemma_fundamental_div_mod_converse(
            addr as int,
            2 * size,
            h,
            size as int,
        );
        vstd::arithmetic::div_mod::lemma_mod_multiples_basic(h, 2 * size);
        assert(addr - size == h * (2 * size));
    }
}

/// A block is its buddy's buddy.
proof fn lemma_buddy_back(addr: usize, o: int)
    ensures
        buddy_of(buddy_of(addr, o), o) == addr,
{
    let size = block_size(o) as usize;
    assert((addr ^ size) ^ size == addr) by (bit_vector);
}

/// An allocator of blocks: the free ones by order, each list by address.
pub struct BuddyAllocator {
    pub free_lists: Vec<Vec<usize>>,
    pub max_order: usize,
    pub base_addr: usize,
    pub total_pages: usize,
    pub allocated: usize,
}

/// The free blocks of a new allocator: as many of the largest order as fit, and behind
/// them one of each order that the rest has in binary.
pub open spec fn initial_list(base: int, total: int, top: int, o: int) -> Seq<usize> {
    if o == top {
        Seq::new((total / pages(o) as int) as nat, |i: int| (base + i * block_size(o)) as usize)
    } else if o < top && (total / pages(o) as int) % 2 == 1 {
        seq![(base + (total / pages(o + 1) as int) * block_size(o + 1)) as usize]
    } else {
        Seq::empty()
    }
}

impl BuddyAllocator {
    /// There is a list for each order, and the end of each free block can be counted.
    pub open spec fn wf(self) -> bool {
        &&& self.free_lists@.len() == self.max_order + 1
        &&& block_size(self.max_order as int) <= usize::MAX
        &&& forall|o: int, i: int|
            0 <= o < self.free_lists@.len() && 0 <= i < self.free_lists@[o]@.len() ==> (
            #[trigger] self.free_lists@[o]@[i]) + block_size(o) <= usize::MAX
    }

    /// Every free block lies at a multiple of its size, and none that could be joined with
    /// its buddy is free beside it.
    pub open spec fn tidy(self) -> bool {
        self.wf() && tidy_lists(lists_view(self.free_lists@), self.max_order as int)
    }

    /// How many pages are free.
    pub open spec fn free_pages(self) -> int {
        pages_in(self.free_lists@, self.free_lists@.len() as int)
    }

    /// How many free blocks hold the byte.
    pub open spec fn free_at(self, x: int) -> int {
        covers(self.free_lists@, self.free_lists@.len() as int, x)
    }

    /// The largest order that a new allocator has a block of.
    pub open spec fn top_order(total: int, max_order: int, top: int) -> bool {
        if total == 0 {
            top == 0
        } else {
            ||| top == max_order && pages(top) <= total
            ||| top <= max_order && pages(top) <= total < pages(top + 1)
        }
    }

    /// An allocator of `total_pages` free pages from `base` on.
    pub fn new(base: usize, total_pages: usize, max_order: usize) -> (r: Self)
        requires
            block_size(max_order as int) <= usize::MAX,
            base + total_pages * PAGE_SZ <= usize::MAX,
        ensures
            r.wf(),
            r.max_order == max_order,
            r.base_addr == base,
            r.total_pages == total_pages,
            r.allocated == 0,
            exists|top: int| 0 <= top <= max_order && #[trigger]
                BuddyAllocator::top_order(total_pages as int, max_order as int, top) && forall|o:
                    int|
                    0 <= o <= max_order ==> (#[trigger] r.free_lists@[o])@ == initial_list(
                        base as int,
                        total_pages as int,
                        top,
                        o,
                    ),
            r.free_pages() == total_pages,
            forall|x: int| #[trigger] r.free_at(x) == held(
                base as int,
                total_pages * PAGE_SZ,
                x,
            ),
            fits(base, max_order as int) ==> r.tidy(),
    {
        let mut lists: Vec<Vec<usize>> = Vec::new();
        let mut k: usize = 0;
        proof {
            lemma_max_order_small(max_order);
        }
        while k <= max_order
            invariant
                k <= max_order + 1,
                max_order < 64,
                lists@.len() == k,
                forall|o: int| 0 <= o < k ==> (#[trigger] lists@[o])@.len() == 0,
            decreases max_order + 1 - k,
        {
            lists.push(Vec::new());
            k = k + 1;
        }
        let ghost n = lists@.len() as int;
        proof {
            lemma_empty_lists(lists@, n);
        }
        let order: usize = log2_floor(total_pages);
        let top: usize = if order < max_order {
            order
        } else {
            max_order
        };
        proof {
            if total_pages > 0 {
                lemma_block_grows(top as int, order as int);
            }
            assert(BuddyAllocator::top_order(total_pages as int, max_order as int, top as int));
            lemma_block_grows(top as int, max_order as int);
            lemma_block_halves(top as int);
        }
        let mut addr: usize = base;
        let mut remaining: usize = total_pages;
        let big: usize = pages_of(top);
        let ghost mut count: int = 0;
        proof {
            let p = pages(top as int) as int;
            assert(0 * p == 0 && 0 * block_size(top as int) == 0);
            assert(lists@[top as int]@ =~= Seq::new(
                0,
                |i: int| (base + i * block_size(top as int)) as usize,
            ));
        }
        while remaining >= big
            invariant
                n == lists@.len(),
                n == max_order + 1,
                top <= max_order,
                big == pages(top as int),
                big > 0,
                0 <= count,
                total_pages == count * big + remaining,
                addr == base + count * block_size(top as int),
                addr == base + (total_pages - remaining) * PAGE_SZ,
                base + total_pages * PAGE_SZ <= usize::MAX,
                block_size(top as int) <= usize::MAX,
                block_size(top as int) == big * PAGE_SZ,
                forall|o: int| 0 <= o < n && o != top ==> (#[trigger] lists@[o])@.len() == 0,
                lists@[top as int]@ == Seq::new(
                    count as nat,
                    |i: int| (base + i * block_size(top as int)) as usize,
                ),
                forall|i: int|
                    0 <= i < count ==> (#[trigger] lists@[top as int]@[i]) + block_size(
                        top as int,
                    ) <= usize::MAX,
                pages_in(lists@, n) == total_pages - remaining,
                forall|x: int| #[trigger]
                    covers(lists@, n, x) == held(
                        base as int,
                        (total_pages - remaining) * PAGE_SZ,
                        x,
                    ),
            decreases remaining,
        {
            let ghost before = lists@;
            proof {
                let s = block_size(top as int);
                assert((count + 1) * big == count * big + big) by (nonlinear_arith);
                assert((count + 1) * s == count * s + s) by (nonlinear_arith);
                assert((total_pages - remaining + big) * PAGE_SZ == (total_pages - remaining)
                    * PAGE_SZ + big * PAGE_SZ);
                assert((total_pages - remaining) * PAGE_SZ + big * PAGE_SZ <= total_pages
                    * PAGE_SZ);
            }
            lists[top].push(addr);
            proof {
                lemma_add_block(before, top as int, addr, lists@, n);
                assert(lists@[top as int]@ =~= Seq::new(
                    (count + 1) as nat,
                    |i: int| (base + i * block_size(top as int)) as usize,
                ));
                assert forall|x: int| #[trigger] covers(lists@, n, x) == held(
                    base as int,
                    (total_pages - remaining + big) * PAGE_SZ,
                    x,
                ) by {
                    assert(covers(before, n, x) == held(
                        base as int,
                        (total_pages - remaining) * PAGE_SZ,
                        x,
                    ));
                }
                count = count + 1;
            }
            addr = addr + big * PAGE_SZ;
            remaining = remaining - big;
        }
        proof {
            lemma_quotient(total_pages as int, big as int, count, remaining as int);
        }
        let mut o: usize = top;
        while o > 0
            invariant
                n == lists@.len(),
                n == max_order + 1,
                o <= top <= max_order,
                block_size(max_order as int) <= usize::MAX,
                base + total_pages * PAGE_SZ <= usize::MAX,
                remaining == total_pages as int % pages(o as int) as int,
                remaining < pages(o as int),
                addr == base + (total_pages - remaining) * PAGE_SZ,
                forall|q: int|
                    0 <= q < n && !(o <= q <= top) ==> (#[trigger] lists@[q])@.len() == 0,
                forall|q: int|
                    o <= q <= top ==> (#[trigger] lists@[q])@ == initial_list(
                        base as int,
                        total_pages as int,
                        top as int,
                        q,
                    ),
                forall|q: int, i: int|
                    0 <= q < n && 0 <= i < lists@[q]@.len() ==> (#[trigger] lists@[q]@[i])
                        + block_size(q) <= usize::MAX,
                pages_in(lists@, n) == total_pages - remaining,
                forall|x: int| #[trigger]
                    covers(lists@, n, x) == held(
                        base as int,
                        (total_pages - remaining) * PAGE_SZ,
                        x,
                    ),
            decreases o,
        {
            o = o - 1;
            proof {
                lemma_block_halves(o as int);
                lemma_block_grows(o as int, max_order as int);
                lemma_half_step(total_pages as int, pages(o as int) as int);
            }
            let small: usize = pages_of(o);
            let ghost before = lists@;
            let ghost t = total_pages as int;
            if remaining >= small {
                proof {
                    assert((total_pages - remaining + small) * PAGE_SZ == (total_pages - remaining)
                        * PAGE_SZ + small * PAGE_SZ);
                    assert(addr == base + (t / pages(o + 1) as int) * block_size(o + 1)) by {
                        let p2 = pages(o + 1) as int;
                        vstd::arithmetic::div_mod::lemma_fundamental_div_mod(t, p2);
                        let q = t / p2;
                        assert(t - remaining == p2 * q);
                        assert((p2 * q) * 4096 == q * (p2 * 4096)) by (nonlinear_arith);
                    }
                }
                lists[o].push(addr);
                proof {
                    lemma_add_block(before, o as int, addr, lists@, n);
                    assert(lists@[o as int]@ =~= seq![addr]);
                    assert forall|x: int| #[trigger] covers(lists@, n, x) == held(
                        base as int,
                        (total_pages - remaining + small) * PAGE_SZ,
                        x,
                    ) by {
                        assert(covers(before, n, x) == held(
                            base as int,
                            (total_pages - remaining) * PAGE_SZ,
                            x,
                        ));
                    }
                    assert forall|q: int, i: int|
                        0 <= q < n && 0 <= i < lists@[q]@.len() implies (#[trigger] lists@[q]@[i])
                        + block_size(q) <= usize::MAX by {
                        if q != o {
                            assert(lists@[q]@[i] == before[q]@[i]);
                        }
                    }
                }
                addr = addr + small * PAGE_SZ;
                remaining = remaining - small;
            } else {
                proof {
                    assert(lists@[o as int]@ =~= Seq::<usize>::empty());
                }
            }
        }
        proof {
            vstd::arithmetic::power2::lemma2_to64();
            assert(remaining == 0);
            assert forall|q: int| 0 <= q <= max_order implies (#[trigger] lists@[q])@
                == initial_list(base as int, total_pages as int, top as int, q) by {
                if q > top {
                    assert(lists@[q]@ =~= Seq::<usize>::empty());
                }
            }
        }
        let r = BuddyAllocator {
            free_lists: lists,
            max_order,
            base_addr: base,
            total_pages,
            allocated: 0,
        };
        proof {
            assert forall|x: int| #[trigger] r.free_at(x) == held(
                base as int,
                total_pages * PAGE_SZ,
                x,
            ) by {
                assert(covers(lists@, n, x) == held(
                    base as int,
                    (total_pages - remaining) * PAGE_SZ,
                    x,
                ));
            }
            if fits(base, max_order as int) {
                lemma_new_is_tidy(r, base, total_pages, top as int);
            }
        }
        r
    }
}

/// Whole blocks further on, what fitted a block still does.
proof fn lemma_blocks_on(x: int, n: int, o: int, small: int)
    requires
        0 <= small <= o,
        n >= 0,
        x % block_size(small) == 0,
    ensures
        (x + n * block_size(o)) % block_size(small) == 0,
        n * block_size(o) == (n * pages(o)) * PAGE_SZ,
        n * block_size(o) >= 0,
{
    let (s, d) = (block_size(o), block_size(small));
    let p = pages(o) as int;
    lemma_block_halves(o);
    lemma_block_halves(small);
    assert(n * (p * PAGE_SZ) == (n * p) * PAGE_SZ) by (nonlinear_arith);
    assert(n * s >= 0) by (nonlinear_arith)
        requires
            n >= 0,
            s > 0,
    ;
    vstd::arithmetic::div_mod::lemma_mod_multiples_basic(n, s);
    lemma_fits_smaller(n * s, small, o);
    vstd::arithmetic::div_mod::lemma_add_mod_noop(x, n * s, d);
    vstd::arithmetic::div_mod::lemma_small_mod(0, d as nat);
}

/// The free blocks of a new allocator are tidy where its start fits the largest order.
proof fn lemma_new_is_tidy(r: BuddyAllocator, base: usize, total: usize, top: int)
    requires
        r.wf(),
        0 <= top <= r.max_order,
        base + total * PAGE_SZ <= usize::MAX,
        fits(base, r.max_order as int),
        BuddyAllocator::top_order(total as int, r.max_order as int, top),
        forall|o: int|
            0 <= o <= r.max_order ==> (#[trigger] r.free_lists@[o])@ == initial_list(
                base as int,
                total as int,
                top,
                o,
            ),
    ensures
        r.tidy(),
{
    let lists = lists_view(r.free_lists@);
    let max = r.max_order as int;
    assert forall|o: int, i: int| 0 <= o <= max && 0 <= i < lists[o].len() implies fits(
        #[trigger] lists[o][i],
        o,
    ) by {
        assert(lists[o] == r.free_lists@[o]@);
        lemma_fits_smaller(base as int, o, max);
        let t = total as int;
        if o == top {
            let p = pages(o) as int;
            lemma_block_halves(o);
            assert(i * p <= t) by (nonlinear_arith)
                requires
                    i < t / p,
                    p > 0,
                    t >= 0,
                    i >= 0,
            ;
            lemma_blocks_on(base as int, i, o, o);
        } else {
            let p = pages(o + 1) as int;
            lemma_block_halves(o + 1);
            let q = t / p;
            assert(q * p <= t && q >= 0) by (nonlinear_arith)
                requires
                    q == t / p,
                    p > 0,
                    t >= 0,
            ;
            lemma_blocks_on(base as int, q, o + 1, o);
        }
    }
    assert forall|o: int, i: int| 0 <= o < max && 0 <= i < lists[o].len() implies !lists[o].contains(
        buddy_of(#[trigger] lists[o][i], o),
    ) by {
        assert(lists[o] == r.free_lists@[o]@);
        lemma_block_grows(o, max);
        lemma_block_halves(o);
        assert(fits(lists[o][i], o));
        lemma_buddy_of(lists[o][i], o);
        assert(lists[o].len() <= 1) by {
            if o == top && total > 0 {
                let p = pages(o) as int;
                assert(total as int / p < 2) by (nonlinear_arith)
                    requires
                        total < 2 * p,
                        p > 0,
                        total >= 0,
                ;
            } else if o == top {
                assert(0int / pages(o) as int == 0) by (nonlinear_arith)
                    requires
                        pages(o) > 0,
                ;
            }
        }
        assert(i == 0);
    }
}

impl BuddyAllocator {
    /// The lowest order from `order` on of which there is a free block.
    pub open spec fn is_source(self, order: int, o: int) -> bool {
        &&& order <= o <= self.max_order
        &&& self.free_lists@[o]@.len() > 0
        &&& forall|q: int| order <= q < o ==> (#[trigger] self.free_lists@[q])@.len() == 0
    }

    /// There is a free block of the order or a higher one.
    pub open spec fn can_alloc(self, order: int) -> bool {
        exists|o: int|
            order <= o <= self.max_order && (#[trigger] self.free_lists@[o])@.len() > 0
    }

    /// `post` is this allocator once the last free block of the order `o` was split down
    /// to `order`: the upper half of each split is free, and the lowest block is not.
    pub open spec fn allocated_from(self, order: int, o: int, post: BuddyAllocator) -> bool {
        let addr = self.free_lists@[o]@.last();
        &&& post.free_lists@.len() == self.free_lists@.len()
        &&& forall|q: int|
            0 <= q < self.free_lists@.len() ==> (#[trigger] post.free_lists@[q])@ == (if q == o {
                self.free_lists@[q]@.drop_last()
            } else if order <= q < o {
                self.free_lists@[q]@.push((addr + block_size(q)) as usize)
            } else {
                self.free_lists@[q]@
            })
        &&& post.max_order == self.max_order
        &&& post.base_addr == self.base_addr
        &&& post.total_pages == self.total_pages
        &&& post.allocated == self.allocated.wrapping_add(pages(order) as usize)
    }

    /// Gives out a block of the order: the last free one of the lowest order that has
    /// any, split as often as it takes.
    pub fn alloc_order(&mut self, order: usize) -> (r: Option<usize>)
        requires
            old(self).wf(),
        ensures
            final(self).wf(),
            match r {
                Some(addr) => {
                    &&& order <= old(self).max_order
                    &&& exists|o: int| #[trigger]
                        old(self).is_source(order as int, o) && addr == old(
                            self).free_lists@[o]@.last() && old(self).allocated_from(
                            order as int,
                            o,
                            *final(self),
                        )
                    &&& final(self).free_pages() == old(self).free_pages() - pages(order as int)
                    &&& forall|x: int| #[trigger]
                        final(self).free_at(x) == old(self).free_at(x) - held(
                            addr as int,
                            block_size(order as int),
                            x,
                        )
                    &&& old(self).tidy() ==> final(self).tidy() && fits(addr, order as int)
                },
                None => !old(self).can_alloc(order as int) && *final(self) == *old(self),
            },
    {
        if order > self.max_order {
            return None;
        }
        let mut o: usize = order;
        proof {
            lemma_max_order_small(self.max_order);
        }
        while self.free_lists[o].len() == 0
            invariant
                *self == *old(self),
                self.wf(),
                self.max_order < 52,
                order <= o <= self.max_order,
                forall|q: int| order <= q < o ==> (#[trigger] self.free_lists@[q])@.len() == 0,
            decreases self.max_order - o,
        {
            if o == self.max_order {
                return None;
            }
            o = o + 1;
        }
        let ghost first = self.free_lists@;
        let ghost n = first.len() as int;
        proof {
            assert(old(self).is_source(order as int, o as int));
            let last = first[o as int]@.len() - 1;
            assert(first[o as int]@[last] + block_size(o as int) <= usize::MAX);
            lemma_block_grows(order as int, self.max_order as int);
            lemma_block_grows(o as int, self.max_order as int);
        }
        let addr: usize = match self.free_lists[o].pop() {
            Some(a) => a,
            None => {
                return None;
            },
        };
        proof {
            let last = first[o as int]@.len() - 1;
            assert(first[o as int]@.remove(last) =~= first[o as int]@.drop_last());
            lemma_drop_block(first, o as int, last, self.free_lists@, n);
            assert forall|q: int, i: int|
                0 <= q < n && 0 <= i < self.free_lists@[q]@.len() implies (
            #[trigger] self.free_lists@[q]@[i]) + block_size(q) <= usize::MAX by {
                assert(self.free_lists@[q]@[i] == first[q]@[i]);
            }
        }
        let mut cur: usize = o;
        while cur > order
            invariant
                self.wf(),
                n == first.len(),
                n == self.free_lists@.len(),
                order <= cur <= o <= self.max_order,
                o < n,
                self.max_order == old(self).max_order,
                self.base_addr == old(self).base_addr,
                self.total_pages == old(self).total_pages,
                self.allocated == old(self).allocated,
                first[o as int]@.len() > 0,
                addr == first[o as int]@.last(),
                addr + block_size(o as int) <= usize::MAX,
                forall|q: int|
                    0 <= q < n ==> (#[trigger] self.free_lists@[q])@ == (if q == o {
                        first[q]@.drop_last()
                    } else if cur <= q < o {
                        first[q]@.push((addr + block_size(q)) as usize)
                    } else {
                        first[q]@
                    }),
                pages_in(self.free_lists@, n) == pages_in(first, n) - pages(cur as int),
                forall|x: int| #[trigger]
                    covers(self.free_lists@, n, x) == covers(first, n, x) - held(
                        addr as int,
                        block_size(cur as int),
                        x,
                    ),
            decreases cur,
        {
            cur = cur - 1;
            let ghost before = self.free_lists@;
            proof {
                lemma_block_halves(cur as int);
                lemma_block_grows(cur + 1, o as int);
                lemma_block_grows(cur as int, self.max_order as int);
            }
            let buddy: usize = addr + pages_of(cur) * PAGE_SZ;
            self.free_lists[cur].push(buddy);
            proof {
                lemma_add_block(before, cur as int, buddy, self.free_lists@, n);
                assert forall|q: int, i: int|
                    0 <= q < n && 0 <= i < self.free_lists@[q]@.len() implies (
                #[trigger] self.free_lists@[q]@[i]) + block_size(q) <= usize::MAX by {
                    if q != cur || i < before[q]@.len() {
                        assert(self.free_lists@[q]@[i] == before[q]@[i]);
                    }
                }
                assert forall|x: int| #[trigger]
                    covers(self.free_lists@, n, x) == covers(first, n, x) - held(
                        addr as int,
                        block_size(cur as int),
                        x,
                    ) by {
                    assert(covers(before, n, x) == covers(first, n, x) - held(
                        addr as int,
                        block_size(cur + 1),
                        x,
                    ));
                }
            }
        }
        self.allocated = self.allocated.wrapping_add(pages_of(order));
        proof {
            assert(old(self).allocated_from(order as int, o as int, *self));
            assert forall|x: int| #[trigger] self.free_at(x) == old(self).free_at(x) - held(
                addr as int,
                block_size(order as int),
                x,
            ) by {
                assert(covers(self.free_lists@, n, x) == covers(first, n, x) - held(
                    addr as int,
                    block_size(order as int),
                    x,
                ));
            }
            if old(self).tidy() {
                lemma_alloc_stays_tidy(*old(self), order as int, o as int, *self);
            }
        }
        Some(addr)
    }
}

/// A block given out leaves the free ones tidy and fits its order.
proof fn lemma_alloc_stays_tidy(a: BuddyAllocator, order: int, o: int, b: BuddyAllocator)
    requires
        a.tidy(),
        b.wf(),
        0 <= order,
        a.is_source(order, o),
        a.allocated_from(order, o, b),
    ensures
        b.tidy(),
        fits(a.free_lists@[o]@.last(), order),
{
    let (x, y) = (lists_view(a.free_lists@), lists_view(b.free_lists@));
    let max = a.max_order as int;
    let addr = a.free_lists@[o]@.last();
    let last = x[o].len() - 1;
    assert(x[o] == a.free_lists@[o]@);
    assert(fits(x[o][last], o));
    assert(a.free_lists@[o]@[last] + block_size(o) <= usize::MAX);
    lemma_fits_smaller(addr as int, order, o);
    assert forall|q: int, i: int| 0 <= q <= max && 0 <= i < y[q].len() implies fits(
        #[trigger] y[q][i],
        q,
    ) by {
        assert(x[q] == a.free_lists@[q]@);
        assert(y[q] == b.free_lists@[q]@);
        if order <= q < o {
            assert(a.free_lists@[q]@.len() == 0);
            lemma_fits_smaller(addr as int, q, o);
            lemma_blocks_on(addr as int, 1, q, q);
            lemma_block_grows(q, o);
            assert(1 * block_size(q) == block_size(q));
        } else {
            assert(y[q][i] == x[q][i]);
        }
    }
    assert forall|q: int, i: int| 0 <= q < max && 0 <= i < y[q].len() implies !y[q].contains(
        buddy_of(#[trigger] y[q][i], q),
    ) by {
        assert(x[q] == a.free_lists@[q]@);
        assert(y[q] == b.free_lists@[q]@);
        if order <= q < o {
            assert(a.free_lists@[q]@.len() == 0);
            assert(y[q].len() == 1);
            lemma_block_grows(q, max);
            assert(fits(y[q][i], q));
            lemma_buddy_of(y[q][i], q);
        } else {
            assert(y[q][i] == x[q][i]);
            let c = buddy_of(x[q][i], q);
            if y[q].contains(c) {
                let j = choose|j: int| 0 <= j < y[q].len() && y[q][j] == c;
                assert(x[q][j] == c);
                assert(x[q].contains(c));
            }
        }
    }
}

/// The lists once the block is free: while its buddy is free too, the two are made one
/// block of the next order.
pub open spec fn freed(lists: Seq<Seq<usize>>, addr: usize, order: int, max: int) -> Seq<
    Seq<usize>,
>
    decreases max - order,
{
    let buddy = buddy_of(addr, order);
    if order < max && lists[order].contains(buddy) {
        let low = if addr <= buddy {
            addr
        } else {
            buddy
        };
        freed(
            lists.update(order, lists[order].remove(lists[order].index_of_first(buddy)->0)),
            low,
            order + 1,
            max,
        )
    } else {
        lists.update(order, lists[order].push(addr))
    }
}

/// A block that comes back leaves the free ones tidy.
proof fn lemma_freed_is_tidy(lists: Seq<Seq<usize>>, addr: usize, order: int, max: int)
    requires
        0 <= order <= max,
        block_size(max) <= usize::MAX,
        tidy_lists(lists, max),
        fits(addr, order),
    ensures
        tidy_lists(freed(lists, addr, order, max), max),
    decreases max - order,
{
    let buddy = buddy_of(addr, order);
    let list = lists[order];
    lemma_block_grows(order, max);
    lemma_buddy_of(addr, order);
    if order < max && list.contains(buddy) {
        list.index_of_first_ensures(buddy);
        let at = list.index_of_first(buddy)->0;
        let fewer = lists.update(order, list.remove(at));
        assert forall|o: int, i: int| 0 <= o <= max && 0 <= i < fewer[o].len() implies fits(
            #[trigger] fewer[o][i],
            o,
        ) by {
            if o == order && i >= at {
                assert(fewer[o][i] == lists[o][i + 1]);
            } else {
                assert(fewer[o][i] == lists[o][i]);
            }
        }
        assert forall|o: int, i: int| 0 <= o < max && 0 <= i < fewer[o].len() implies !fewer[o].contains(
            buddy_of(#[trigger] fewer[o][i], o),
        ) by {
            let k = if o == order && i >= at {
                i + 1
            } else {
                i
            };
            assert(fewer[o][i] == lists[o][k]);
            let c = buddy_of(lists[o][k], o);
            if fewer[o].contains(c) {
                let j = choose|j: int| 0 <= j < fewer[o].len() && fewer[o][j] == c;
                if o == order && j >= at {
                    assert(lists[o][j + 1] == c);
                } else {
                    assert(lists[o][j] == c);
                }
                assert(lists[o].contains(c));
            }
        }
        let low = if addr <= buddy {
            addr
        } else {
            buddy
        };
        assert(fits(low, order + 1));
        lemma_freed_is_tidy(fewer, low, order + 1, max);
    } else {
        let more = lists.update(order, list.push(addr));
        assert forall|o: int, i: int| 0 <= o <= max && 0 <= i < more[o].len() implies fits(
            #[trigger] more[o][i],
            o,
        ) by {
            if o != order || i < list.len() {
                assert(more[o][i] == lists[o][i]);
            }
        }
        assert forall|o: int, i: int| 0 <= o < max && 0 <= i < more[o].len() implies !more[o].contains(
            buddy_of(#[trigger] more[o][i], o),
        ) by {
            let c = buddy_of(more[o][i], o);
            if more[o].contains(c) {
                let j = choose|j: int| 0 <= j < more[o].len() && more[o][j] == c;
                if o != order {
                    assert(more[o][i] == lists[o][i]);
                    assert(lists[o].contains(c));
                } else if i < list.len() && j < list.len() {
                    assert(more[o][i] == lists[o][i]);
                    assert(lists[o][j] == c);
                    assert(lists[o].contains(c));
                } else if i < list.len() {
                    lemma_buddy_back(list[i], o);
                    assert(list[i] == buddy);
                    assert(list.contains(buddy));
                } else if j < list.len() {
                    assert(list[j] == buddy);
                    assert(list.contains(buddy));
                }
            }
        }
    }
}

/// The lists as sequences.
pub open spec fn lists_view(lists: Seq<Vec<usize>>) -> Seq<Seq<usize>> {
    lists.map_values(|l: Vec<usize>| l@)
}

/// Where the block stands in the list.
fn position(list: &Vec<usize>, x: usize) -> (r: Option<usize>)
    ensures
        match r {
            Some(i) => list@.contains(x) && i < list@.len() && list@[i as int] == x
                && list@.index_of_first(x) == Some(i as int),
            None => !list@.contains(x),
        },
{
    let mut i: usize = 0;
    while i < list.len()
        invariant
            i <= list@.len(),
            forall|j: int| 0 <= j < i ==> list@[j] != x,
        decreases list@.len() - i,
    {
        if list[i] == x {
            proof {
                assert(list@[i as int] == x);
                list@.index_of_first_ensures(x);
            }
            return Some(i);
        }
        i = i + 1;
    }
    None
}

impl BuddyAllocator {
    /// Takes a block back and joins it with its buddy as long as that is free; a block of
    /// an order that there is not is ignored.
    pub fn free_order(&mut self, addr: usize, order: usize)
        requires
            old(self).wf(),
            order <= old(self).max_order ==> addr + block_size(order as int) <= usize::MAX,
        ensures
            final(self).wf(),
            final(self).max_order == old(self).max_order,
            final(self).base_addr == old(self).base_addr,
            final(self).total_pages == old(self).total_pages,
            if order > old(self).max_order {
                *final(self) == *old(self)
            } else {
                &&& lists_view(final(self).free_lists@) == freed(
                    lists_view(old(self).free_lists@),
                    addr,
                    order as int,
                    old(self).max_order as int,
                )
                &&& final(self).allocated == old(self).allocated.wrapping_sub(
                    pages(order as int) as usize,
                )
                &&& final(self).free_pages() == old(self).free_pages() + pages(order as int)
                &&& forall|x: int| #[trigger]
                    final(self).free_at(x) == old(self).free_at(x) + held(
                        addr as int,
                        block_size(order as int),
                        x,
                    )
                &&& old(self).tidy() && fits(addr, order as int) ==> final(self).tidy()
            },
    {
        if order > self.max_order {
            return ;
        }
        let ghost first = self.free_lists@;
        let ghost n = first.len() as int;
        let mut cur: usize = addr;
        let mut o: usize = order;
        proof {
            lemma_block_grows(order as int, self.max_order as int);
        }
        while o < self.max_order
            invariant
                self.wf(),
                n == first.len(),
                n == self.free_lists@.len(),
                order <= o <= self.max_order,
                self.max_order == old(self).max_order,
                self.base_addr == old(self).base_addr,
                self.total_pages == old(self).total_pages,
                self.allocated == old(self).allocated,
                cur + block_size(o as int) <= usize::MAX,
                block_size(order as int) <= usize::MAX,
                freed(lists_view(self.free_lists@), cur, o as int, self.max_order as int) == freed(
                    lists_view(first),
                    addr,
                    order as int,
                    self.max_order as int,
                ),
                pages_in(self.free_lists@, n) + pages(o as int) == pages_in(first, n) + pages(
                    order as int,
                ),
                forall|x: int| #[trigger]
                    covers(self.free_lists@, n, x) + held(cur as int, block_size(o as int), x)
                        == covers(first, n, x) + held(addr as int, block_size(order as int), x),
            ensures
                o == self.max_order || !self.free_lists@[o as int]@.contains(
                    cur ^ (block_size(o as int) as usize),
                ),
            decreases self.max_order - o,
        {
            proof {
                lemma_block_halves(o as int);
                lemma_block_grows(o as int, self.max_order as int);
            }
            let size: usize = pages_of(o) * PAGE_SZ;
            let buddy: usize = cur ^ size;
            match position(&self.free_lists[o], buddy) {
                None => {
                    break ;
                },
                Some(pos) => {
                    let ghost before = self.free_lists@;
                    proof {
                        assert(before[o as int]@[pos as int] + block_size(o as int) <= usize::MAX);
                        lemma_buddy_is_adjacent(cur, size, o as nat);
                    }
                    let _ = self.free_lists[o].remove(pos);
                    proof {
                        lemma_drop_block(before, o as int, pos as int, self.free_lists@, n);
                        assert(lists_view(self.free_lists@) =~= lists_view(before).update(
                            o as int,
                            before[o as int]@.remove(pos as int),
                        ));
                        assert(lists_view(before)[o as int] == before[o as int]@);
                        assert forall|q: int, i: int|
                            0 <= q < n && 0 <= i < self.free_lists@[q]@.len() implies (
                        #[trigger] self.free_lists@[q]@[i]) + block_size(q) <= usize::MAX by {
                            if q == o && i >= pos {
                                assert(self.free_lists@[q]@[i] == before[q]@[i + 1]);
                            } else {
                                assert(self.free_lists@[q]@[i] == before[q]@[i]);
                            }
                        }
                    }
                    let ghost was = cur;
                    if buddy < cur {
                        cur = buddy;
                    }
                    proof {
                        assert forall|x: int| #[trigger]
                            covers(self.free_lists@, n, x) + held(
                                cur as int,
                                block_size(o + 1),
                                x,
                            ) == covers(first, n, x) + held(
                                addr as int,
                                block_size(order as int),
                                x,
                            ) by {
                            assert(covers(before, n, x) + held(
                                was as int,
                                block_size(o as int),
                                x,
                            ) == covers(first, n, x) + held(
                                addr as int,
                                block_size(order as int),
                                x,
                            ));
                        }
                    }
                    o = o + 1;
                },
            }
        }
        let ghost before = self.free_lists@;
        self.free_lists[o].push(cur);
        proof {
            lemma_add_block(before, o as int, cur, self.free_lists@, n);
            assert(lists_view(self.free_lists@) =~= lists_view(before).update(
                o as int,
                before[o as int]@.push(cur),
            ));
            assert(lists_view(before)[o as int] == before[o as int]@);
            assert forall|q: int, i: int|
                0 <= q < n && 0 <= i < self.free_lists@[q]@.len() implies (
            #[trigger] self.free_lists@[q]@[i]) + block_size(q) <= usize::MAX by {
                if q != o || i < before[q]@.len() {
                    assert(self.free_lists@[q]@[i] == before[q]@[i]);
                }
            }
        }
        self.allocated = self.allocated.wrapping_sub(pages_of(order));
        proof {
            assert forall|x: int| #[trigger] self.free_at(x) == old(self).free_at(x) + held(
                addr as int,
                block_size(order as int),
                x,
            ) by {
                assert(covers(before, n, x) + held(cur as int, block_size(o as int), x) == covers(
                    first,
                    n,
                    x,
                ) + held(addr as int, block_size(order as int), x));
                assert(covers(self.free_lists@, n, x) == covers(before, n, x) + held(
                    cur as int,
                    block_size(o as int),
                    x,
                ));
            }
            if old(self).tidy() && fits(addr, order as int) {
                lemma_freed_is_tidy(lists_view(first), addr, order as int, self.max_order as int);
            }
        }
    }

    /// The number of free pages.
    pub fn free_pages_count(&self) -> (r: usize)
        requires
            self.wf(),
            self.free_pages() <= usize::MAX,
        ensures
            r == self.free_pages(),
    {
        let mut count: usize = 0;
        let mut o: usize = 0;
        while o < self.free_lists.len()
            invariant
                self.wf(),
                o <= self.free_lists@.len(),
                self.free_pages() <= usize::MAX,
                count == pages_in(self.free_lists@, o as int),
            decreases self.free_lists@.len() - o,
        {
            proof {
                lemma_block_grows(o as int, self.max_order as int);
                lemma_pages_prefix(self.free_lists@, o + 1);
                let (l, p) = (self.free_lists@[o as int]@.len() as int, pages(o as int) as int);
                assert(l * p >= 0) by (nonlinear_arith)
                    requires
                        l >= 0,
                        p >= 0,
                ;
                lemma_pages_nonneg(self.free_lists@, o as int);
            }
            let p: usize = pages_of(o);
            count = count + self.free_lists[o].len() * p;
            o = o + 1;
        }
        count
    }

    /// The highest order of which there is a free block; 0 if there is none.
    pub fn largest_free_order(&self) -> (r: usize)
        requires
            self.wf(),
        ensures
            r <= self.max_order,
            forall|o: int|
                r < o <= self.max_order ==> (#[trigger] self.free_lists@[o])@.len() == 0,
            r > 0 ==> self.free_lists@[r as int]@.len() > 0,
    {
        let mut o: usize = self.max_order;
        while o > 0 && self.free_lists[o].len() == 0
            invariant
                self.wf(),
                o <= self.max_order,
                forall|q: int|
                    o < q <= self.max_order ==> (#[trigger] self.free_lists@[q])@.len() == 0,
            decreases o,
        {
            o = o - 1;
        }
        o
    }

    /// How far the free pages are scattered: which part of them, out of a hundred, lies
    /// outside the largest free block.
    pub fn fragmentation_score(&self) -> (r: usize)
        requires
            self.wf(),
            self.free_pages() * 100 <= usize::MAX,
        ensures
            exists|top: int|
                0 <= top <= self.max_order && (top > 0 ==> self.free_lists@[top]@.len() > 0) && (
                forall|o: int|
                    top < o <= self.max_order ==> (#[trigger] self.free_lists@[o])@.len() == 0)
                    && r == (if self.free_pages() <= pages(top) {
                    0int
                } else {
                    (self.free_pages() - #[trigger] pages(top)) * 100 / self.free_pages()
                }),
            r <= 100,
    {
        proof {
            lemma_pages_nonneg(self.free_lists@, self.free_lists@.len() as int);
        }
        let total: usize = self.free_pages_count();
        let top: usize = self.largest_free_order();
        proof {
            lemma_block_grows(top as int, self.max_order as int);
            lemma_block_halves(top as int);
        }
        let block: usize = pages_of(top);
        if total <= block {
            return 0;
        }
        proof {
            let (a, b) = (total - block, total as int);
            assert(a * 100 <= b * 100);
            assert(a * 100 / b <= 100) by (nonlinear_arith)
                requires
                    0 <= a <= b,
                    b > 0,
            ;
        }
        ((total - block) * 100) / total
    }

    /// A copy.
    pub fn snapshot(&self) -> (r: BuddyAllocator)
        ensures
            lists_view(r.free_lists@) == lists_view(self.free_lists@),
            r.max_order == self.max_order,
            r.base_addr == self.base_addr,
            r.total_pages == self.total_pages,
            r.allocated == self.allocated,
    {
        let mut lists: Vec<Vec<usize>> = Vec::new();
        let mut o: usize = 0;
        while o < self.free_lists.len()
            invariant
                o <= self.free_lists@.len(),
                lists@.len() == o,
                forall|q: int| 0 <= q < o ==> (#[trigger] lists@[q])@ == self.free_lists@[q]@,
            decreases self.free_lists@.len() - o,
        {
            let list = self.free_lists[o].clone();
            proof {
                assert(list@ =~= self.free_lists@[o as int]@);
            }
            lists.push(list);
            o = o + 1;
        }
        proof {
            assert(lists_view(lists@) =~= lists_view(self.free_lists@));
        }
        BuddyAllocator {
            free_lists: lists,
            max_order: self.max_order,
            base_addr: self.base_addr,
            total_pages: self.total_pages,
            allocated: self.allocated,
        }
    }
}

proof fn lemma_pages_nonneg(lists: Seq<Vec<usize>>, n: int)
    requires
        0 <= n <= lists.len(),
    ensures
        pages_in(lists, n) >= 0,
    decreases n,
{
    if n > 0 {
        lemma_pages_nonneg(lists, n - 1);
        let (l, p) = (lists[n - 1]@.len() as int, pages(n - 1) as int);
        assert(l * p >= 0) by (nonlinear_arith)
            requires
                l >= 0,
                p >= 0,
        ;
    }
}

proof fn lemma_pages_prefix(lists: Seq<Vec<usize>>, i: int)
    requires
        0 <= i <= lists.len(),
    ensures
        pages_in(lists, i) <= pages_in(lists, lists.len() as int),
    decreases lists.len() - i,
{
    if i < lists.len() {
        lemma_pages_prefix(lists, i + 1);
        let (l, p) = (lists[i]@.len() as int, pages(i) as int);
        assert(l * p >= 0) by (nonlinear_arith)
            requires
                l >= 0,
                p >= 0,
        ;
    }
}

/// The free blocks do not overlap.
pub open spec fn blocks_apart(a: BuddyAllocator) -> bool {
    forall|x: int| #[trigger] a.free_at(x) <= 1
}

proof fn lemma_free_at_nonneg(lists: Seq<Vec<usize>>, n: int, x: int)
    requires
        0 <= n <= lists.len(),
    ensures
        covers(lists, n, x) >= 0,
    decreases n,
{
    if n > 0 {
        lemma_free_at_nonneg(lists, n - 1, x);
        lemma_covers_nonneg(lists[n - 1]@, block_size(n - 1), x);
    }
}

/// Where the free blocks do not overlap, giving one out leaves them apart from each other
/// and from the block that was given out, all of which was free.
pub proof fn law_alloc_is_exclusive(
    a: BuddyAllocator,
    b: BuddyAllocator,
    addr: int,
    order: int,
)
    requires
        blocks_apart(a),
        forall|x: int| #[trigger]
            b.free_at(x) == a.free_at(x) - held(addr, block_size(order), x),
    ensures
        blocks_apart(b),
        forall|x: int| lies_in(addr, block_size(order), x) ==> #[trigger] a.free_at(x) == 1,
        forall|x: int| lies_in(addr, block_size(order), x) ==> #[trigger] b.free_at(x) == 0,
{
    assert forall|x: int| #[trigger] b.free_at(x) <= 1 by {
        assert(a.free_at(x) <= 1);
    }
    assert forall|x: int| lies_in(addr, block_size(order), x) implies #[trigger] a.free_at(x)
        == 1 by {
        lemma_free_at_nonneg(b.free_lists@, b.free_lists@.len() as int, x);
        assert(a.free_at(x) <= 1);
        assert(b.free_at(x) == a.free_at(x) - held(addr, block_size(order), x));
    }
    assert forall|x: int| lies_in(addr, block_size(order), x) implies #[trigger] b.free_at(x)
        == 0 by {
        assert(a.free_at(x) == 1);
        assert(b.free_at(x) == a.free_at(x) - held(addr, block_size(order), x));
    }
}

/// Where the free blocks do not overlap, they still do not once a block of which nothing
/// was free comes back.
pub proof fn law_free_keeps_blocks_apart(
    a: BuddyAllocator,
    b: BuddyAllocator,
    addr: int,
    order: int,
)
    requires
        blocks_apart(a),
        forall|x: int| lies_in(addr, block_size(order), x) ==> #[trigger] a.free_at(x) == 0,
        forall|x: int| #[trigger]
            b.free_at(x) == a.free_at(x) + held(addr, block_size(order), x),
    ensures
        blocks_apart(b),
{
    assert forall|x: int| #[trigger] b.free_at(x) <= 1 by {
        assert(a.free_at(x) <= 1);
    }
}

/// A block that is given out and comes back leaves as many pages free as there were, and
/// the same bytes free.
pub proof fn law_free_undoes_alloc(
    a: BuddyAllocator,
    b: BuddyAllocator,
    c: BuddyAllocator,
    addr: int,
    order: int,
)
    requires
        b.free_pages() == a.free_pages() - pages(order),
        c.free_pages() == b.free_pages() + pages(order),
        forall|x: int| #[trigger]
            b.free_at(x) == a.free_at(x) - held(addr, block_size(order), x),
        forall|x: int| #[trigger]
            c.free_at(x) == b.free_at(x) + held(addr, block_size(order), x),
    ensures
        c.free_pages() == a.free_pages(),
        forall|x: int| #[trigger] c.free_at(x) == a.free_at(x),
{
    assert forall|x: int| #[trigger] c.free_at(x) == a.free_at(x) by {
        assert(b.free_at(x) == a.free_at(x) - held(addr, block_size(order), x));
    }
}

/// The pages of lists are those of their blocks.
proof fn lemma_same_pages(a: Seq<Vec<usize>>, b: Seq<Vec<usize>>, n: int)
    requires
        0 <= n <= a.len(),
        lists_view(a) == lists_view(b),
    ensures
        pages_in(a, n) == pages_in(b, n),
    decreases n,
{
    if n > 0 {
        lemma_same_pages(a, b, n - 1);
        assert(lists_view(a)[n - 1] == a[n - 1]@);
        assert(lists_view(b).len() == b.len());
        assert(lists_view(b)[n - 1] == b[n - 1]@);
    }
}

/// The lists between a block of order `o` given out and its coming back to order `cur`: the
/// upper halves from there on are free, below them the lists are as they were.
spec fn half_merged(x: Seq<Seq<usize>>, o: int, cur: int, y: Seq<Seq<usize>>) -> bool {
    &&& y.len() == x.len()
    &&& forall|q: int|
        0 <= q < x.len() ==> #[trigger] y[q] == (if q == o {
            x[q].drop_last()
        } else if cur <= q < o {
            seq![(x[o].last() + block_size(q)) as usize]
        } else {
            x[q]
        })
}

/// From any stage of the split, freeing the lowest block leads back to the lists as they
/// were.
proof fn lemma_merges_back(x: Seq<Seq<usize>>, o: int, cur: int, y: Seq<Seq<usize>>, max: int)
    requires
        0 <= cur <= o <= max,
        block_size(max) <= usize::MAX,
        tidy_lists(x, max),
        x[o].len() > 0,
        x[o].last() + block_size(o) <= usize::MAX,
        forall|q: int| cur <= q < o ==> (#[trigger] x[q]).len() == 0,
        half_merged(x, o, cur, y),
    ensures
        freed(y, x[o].last(), cur, max) == x,
    decreases o - cur,
{
    let addr = x[o].last();
    assert(fits(x[o][x[o].len() - 1], o));
    assert(y[cur] == y[cur]);
    lemma_block_grows(cur, max);
    lemma_fits_smaller(addr as int, cur, o);
    lemma_buddy_of(addr, cur);
    if cur < o {
        lemma_fits_smaller(addr as int, cur + 1, o);
        lemma_block_grows(cur, o);
        lemma_block_halves(cur);
        let buddy = buddy_of(addr, cur);
        let list = y[cur];
        assert(list =~= seq![buddy]);
        assert(list[0] == buddy);
        assert(list.contains(buddy));
        list.index_of_first_ensures(buddy);
        let at = list.index_of_first(buddy)->0;
        assert(at == 0);
        let z = y.update(cur, list.remove(at));
        assert(list.remove(at) =~= Seq::<usize>::empty());
        assert(x[cur] =~= Seq::<usize>::empty());
        assert(half_merged(x, o, cur + 1, z));
        lemma_merges_back(x, o, cur + 1, z, max);
    } else {
        let c = buddy_of(addr, o);
        if o < max && y[o].contains(c) {
            let j = choose|j: int| 0 <= j < y[o].len() && y[o][j] == c;
            assert(x[o][j] == c);
            assert(x[o].contains(c));
            assert(!x[o].contains(buddy_of(x[o][x[o].len() - 1], o)));
        }
        assert(y[o].push(addr) =~= x[o]);
        assert(y.update(o, y[o].push(addr)) =~= x);
    }
}

/// Where the free blocks are tidy, a block that is given out and comes back leaves the
/// allocator as it was: its buddies are joined again, so that every list holds the same
/// blocks, and as many pages are free and given out. The free blocks of a new allocator
/// whose start fits the largest order are tidy, and stay so.
pub proof fn law_free_joins_what_alloc_split(
    a: BuddyAllocator,
    b: BuddyAllocator,
    c: BuddyAllocator,
    order: int,
    o: int,
)
    requires
        a.tidy(),
        0 <= order,
        a.is_source(order, o),
        a.allocated_from(order, o, b),
        lists_view(c.free_lists@) == freed(
            lists_view(b.free_lists@),
            a.free_lists@[o]@.last(),
            order,
            b.max_order as int,
        ),
        c.allocated == b.allocated.wrapping_sub(pages(order) as usize),
    ensures
        lists_view(c.free_lists@) == lists_view(a.free_lists@),
        c.free_pages() == a.free_pages(),
        c.allocated == a.allocated,
{
    let (x, y) = (lists_view(a.free_lists@), lists_view(b.free_lists@));
    let max = a.max_order as int;
    assert(x[o] == a.free_lists@[o]@);
    assert(a.free_lists@[o]@[x[o].len() - 1] + block_size(o) <= usize::MAX);
    assert forall|q: int| order <= q < o implies (#[trigger] x[q]).len() == 0 by {
        assert(x[q] == a.free_lists@[q]@);
    }
    assert(half_merged(x, o, order, y)) by {
        assert forall|q: int| 0 <= q < x.len() implies #[trigger] y[q] == (if q == o {
            x[q].drop_last()
        } else if order <= q < o {
            seq![(x[o].last() + block_size(q)) as usize]
        } else {
            x[q]
        }) by {
            assert(x[q] == a.free_lists@[q]@);
            assert(y[q] == b.free_lists@[q]@);
            if order <= q < o {
                assert(a.free_lists@[q]@.len() == 0);
                assert(y[q] =~= seq![(x[o].last() + block_size(q)) as usize]);
            }
        }
    }
    lemma_merges_back(x, o, order, y, max);
    assert(lists_view(c.free_lists@).len() == c.free_lists@.len());
    lemma_same_pages(c.free_lists@, a.free_lists@, c.free_lists@.len() as int);
}

/// No block of an order whose size can be counted is too high.
proof fn lemma_max_order_small(max_order: usize)
    requires
        block_size(max_order as int) <= usize::MAX,
    ensures
        max_order < 52,
{
    vstd::arithmetic::power2::lemma2_to64();
    vstd::arithmetic::power2::lemma2_to64_rest();
    vstd::layout::unsigned_int_max_values();
    if max_order >= 52 {
        lemma_block_grows(52, max_order as int);
    }
}

/// Empty lists have no pages and cover nothing.
proof fn lemma_empty_lists(lists: Seq<Vec<usize>>, n: int)
    requires
        0 <= n <= lists.len(),
        forall|o: int| 0 <= o < n ==> (#[trigger] lists[o])@.len() == 0,
    ensures
        pages_in(lists, n) == 0,
        forall|x: int| #[trigger] covers(lists, n, x) == 0,
    decreases n,
{
    if n > 0 {
        lemma_empty_lists(lists, n - 1);
        assert(lists[n - 1]@.len() == 0);
        let p = pages(n - 1) as int;
        assert(0 * p == 0);
        assert forall|x: int| #[trigger] covers(lists, n, x) == 0 by {
            assert(covers(lists, n - 1, x) == 0);
        }
    }
}

/// A block more in a list adds its pages and covers its bytes.
proof fn lemma_add_block(a: Seq<Vec<usize>>, o: int, addr: usize, b: Seq<Vec<usize>>, n: int)
    requires
        0 <= o < n == a.len(),
        relisted(a, o, a[o]@.push(addr), b),
    ensures
        pages_in(b, n) == pages_in(a, n) + pages(o),
        forall|x: int| #[trigger]
            covers(b, n, x) == covers(a, n, x) + held(addr as int, block_size(o), x),
{
    lemma_pages_change(a, o, a[o]@.push(addr), b, n);
    let p = pages(o) as int;
    assert(1 * p == p) by (nonlinear_arith);
    assert forall|x: int| #[trigger] covers(b, n, x) == covers(a, n, x) + held(
        addr as int,
        block_size(o),
        x,
    ) by {
        lemma_covers_change(a, o, a[o]@.push(addr), b, n, x);
        lemma_covers_push(a[o]@, addr, block_size(o), x);
    }
}

/// A block less in a list takes its pages away and covers its bytes no more.
proof fn lemma_drop_block(a: Seq<Vec<usize>>, o: int, i: int, b: Seq<Vec<usize>>, n: int)
    requires
        0 <= o < n == a.len(),
        0 <= i < a[o]@.len(),
        relisted(a, o, a[o]@.remove(i), b),
    ensures
        pages_in(b, n) == pages_in(a, n) - pages(o),
        forall|x: int| #[trigger]
            covers(b, n, x) == covers(a, n, x) - held(a[o]@[i] as int, block_size(o), x),
{
    lemma_pages_change(a, o, a[o]@.remove(i), b, n);
    let p = pages(o) as int;
    assert((-1) * p == -p) by (nonlinear_arith);
    assert forall|x: int| #[trigger] covers(b, n, x) == covers(a, n, x) - held(
        a[o]@[i] as int,
        block_size(o),
        x,
    ) by {
        lemma_covers_change(a, o, a[o]@.remove(i), b, n, x);
        lemma_covers_remove(a[o]@, i, block_size(o), x);
    }
}

/// How often a divisor was taken away is the quotient.
proof fn lemma_quotient(t: int, d: int, q: int, r: int)
    requires
        d > 0,
        t == q * d + r,
        0 <= r < d,
    ensures
        t / d == q,
        t % d == r,
{
    vstd::arithmetic::div_mod::lemma_fundamental_div_mod_converse(t, d, q, r);
}

/// The remainder by a number from that by its double: the same, or less that number if
/// the quotient is odd.
proof fn lemma_half_step(t: int, d: int)
    requires
        d > 0,
        t >= 0,
    ensures
        ({
            let r2 = t % (2 * d);
            &&& (t / d) % 2 == (if r2 >= d {
                1int
            } else {
                0
            })
            &&& t % d == (if r2 >= d {
                r2 - d
            } else {
                r2
            })
        }),
{
    let q = t / (2 * d);
    let r2 = t % (2 * d);
    vstd::arithmetic::div_mod::lemma_fundamental_div_mod(t, 2 * d);
    vstd::arithmetic::div_mod::lemma_mod_bound(t, 2 * d);
    if r2 >= d {
        assert(t == (2 * q + 1) * d + (r2 - d)) by (nonlinear_arith)
            requires
                t == (2 * d) * q + r2,
        ;
        lemma_quotient(t, d, 2 * q + 1, r2 - d);
    } else {
        assert(t == (2 * q) * d + r2) by (nonlinear_arith)
            requires
                t == (2 * d) * q + r2,
        ;
        lemma_quotient(t, d, 2 * q, r2);
    }
}

/// The number of pages of a block of the order.
fn pages_of(order: usize) -> (r: usize)
    requires
        block_size(order as int) <= usize::MAX,
    ensures
        r == pages(order as int),
{
    let mut p: usize = 1;
    let mut o: usize = 0;
    proof {
        vstd::arithmetic::power2::lemma2_to64();
    }
    while o < order
        invariant
            o <= order,
            p == pages(o as int),
            block_size(order as int) <= usize::MAX,
        decreases order - o,
    {
        proof {
            lemma_block_halves(o as int);
            lemma_block_grows(o + 1, order as int);
        }
        p = p * 2;
        o = o + 1;
    }
    p
}

/// A block of the next order is twice as large; the smallest is a page.
pub proof fn law_orders_double(o: int)
    requires
        0 <= o,
    ensures
        block_size(0) == 4096,
        block_size(o + 1) == 2 * block_size(o),
        pages(0) == 1,
        pages(o + 1) == 2 * pages(o),
{
    vstd::arithmetic::power2::lemma_pow2_unfold((o + 1) as nat);
    vstd::arithmetic::power2::lemma2_to64();
    assert(2 * pages(o) * PAGE_SZ == 2 * (pages(o) * PAGE_SZ)) by (nonlinear_arith);
}

/// A block is taken from the least order that has one and is large enough, so no larger block
/// is split than need be; what is split off is listed once under each order between.
pub proof fn law_least_block_is_split(a: BuddyAllocator, order: int, o: int, q: int, b: BuddyAllocator)
    requires
        a.wf(),
        0 <= order,
        a.is_source(order, o),
        a.allocated_from(order, o, b),
        0 <= q <= a.max_order,
    ensures
        order <= o,
        a.free_lists@[o]@.len() > 0,
        order <= q < o ==> a.free_lists@[q]@.len() == 0 && b.free_lists@[q]@.len() == 1,
        q == o ==> b.free_lists@[q]@.len() == a.free_lists@[q]@.len() - 1,
        q < order || o < q ==> b.free_lists@[q]@ == a.free_lists@[q]@,
{
}

/// A block can be had as long as one of its order or a larger one is free.
pub proof fn law_larger_blocks_serve(a: BuddyAllocator, order: int, o: int)
    requires
        order <= o <= a.max_order,
        a.free_lists@[o]@.len() > 0,
    ensures
        a.can_alloc(order),
{
}

/// Where a block can be had there is one of the lowest order that serves, and where it cannot
/// there is none.
pub proof fn law_some_order_is_the_source(a: BuddyAllocator, order: int)
    requires
        0 <= order,
    ensures
        a.can_alloc(order) <==> exists|o: int| #[trigger] a.is_source(order, o),
{
    if a.can_alloc(order) {
        let o = choose|o: int|
            order <= o <= a.max_order && (#[trigger] a.free_lists@[o])@.len() > 0;
        lemma_lowest_source(a, order, o);
    }
    if exists|o: int| #[trigger] a.is_source(order, o) {
        let o = choose|o: int| #[trigger] a.is_source(order, o);
        assert(a.free_lists@[o]@.len() > 0);
    }
}

/// From an order that has a block down, one of them is the lowest.
proof fn lemma_lowest_source(a: BuddyAllocator, order: int, o: int)
    requires
        order <= o <= a.max_order,
        a.free_lists@[o]@.len() > 0,
    ensures
        exists|q: int| #[trigger] a.is_source(order, q),
    decreases o - order,
{
    if exists|q: int| order <= q < o && (#[trigger] a.free_lists@[q])@.len() > 0 {
        let q = choose|q: int| order <= q < o && (#[trigger] a.free_lists@[q])@.len() > 0;
        lemma_lowest_source(a, order, q);
    } else {
        assert(a.is_source(order, o));
    }
}

/// A new allocator starts with blocks as large as fit: none is larger than the largest order
/// that is wanted or than all pages together, and the next order would be.
pub proof fn law_largest_order_fits(total: int, max_order: int, top: int)
    requires
        BuddyAllocator::top_order(total, max_order, top),
        total >= 0,
    ensures
        total == 0 ==> top == 0,
        total > 0 ==> top <= max_order && pages(top) <= total,
        total > 0 && top < max_order ==> total < pages(top + 1),
{
}

/// The free blocks of a new allocator of the largest order lie one behind the other from the
/// start, and there are none of a higher order; of each lower one there is one block at most,
/// behind the larger ones.
pub proof fn law_new_blocks_lie_in_a_row(base: int, total: int, top: int, o: int, i: int)
    requires
        0 <= o,
        0 <= base,
        0 <= i < total / pages(top) as int,
        base + total * 4096 <= usize::MAX,
    ensures
        o > top ==> initial_list(base, total, top, o).len() == 0,
        o == top ==> initial_list(base, total, top, o).len() == total / pages(top) as int
            && initial_list(base, total, top, o)[i] == (base + i * block_size(top)) as usize,
        o < top ==> initial_list(base, total, top, o).len() == (total / pages(o) as int) % 2,
        o < top && initial_list(base, total, top, o).len() == 1 ==> initial_list(
            base,
            total,
            top,
            o,
        )[0] == (base + (total / pages(o + 1) as int) * block_size(o + 1)) as usize,
{
    if o < top {
        assert(0 <= (total / pages(o) as int) % 2 < 2);
    }
}

} // verus!
