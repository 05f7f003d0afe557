//! Addresses: the linear map of physical memory, alignment and the kernel heap's bounds.
use crate::consts::{KERN_BASE, PAGE_SZ, PHYS_OFF};
use vstd::prelude::*;

verus! {

/// The virtual address at which a physical address is mapped.
pub fn p2v(pa: u64) -> (r: u64)
    ensures
        r == PHYS_OFF.wrapping_add(pa),
{
    PHYS_OFF.wrapping_add(pa)
}

/// The physical address that is mapped at a virtual address.
pub fn v2p(va: u64) -> (r: u64)
    ensures
        r == va.wrapping_sub(PHYS_OFF),
{
    va.wrapping_sub(PHYS_OFF)
}

/// How far an address lies from the first one of the kernel.
pub fn k_off(va: u64) -> (r: u64)
    ensures
        r == va.wrapping_sub(KERN_BASE),
{
    va.wrapping_sub(KERN_BASE)
}

/// Mapping there and back gives the address again, either way.
pub proof fn law_linear_map_is_invertible(a: u64)
    ensures
        PHYS_OFF.wrapping_add(a).wrapping_sub(PHYS_OFF) == a,
        PHYS_OFF.wrapping_add(a.wrapping_sub(PHYS_OFF)) == a,
{
}

/// The number rounded up to a multiple of `al`.
pub open spec fn round_up(x: int, al: int) -> int {
    ((x + al - 1) / al) * al
}

/// The number rounded down to a multiple of `al`.
pub open spec fn round_down(x: int, al: int) -> int {
    (x / al) * al
}

/// Rounding up gives the least multiple that is not below.
pub proof fn lemma_round_up(x: int, al: int)
    requires
        al > 0,
    ensures
        x <= round_up(x, al) < x + al,
        round_up(x, al) % al == 0,
        forall|m: int| x <= m && #[trigger] (m % al) == 0 ==> round_up(x, al) <= m,
{
    let q = (x + al - 1) / al;
    vstd::arithmetic::div_mod::lemma_fundamental_div_mod(x + al - 1, al);
    vstd::arithmetic::div_mod::lemma_mod_multiples_basic(q, al);
    assert(al * q == q * al) by (nonlinear_arith);
    assert forall|m: int| x <= m && #[trigger] (m % al) == 0 implies round_up(x, al) <= m by {
        vstd::arithmetic::div_mod::lemma_fundamental_div_mod(m, al);
        let p = m / al;
        if m < q * al {
            assert(p < q) by (nonlinear_arith)
                requires
                    m == al * p,
                    m < q * al,
                    al > 0,
            ;
            assert((q - 1) * al >= p * al) by (nonlinear_arith)
                requires
                    p <= q - 1,
                    al > 0,
            ;
            assert((q - 1) * al == q * al - al) by (nonlinear_arith);
            assert(p * al == al * p) by (nonlinear_arith);
            assert(m <= q * al - al);
            assert(q * al <= x + al - 1);
        }
    }
}

/// The end of the kernel heap that starts at `base`, rounded up to a page, and is `sz`
/// long, rounded down to pages.
pub fn heap_init(base: usize, sz: usize) -> (r: usize)
    requires
        base + PAGE_SZ - 1 <= usize::MAX,
        round_up(base as int, PAGE_SZ as int) + round_down(sz as int, PAGE_SZ as int)
            <= usize::MAX,
    ensures
        r == round_up(base as int, PAGE_SZ as int) + round_down(sz as int, PAGE_SZ as int),
{
    let start: usize = (base + (PAGE_SZ - 1)) / PAGE_SZ * PAGE_SZ;
    let len: usize = sz / PAGE_SZ * PAGE_SZ;
    start + len
}

/// The largest order of a block plus one.
pub const N_ORDERS: usize = 12;

/// Whether an address is a user address at which a block of the order may start.
pub fn verify_page_alignment(addr: usize, order: usize) -> (r: bool)
    ensures
        r == (order < N_ORDERS && addr < KERN_BASE && addr as int % (PAGE_SZ
            * vstd::arithmetic::power2::pow2(order as nat)) == 0),
{
    if order >= N_ORDERS {
        return false;
    }
    let mut size: usize = PAGE_SZ;
    let mut o: usize = 0;
    proof {
        vstd::arithmetic::power2::lemma_pow2(0);
        vstd::arithmetic::power2::lemma2_to64();
    }
    while o < order
        invariant
            o <= order < N_ORDERS,
            size == PAGE_SZ * vstd::arithmetic::power2::pow2(o as nat),
            size <= 0x80_0000,
            o == 11 ==> size == 0x80_0000,
            vstd::arithmetic::power2::pow2(o as nat) <= 2048,
        decreases order - o,
    {
        proof {
            vstd::arithmetic::power2::lemma_pow2_unfold((o + 1) as nat);
            vstd::arithmetic::power2::lemma2_to64();
            if o + 1 < 11 {
                vstd::arithmetic::power2::lemma_pow2_strictly_increases((o + 1) as nat, 11);
            }
        }
        size = size * 2;
        o = o + 1;
    }
    (addr as u64) < KERN_BASE && addr % size == 0
}

/// The logarithm to base 2, rounded down; 0 for 0.
pub fn log2_floor(v: usize) -> (r: usize)
    ensures
        v == 0 ==> r == 0,
        v > 0 ==> vstd::arithmetic::power2::pow2(r as nat) <= v
            < vstd::arithmetic::power2::pow2((r + 1) as nat),
        r < usize::BITS,
{
    if v == 0 {
        return 0;
    }
    let mut x: usize = v;
    let mut r: usize = 0;
    proof {
        vstd::arithmetic::power2::lemma2_to64();
    }
    while x > 1
        invariant
            1 <= x <= v,
            x * vstd::arithmetic::power2::pow2(r as nat) <= v,
            v < (x + 1) * vstd::arithmetic::power2::pow2(r as nat),
            r < usize::BITS,
        decreases x,
    {
        let h: usize = x / 2;
        proof {
            vstd::arithmetic::power2::lemma_pow2_unfold((r + 1) as nat);
            vstd::arithmetic::power2::lemma_pow2_pos(r as nat);
            let p = vstd::arithmetic::power2::pow2(r as nat) as int;
            assert(h * (2 * p) <= v && v < (h + 1) * (2 * p)) by (nonlinear_arith)
                requires
                    x * p <= v,
                    v < (x + 1) * p,
                    2 * h <= x,
                    x < 2 * h + 2,
                    p > 0,
            ;
            lemma_exponent_bounded((r + 1) as nat, h as int, v);
        }
        x = h;
        r = r + 1;
    }
    proof {
        vstd::arithmetic::power2::lemma_pow2_unfold((r + 1) as nat);
        let p = vstd::arithmetic::power2::pow2(r as nat) as int;
        assert(1 * p == p && (1 + 1) * p == 2 * p) by (nonlinear_arith);
    }
    r
}

/// A power of two that fits in a number has an exponent below its width.
proof fn lemma_exponent_bounded(e: nat, h: int, v: usize)
    requires
        h >= 1,
        h * vstd::arithmetic::power2::pow2(e) <= v,
    ensures
        e < usize::BITS,
{
    let p = vstd::arithmetic::power2::pow2(e) as int;
    vstd::arithmetic::power2::lemma_pow2_pos(e);
    assert(p <= v) by (nonlinear_arith)
        requires
            h * p <= v,
            h >= 1,
            p > 0,
    ;
    vstd::arithmetic::power2::lemma2_to64();
    vstd::arithmetic::power2::lemma2_to64_rest();
    if e >= usize::BITS {
        if e > usize::BITS {
            vstd::arithmetic::power2::lemma_pow2_strictly_increases(usize::BITS as nat, e);
        }
        vstd::layout::unsigned_int_max_values();
    }
}

/// Rounding down gives the greatest multiple that is not above, and the two roundings agree
/// on multiples and are one step apart elsewhere.
pub proof fn law_roundings_enclose(x: int, al: int)
    requires
        al > 0,
        x >= 0,
    ensures
        x - al < round_down(x, al) <= x <= round_up(x, al) < x + al,
        round_down(x, al) % al == 0,
        round_up(x, al) % al == 0,
        x % al == 0 ==> round_down(x, al) == x && round_up(x, al) == x,
{
    let q = x / al;
    lemma_round_up(x, al);
    vstd::arithmetic::div_mod::lemma_fundamental_div_mod(x, al);
    vstd::arithmetic::div_mod::lemma_mod_multiples_basic(q, al);
    assert(al * q == q * al) by (nonlinear_arith);
}

} // verus!
