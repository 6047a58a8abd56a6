//! Rounding addresses up to an alignment boundary.
//!
//! The allocator never needs more from an alignment than "the next multiple
//! at or above an address", so alignments are plain positive integers here.
//! Callers normally pass powers of two, but nothing below depends on it.

use vstd::prelude::*;
use vstd::arithmetic::div_mod::{
    lemma_fundamental_div_mod, lemma_mod_decreases, lemma_mod_multiples_basic,
};

verus! {

/// `addr` is a multiple of `align`.
pub open spec fn is_aligned(addr: int, align: int) -> bool {
    addr % align == 0
}

/// The smallest multiple of `align` that is not below `addr`.
pub open spec fn align_up_spec(addr: int, align: int) -> int {
    if addr % align == 0 {
        addr
    } else {
        addr - addr % align + align
    }
}

/// Two multiples of `align` that differ by less than `align` are equal.
proof fn lemma_multiples_are_spread(a: int, b: int, align: int)
    requires
        align > 0,
        a % align == 0,
        b % align == 0,
        a <= b < a + align,
    ensures
        a == b,
{
    lemma_fundamental_div_mod(a, align);
    lemma_fundamental_div_mod(b, align);
    let qa = a / align;
    let qb = b / align;
    assert(qa == qb) by (nonlinear_arith)
        requires
            align > 0,
            a == align * qa,
            b == align * qb,
            a <= b < a + align,
    ;
}

/// `align_up_spec(addr, align)` is a multiple of `align`, lies in
/// `[addr, addr + align)`, and no multiple of `align` lies between `addr`
/// and it.
pub proof fn lemma_align_up_is_least(addr: int, align: int)
    requires
        align > 0,
    ensures
        is_aligned(align_up_spec(addr, align), align),
        addr <= align_up_spec(addr, align) < addr + align,
        forall|m: int| addr <= m && #[trigger] is_aligned(m, align) ==> align_up_spec(addr, align) <= m,
{
    let up = align_up_spec(addr, align);
    lemma_fundamental_div_mod(addr, align);
    assert(addr % align == 0 ==> up % align == 0);
    if addr % align != 0 {
        let q = addr / align;
        assert(up == align * (q + 1)) by (nonlinear_arith)
            requires
                addr == align * q + addr % align,
                up == addr - addr % align + align,
        ;
        assert((align * (q + 1)) % align == 0) by (nonlinear_arith)
            requires
                align > 0,
        ;
    }
    assert forall|m: int| addr <= m && #[trigger] is_aligned(m, align) implies up <= m by {
        if m < up {
            lemma_multiples_are_spread(m, up, align);
        }
    }
}

/// An address that is aligned to `align` is aligned to every divisor of
/// `align`.
pub proof fn lemma_aligned_to_divisor(addr: int, align: int, divisor: int)
    requires
        align > 0,
        divisor > 0,
        is_aligned(addr, align),
        is_aligned(align, divisor),
    ensures
        is_aligned(addr, divisor),
{
    lemma_fundamental_div_mod(addr, align);
    lemma_fundamental_div_mod(align, divisor);
    let q = addr / align;
    let p = align / divisor;
    assert(addr == (p * q) * divisor) by (nonlinear_arith)
        requires
            addr == align * q,
            align == divisor * p,
    ;
    lemma_mod_multiples_basic(p * q, divisor);
}

/// Rounds `addr` up to the next multiple of `align`.
///
/// The result is the least multiple of `align` at or above `addr`; it must
/// be representable, which `checked_align_up` tests.
pub fn align_up(addr: usize, align: usize) -> (aligned: usize)
    requires
        align > 0,
        align_up_spec(addr as int, align as int) <= usize::MAX,
    ensures
        aligned == align_up_spec(addr as int, align as int),
        is_aligned(aligned as int, align as int),
        addr <= aligned < addr + align,
{
    proof {
        lemma_align_up_is_least(addr as int, align as int);
        lemma_mod_decreases(addr as nat, align as nat);
    }
    let remainder: usize = addr % align;
    if remainder == 0 {
        addr
    } else {
        addr - remainder + align
    }
}

/// Rounds `addr` up to the next multiple of `align`, or reports that this
/// multiple exceeds the address space.
pub fn checked_align_up(addr: usize, align: usize) -> (aligned: Option<usize>)
    requires
        align > 0,
    ensures
        match aligned {
            Some(a) => a == align_up_spec(addr as int, align as int),
            None => align_up_spec(addr as int, align as int) > usize::MAX,
        },
{
    let remainder: usize = addr % align;
    if remainder != 0 && align - remainder > usize::MAX - addr {
        None
    } else {
        Some(align_up(addr, align))
    }
}

} // verus!
