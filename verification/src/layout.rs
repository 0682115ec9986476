//! Layout calculator: sizes one allocation that holds `cap` A-elements
//! followed, after padding, by `cap` B-elements, each column respecting its
//! element's alignment.

use vstd::prelude::*;

verus! {

use core::marker::PhantomData;
use vstd::arithmetic::div_mod::{lemma_fundamental_div_mod, lemma_mod_multiples_basic};
use vstd::arithmetic::power::pow;
use vstd::arithmetic::power2::{is_pow2, is_pow2_equiv, lemma_pow2_adds, pow2};
use vstd::layout::{align_of, layout_for_type_is_valid, size_of, valid_layout};

/// The combined allocation for the requested capacity would exceed the
/// addressable limit.
#[derive(Debug, Clone, Copy, PartialEq, Eq)]
pub struct CapacityOverflow;

/// The least multiple of `align` that is at least `x`.
pub open spec fn round_up(x: nat, align: nat) -> nat
    recommends
        align > 0,
{
    (((x + align - 1) / (align as int)) * (align as int)) as nat
}

/// Byte offset where the B array begins: the A array's `cap * size_of::<A>()`
/// bytes, rounded up to B's alignment.
pub open spec fn spec_offset_of_bbb<A, B>(cap: nat) -> nat {
    round_up(cap * size_of::<A>(), align_of::<B>())
}

/// Total size in bytes of the combined allocation for `cap` pairs.
pub open spec fn spec_total_size<A, B>(cap: nat) -> nat {
    spec_offset_of_bbb::<A, B>(cap) + cap * size_of::<B>()
}

/// Alignment of the combined allocation: the stricter of the two element
/// alignments.
pub open spec fn spec_combined_align<A, B>() -> nat {
    if align_of::<A>() >= align_of::<B>() {
        align_of::<A>()
    } else {
        align_of::<B>()
    }
}

/// Whether the combined allocation for `cap` pairs stays within the
/// addressable limit (the same bound a Rust layout must satisfy: the padded
/// size may not exceed `isize::MAX`).
pub open spec fn layout_fits<A, B>(cap: nat) -> bool {
    spec_total_size::<A, B>(cap) <= isize::MAX - (isize::MAX as int % spec_combined_align::<A, B>()
        as int)
}

/// Describes one allocation shared by two arrays of `cap` elements each: its
/// total size, its alignment, and the byte offset where the B array begins.
/// The A array begins at offset `offset_of_bbb - cap * size_of::<A>()`.
#[derive(Debug, PartialEq, Eq)]
pub struct Vec2Layout<A, B> {
    pub size: usize,
    pub align: usize,
    pub offset_of_bbb: usize,
    pub marker: PhantomData<(A, B)>,
}

impl<A, B> Vec2Layout<A, B> {
    /// The layout describes a sound allocation for `cap` pairs: both arrays
    /// fit without overlap, each respects its element's alignment, and the
    /// whole is a representable Rust layout.
    pub open spec fn valid_for(self, cap: nat) -> bool {
        &&& self.offset_of_bbb == spec_offset_of_bbb::<A, B>(cap)
        &&& self.size == spec_total_size::<A, B>(cap)
        &&& self.align == spec_combined_align::<A, B>()
        &&& valid_layout(self.size, self.align)
        &&& cap * size_of::<A>() <= self.offset_of_bbb
        &&& self.offset_of_bbb + cap * size_of::<B>() <= self.size
        &&& self.offset_of_bbb as nat % align_of::<A>() == 0
        &&& self.offset_of_bbb as nat % align_of::<B>() == 0
        &&& align_of::<A>() <= self.align
        &&& align_of::<B>() <= self.align
    }

    /// Computes the combined layout for `cap` pairs, or reports that its size
    /// would exceed the addressable limit.
    pub fn new_checked(cap: usize) -> (r: Result<Vec2Layout<A, B>, CapacityOverflow>)
        requires
            cap > 0,
        ensures
            r is Ok <==> layout_fits::<A, B>(cap as nat),
            r matches Ok(l) ==> l.valid_for(cap as nat),
    {
        layout_for_type_is_valid::<A>();
        layout_for_type_is_valid::<B>();
        let size_a: usize = core::mem::size_of::<A>();
        let align_a: usize = core::mem::align_of::<A>();
        let size_b: usize = core::mem::size_of::<B>();
        let align_b: usize = core::mem::align_of::<B>();
        let align: usize = if align_a >= align_b {
            align_a
        } else {
            align_b
        };
        let limit: u128 = (isize::MAX as u128) - ((isize::MAX as u128) % (align as u128));
        proof {
            lemma_mul_fits_u128(cap as nat, size_a as nat);
            lemma_mul_fits_u128(cap as nat, size_b as nat);
            lemma_round_up_properties(cap as nat * size_of::<A>(), align_of::<B>());
        }
        let aaa_bytes: u128 = (cap as u128) * (size_a as u128);
        if aaa_bytes > limit {
            return Err(CapacityOverflow);
        }
        let offset: u128 = ((aaa_bytes + (align_b as u128) - 1) / (align_b as u128)) * (align_b
            as u128);
        proof {
            assert(offset as nat == round_up(cap as nat * size_of::<A>(), align_of::<B>()));
        }
        let total: u128 = offset + (cap as u128) * (size_b as u128);
        if total > limit {
            Err(CapacityOverflow)
        } else {
            proof {
                lemma_offset_is_aligned::<A, B>(cap as nat);
            }
            Ok(
                Vec2Layout {
                    size: total as usize,
                    align,
                    offset_of_bbb: offset as usize,
                    marker: PhantomData,
                },
            )
        }
    }

    /// Computes the combined layout for `cap` pairs. The caller answers for
    /// the size staying within the addressable limit; `new_checked` reports
    /// the overflow instead.
    pub fn new(cap: usize) -> (l: Vec2Layout<A, B>)
        requires
            cap > 0,
            layout_fits::<A, B>(cap as nat),
        ensures
            l.valid_for(cap as nat),
    {
        match Self::new_checked(cap) {
            Ok(l) => l,
            Err(_) => vstd::pervasive::unreached(),
        }
    }
}

/// The product of two values that each fit in 64 bits fits in 128 bits.
proof fn lemma_mul_fits_u128(x: nat, y: nat)
    requires
        x <= u64::MAX,
        y <= u64::MAX,
    ensures
        x * y <= u128::MAX - 2 * (u64::MAX as nat),
{
    vstd::arithmetic::mul::lemma_mul_upper_bound(x as int, u64::MAX as int, y as int, u64::MAX
        as int);
}

/// `round_up(x, align)` is the least multiple of `align` at or above `x`.
pub proof fn lemma_round_up_properties(x: nat, align: nat)
    requires
        align > 0,
    ensures
        x <= round_up(x, align) < x + align,
        round_up(x, align) % align == 0,
{
    let q: int = (x + align - 1) / (align as int);
    lemma_fundamental_div_mod(x + align - 1, align as int);
    lemma_mod_multiples_basic(q, align as int);
    assert(q * align == align * q) by (nonlinear_arith);
}

/// Rounding a multiple of `align` changes nothing.
proof fn lemma_round_up_exact(x: nat, align: nat)
    requires
        align > 0,
        x % align == 0,
    ensures
        round_up(x, align) == x,
{
    lemma_fundamental_div_mod(x as int, align as int);
    let k: int = x as int / align as int;
    assert(x + align - 1 == align * k + (align - 1));
    assert(align * k == k * align) by (nonlinear_arith);
    assert((x + align - 1) / (align as int) == k) by {
        vstd::arithmetic::div_mod::lemma_fundamental_div_mod_converse(
            x + align - 1,
            align as int,
            k,
            align - 1,
        );
    }
    assert(k * align == align * k) by (nonlinear_arith);
}

/// Divisibility carries across a chain: if `b` divides `x` and `a` divides
/// `b`, then `a` divides `x`.
proof fn lemma_mod_zero_transitive(x: nat, b: nat, a: nat)
    requires
        a > 0,
        b > 0,
        x % b == 0,
        b % a == 0,
    ensures
        x % a == 0,
{
    lemma_fundamental_div_mod(x as int, b as int);
    lemma_fundamental_div_mod(b as int, a as int);
    let kx: int = x as int / b as int;
    let kb: int = b as int / a as int;
    assert(x == (kx * kb) * a) by (nonlinear_arith)
        requires
            x == b * kx,
            b == a * kb,
    ;
    lemma_mod_multiples_basic(kx * kb, a as int);
}

/// A multiple of a multiple of `a` is a multiple of `a`.
proof fn lemma_mul_keeps_divisibility(c: nat, y: nat, a: nat)
    requires
        a > 0,
        y % a == 0,
    ensures
        (c * y) % a == 0,
{
    if y == 0 {
        assert(c * y == 0) by (nonlinear_arith)
            requires
                y == 0,
        ;
        lemma_mod_multiples_basic(0int, a as int);
    } else {
        lemma_mod_multiples_basic(c as int, y as int);
        lemma_mod_zero_transitive(c * y, y, a);
    }
}

/// Of two powers of two, the smaller divides the larger.
proof fn lemma_pow2_divides(a: nat, b: nat)
    requires
        is_pow2(a as int),
        is_pow2(b as int),
        a <= b,
    ensures
        b % a == 0,
{
    is_pow2_equiv(a as int);
    is_pow2_equiv(b as int);
    let ea: nat = choose|e: nat| pow(2, e) == a as int;
    let eb: nat = choose|e: nat| pow(2, e) == b as int;
    vstd::arithmetic::power::lemma_pow_positive(2, ea);
    vstd::arithmetic::power::lemma_pow_increases_converse(2, ea, eb);
    lemma_pow2_adds(ea, (eb - ea) as nat);
    vstd::arithmetic::power2::lemma_pow2(ea);
    vstd::arithmetic::power2::lemma_pow2((eb - ea) as nat);
    vstd::arithmetic::power2::lemma_pow2(eb);
    lemma_mod_multiples_basic(pow2((eb - ea) as nat) as int, a as int);
    assert(pow2(ea) * pow2((eb - ea) as nat) == pow2((eb - ea) as nat) * pow2(ea))
        by (nonlinear_arith);
}

/// The B array's offset is aligned for both element types.
proof fn lemma_offset_is_aligned<A, B>(cap: nat)
    requires
        valid_layout(size_of::<A>() as usize, align_of::<A>() as usize),
        valid_layout(size_of::<B>() as usize, align_of::<B>() as usize),
        size_of::<A>() as usize == size_of::<A>(),
        align_of::<A>() as usize == align_of::<A>(),
        size_of::<B>() as usize == size_of::<B>(),
        align_of::<B>() as usize == align_of::<B>(),
        align_of::<A>() != 0,
        align_of::<B>() != 0,
        size_of::<A>() % align_of::<A>() == 0,
    ensures
        spec_offset_of_bbb::<A, B>(cap) % align_of::<A>() == 0,
        spec_offset_of_bbb::<A, B>(cap) % align_of::<B>() == 0,
        cap * size_of::<A>() <= spec_offset_of_bbb::<A, B>(cap),
{
    let sa = size_of::<A>();
    let aa = align_of::<A>();
    let ab = align_of::<B>();
    let x = cap * sa;
    lemma_round_up_properties(x, ab);
    lemma_mul_keeps_divisibility(cap, sa, aa);
    if aa <= ab {
        lemma_pow2_divides(aa, ab);
        lemma_mod_zero_transitive(round_up(x, ab), ab, aa);
    } else {
        lemma_pow2_divides(ab, aa);
        lemma_mod_zero_transitive(x, aa, ab);
        lemma_round_up_exact(x, ab);
    }
}

} // verus!
