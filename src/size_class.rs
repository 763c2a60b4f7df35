use vstd::arithmetic::div_mod::lemma_mod_multiples_basic;
use vstd::arithmetic::power2::{
    lemma2_to64, lemma_pow2_adds, lemma_pow2_pos, lemma_pow2_strictly_increases, lemma_pow2_unfold,
    pow2,
};
use vstd::prelude::*;

verus! {

/// Number of entries in the size-class table.
pub const NUM_CLASSES: usize = 9;

/// Block size of the smallest class.
pub const SMALLEST_CLASS: usize = 8;

/// Block size of the largest class.
pub const LARGEST_CLASS: usize = 2048;

/// Block size of class `i`: 8, 16, 32, ... doubling up to 2048.
pub open spec fn class_size(i: nat) -> nat
    decreases i,
{
    if i == 0 {
        SMALLEST_CLASS as nat
    } else {
        2 * class_size((i - 1) as nat)
    }
}

/// A block of class `i` must hold `size` bytes aligned to `align`.
pub open spec fn class_fits(i: nat, size: nat, align: nat) -> bool {
    class_size(i) >= size && class_size(i) >= align
}

/// The index of the smallest class that fits the layout, if any.
pub open spec fn spec_class_for(size: nat, align: nat) -> Option<nat> {
    if exists|i: nat| i < NUM_CLASSES && class_fits(i, size, align) {
        Some(choose|i: nat| i < NUM_CLASSES && class_fits(i, size, align)
            && forall|j: nat| j < i ==> !class_fits(j, size, align))
    } else {
        None
    }
}

pub proof fn lemma_class_size_values()
    ensures
        class_size(0) == 8,
        class_size(1) == 16,
        class_size(2) == 32,
        class_size(3) == 64,
        class_size(4) == 128,
        class_size(5) == 256,
        class_size(6) == 512,
        class_size(7) == 1024,
        class_size(8) == 2048,
{
    reveal_with_fuel(class_size, 9);
}

/// Class sizes grow strictly with the index.
pub proof fn lemma_class_size_increasing(i: nat, j: nat)
    requires
        i < j,
    ensures
        class_size(i) < class_size(j),
    decreases j,
{
    if i + 1 < j {
        lemma_class_size_increasing(i, (j - 1) as nat);
    }
    lemma_class_size_positive((j - 1) as nat);
}

pub proof fn lemma_class_size_positive(i: nat)
    ensures
        class_size(i) >= 8,
    decreases i,
{
    if i > 0 {
        lemma_class_size_positive((i - 1) as nat);
    }
}

/// `a` is a power of two.
pub open spec fn is_power_of_two(a: nat) -> bool {
    exists|k: nat| pow2(k) == a
}

/// Class `i` holds blocks of `2^(i + 3)` bytes.
pub proof fn lemma_class_size_pow2(i: nat)
    ensures
        class_size(i) == pow2(i + 3),
    decreases i,
{
    if i == 0 {
        lemma2_to64();
    } else {
        lemma_class_size_pow2((i - 1) as nat);
        lemma_pow2_unfold(i + 3);
    }
}

/// A power of two no larger than a class size divides it, so a block
/// aligned to its size is aligned to every such power of two.
pub proof fn lemma_class_size_aligned(i: nat, a: nat)
    requires
        is_power_of_two(a),
        a <= class_size(i),
    ensures
        class_size(i) % a == 0,
{
    let k = choose|k: nat| pow2(k) == a;
    lemma_class_size_pow2(i);
    if k > i + 3 {
        lemma_pow2_strictly_increases(i + 3, k);
    }
    let d = (i + 3 - k) as nat;
    lemma_pow2_adds(d, k);
    lemma_pow2_pos(k);
    lemma_mod_multiples_basic(pow2(d) as int, a as int);
}

/// Block size of class `i` as a machine integer.
pub fn block_size(i: usize) -> (r: usize)
    requires
        i < NUM_CLASSES,
    ensures
        r as nat == class_size(i as nat),
{
    proof {
        lemma_class_size_values();
    }
    let mut r: usize = SMALLEST_CLASS;
    let mut k: usize = 0;
    while k < i
        invariant
            k <= i < NUM_CLASSES,
            r as nat == class_size(k as nat),
        decreases i - k,
    {
        proof {
            lemma_class_size_values();
        }
        r = r * 2;
        k = k + 1;
    }
    r
}

/// Picks the smallest size class whose block holds `size` bytes at
/// alignment `align`; `None` when even the largest class is too small.
pub fn class_for(size: usize, align: usize) -> (r: Option<usize>)
    ensures
        r is Some <==> (exists|i: nat| i < NUM_CLASSES && class_fits(i, size as nat, align as nat)),
        r is Some ==> ({
            let i = r->Some_0 as nat;
            &&& i < NUM_CLASSES
            &&& class_fits(i, size as nat, align as nat)
            &&& forall|j: nat| j < i ==> !class_fits(j, size as nat, align as nat)
        }),
        r is None <==> (size > LARGEST_CLASS || align > LARGEST_CLASS),
        r is Some ==> spec_class_for(size as nat, align as nat) == Some(r->Some_0 as nat),
        r is None ==> spec_class_for(size as nat, align as nat) is None,
{
    proof {
        lemma_class_size_values();
    }
    let mut i: usize = 0;
    let mut c: usize = SMALLEST_CLASS;
    while i < NUM_CLASSES
        invariant
            i <= NUM_CLASSES,
            i < NUM_CLASSES ==> c as nat == class_size(i as nat),
            forall|j: nat| j < i ==> !class_fits(j, size as nat, align as nat),
        decreases NUM_CLASSES - i,
    {
        if c >= size && c >= align {
            proof {
                let ii = i as nat;
                lemma_class_size_values();
                assert(class_fits(ii, size as nat, align as nat));
                let k = spec_class_for(size as nat, align as nat)->Some_0;
                assert(k < NUM_CLASSES && class_fits(k, size as nat, align as nat)
                    && forall|j: nat| j < k ==> !class_fits(j, size as nat, align as nat));
                if k < ii {
                } else if ii < k {
                }
                assert(k == ii);
                if ii < 8 {
                    lemma_class_size_increasing(ii, 8);
                }
            }
            return Some(i);
        }
        proof {
            lemma_class_size_values();
        }
        if i + 1 < NUM_CLASSES {
            c = c * 2;
        }
        i = i + 1;
    }
    proof {
        assert(!class_fits(8, size as nat, align as nat));
        assert forall|k: nat| k < NUM_CLASSES implies !class_fits(k, size as nat, align as nat) by {}
    }
    None
}

} // verus!
