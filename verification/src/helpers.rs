//! Bit-level helpers for building and applying column masks.

use vstd::prelude::*;

use vstd::arithmetic::power2::lemma_pow2_adds;
use vstd::arithmetic::power2::lemma_pow2_pos;
use vstd::arithmetic::power2::pow2;

verus! {

/// The mask encoded by a sequence of optional values: reading the
/// sequence back to front, element `j` from the end contributes bit `j`,
/// set exactly when that element holds a value.
pub open spec fn mask_of(s: Seq<Option<i64>>) -> nat
    decreases s.len(),
{
    if s.len() == 0 {
        0
    } else {
        (if s.last() is Some {
            1nat
        } else {
            0nat
        }) + 2 * mask_of(s.drop_last())
    }
}

/// Generate a bitmask given a vector of either `Some(_)` or `None`
/// values, counting from the end: the final element decides the lowest
/// bit. A bit is set exactly when the corresponding value is present. The
/// first `skip` elements are ignored.
pub fn bitmask(vec: &Vec<Option<i64>>, skip: usize) -> (mask: i64)
    requires
        vec@.len() - skip <= 63,
    ensures
        skip <= vec@.len() ==> mask == mask_of(vec@.skip(skip as int)),
        skip > vec@.len() ==> mask == 0,
{
    let mut mask: i64 = 0;
    let mut i: usize = skip;
    if skip >= vec.len() {
        if skip == vec.len() {
            assert(vec@.skip(skip as int) =~= Seq::<Option<i64>>::empty());
        }
        return 0;
    }
    let ghost suffix = vec@.skip(skip as int);
    assert(mask == mask_of(vec@.subrange(skip as int, skip as int))) by {
        assert(vec@.subrange(skip as int, skip as int) =~= Seq::<Option<i64>>::empty());
    }
    assert(pow2(0) == 1) by {
        vstd::arithmetic::power2::lemma2_to64();
    }
    while i < vec.len()
        invariant
            skip <= i <= vec@.len(),
            vec@.len() - skip <= 63,
            suffix == vec@.skip(skip as int),
            mask == mask_of(vec@.subrange(skip as int, i as int)),
            mask < pow2((i - skip) as nat),
        decreases vec@.len() - i,
    {
        let ghost prefix = vec@.subrange(skip as int, i as int);
        let ghost next = vec@.subrange(skip as int, i + 1 as int);
        proof {
            assert(next.drop_last() =~= prefix);
            assert(next.last() == vec@[i as int]);
            lemma_pow2_adds((i - skip) as nat, 1);
            assert(pow2(1) == 2 && pow2(63) == 0x8000000000000000) by {
                vstd::arithmetic::power2::lemma2_to64();
                vstd::arithmetic::power2::lemma2_to64_rest();
            }
            lemma_pow2_pos((i - skip) as nat);
            if i + 1 - skip < 63 {
                vstd::arithmetic::power2::lemma_pow2_strictly_increases(
                    (i + 1 - skip) as nat,
                    63,
                );
            }
        }
        if vec[i].is_some() {
            mask = 2 * mask + 1;
        } else {
            mask = 2 * mask;
        }
        i = i + 1;
    }
    proof {
        assert(vec@.subrange(skip as int, vec@.len() as int) =~= suffix);
    }
    mask
}

/// The elements of `original` selected by the set bits of `mask`, lowest
/// bit first: bit `i` selects `original[idx + i]` when that position
/// exists.
pub open spec fn selected_by_mask<T>(original: Seq<T>, mask: int, idx: int) -> Seq<T>
    decreases mask when mask >= 0
{
    if mask <= 0 {
        Seq::empty()
    } else {
        (if mask % 2 == 1 && 0 <= idx < original.len() {
            seq![original[idx]]
        } else {
            Seq::empty()
        }) + selected_by_mask(original, mask / 2, idx + 1)
    }
}

/// Copy values from one vector to another using a bitmask. Only positions
/// corresponding to set bits (values of `1`) will be copied, lowest bit
/// first.
pub fn copy_using_mask<T: Copy>(original: &Vec<T>, target: &mut Vec<T>, mask: i64)
    requires
        mask >= 0,
    ensures
        final(target)@ == old(target)@ + selected_by_mask(original@, mask as int, 0),
{
    let mut bit_index: usize = 0;
    let mut current_mask = mask;

    proof {
        assert(pow2(63) == 0x8000000000000000) by {
            vstd::arithmetic::power2::lemma2_to64();
            vstd::arithmetic::power2::lemma2_to64_rest();
        }
    }
    while current_mask > 0
        invariant
            current_mask >= 0,
            bit_index <= 63,
            current_mask < pow2((63 - bit_index) as nat),
            target@ + selected_by_mask(original@, current_mask as int, bit_index as int) == old(
                target,
            )@ + selected_by_mask(original@, mask as int, 0),
        decreases current_mask,
    {
        proof {
            lemma_pow2_pos((63 - bit_index) as nat);
            if bit_index == 63 {
                assert(pow2(0) == 1) by {
                    vstd::arithmetic::power2::lemma2_to64();
                }
                assert(false);
            }
            lemma_pow2_adds((62 - bit_index) as nat, 1);
            assert(pow2(1) == 2) by {
                vstd::arithmetic::power2::lemma2_to64();
            }
        }
        let ghost pre_target = target@;
        let cm = current_mask;
        proof {
            assert((cm & 1 == 1) == (cm % 2 == 1)) by (bit_vector)
                requires
                    cm >= 0,
            ;
            assert(cm >> 1i64 == cm / 2) by (bit_vector)
                requires
                    cm >= 0,
            ;
        }
        // Check if the least significant bit of current_mask is 1.
        if current_mask & 1 == 1 {
            // Make sure the index is within the bounds of the original.
            if bit_index < original.len() {
                // Copy the element from the original to the target.
                target.push(original[bit_index]);
            }
        }

        // Shift current_mask to the right by 1 to check the next bit.
        current_mask = current_mask >> 1;
        proof {
            assert(selected_by_mask(original@, cm as int, bit_index as int) == (if cm as int % 2
                == 1 && bit_index < original@.len() {
                seq![original@[bit_index as int]]
            } else {
                Seq::empty()
            }) + selected_by_mask(original@, cm as int / 2, bit_index + 1));
            assert(target@ + selected_by_mask(original@, current_mask as int, bit_index + 1)
                =~= pre_target + selected_by_mask(original@, cm as int, bit_index as int));
        }
        bit_index = bit_index + 1;
    }
    proof {
        assert(target@ + selected_by_mask(original@, current_mask as int, bit_index as int)
            =~= target@);
    }
}

} // verus!
