use vstd::prelude::*;

verus! {

/// Whether bit `b` (counting from the least significant) of `w` is set.
pub open spec fn bit_of(w: u64, b: u64) -> bool {
    (w >> b) & 1u64 == 1u64
}

/// Whether bit `b` of the byte `x` is set.
pub open spec fn bit_of_byte(x: u8, b: u8) -> bool {
    (x >> b) & 1u8 == 1u8
}

pub proof fn lemma_bit_set(w: u64, b: u64, j: u64)
    requires
        b < 64,
        j < 64,
    ensures
        bit_of(w | (1u64 << b), j) == (j == b || bit_of(w, j)),
{
    assert(((w | (1u64 << b)) >> j) & 1u64 == 1u64 <==> (j == b || (w >> j) & 1u64 == 1u64))
        by (bit_vector)
        requires
            b < 64,
            j < 64,
    ;
}

pub proof fn lemma_bit_clear(w: u64, b: u64, j: u64)
    requires
        b < 64,
        j < 64,
    ensures
        bit_of(w & !(1u64 << b), j) == (j != b && bit_of(w, j)),
{
    assert(((w & !(1u64 << b)) >> j) & 1u64 == 1u64 <==> (j != b && (w >> j) & 1u64 == 1u64))
        by (bit_vector)
        requires
            b < 64,
            j < 64,
    ;
}

pub proof fn lemma_bit_ops(x: u64, y: u64, j: u64)
    requires
        j < 64,
    ensures
        bit_of(x | y, j) == (bit_of(x, j) || bit_of(y, j)),
        bit_of(x & y, j) == (bit_of(x, j) && bit_of(y, j)),
        bit_of(x ^ y, j) == (bit_of(x, j) != bit_of(y, j)),
{
    assert(((x | y) >> j) & 1u64 == 1u64 <==> ((x >> j) & 1u64 == 1u64 || (y >> j) & 1u64
        == 1u64)) by (bit_vector)
        requires
            j < 64,
    ;
    assert(((x & y) >> j) & 1u64 == 1u64 <==> ((x >> j) & 1u64 == 1u64 && (y >> j) & 1u64
        == 1u64)) by (bit_vector)
        requires
            j < 64,
    ;
    assert(((x ^ y) >> j) & 1u64 == 1u64 <==> ((x >> j) & 1u64 == 1u64 != ((y >> j) & 1u64
        == 1u64))) by (bit_vector)
        requires
            j < 64,
    ;
}

pub proof fn lemma_bit_constants(j: u64)
    requires
        j < 64,
    ensures
        !bit_of(0u64, j),
        bit_of(0xffff_ffff_ffff_ffffu64, j),
{
    assert(!((0u64 >> j) & 1u64 == 1u64)) by (bit_vector);
    assert((0xffff_ffff_ffff_ffffu64 >> j) & 1u64 == 1u64) by (bit_vector)
        requires
            j < 64,
    ;
}

/// The word whose low `k` bits are set and whose other bits are clear.
pub proof fn lemma_bit_low(k: u64, j: u64)
    requires
        0 < k < 64,
        j < 64,
    ensures
        bit_of(0xffff_ffff_ffff_ffffu64 >> ((64 - k) as u64), j) == (j < k),
{
    assert(((0xffff_ffff_ffff_ffffu64 >> ((64u64 - k) as u64)) >> j) & 1u64 == 1u64 <==> j < k)
        by (bit_vector)
        requires
            0 < k < 64,
            j < 64,
    ;
}

} // verus!
