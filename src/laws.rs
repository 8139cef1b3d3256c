use vstd::prelude::*;

use crate::cpumask::{and_bits, count_set, filled, or_bits, xor_bits};

verus! {

/// Within the capacity, a CPU just added tests as present and a CPU just
/// removed tests as absent.
pub proof fn lemma_set_then_test(s: Seq<bool>, cpu: int)
    requires
        0 <= cpu < s.len(),
    ensures
        s.update(cpu, true)[cpu],
        !s.update(cpu, false)[cpu],
        s.update(cpu, true).len() == s.len(),
        s.update(cpu, false).len() == s.len(),
{
}

/// A mask filled with `true` weighs its capacity; one filled with `false`
/// weighs nothing.
pub proof fn lemma_weight_filled(n: nat)
    ensures
        count_set(filled(n, true)) == n,
        count_set(filled(n, false)) == 0,
    decreases n,
{
    if n > 0 {
        assert(filled(n, true).drop_last() =~= filled((n - 1) as nat, true));
        assert(filled(n, false).drop_last() =~= filled((n - 1) as nat, false));
        lemma_weight_filled((n - 1) as nat);
    }
}

/// The intersection of a mask with itself is the mask.
pub proof fn lemma_and_idempotent(a: Seq<bool>)
    ensures
        and_bits(a, a) == a,
{
    assert(and_bits(a, a) =~= a);
}

/// The symmetric difference of a mask with itself is empty, of the same capacity.
pub proof fn lemma_xor_self(a: Seq<bool>)
    ensures
        xor_bits(a, a) == filled(a.len(), false),
{
    assert(xor_bits(a, a) =~= filled(a.len(), false));
}

/// Union, intersection and symmetric difference of two masks of one capacity
/// do not depend on the order of the operands.
pub proof fn lemma_ops_commute(a: Seq<bool>, b: Seq<bool>)
    requires
        a.len() == b.len(),
    ensures
        or_bits(a, b) == or_bits(b, a),
        and_bits(a, b) == and_bits(b, a),
        xor_bits(a, b) == xor_bits(b, a),
{
    assert(or_bits(a, b) =~= or_bits(b, a));
    assert(and_bits(a, b) =~= and_bits(b, a));
    assert(xor_bits(a, b) =~= xor_bits(b, a));
}

} // verus!
