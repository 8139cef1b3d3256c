use vstd::prelude::*;

use crate::bits::{bit_of, lemma_bit_clear, lemma_bit_constants, lemma_bit_low, lemma_bit_ops, lemma_bit_set};

verus! {

/// The ways an operation on a mask can fail.
#[derive(Debug, Clone, Copy, PartialEq, Eq)]
pub enum CpumaskError {
    /// The host's number of possible CPUs could not be obtained.
    ProviderError,
    /// A hexadecimal mask was malformed or named a CPU beyond the capacity.
    ParseError,
    /// A CPU index at or beyond the capacity was handed to a mutator.
    OutOfRange,
    /// Two masks of different capacities were combined.
    CapacityMismatch,
}

/// Number of 64-bit words that hold `n` bits.
pub open spec fn words_len(n: nat) -> nat {
    if n % 64 == 0 {
        n / 64
    } else {
        n / 64 + 1
    }
}

/// The bits `0..n` that the words `w` hold, bit `i` being bit `i % 64` of word `i / 64`.
pub open spec fn words_model(w: Seq<u64>, n: nat) -> Seq<bool> {
    Seq::new(n, |i: int| bit_of(w[i / 64], (i % 64) as u64))
}

/// `w` has exactly the words that `n` bits need, and every bit past `n` is clear.
pub open spec fn words_wf(w: Seq<u64>, n: nat) -> bool {
    &&& w.len() == words_len(n)
    &&& forall|i: int| n <= i < w.len() * 64 ==> !bit_of(#[trigger] w[i / 64], (i % 64) as u64)
}

/// Number of `true` entries of `s`.
pub open spec fn count_set(s: Seq<bool>) -> nat
    decreases s.len(),
{
    if s.len() == 0 {
        0
    } else {
        count_set(s.drop_last()) + if s.last() {
            1nat
        } else {
            0nat
        }
    }
}

/// The mask of `n` bits that are all `value`.
pub open spec fn filled(n: nat, value: bool) -> Seq<bool> {
    Seq::new(n, |i: int| value)
}

pub open spec fn or_bits(a: Seq<bool>, b: Seq<bool>) -> Seq<bool> {
    Seq::new(a.len(), |i: int| a[i] || b[i])
}

pub open spec fn and_bits(a: Seq<bool>, b: Seq<bool>) -> Seq<bool> {
    Seq::new(a.len(), |i: int| a[i] && b[i])
}

pub open spec fn xor_bits(a: Seq<bool>, b: Seq<bool>) -> Seq<bool> {
    Seq::new(a.len(), |i: int| a[i] != b[i])
}

/// A bitwise operation between two masks.
#[derive(Debug, Clone, Copy, PartialEq, Eq)]
enum BitOp {
    Or,
    And,
    Xor,
}

spec fn op_bool(op: BitOp, x: bool, y: bool) -> bool {
    match op {
        BitOp::Or => x || y,
        BitOp::And => x && y,
        BitOp::Xor => x != y,
    }
}

spec fn op_word(op: BitOp, x: u64, y: u64) -> u64 {
    match op {
        BitOp::Or => x | y,
        BitOp::And => x & y,
        BitOp::Xor => x ^ y,
    }
}

spec fn op_bits(op: BitOp, a: Seq<bool>, b: Seq<bool>) -> Seq<bool> {
    match op {
        BitOp::Or => or_bits(a, b),
        BitOp::And => and_bits(a, b),
        BitOp::Xor => xor_bits(a, b),
    }
}

/// A set of CPUs `0..capacity`, held as 64-bit words, CPU `i` at bit `i % 64`
/// of word `i / 64`.
#[derive(Debug, Clone, PartialEq, Eq)]
pub struct Cpumask {
    mask: Vec<u64>,
    nr_cpus: usize,
}

impl View for Cpumask {
    type V = Seq<bool>;

    closed spec fn view(&self) -> Seq<bool> {
        words_model(self.mask@, self.nr_cpus as nat)
    }
}

proof fn lemma_div_mod_64(i: int)
    requires
        0 <= i,
    ensures
        i == (i / 64) * 64 + i % 64,
        0 <= i % 64 < 64,
{
}

proof fn lemma_same_position(i: int, j: int)
    requires
        0 <= i,
        0 <= j,
        i / 64 == j / 64,
        i % 64 == j % 64,
    ensures
        i == j,
{
    lemma_div_mod_64(i);
    lemma_div_mod_64(j);
}

proof fn lemma_index_in_words(i: int, n: nat)
    requires
        0 <= i < n,
    ensures
        i / 64 < words_len(n),
{
    lemma_div_mod_64(i);
    lemma_div_mod_64(n as int);
}

impl Cpumask {
    /// The words are as many as the capacity needs and no bit past it is set.
    pub closed spec fn wf(&self) -> bool {
        words_wf(self.mask@, self.nr_cpus as nat)
    }

    /// Builds an empty mask of `nr_cpus` CPUs.
    pub fn new(nr_cpus: usize) -> (r: Cpumask)
        ensures
            r.wf(),
            r@ == filled(nr_cpus as nat, false),
    {
        let k: usize = if nr_cpus % 64 == 0 {
            nr_cpus / 64
        } else {
            nr_cpus / 64 + 1
        };
        let mask: Vec<u64> = vec![0u64; k];
        let r = Cpumask { mask, nr_cpus };
        proof {
            assert forall|i: int| 0 <= i < r.mask@.len() * 64 implies !bit_of(
                #[trigger] r.mask@[i / 64],
                (i % 64) as u64,
            ) by {
                lemma_div_mod_64(i);
                lemma_bit_constants((i % 64) as u64);
            }
            assert forall|i: int| 0 <= i < nr_cpus implies !r@[i] by {
                lemma_index_in_words(i, nr_cpus as nat);
                lemma_div_mod_64(i);
                lemma_bit_constants((i % 64) as u64);
            }
            assert(r@ =~= filled(nr_cpus as nat, false));
        }
        r
    }

    /// The capacity of the mask.
    pub fn len(&self) -> (r: usize)
        ensures
            r == self@.len(),
    {
        self.nr_cpus
    }

    /// Whether `cpu` is in the mask; `false` for a CPU beyond the capacity.
    pub fn test_cpu(&self, cpu: usize) -> (r: bool)
        requires
            self.wf(),
        ensures
            r == (cpu < self@.len() && self@[cpu as int]),
    {
        if cpu >= self.nr_cpus {
            return false;
        }
        proof {
            lemma_index_in_words(cpu as int, self.nr_cpus as nat);
        }
        let w = self.mask[cpu / 64];
        (w >> ((cpu % 64) as u64)) & 1u64 == 1u64
    }

    fn check_cpu(&self, cpu: usize) -> (r: Result<(), CpumaskError>)
        ensures
            r == (if cpu < self@.len() {
                Ok(())
            } else {
                Err(CpumaskError::OutOfRange)
            }),
    {
        if cpu >= self.nr_cpus {
            return Err(CpumaskError::OutOfRange);
        }
        Ok(())
    }

    /// Writes `value` at `cpu`, which lies within the capacity.
    pub(crate) fn write_cpu(&mut self, cpu: usize, value: bool)
        requires
            old(self).wf(),
            cpu < old(self)@.len(),
        ensures
            final(self).wf(),
            final(self)@ == old(self)@.update(cpu as int, value),
    {
        proof {
            lemma_index_in_words(cpu as int, self.nr_cpus as nat);
        }
        let ghost pre = self.mask@;
        let k = cpu / 64;
        let b = (cpu % 64) as u64;
        let w = self.mask[k];
        let nw = if value {
            w | (1u64 << b)
        } else {
            w & !(1u64 << b)
        };
        self.mask.set(k, nw);
        proof {
            assert forall|i: int| 0 <= i < pre.len() * 64 implies bit_of(
                #[trigger] self.mask@[i / 64],
                (i % 64) as u64,
            ) == if i == cpu {
                value
            } else {
                bit_of(pre[i / 64], (i % 64) as u64)
            } by {
                lemma_div_mod_64(i);
                if i / 64 == k {
                    if value {
                        lemma_bit_set(w, b, (i % 64) as u64);
                    } else {
                        lemma_bit_clear(w, b, (i % 64) as u64);
                    }
                    if i % 64 == b {
                        lemma_same_position(i, cpu as int);
                    }
                }
            }
            assert forall|i: int| 0 <= i < self.nr_cpus implies self@[i] == old(self)@.update(
                cpu as int,
                value,
            )[i] by {
                lemma_index_in_words(i, self.nr_cpus as nat);
                assert(bit_of(self.mask@[i / 64], (i % 64) as u64) == if i == cpu {
                    value
                } else {
                    bit_of(pre[i / 64], (i % 64) as u64)
                });
            }
            assert(self@ =~= old(self)@.update(cpu as int, value));
        }
    }

    /// Adds `cpu` to the mask; fails with `OutOfRange` beyond the capacity.
    pub fn set_cpu(&mut self, cpu: usize) -> (r: Result<(), CpumaskError>)
        requires
            old(self).wf(),
        ensures
            final(self).wf(),
            r is Ok <==> cpu < old(self)@.len(),
            r is Ok ==> final(self)@ == old(self)@.update(cpu as int, true),
            r is Err ==> r == Err::<(), CpumaskError>(CpumaskError::OutOfRange) && *final(self)
                == *old(self),
    {
        self.check_cpu(cpu)?;
        self.write_cpu(cpu, true);
        Ok(())
    }

    /// Removes `cpu` from the mask; fails with `OutOfRange` beyond the capacity.
    pub fn clear_cpu(&mut self, cpu: usize) -> (r: Result<(), CpumaskError>)
        requires
            old(self).wf(),
        ensures
            final(self).wf(),
            r is Ok <==> cpu < old(self)@.len(),
            r is Ok ==> final(self)@ == old(self)@.update(cpu as int, false),
            r is Err ==> r == Err::<(), CpumaskError>(CpumaskError::OutOfRange) && *final(self)
                == *old(self),
    {
        self.check_cpu(cpu)?;
        self.write_cpu(cpu, false);
        Ok(())
    }
    /// Number of CPUs in the mask.
    pub fn weight(&self) -> (r: usize)
        requires
            self.wf(),
        ensures
            r == count_set(self@),
    {
        let mut count: usize = 0;
        let mut i: usize = 0;
        while i < self.nr_cpus
            invariant
                self.wf(),
                i <= self@.len(),
                count <= i,
                count == count_set(self@.subrange(0, i as int)),
            decreases self@.len() - i,
        {
            let bit = self.test_cpu(i);
            proof {
                assert(self@.subrange(0, i + 1).drop_last() =~= self@.subrange(0, i as int));
            }
            if bit {
                count = count + 1;
            }
            i = i + 1;
        }
        proof {
            assert(self@.subrange(0, i as int) =~= self@);
        }
        count
    }

    /// Sets every CPU of the mask to `value`, a word at a time.
    fn fill(&mut self, value: bool)
        requires
            old(self).wf(),
        ensures
            final(self).wf(),
            final(self)@ == filled(old(self)@.len(), value),
    {
        let n = self.nr_cpus;
        let len = self.mask.len();
        let rem = (n % 64) as u64;
        let mut k: usize = 0;
        while k < len
            invariant
                len == self.mask@.len(),
                len == words_len(n as nat),
                n == self.nr_cpus,
                rem == n % 64,
                k <= len,
                forall|i: int|
                    0 <= i < k * 64 ==> bit_of(#[trigger] self.mask@[i / 64], (i % 64) as u64)
                        == (value && i < n),
            decreases len - k,
        {
            let w: u64 = if !value {
                0u64
            } else if k + 1 == len && rem != 0 {
                0xffff_ffff_ffff_ffffu64 >> (64 - rem)
            } else {
                0xffff_ffff_ffff_ffffu64
            };
            let ghost pre = self.mask@;
            self.mask.set(k, w);
            proof {
                assert forall|i: int| 0 <= i < (k + 1) * 64 implies bit_of(
                    #[trigger] self.mask@[i / 64],
                    (i % 64) as u64,
                ) == (value && i < n) by {
                    lemma_div_mod_64(i);
                    lemma_div_mod_64(n as int);
                    if i / 64 == k {
                        lemma_bit_constants((i % 64) as u64);
                        if value && k + 1 == len && rem != 0 {
                            lemma_bit_low(rem, (i % 64) as u64);
                        }
                    } else {
                        assert(i < k * 64);
                        assert(self.mask@[i / 64] == pre[i / 64]);
                    }
                }
            }
            k = k + 1;
        }
        proof {
            assert forall|i: int| n <= i < self.mask@.len() * 64 implies !bit_of(
                #[trigger] self.mask@[i / 64],
                (i % 64) as u64,
            ) by {}
            assert forall|i: int| 0 <= i < n implies self@[i] == filled(n as nat, value)[i] by {
                lemma_index_in_words(i, n as nat);
                lemma_div_mod_64(i);
            }
            assert(self@ =~= filled(n as nat, value));
        }
    }

    /// Adds every CPU within the capacity to the mask.
    pub fn setall(&mut self)
        requires
            old(self).wf(),
        ensures
            final(self).wf(),
            final(self)@ == filled(old(self)@.len(), true),
    {
        self.fill(true);
    }

    /// Removes every CPU from the mask.
    pub fn clear(&mut self)
        requires
            old(self).wf(),
        ensures
            final(self).wf(),
            final(self)@ == filled(old(self)@.len(), false),
    {
        self.fill(false);
    }
    /// The word-wise combination of two masks of one capacity.
    fn combine(&self, other: &Cpumask, op: BitOp) -> (r: Result<Cpumask, CpumaskError>)
        requires
            self.wf(),
            other.wf(),
        ensures
            r is Ok <==> self@.len() == other@.len(),
            r is Err ==> r == Err::<Cpumask, CpumaskError>(CpumaskError::CapacityMismatch),
            r matches Ok(m) ==> m.wf() && m@ == op_bits(op, self@, other@),
    {
        if self.nr_cpus != other.nr_cpus {
            return Err(CpumaskError::CapacityMismatch);
        }
        let len = self.mask.len();
        let mut words: Vec<u64> = Vec::with_capacity(len);
        let mut k: usize = 0;
        while k < len
            invariant
                self.wf(),
                other.wf(),
                self.nr_cpus == other.nr_cpus,
                len == self.mask@.len(),
                len == other.mask@.len(),
                k <= len,
                words@.len() == k,
                forall|j: int|
                    0 <= j < k ==> #[trigger] words@[j] == op_word(
                        op,
                        self.mask@[j],
                        other.mask@[j],
                    ),
            decreases len - k,
        {
            let a = self.mask[k];
            let b = other.mask[k];
            let w = match op {
                BitOp::Or => a | b,
                BitOp::And => a & b,
                BitOp::Xor => a ^ b,
            };
            words.push(w);
            k = k + 1;
        }
        let m = Cpumask { mask: words, nr_cpus: self.nr_cpus };
        proof {
            let n = self.nr_cpus as nat;
            assert forall|i: int| 0 <= i < len * 64 implies bit_of(
                #[trigger] m.mask@[i / 64],
                (i % 64) as u64,
            ) == op_bool(
                op,
                bit_of(self.mask@[i / 64], (i % 64) as u64),
                bit_of(other.mask@[i / 64], (i % 64) as u64),
            ) by {
                lemma_div_mod_64(i);
                lemma_bit_ops(self.mask@[i / 64], other.mask@[i / 64], (i % 64) as u64);
            }
            assert forall|i: int| n <= i < m.mask@.len() * 64 implies !bit_of(
                #[trigger] m.mask@[i / 64],
                (i % 64) as u64,
            ) by {
                assert(!bit_of(self.mask@[i / 64], (i % 64) as u64));
                assert(!bit_of(other.mask@[i / 64], (i % 64) as u64));
            }
            assert forall|i: int| 0 <= i < n implies m@[i] == op_bits(op, self@, other@)[i] by {
                lemma_index_in_words(i, n);
                lemma_div_mod_64(i);
            }
            assert(m@ =~= op_bits(op, self@, other@));
        }
        Ok(m)
    }

    /// The union of two masks of one capacity; `CapacityMismatch` otherwise.
    pub fn or(&self, other: &Cpumask) -> (r: Result<Cpumask, CpumaskError>)
        requires
            self.wf(),
            other.wf(),
        ensures
            r is Ok <==> self@.len() == other@.len(),
            r is Err ==> r == Err::<Cpumask, CpumaskError>(CpumaskError::CapacityMismatch),
            r matches Ok(m) ==> m.wf() && m@ == or_bits(self@, other@),
    {
        self.combine(other, BitOp::Or)
    }

    /// The intersection of two masks of one capacity; `CapacityMismatch` otherwise.
    pub fn and(&self, other: &Cpumask) -> (r: Result<Cpumask, CpumaskError>)
        requires
            self.wf(),
            other.wf(),
        ensures
            r is Ok <==> self@.len() == other@.len(),
            r is Err ==> r == Err::<Cpumask, CpumaskError>(CpumaskError::CapacityMismatch),
            r matches Ok(m) ==> m.wf() && m@ == and_bits(self@, other@),
    {
        self.combine(other, BitOp::And)
    }

    /// The symmetric difference of two masks of one capacity; `CapacityMismatch` otherwise.
    pub fn xor(&self, other: &Cpumask) -> (r: Result<Cpumask, CpumaskError>)
        requires
            self.wf(),
            other.wf(),
        ensures
            r is Ok <==> self@.len() == other@.len(),
            r is Err ==> r == Err::<Cpumask, CpumaskError>(CpumaskError::CapacityMismatch),
            r matches Ok(m) ==> m.wf() && m@ == xor_bits(self@, other@),
    {
        self.combine(other, BitOp::Xor)
    }

    /// The words that hold the mask, as a slice.
    pub fn as_raw_slice(&self) -> (r: &[u64])
        requires
            self.wf(),
        ensures
            words_wf(r@, self@.len()),
            words_model(r@, self@.len()) == self@,
    {
        self.mask.as_slice()
    }

    /// The vector of words that holds the mask.
    pub fn as_raw_bitvec(&self) -> (r: &Vec<u64>)
        requires
            self.wf(),
        ensures
            words_wf(r@, self@.len()),
            words_model(r@, self@.len()) == self@,
    {
        &self.mask
    }
    /// The vector of words that holds the mask, for writing. What is written
    /// through it is not held to the capacity.
    pub fn as_raw_bitvec_mut(&mut self) -> (r: &mut Vec<u64>)
        requires
            old(self).wf(),
        ensures
            words_wf(r@, old(self)@.len()),
            words_model(r@, old(self)@.len()) == old(self)@,
    {
        &mut self.mask
    }
}

} // verus!
