use vstd::prelude::*;

use crate::cpumask::Cpumask;

verus! {

/// The indices below `k` whose entries in `s` are `true`, in ascending order.
pub open spec fn set_indices(s: Seq<bool>, k: int) -> Seq<int>
    decreases k,
{
    if k <= 0 {
        Seq::empty()
    } else {
        set_indices(s, k - 1) + if s[k - 1] {
            seq![k - 1]
        } else {
            Seq::empty()
        }
    }
}

/// A forward walk over the CPUs of a mask that it owns.
pub struct CpumaskIntoIterator {
    mask: Cpumask,
    index: usize,
}

impl CpumaskIntoIterator {
    /// The mask being walked.
    pub closed spec fn bits(&self) -> Seq<bool> {
        self.mask@
    }

    /// The next index to look at.
    pub closed spec fn position(&self) -> nat {
        self.index as nat
    }

    pub closed spec fn wf(&self) -> bool {
        self.mask.wf()
    }

    /// The next CPU of the mask at or after the current position, or `None`
    /// once none is left.
    pub fn next(&mut self) -> (r: Option<usize>)
        requires
            old(self).wf(),
        ensures
            final(self).wf(),
            final(self).bits() == old(self).bits(),
            r matches Some(j) ==> {
                &&& old(self).position() <= j < old(self).bits().len()
                &&& old(self).bits()[j as int]
                &&& forall|k: int|
                    old(self).position() <= k < j ==> !#[trigger] old(self).bits()[k]
                &&& final(self).position() == j + 1
            },
            r is None ==> {
                &&& forall|k: int|
                    old(self).position() <= k < old(self).bits().len() ==> !#[trigger] old(
                        self,
                    ).bits()[k]
                &&& final(self).position() == if old(self).position() < old(self).bits().len() {
                    old(self).bits().len()
                } else {
                    old(self).position()
                }
            },
    {
        let n = self.mask.len();
        let ghost start = self.index;
        while self.index < n
            invariant
                self.mask.wf(),
                n == self.mask@.len(),
                self.mask == old(self).mask,
                start == old(self).index,
                start <= self.index,
                start < n ==> self.index <= n,
                start >= n ==> self.index == start,
                forall|k: int| start <= k < self.index ==> !#[trigger] self.mask@[k],
            decreases n - self.index,
        {
            let index = self.index;
            self.index = self.index + 1;
            if self.mask.test_cpu(index) {
                return Some(index);
            }
        }
        None
    }
}

impl Cpumask {
    /// Hands the mask to a walk over its CPUs, starting at CPU 0.
    pub fn into_iter(self) -> (r: CpumaskIntoIterator)
        requires
            self.wf(),
        ensures
            r.wf(),
            r.bits() == self@,
            r.position() == 0,
    {
        CpumaskIntoIterator { mask: self, index: 0 }
    }

    /// The CPUs of the mask in ascending order, leaving the mask in place.
    pub fn cpus(&self) -> (r: Vec<usize>)
        requires
            self.wf(),
        ensures
            r@.map_values(|c: usize| c as int) == set_indices(self@, self@.len() as int),
    {
        let n = self.len();
        let mut out: Vec<usize> = Vec::new();
        let mut i: usize = 0;
        while i < n
            invariant
                self.wf(),
                n == self@.len(),
                i <= n,
                out@.map_values(|c: usize| c as int) == set_indices(self@, i as int),
            decreases n - i,
        {
            let ghost before = out@;
            if self.test_cpu(i) {
                out.push(i);
                proof {
                    assert(out@.map_values(|c: usize| c as int) =~= before.map_values(
                        |c: usize| c as int,
                    ) + seq![i as int]);
                }
            } else {
                proof {
                    assert(set_indices(self@, i + 1) =~= set_indices(self@, i as int));
                }
            }
            i = i + 1;
        }
        out
    }
}

} // verus!
