use crate::model::group_of;
use crate::model::lemma_sum_runs_mono;
use crate::model::sum_runs;
use crate::wave::copy_range;
use vstd::prelude::*;

verus! {

/// Reinterprets one flat coefficient array plus a parallel run-length array
/// as a sequence of independent coefficient groups, one per run. The decoding
/// cursor is single-pass: each call to [`MultiPoly::next`] consumes one run.
#[derive(Debug)]
pub struct MultiPoly {
    pub(crate) coeffs: Vec<u32>,
    pub(crate) run_lengths: Vec<u8>,
    pub(crate) coeff_pos: usize,
    pub(crate) run_pos: usize,
}

impl MultiPoly {
    /// The whole flat coefficient array, decoded and not.
    pub closed spec fn coeffs_seq(self) -> Seq<u32> {
        self.coeffs@
    }

    /// The whole run-length array.
    pub closed spec fn runs_seq(self) -> Seq<u8> {
        self.run_lengths@
    }

    /// How many runs have been decoded so far.
    pub closed spec fn pos(self) -> int {
        self.run_pos as int
    }

    /// The run lengths account for the whole coefficient array, and the
    /// coefficient cursor stands exactly at the end of the decoded runs.
    pub closed spec fn wf(self) -> bool {
        &&& self.run_pos <= self.run_lengths@.len()
        &&& self.coeff_pos as int == sum_runs(self.run_lengths@, self.run_pos as int)
        &&& self.coeffs@.len() == sum_runs(self.run_lengths@, self.run_lengths@.len() as int)
    }

    /// Ties the abstract decoder state to its concrete fields, for the
    /// scheduler that embeds a decoder and reads its arrays.
    pub(crate) proof fn lemma_fields(self)
        ensures
            self.coeffs_seq() == self.coeffs@,
            self.runs_seq() == self.run_lengths@,
            self.pos() == self.run_pos as int,
            self.wf() ==> self.run_pos <= self.run_lengths@.len() && self.coeff_pos as int
                == sum_runs(self.run_lengths@, self.run_pos as int) && self.coeffs@.len()
                == sum_runs(self.run_lengths@, self.run_lengths@.len() as int),
    {
    }

    /// Builds a decoder over `coeffs` grouped by `run_lengths`; fails exactly
    /// when the run lengths do not sum to the length of `coeffs`.
    pub fn new(coeffs: Vec<u32>, run_lengths: Vec<u8>) -> (r: Option<MultiPoly>)
        ensures
            r is Some <==> sum_runs(run_lengths@, run_lengths@.len() as int) == coeffs@.len(),
            r matches Some(m) ==> {
                &&& m.coeffs_seq() == coeffs@
                &&& m.runs_seq() == run_lengths@
                &&& m.pos() == 0
                &&& m.wf()
            },
    {
        let mut total: u128 = 0;
        let mut i: usize = 0;
        while i < run_lengths.len()
            invariant
                i <= run_lengths@.len(),
                total as int == sum_runs(run_lengths@, i as int),
                total as int <= 255 * (i as int),
            decreases run_lengths@.len() - i,
        {
            total = total + (run_lengths[i] as u128);
            i = i + 1;
        }
        if total == coeffs.len() as u128 {
            Some(MultiPoly { coeffs, run_lengths, coeff_pos: 0, run_pos: 0 })
        } else {
            None
        }
    }

    /// Decodes the next coefficient group, advancing the cursor past it;
    /// yields nothing once every run has been consumed.
    pub fn next(&mut self) -> (r: Option<Vec<u32>>)
        requires
            old(self).wf(),
        ensures
            final(self).wf(),
            final(self).coeffs_seq() == old(self).coeffs_seq(),
            final(self).runs_seq() == old(self).runs_seq(),
            old(self).pos() < old(self).runs_seq().len() ==> {
                &&& r matches Some(v) && v@ == group_of(
                    old(self).coeffs_seq(),
                    old(self).runs_seq(),
                    old(self).pos(),
                )
                &&& final(self).pos() == old(self).pos() + 1
            },
            old(self).pos() >= old(self).runs_seq().len() ==> r is None && *final(self) == *old(
                self,
            ),
    {
        if self.run_pos < self.run_lengths.len() {
            let n = self.run_lengths[self.run_pos] as usize;
            let cl = self.coeffs.len();
            proof {
                assert(sum_runs(self.run_lengths@, self.run_pos as int + 1) == self.coeff_pos
                    + n);
                lemma_sum_runs_mono(
                    self.run_lengths@,
                    self.run_pos as int + 1,
                    self.run_lengths@.len() as int,
                );
            }
            let v = copy_range(&self.coeffs, self.coeff_pos, n);
            self.coeff_pos = self.coeff_pos + n;
            self.run_pos = self.run_pos + 1;
            Some(v)
        } else {
            None
        }
    }
}

} // verus!
