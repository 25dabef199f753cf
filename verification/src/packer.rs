use crate::model::amps_of;
use crate::model::flat_groups;
use crate::model::freqs_of;
use crate::model::lemma_schedule_concat;
use crate::model::model_fits;
use crate::model::pack_inputs_valid;
use crate::model::phases_of;
use crate::model::runs_of_groups;
use crate::model::schedule_of;
use crate::model::sum_runs;
use crate::model::timings_of;
use crate::model::word_groups;
use crate::model::WaveModel;
use crate::wave::append_words;
use crate::wave::views_of;
use crate::wave::TimedWave;
use vstd::prelude::*;

verus! {

/// An append-only builder that accumulates timed waves into six parallel
/// arrays: time windows, frequency coefficients and their run lengths,
/// amplitude coefficients and their run lengths, and phases. The packer is
/// the only place mutation happens; scheduling reads a frozen
/// [`crate::pack::PackedTimedWaves`] view of these arrays.
#[derive(Debug, PartialEq)]
pub struct TimedWavePacker {
    pub timings: Vec<(i64, i64)>,
    pub freq_coef: Vec<u32>,
    pub freq_runs: Vec<u8>,
    pub amp_coef: Vec<u32>,
    pub amp_runs: Vec<u8>,
    pub phases: Vec<u32>,
}

impl TimedWavePacker {
    /// The parallel arrays agree: one run and one phase per window, and the
    /// run lengths account for the whole of each coefficient array.
    pub open spec fn wf(self) -> bool {
        &&& self.timings@.len() == self.freq_runs@.len()
        &&& self.freq_runs@.len() == self.amp_runs@.len()
        &&& self.phases@.len() == self.timings@.len()
        &&& sum_runs(self.freq_runs@, self.freq_runs@.len() as int) == self.freq_coef@.len()
        &&& sum_runs(self.amp_runs@, self.amp_runs@.len() as int) == self.amp_coef@.len()
    }

    /// The waves these arrays describe, in insertion order.
    pub open spec fn schedule(self) -> Seq<WaveModel> {
        schedule_of(
            self.timings@,
            self.freq_coef@,
            self.freq_runs@,
            self.amp_coef@,
            self.amp_runs@,
            self.phases@,
        )
    }

    /// An empty packer.
    pub fn new() -> (r: Self)
        ensures
            r.wf(),
            r.schedule() == Seq::<WaveModel>::empty(),
            r.timings@.len() == 0,
            r.freq_coef@.len() == 0,
            r.freq_runs@.len() == 0,
            r.amp_coef@.len() == 0,
            r.amp_runs@.len() == 0,
            r.phases@.len() == 0,
    {
        let r = TimedWavePacker {
            timings: Vec::new(),
            freq_coef: Vec::new(),
            freq_runs: Vec::new(),
            amp_coef: Vec::new(),
            amp_runs: Vec::new(),
            phases: Vec::new(),
        };
        proof {
            assert(r.schedule() =~= Seq::<WaveModel>::empty());
        }
        r
    }

    /// Appends each wave's window, flattens its coefficients with their
    /// lengths as run markers, and appends its phase. No single wave may
    /// carry more than 255 frequency or 255 amplitude coefficients (they are
    /// stored as one run byte each).
    pub fn extend(&mut self, waves: Vec<TimedWave>)
        requires
            forall|k: int|
                0 <= k < waves@.len() ==> (#[trigger] waves@[k])@.freq.len() <= 255 && waves@[k]@.amp.len()
                    <= 255,
        ensures
            final(self).timings@ == old(self).timings@ + timings_of(views_of(waves@)),
            final(self).freq_coef@ == old(self).freq_coef@ + flat_groups(freqs_of(views_of(waves@))),
            final(self).freq_runs@ == old(self).freq_runs@ + runs_of_groups(
                freqs_of(views_of(waves@)),
            ),
            final(self).amp_coef@ == old(self).amp_coef@ + flat_groups(amps_of(views_of(waves@))),
            final(self).amp_runs@ == old(self).amp_runs@ + runs_of_groups(
                amps_of(views_of(waves@)),
            ),
            final(self).phases@ == old(self).phases@ + phases_of(views_of(waves@)),
            old(self).wf() ==> final(self).wf() && final(self).schedule() == old(self).schedule()
                + views_of(waves@),
    {
        let ghost m = views_of(waves@);
        let mut i: usize = 0;
        while i < waves.len()
            invariant
                i <= waves@.len(),
                m == views_of(waves@),
                forall|k: int|
                    0 <= k < waves@.len() ==> (#[trigger] waves@[k])@.freq.len() <= 255
                        && waves@[k]@.amp.len() <= 255,
                self.timings@ == old(self).timings@ + timings_of(m.take(i as int)),
                self.freq_coef@ == old(self).freq_coef@ + flat_groups(freqs_of(m.take(i as int))),
                self.freq_runs@ == old(self).freq_runs@ + runs_of_groups(
                    freqs_of(m.take(i as int)),
                ),
                self.amp_coef@ == old(self).amp_coef@ + flat_groups(amps_of(m.take(i as int))),
                self.amp_runs@ == old(self).amp_runs@ + runs_of_groups(amps_of(m.take(i as int))),
                self.phases@ == old(self).phases@ + phases_of(m.take(i as int)),
            decreases waves@.len() - i,
        {
            let ghost n = i as int;
            let tw = &waves[i];
            self.timings.push((tw.start, tw.end));
            let f_len = tw.wave.freq.len() as u8;
            let a_len = tw.wave.amp.len() as u8;
            append_words(&mut self.freq_coef, &tw.wave.freq);
            append_words(&mut self.amp_coef, &tw.wave.amp);
            self.freq_runs.push(f_len);
            self.amp_runs.push(a_len);
            self.phases.push(tw.wave.phase);
            proof {
                let tn = m.take(n + 1);
                assert(tn.drop_last() =~= m.take(n));
                assert(tn.last() == m[n]);
                assert(freqs_of(tn).drop_last() =~= freqs_of(m.take(n)));
                assert(amps_of(tn).drop_last() =~= amps_of(m.take(n)));
                assert(freqs_of(tn).last() == m[n].freq);
                assert(amps_of(tn).last() == m[n].amp);
                assert(flat_groups(freqs_of(tn)) == flat_groups(freqs_of(m.take(n)))
                    + m[n].freq);
                assert(flat_groups(amps_of(tn)) == flat_groups(amps_of(m.take(n))) + m[n].amp);
                assert(self.timings@ =~= old(self).timings@ + timings_of(tn));
                assert(self.freq_coef@ =~= old(self).freq_coef@ + flat_groups(freqs_of(tn)));
                assert(self.freq_runs@ =~= old(self).freq_runs@ + runs_of_groups(freqs_of(tn)));
                assert(self.amp_coef@ =~= old(self).amp_coef@ + flat_groups(amps_of(tn)));
                assert(self.amp_runs@ =~= old(self).amp_runs@ + runs_of_groups(amps_of(tn)));
                assert(self.phases@ =~= old(self).phases@ + phases_of(tn));
            }
            i = i + 1;
        }
        proof {
            assert(m.take(waves@.len() as int) =~= m);
            if old(self).wf() {
                assert(forall|k: int| 0 <= k < m.len() ==> model_fits(#[trigger] m[k]));
                lemma_schedule_concat(
                    old(self).timings@,
                    old(self).freq_coef@,
                    old(self).freq_runs@,
                    old(self).amp_coef@,
                    old(self).amp_runs@,
                    old(self).phases@,
                    m,
                );
            }
        }
    }

    /// Builds a packer holding exactly the given waves, in order.
    pub fn from_waves(waves: Vec<TimedWave>) -> (r: Self)
        requires
            forall|k: int|
                0 <= k < waves@.len() ==> (#[trigger] waves@[k])@.freq.len() <= 255 && waves@[k]@.amp.len()
                    <= 255,
        ensures
            r.wf(),
            r.schedule() == views_of(waves@),
    {
        let mut r = Self::new();
        r.extend(waves);
        proof {
            assert(Seq::<WaveModel>::empty() + views_of(waves@) =~= views_of(waves@));
        }
        r
    }

    /// Freezes the packer's current arrays into a scheduling view; fails
    /// exactly when the parallel-array invariants do not hold: unequal array
    /// lengths, windows not sorted by start, or run lengths that do not
    /// account for a whole coefficient array.
    pub fn get_pack(&self) -> (r: Option<crate::pack::PackedTimedWaves>)
        ensures
            r is Some <==> pack_inputs_valid(
                self.timings@,
                self.freq_coef@,
                self.freq_runs@,
                self.amp_coef@,
                self.amp_runs@,
                self.phases@,
            ),
            r matches Some(p) ==> {
                &&& p.wf()
                &&& p.pos() == 0
                &&& p.schedule() == self.schedule()
            },
    {
        let mut t: Vec<(i64, i64)> = Vec::new();
        crate::wave::append_timings(&mut t, &self.timings, 0);
        let mut fc: Vec<u32> = Vec::new();
        crate::wave::append_tail_u32(&mut fc, &self.freq_coef, 0);
        let mut fr: Vec<u8> = Vec::new();
        crate::wave::append_tail_u8(&mut fr, &self.freq_runs, 0);
        let mut ac: Vec<u32> = Vec::new();
        crate::wave::append_tail_u32(&mut ac, &self.amp_coef, 0);
        let mut ar: Vec<u8> = Vec::new();
        crate::wave::append_tail_u8(&mut ar, &self.amp_runs, 0);
        let mut ph: Vec<u32> = Vec::new();
        crate::wave::append_tail_u32(&mut ph, &self.phases, 0);
        proof {
            assert(t@ =~= self.timings@);
            assert(fc@ =~= self.freq_coef@);
            assert(fr@ =~= self.freq_runs@);
            assert(ac@ =~= self.amp_coef@);
            assert(ar@ =~= self.amp_runs@);
            assert(ph@ =~= self.phases@);
        }
        crate::pack::PackedTimedWaves::new(t, fc, fr, ac, ar, ph)
    }

    /// Appends already-grouped sequences: one window, one frequency group,
    /// one amplitude group and one phase per wave, without building
    /// intermediate wave values. Groups are capped at 255 coefficients.
    pub fn bulk_generate(
        &mut self,
        timings: Vec<(i64, i64)>,
        frequencies: Vec<Vec<u32>>,
        amplitudes: Vec<Vec<u32>>,
        phases: Vec<u32>,
    )
        requires
            forall|k: int|
                0 <= k < frequencies@.len() ==> (#[trigger] frequencies@[k])@.len() <= 255,
            forall|k: int| 0 <= k < amplitudes@.len() ==> (#[trigger] amplitudes@[k])@.len() <= 255,
        ensures
            final(self).timings@ == old(self).timings@ + timings@,
            final(self).freq_coef@ == old(self).freq_coef@ + flat_groups(
                word_groups(frequencies@),
            ),
            final(self).freq_runs@ == old(self).freq_runs@ + runs_of_groups(
                word_groups(frequencies@),
            ),
            final(self).amp_coef@ == old(self).amp_coef@ + flat_groups(word_groups(amplitudes@)),
            final(self).amp_runs@ == old(self).amp_runs@ + runs_of_groups(
                word_groups(amplitudes@),
            ),
            final(self).phases@ == old(self).phases@ + phases@,
    {
        let mut i: usize = 0;
        while i < timings.len()
            invariant
                i <= timings@.len(),
                self.timings@ == old(self).timings@ + timings@.take(i as int),
                self.freq_coef@ == old(self).freq_coef@,
                self.freq_runs@ == old(self).freq_runs@,
                self.amp_coef@ == old(self).amp_coef@,
                self.amp_runs@ == old(self).amp_runs@,
                self.phases@ == old(self).phases@,
            decreases timings@.len() - i,
        {
            self.timings.push(timings[i]);
            proof {
                assert(old(self).timings@ + timings@.take(i as int + 1) =~= (old(self).timings@
                    + timings@.take(i as int)).push(timings@[i as int]));
            }
            i = i + 1;
        }
        proof {
            assert(timings@.take(timings@.len() as int) =~= timings@);
        }
        let ghost fg = word_groups(frequencies@);
        let mut i: usize = 0;
        while i < frequencies.len()
            invariant
                i <= frequencies@.len(),
                fg == word_groups(frequencies@),
                forall|k: int|
                    0 <= k < frequencies@.len() ==> (#[trigger] frequencies@[k])@.len() <= 255,
                self.timings@ == old(self).timings@ + timings@,
                self.freq_coef@ == old(self).freq_coef@ + flat_groups(fg.take(i as int)),
                self.freq_runs@ == old(self).freq_runs@ + runs_of_groups(fg.take(i as int)),
                self.amp_coef@ == old(self).amp_coef@,
                self.amp_runs@ == old(self).amp_runs@,
                self.phases@ == old(self).phases@,
            decreases frequencies@.len() - i,
        {
            let ghost n = i as int;
            let run = frequencies[i].len() as u8;
            append_words(&mut self.freq_coef, &frequencies[i]);
            self.freq_runs.push(run);
            proof {
                assert(fg.take(n + 1).drop_last() =~= fg.take(n));
                assert(fg.take(n + 1).last() == fg[n]);
                assert(self.freq_coef@ =~= old(self).freq_coef@ + flat_groups(fg.take(n + 1)));
                assert(self.freq_runs@ =~= old(self).freq_runs@ + runs_of_groups(fg.take(n + 1)));
            }
            i = i + 1;
        }
        proof {
            assert(fg.take(frequencies@.len() as int) =~= fg);
        }
        let ghost ag = word_groups(amplitudes@);
        let mut i: usize = 0;
        while i < amplitudes.len()
            invariant
                i <= amplitudes@.len(),
                ag == word_groups(amplitudes@),
                forall|k: int|
                    0 <= k < amplitudes@.len() ==> (#[trigger] amplitudes@[k])@.len() <= 255,
                self.timings@ == old(self).timings@ + timings@,
                self.freq_coef@ == old(self).freq_coef@ + flat_groups(word_groups(frequencies@)),
                self.freq_runs@ == old(self).freq_runs@ + runs_of_groups(
                    word_groups(frequencies@),
                ),
                self.amp_coef@ == old(self).amp_coef@ + flat_groups(ag.take(i as int)),
                self.amp_runs@ == old(self).amp_runs@ + runs_of_groups(ag.take(i as int)),
                self.phases@ == old(self).phases@,
            decreases amplitudes@.len() - i,
        {
            let ghost n = i as int;
            let run = amplitudes[i].len() as u8;
            append_words(&mut self.amp_coef, &amplitudes[i]);
            self.amp_runs.push(run);
            proof {
                assert(ag.take(n + 1).drop_last() =~= ag.take(n));
                assert(ag.take(n + 1).last() == ag[n]);
                assert(self.amp_coef@ =~= old(self).amp_coef@ + flat_groups(ag.take(n + 1)));
                assert(self.amp_runs@ =~= old(self).amp_runs@ + runs_of_groups(ag.take(n + 1)));
            }
            i = i + 1;
        }
        proof {
            assert(ag.take(amplitudes@.len() as int) =~= ag);
        }
        let mut i: usize = 0;
        while i < phases.len()
            invariant
                i <= phases@.len(),
                self.timings@ == old(self).timings@ + timings@,
                self.freq_coef@ == old(self).freq_coef@ + flat_groups(word_groups(frequencies@)),
                self.freq_runs@ == old(self).freq_runs@ + runs_of_groups(
                    word_groups(frequencies@),
                ),
                self.amp_coef@ == old(self).amp_coef@ + flat_groups(word_groups(amplitudes@)),
                self.amp_runs@ == old(self).amp_runs@ + runs_of_groups(word_groups(amplitudes@)),
                self.phases@ == old(self).phases@ + phases@.take(i as int),
            decreases phases@.len() - i,
        {
            self.phases.push(phases[i]);
            proof {
                assert(old(self).phases@ + phases@.take(i as int + 1) =~= (old(self).phases@
                    + phases@.take(i as int)).push(phases@[i as int]));
            }
            i = i + 1;
        }
        proof {
            assert(phases@.take(phases@.len() as int) =~= phases@);
        }
    }
}

impl Default for TimedWavePacker {
    /// Same as [`TimedWavePacker::new`]: an empty packer.
    fn default() -> (r: Self)
        ensures
            r.wf(),
            r.schedule() == Seq::<WaveModel>::empty(),
            r.timings@.len() == 0,
            r.freq_coef@.len() == 0,
            r.freq_runs@.len() == 0,
            r.amp_coef@.len() == 0,
            r.amp_runs@.len() == 0,
            r.phases@.len() == 0,
    {
        TimedWavePacker::new()
    }
}

} // verus!
