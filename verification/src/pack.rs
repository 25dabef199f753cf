use crate::model::amps_of;
use crate::model::flat_groups;
use crate::model::freqs_of;
use crate::model::groups_of_arrays;
use crate::model::keep_live;
use crate::model::lemma_schedule_concat;
use crate::model::lemma_schedule_fits;
use crate::model::lemma_schedule_skip;
use crate::model::lemma_sum_runs_mono;
use crate::model::lemma_timings_sorted_from_adjacent;
use crate::model::lemma_unflatten;
use crate::model::min_end_from;
use crate::model::min_i;
use crate::model::model_fits;
use crate::model::pack_inputs_valid;
use crate::model::phases_of;
use crate::model::runs_of_groups;
use crate::model::schedule_of;
use crate::model::sum_runs;
use crate::model::timings_of;
use crate::model::timings_sorted;
use crate::model::WaveModel;
use crate::multipoly::MultiPoly;
use crate::packer::TimedWavePacker;
use crate::wave::views_of;
use crate::wave::TimedWave;
use crate::wave::Wave;
use vstd::prelude::*;

verus! {

/// A read-only scheduling view over a packer's arrays. It scans the time
/// windows in order, decodes per-wave polynomials on demand, and computes how
/// far playback may proceed before the live set must change. The cursor only
/// moves forward: a wave handed out by the scan is never handed out again.
#[derive(Debug)]
pub struct PackedTimedWaves {
    timings: Vec<(i64, i64)>,
    t_pos: usize,
    frequencies: MultiPoly,
    amplitudes: MultiPoly,
    phases: Vec<u32>,
}

impl PackedTimedWaves {
    /// Every wave these arrays describe, scanned and not, in packing order.
    pub closed spec fn schedule(self) -> Seq<WaveModel> {
        schedule_of(
            self.timings@,
            self.frequencies.coeffs_seq(),
            self.frequencies.runs_seq(),
            self.amplitudes.coeffs_seq(),
            self.amplitudes.runs_seq(),
            self.phases@,
        )
    }

    /// How many waves the scan has already handed out.
    pub closed spec fn pos(self) -> int {
        self.t_pos as int
    }

    /// The construction invariant: parallel arrays agree, windows are sorted
    /// by start, and the three cursors move in lockstep.
    pub closed spec fn wf(self) -> bool {
        &&& self.frequencies.wf()
        &&& self.amplitudes.wf()
        &&& self.timings@.len() == self.frequencies.runs_seq().len()
        &&& self.frequencies.runs_seq().len() == self.amplitudes.runs_seq().len()
        &&& self.phases@.len() == self.timings@.len()
        &&& self.t_pos as int == self.frequencies.pos()
        &&& self.t_pos as int == self.amplitudes.pos()
        &&& self.t_pos <= self.timings@.len()
        &&& timings_sorted(self.timings@)
    }

    /// Facts a well-formed view gives about its schedule: the cursor is in
    /// range, starts are sorted, and every wave fits back into a packing.
    pub proof fn lemma_wf_facts(self)
        requires
            self.wf(),
        ensures
            0 <= self.pos() <= self.schedule().len(),
            forall|i: int, j: int|
                0 <= i <= j < self.schedule().len() ==> (#[trigger] self.schedule()[i]).start <= (
                #[trigger] self.schedule()[j]).start,
            forall|i: int|
                0 <= i < self.schedule().len() ==> model_fits(#[trigger] self.schedule()[i]),
    {
        self.frequencies.lemma_fields();
        self.amplitudes.lemma_fields();
        lemma_schedule_fits(
            self.timings@,
            self.frequencies.coeffs_seq(),
            self.frequencies.runs_seq(),
            self.amplitudes.coeffs_seq(),
            self.amplitudes.runs_seq(),
            self.phases@,
        );
    }

    /// Builds the scheduling view; fails exactly when the parallel arrays
    /// disagree in length, the windows are not sorted by start, or a
    /// run-length array does not account for its coefficient array.
    pub fn new(
        timings: Vec<(i64, i64)>,
        frequency_coef: Vec<u32>,
        frequency_runs: Vec<u8>,
        amplitude_coef: Vec<u32>,
        amplitude_runs: Vec<u8>,
        phases: Vec<u32>,
    ) -> (r: Option<Self>)
        ensures
            r is Some <==> pack_inputs_valid(
                timings@,
                frequency_coef@,
                frequency_runs@,
                amplitude_coef@,
                amplitude_runs@,
                phases@,
            ),
            r matches Some(p) ==> {
                &&& p.wf()
                &&& p.pos() == 0
                &&& p.schedule() == schedule_of(
                    timings@,
                    frequency_coef@,
                    frequency_runs@,
                    amplitude_coef@,
                    amplitude_runs@,
                    phases@,
                )
            },
    {
        if timings.len() != frequency_runs.len() {
            return None;
        }
        if frequency_runs.len() != amplitude_runs.len() {
            return None;
        }
        if phases.len() != timings.len() {
            return None;
        }
        let n_windows = timings.len();
        let mut i: usize = 0;
        while i + 1 < n_windows
            invariant
                n_windows == timings@.len(),
                i <= n_windows,
                n_windows > 0 ==> i < n_windows,
                n_windows == 0 ==> i == 0,
                forall|k: int| 0 <= k < i ==> (#[trigger] timings@[k]).0 <= timings@[k + 1].0,
            decreases timings@.len() - i,
        {
            if timings[i].0 > timings[i + 1].0 {
                assert(!timings_sorted(timings@));
                return None;
            }
            i = i + 1;
        }
        proof {
            assert forall|a: int, b: int| 0 <= a <= b < timings@.len() implies (
            #[trigger] timings@[a]).0 <= (#[trigger] timings@[b]).0 by {
                lemma_timings_sorted_from_adjacent(timings@, a, b);
            }
        }
        let frequencies = match MultiPoly::new(frequency_coef, frequency_runs) {
            Some(m) => m,
            None => {
                return None;
            },
        };
        let amplitudes = match MultiPoly::new(amplitude_coef, amplitude_runs) {
            Some(m) => m,
            None => {
                return None;
            },
        };
        Some(PackedTimedWaves { timings, t_pos: 0, frequencies, amplitudes, phases })
    }

    /// Hands out every not-yet-scanned wave whose start is at or before
    /// `last_time`, in packing order, advancing the cursor past them; stops
    /// at the first wave that starts later, leaving it for the next call.
    pub fn sample(&mut self, last_time: i64) -> (r: Vec<TimedWave>)
        requires
            old(self).wf(),
        ensures
            final(self).wf(),
            final(self).schedule() == old(self).schedule(),
            old(self).pos() <= final(self).pos() <= old(self).schedule().len(),
            views_of(r@) == old(self).schedule().subrange(old(self).pos(), final(self).pos()),
            forall|i: int|
                old(self).pos() <= i < final(self).pos() ==> (
                #[trigger] old(self).schedule()[i]).start <= last_time,
            final(self).pos() < old(self).schedule().len() ==> old(self).schedule()[final(self).pos()].start > last_time,
    {
        let ghost sched = old(self).schedule();
        let ghost p0 = old(self).pos();
        let mut r: Vec<TimedWave> = Vec::new();
        proof {
            assert(views_of(r@) =~= sched.subrange(p0, p0));
        }
        while self.t_pos < self.timings.len() && self.timings[self.t_pos].0 <= last_time
            invariant
                self.wf(),
                self.schedule() == sched,
                sched.len() == self.timings@.len(),
                0 <= p0 <= self.t_pos as int <= sched.len(),
                views_of(r@) == sched.subrange(p0, self.t_pos as int),
                forall|i: int| p0 <= i < self.t_pos as int ==> (#[trigger] sched[i]).start
                    <= last_time,
            decreases self.timings@.len() - self.t_pos,
        {
            let ghost n = self.t_pos as int;
            let window = self.timings[self.t_pos];
            let ph = self.phases[self.t_pos];
            let fv = self.frequencies.next().unwrap();
            let av = self.amplitudes.next().unwrap();
            let tw = TimedWave {
                start: window.0,
                end: window.1,
                wave: Wave { freq: fv, amp: av, phase: ph },
            };
            proof {
                assert(tw@ =~= sched[n]);
            }
            let ghost rv = r@;
            r.push(tw);
            self.t_pos = self.t_pos + 1;
            proof {
                assert(r@.len() == rv.len() + 1);
                assert(views_of(rv) == sched.subrange(p0, n));
                assert(views_of(rv).len() == rv.len());
                assert(views_of(rv).len() == sched.subrange(p0, n).len());
                assert(rv.len() == n - p0);
                assert forall|k: int| 0 <= k < views_of(r@).len() implies views_of(r@)[k]
                    == sched.subrange(p0, n + 1)[k] by {
                    assert(views_of(r@)[k] == r@[k]@);
                    assert(sched.subrange(p0, n + 1)[k] == sched[p0 + k]);
                    if k < rv.len() {
                        assert(r@[k] == rv[k]);
                        assert(views_of(rv)[k] == rv[k]@);
                        assert(views_of(rv)[k] == sched.subrange(p0, n)[k]);
                        assert(sched.subrange(p0, n)[k] == sched[p0 + k]);
                    } else {
                        assert(k == n - p0);
                        assert(r@[k] == tw);
                        assert(tw@ == sched[n]);
                    }
                }
                assert(views_of(r@) =~= sched.subrange(p0, n + 1));
            }
        }
        r
    }

    /// Folds the remaining schedule, behind the given live set, back into a
    /// fresh owned packer: the packer holds the live waves first, then every
    /// wave the scan never reached, in order. One-shot: consumes the view.
    pub fn unravel(self, current_store: Vec<TimedWave>) -> (r: TimedWavePacker)
        requires
            self.wf(),
            forall|k: int|
                0 <= k < current_store@.len() ==> (#[trigger] current_store@[k])@.freq.len() <= 255
                    && current_store@[k]@.amp.len() <= 255,
        ensures
            r.wf(),
            r.schedule() == views_of(current_store@) + self.schedule().skip(self.pos()),
    {
        let ghost live = views_of(current_store@);
        let ghost rest = self.schedule().skip(self.pos());
        let ghost fc = self.frequencies.coeffs_seq();
        let ghost fr = self.frequencies.runs_seq();
        let ghost ac = self.amplitudes.coeffs_seq();
        let ghost ar = self.amplitudes.runs_seq();
        let ghost p = self.pos();
        let mut packer = TimedWavePacker::new();
        packer.extend(current_store);
        proof {
            self.frequencies.lemma_fields();
            self.amplitudes.lemma_fields();
            assert(Seq::<WaveModel>::empty() + live =~= live);
            assert(packer.schedule() == live);
            lemma_schedule_skip(self.timings@, fc, fr, ac, ar, self.phases@, p);
            lemma_schedule_fits(self.timings@, fc, fr, ac, ar, self.phases@);
            lemma_sum_runs_mono(fr, 0, p);
            lemma_sum_runs_mono(fr, p, fr.len() as int);
            lemma_sum_runs_mono(ar, 0, p);
            lemma_sum_runs_mono(ar, p, ar.len() as int);
        }
        crate::wave::append_timings(&mut packer.timings, &self.timings, self.t_pos);
        crate::wave::append_tail_u32(
            &mut packer.freq_coef,
            &self.frequencies.coeffs,
            self.frequencies.coeff_pos,
        );
        crate::wave::append_tail_u8(
            &mut packer.freq_runs,
            &self.frequencies.run_lengths,
            self.frequencies.run_pos,
        );
        crate::wave::append_tail_u32(
            &mut packer.amp_coef,
            &self.amplitudes.coeffs,
            self.amplitudes.coeff_pos,
        );
        crate::wave::append_tail_u8(
            &mut packer.amp_runs,
            &self.amplitudes.run_lengths,
            self.amplitudes.run_pos,
        );
        crate::wave::append_tail_u32(&mut packer.phases, &self.phases, self.t_pos);
        proof {
            let cf0 = sum_runs(fr, p);
            let ca0 = sum_runs(ar, p);
            // The tail arrays describe exactly the unscanned waves.
            assert(schedule_of(
                self.timings@.skip(p),
                fc.skip(cf0),
                fr.skip(p),
                ac.skip(ca0),
                ar.skip(p),
                self.phases@.skip(p),
            ) == rest);
            lemma_unflatten(fc.skip(cf0), fr.skip(p));
            lemma_unflatten(ac.skip(ca0), ar.skip(p));
            assert(freqs_of(rest) =~= groups_of_arrays(fc.skip(cf0), fr.skip(p)));
            assert(amps_of(rest) =~= groups_of_arrays(ac.skip(ca0), ar.skip(p)));
            assert(timings_of(rest) =~= self.timings@.skip(p));
            assert(phases_of(rest) =~= self.phases@.skip(p));
            assert(forall|k: int| 0 <= k < rest.len() ==> model_fits(#[trigger] rest[k]));
            lemma_schedule_concat(
                timings_of(live),
                flat_groups(freqs_of(live)),
                runs_of_groups(freqs_of(live)),
                flat_groups(amps_of(live)),
                runs_of_groups(amps_of(live)),
                phases_of(live),
                rest,
            );
        }
        packer
    }

    /// One scheduling step. Retires expired live waves, then: if the
    /// caller's horizon is already exhausted (`time >= wakeup_time`), consumes
    /// this view and hands back the trimmed live set and all unscanned waves
    /// re-serialized into a fresh packer; otherwise pulls every newly started
    /// wave into the live set and returns it together with the next pause:
    /// the soonest of the next death, the next birth, and the horizon.
    pub fn deposit_current(
        &mut self,
        current_store: Vec<TimedWave>,
        time: i64,
        wakeup_time: i64,
    ) -> (r: Result<(Vec<TimedWave>, i64), TimedWavePacker>)
        requires
            old(self).wf(),
            forall|k: int|
                0 <= k < current_store@.len() ==> (#[trigger] current_store@[k])@.freq.len() <= 255
                    && current_store@[k]@.amp.len() <= 255,
        ensures
            r is Err <==> time >= wakeup_time,
            r matches Err(p) ==> {
                &&& p.wf()
                &&& p.schedule() == keep_live(views_of(current_store@), time as int) + old(self).schedule().skip(old(self).pos())
                &&& final(self).wf()
                &&& final(self).schedule() == Seq::<WaveModel>::empty()
                &&& final(self).pos() == 0
            },
            r matches Ok(pair) ==> {
                &&& final(self).wf()
                &&& final(self).schedule() == old(self).schedule()
                &&& old(self).pos() <= final(self).pos() <= old(self).schedule().len()
                &&& views_of(pair.0@) == keep_live(views_of(current_store@), time as int) + old(self).schedule().subrange(old(self).pos(), final(self).pos())
                &&& forall|i: int|
                    old(self).pos() <= i < final(self).pos() ==> (
                    #[trigger] old(self).schedule()[i]).start <= time
                &&& final(self).pos() < old(self).schedule().len() ==> old(self).schedule()[final(self).pos()].start > time
                &&& pair.1 as int == min_i(
                    min_end_from(views_of(pair.0@), wakeup_time as int),
                    if final(self).pos() < old(self).schedule().len() {
                        old(self).schedule()[final(self).pos()].start
                    } else {
                        wakeup_time as int
                    },
                )
                &&& forall|k: int|
                    0 <= k < pair.0@.len() ==> (#[trigger] pair.0@[k])@.freq.len() <= 255
                        && pair.0@[k]@.amp.len() <= 255
            },
    {
        let ghost cs = views_of(current_store@);
        // Retire: drop every live wave whose window has closed.
        let mut retained: Vec<TimedWave> = Vec::new();
        let mut i: usize = 0;
        while i < current_store.len()
            invariant
                i <= current_store@.len(),
                cs == views_of(current_store@),
                views_of(retained@) == keep_live(cs.take(i as int), time as int),
                forall|k: int|
                    0 <= k < current_store@.len() ==> (#[trigger] current_store@[k])@.freq.len()
                        <= 255 && current_store@[k]@.amp.len() <= 255,
                forall|k: int|
                    0 <= k < retained@.len() ==> (#[trigger] retained@[k])@.freq.len() <= 255
                        && retained@[k]@.amp.len() <= 255,
            decreases current_store@.len() - i,
        {
            let ghost n = i as int;
            proof {
                assert(cs.take(n + 1).drop_last() =~= cs.take(n));
                assert(cs.take(n + 1).last() == cs[n]);
            }
            if current_store[i].end > time {
                retained.push(current_store[i].clone());
            }
            proof {
                assert(views_of(retained@) =~= keep_live(cs.take(n + 1), time as int));
            }
            i = i + 1;
        }
        proof {
            assert(cs.take(cs.len() as int) =~= cs);
        }
        // Horizon exhausted: consume this view and hand the remaining
        // schedule back as a fresh packer.
        if time >= wakeup_time {
            let mut captured = PackedTimedWaves::default();
            core::mem::swap(self, &mut captured);
            return Err(captured.unravel(retained));
        }
        // Birth: pull in every newly started wave.
        let mut born = self.sample(time);
        let ghost sched = old(self).schedule();
        let ghost p0 = old(self).pos();
        let ghost p1 = self.pos();
        proof {
            old(self).lemma_wf_facts();
            assert(views_of(born@) == sched.subrange(p0, p1));
            assert(p0 <= p1 <= sched.len());
            assert(born@.len() == p1 - p0);
            assert forall|k: int| 0 <= k < born@.len() implies (#[trigger] born@[k])@.freq.len()
                <= 255 && born@[k]@.amp.len() <= 255 by {
                assert(views_of(born@)[k] == sched[p0 + k]);
            }
        }
        retained.append(&mut born);
        proof {
            assert(views_of(retained@) =~= keep_live(cs, time as int) + sched.subrange(p0, p1));
        }
        // Next safe run length: the soonest death or birth, capped by the
        // caller's horizon.
        let ghost c = views_of(retained@);
        let mut kill: i64 = wakeup_time;
        let mut j: usize = 0;
        while j < retained.len()
            invariant
                j <= retained@.len(),
                c == views_of(retained@),
                kill as int == min_end_from(c.take(j as int), wakeup_time as int),
            decreases retained@.len() - j,
        {
            let ghost n = j as int;
            proof {
                assert(c.take(n + 1).drop_last() =~= c.take(n));
                assert(c.take(n + 1).last() == c[n]);
            }
            if retained[j].end < kill {
                kill = retained[j].end;
            }
            j = j + 1;
        }
        proof {
            assert(c.take(c.len() as int) =~= c);
        }
        let birth: i64 = if self.t_pos < self.timings.len() {
            self.timings[self.t_pos].0
        } else {
            wakeup_time
        };
        let next_pause: i64 = if kill <= birth {
            kill
        } else {
            birth
        };
        Ok((retained, next_pause))
    }
}

impl Default for PackedTimedWaves {
    /// The empty view: nothing scheduled, nothing scanned.
    fn default() -> (r: Self)
        ensures
            r.wf(),
            r.pos() == 0,
            r.schedule() == Seq::<WaveModel>::empty(),
    {
        let r = PackedTimedWaves::new(
            Vec::new(),
            Vec::new(),
            Vec::new(),
            Vec::new(),
            Vec::new(),
            Vec::new(),
        ).unwrap();
        proof {
            assert(r.schedule() =~= Seq::<WaveModel>::empty());
        }
        r
    }
}

} // verus!
