use crate::laws::lemma_live_set_exact;
use crate::laws::lemma_span_exact;
use crate::laws::lemma_exhausted_schedule;
use crate::model::keep_live;
use crate::model::lemma_keep_live_compose;
use crate::model::lemma_keep_live_ends;
use crate::model::lemma_keep_live_pointwise;
use crate::model::lemma_min_end_gt;
use crate::model::lemma_min_end_le_ends;
use crate::model::lemma_min_end_le_init;
use crate::model::live_at;
use crate::model::model_fits;
use crate::model::timings_sorted;
use crate::model::WaveModel;
use crate::pack::PackedTimedWaves;
use crate::packer::TimedWavePacker;
use crate::wave::clone_waves;
use crate::wave::views_of;
use crate::wave::TimedWave;
use vstd::prelude::*;

verus! {

/// One run of playback: starting at sample index `start_time`, the next
/// `count` output samples are each the sum of the evaluations of exactly the
/// waves in `waves`, at the sample's absolute time index. Turning a segment
/// into numbers is the caller's numeric work; the engine guarantees which
/// waves contribute to which sample.
#[derive(Debug)]
pub struct PlaySegment {
    pub start_time: i64,
    pub count: usize,
    pub waves: Vec<TimedWave>,
}

/// Total number of samples covered by a sequence of segments.
pub open spec fn total_count(segs: Seq<PlaySegment>) -> int
    decreases segs.len(),
{
    if segs.len() == 0 {
        0
    } else {
        total_count(segs.drop_last()) + segs.last().count
    }
}

/// The segments tile one contiguous span of sample indices starting at `t0`.
pub open spec fn contiguous_from(segs: Seq<PlaySegment>, t0: int) -> bool
    decreases segs.len(),
{
    if segs.len() == 0 {
        true
    } else {
        &&& contiguous_from(segs.drop_last(), t0)
        &&& segs.last().start_time == t0 + total_count(segs.drop_last())
    }
}

/// Sample accuracy: every sample index of every segment is covered by
/// exactly the waves of the schedule whose window contains that index.
pub open spec fn segments_exact(segs: Seq<PlaySegment>, sched: Seq<WaveModel>) -> bool {
    forall|k: int, t: int|
        #![trigger segs[k], live_at(sched, t)]
        0 <= k < segs.len() && segs[k].start_time <= t < segs[k].start_time + segs[k].count
            ==> views_of(segs[k].waves@) == live_at(sched, t)
}

/// Owns the playback position, the horizon, and the current live-wave set,
/// and plans buffer fills: it repeatedly asks the pack how far playback may
/// proceed, and emits one [`PlaySegment`] per safe run.
#[derive(Debug)]
pub struct Player {
    pack: PackedTimedWaves,
    time: i64,
    wakeup: i64,
    current: Vec<TimedWave>,
}

impl Player {
    pub closed spec fn pack_spec(self) -> PackedTimedWaves {
        self.pack
    }

    pub closed spec fn time_spec(self) -> int {
        self.time as int
    }

    pub closed spec fn wakeup_spec(self) -> int {
        self.wakeup as int
    }

    /// The models of the live waves carried between calls.
    pub closed spec fn live_spec(self) -> Seq<WaveModel> {
        views_of(self.current@)
    }

    /// A playable session: the pack is well formed; every wave not yet
    /// scanned has a non-empty window that has not already closed; every
    /// scanned wave has started; and the carried live set agrees, at every
    /// present or future time, with the unexpired part of the scanned prefix.
    pub open spec fn inv(self) -> bool {
        let sched = self.pack_spec().schedule();
        let pos = self.pack_spec().pos();
        &&& self.pack_spec().wf()
        &&& forall|i: int|
            pos <= i < sched.len() ==> (#[trigger] sched[i]).start < sched[i].end && sched[i].end
                > self.time_spec()
        &&& forall|i: int| 0 <= i < pos ==> (#[trigger] sched[i]).start <= self.time_spec()
        &&& forall|t: int|
            t >= self.time_spec() ==> #[trigger] keep_live(self.live_spec(), t) == keep_live(
                sched.take(pos),
                t,
            )
        &&& forall|k: int|
            0 <= k < self.live_spec().len() ==> (#[trigger] self.live_spec()[k]).freq.len() <= 255
                && self.live_spec()[k].amp.len() <= 255 && self.live_spec()[k].start
                < self.live_spec()[k].end
    }

    /// A player over an unscanned pack with an empty live set is a playable
    /// session, as long as every scheduled wave has a non-empty window that
    /// has not already closed at the starting time.
    pub proof fn lemma_fresh_session(self)
        requires
            self.pack_spec().wf(),
            self.pack_spec().pos() == 0,
            self.live_spec() == Seq::<WaveModel>::empty(),
            forall|i: int|
                0 <= i < self.pack_spec().schedule().len() ==> (#[trigger] self.pack_spec(
                ).schedule()[i]).start < self.pack_spec().schedule()[i].end && self.pack_spec(
                ).schedule()[i].end > self.time_spec(),
        ensures
            self.inv(),
    {
        let sched = self.pack_spec().schedule();
        assert forall|t: int| t >= self.time_spec() implies #[trigger] keep_live(
            self.live_spec(),
            t,
        ) == keep_live(sched.take(0), t) by {
            assert(sched.take(0) =~= Seq::<WaveModel>::empty());
        }
    }

    /// A fresh session over `pack`, starting at `time` with horizon `wakeup`
    /// and an empty live set.
    pub fn new(pack: PackedTimedWaves, time: i64, wakeup: i64) -> (r: Self)
        ensures
            r.pack_spec() == pack,
            r.time_spec() == time as int,
            r.wakeup_spec() == wakeup as int,
            r.live_spec() == Seq::<WaveModel>::empty(),
    {
        let r = Player { pack, time, wakeup, current: Vec::new() };
        proof {
            assert(r.live_spec() =~= Seq::<WaveModel>::empty());
        }
        r
    }

    /// The absolute sample cursor.
    pub fn current_time(&self) -> (r: i64)
        ensures
            r as int == self.time_spec(),
    {
        self.time
    }

    /// Plans the next `buffer_len` output samples as contiguous segments,
    /// advancing the cursor past them. Succeeds exactly when the horizon
    /// covers the whole buffer; otherwise fails after planning the samples up
    /// to the horizon, handing back the remaining schedule re-serialized into
    /// a fresh packer for a later session, together with the segments planned
    /// before exhaustion (the rest of the buffer is untouched).
    pub fn play(&mut self, buffer_len: usize) -> (r: Result<
        Vec<PlaySegment>,
        (TimedWavePacker, Vec<PlaySegment>),
    >)
        requires
            old(self).inv(),
        ensures
            r is Err <==> old(self).time_spec() >= old(self).wakeup_spec() || old(self).time_spec()
                + buffer_len > old(self).wakeup_spec(),
            final(self).inv(),
            final(self).wakeup_spec() == old(self).wakeup_spec(),
            r matches Ok(segs) ==> {
                &&& final(self).time_spec() == old(self).time_spec() + buffer_len
                &&& final(self).pack_spec().schedule() == old(self).pack_spec().schedule()
                &&& total_count(segs@) == buffer_len
                &&& contiguous_from(segs@, old(self).time_spec())
                &&& segments_exact(segs@, old(self).pack_spec().schedule())
            },
            r matches Err(pr) ==> {
                &&& final(self).time_spec() == (if old(self).time_spec() >= old(self).wakeup_spec() {
                    old(self).time_spec()
                } else {
                    old(self).wakeup_spec()
                })
                &&& total_count(pr.1@) == final(self).time_spec() - old(self).time_spec()
                &&& contiguous_from(pr.1@, old(self).time_spec())
                &&& segments_exact(pr.1@, old(self).pack_spec().schedule())
                &&& final(self).live_spec() == Seq::<WaveModel>::empty()
                &&& pr.0.wf()
                &&& timings_sorted(pr.0.timings@)
                &&& forall|t2: int|
                    t2 < final(self).time_spec() || #[trigger] live_at(pr.0.schedule(), t2)
                        == live_at(old(self).pack_spec().schedule(), t2)
                &&& forall|k: int|
                    0 <= k < pr.0.schedule().len() ==> (#[trigger] pr.0.schedule()[k]).start
                        < pr.0.schedule()[k].end && pr.0.schedule()[k].end > final(self).time_spec()
            },
    {
        let ghost sched = old(self).pack.schedule();
        let ghost t0 = old(self).time as int;
        let mut segs: Vec<PlaySegment> = Vec::new();
        let mut remaining: usize = buffer_len;
        let mut current: Vec<TimedWave> = Vec::new();
        core::mem::swap(&mut self.current, &mut current);
        proof {
            self.pack.lemma_wf_facts();
            assert(views_of(current@) == old(self).live_spec());
            assert(segs@.len() == 0);
            assert forall|t: int| t >= self.time as int implies #[trigger] keep_live(
                views_of(current@),
                t,
            ) == keep_live(sched.take(self.pack.pos()), t) by {
                assert(keep_live(old(self).live_spec(), t) == keep_live(
                    sched.take(old(self).pack_spec().pos()),
                    t,
                ));
            }
            assert forall|k: int| 0 <= k < current@.len() implies ((
            #[trigger] current@[k])@.freq.len() <= 255 && current@[k]@.amp.len() <= 255
                && current@[k]@.start < current@[k]@.end) by {
                assert(old(self).live_spec()[k] == current@[k]@);
            }
        }
        loop
            invariant
                self.wakeup == old(self).wakeup,
                self.pack.wf(),
                self.pack.schedule() == sched,
                sched == old(self).pack.schedule(),
                t0 == old(self).time as int,
                self.current@.len() == 0,
                0 <= self.pack.pos() <= sched.len(),
                forall|i: int, j: int|
                    0 <= i <= j < sched.len() ==> (#[trigger] sched[i]).start <= (
                    #[trigger] sched[j]).start,
                forall|i: int| 0 <= i < sched.len() ==> model_fits(#[trigger] sched[i]),
                forall|i: int|
                    self.pack.pos() <= i < sched.len() ==> (#[trigger] sched[i]).start
                        < sched[i].end && sched[i].end > self.time as int,
                forall|i: int|
                    0 <= i < self.pack.pos() ==> (#[trigger] sched[i]).start <= self.time as int,
                forall|t: int|
                    t >= self.time as int ==> #[trigger] keep_live(views_of(current@), t)
                        == keep_live(sched.take(self.pack.pos()), t),
                forall|k: int|
                    0 <= k < current@.len() ==> (#[trigger] current@[k])@.freq.len() <= 255
                        && current@[k]@.amp.len() <= 255 && current@[k]@.start < current@[k]@.end,
                remaining <= buffer_len,
                remaining > 0 || remaining == buffer_len,
                self.time as int == t0 + (buffer_len - remaining),
                total_count(segs@) == buffer_len - remaining,
                contiguous_from(segs@, t0),
                segments_exact(segs@, sched),
                remaining < buffer_len ==> t0 < self.wakeup as int && self.time as int
                    <= self.wakeup as int,
            decreases remaining,
        {
            let ghost p0 = self.pack.pos();
            let ghost cur0 = views_of(current@);
            let ghost t_dep = self.time as int;
            let ghost w = self.wakeup as int;
            proof {
                assert forall|i: int| 0 <= i < cur0.len() implies ((
                #[trigger] cur0[i]).freq.len() <= 255 && cur0[i].amp.len() <= 255 && cur0[i].start
                    < cur0[i].end) by {
                    assert(cur0[i] == current@[i]@);
                }
            }
            let deposit = self.pack.deposit_current(current, self.time, self.wakeup);
            match deposit {
                Ok(pair) => {
                    let c = pair.0;
                    let next_pause: i64 = pair.1;
                    let ghost p1 = self.pack.pos();
                    let ghost cv = views_of(c@);
                    let ghost np = next_pause as int;
                    proof {
                        // The deposited live set is exactly the active set.
                        assert(keep_live(cur0, t_dep) == keep_live(sched.take(p0), t_dep));
                        assert forall|i: int| p1 <= i < sched.len() implies (
                        #[trigger] sched[i]).start > t_dep by {
                            if p1 < sched.len() {
                                assert(sched[p1].start <= sched[i].start);
                            }
                        }
                        lemma_live_set_exact(sched, p0, p1, cur0, t_dep);
                        assert(cv == live_at(sched, t_dep));
                        assert(cv == keep_live(sched.take(p1), t_dep));
                        // Everything in the live set fits and is non-empty.
                        lemma_keep_live_pointwise(
                            cur0,
                            t_dep,
                            |x: WaveModel| x.freq.len() <= 255 && x.amp.len() <= 255 && x.start
                                < x.end,
                        );
                        assert forall|k: int| 0 <= k < cv.len() implies (
                        #[trigger] cv[k]).freq.len() <= 255 && cv[k].amp.len() <= 255 && cv[k].start
                            < cv[k].end by {
                            let kept = keep_live(cur0, t_dep);
                            if k >= kept.len() {
                                assert(cv[k] == sched.subrange(p0, p1)[k - kept.len()]);
                                assert(cv[k] == sched[p0 + (k - kept.len())]);
                                assert(model_fits(sched[p0 + (k - kept.len())]));
                            } else {
                                assert(cv[k] == kept[k]);
                            }
                        }
                        // The live set stays open strictly past the deposit time.
                        lemma_keep_live_ends(cur0, t_dep);
                        assert forall|k: int| 0 <= k < cv.len() implies (#[trigger] cv[k]).end
                            > t_dep by {
                            let kept = keep_live(cur0, t_dep);
                            if k >= kept.len() {
                                assert(cv[k] == sched[p0 + (k - kept.len())]);
                            } else {
                                assert(cv[k] == kept[k]);
                            }
                        }
                        // The next pause lies strictly ahead and at or before
                        // every live death, the next birth, and the horizon.
                        lemma_min_end_gt(cv, w, t_dep);
                        lemma_min_end_le_init(cv, w);
                        lemma_min_end_le_ends(cv, w);
                        assert(np > t_dep);
                        assert(np <= w);
                        assert(forall|k: int| 0 <= k < cv.len() ==> np <= (#[trigger] cv[k]).end);
                        assert forall|i: int| p1 <= i < sched.len() implies np <= (
                        #[trigger] sched[i]).start by {
                            assert(sched[p1].start <= sched[i].start);
                        }
                    }
                    let span_wide: i128 = (next_pause as i128) - (self.time as i128);
                    let cut: usize = if (remaining as i128) <= span_wide {
                        remaining
                    } else {
                        proof {
                            assert(0 <= span_wide < remaining as i128);
                        }
                        span_wide as usize
                    };
                    proof {
                        assert(cut as int <= np - t_dep);
                        assert(cut <= remaining);
                    }
                    let start_time = self.time;
                    let ghost segs0 = segs@;
                    if cut > 0 {
                        let seg_waves = clone_waves(&c);
                        segs.push(PlaySegment { start_time, count: cut, waves: seg_waves });
                        proof {
                            assert(segs@.drop_last() =~= segs0);
                            assert(segs@.last().start_time == t_dep);
                            assert(segs@.last().count == cut as int);
                            assert(total_count(segs@) == buffer_len - remaining + cut);
                            assert forall|k: int, t: int|
                                #![trigger segs@[k], live_at(sched, t)]
                                0 <= k < segs@.len() && segs@[k].start_time <= t < segs@[
                                    k
                                ].start_time + segs@[k].count implies views_of(segs@[k].waves@)
                                == live_at(sched, t) by {
                                if k < segs0.len() {
                                    assert(segs@[k] == segs0[k]);
                                } else {
                                    assert(segs@[k] == segs@.last());
                                    assert(t_dep <= t < t_dep + cut);
                                    assert(forall|k2: int|
                                        0 <= k2 < cv.len() ==> (#[trigger] cv[k2]).end > t);
                                    assert forall|i: int| p1 <= i < sched.len() implies (
                                    #[trigger] sched[i]).start > t by {
                                        assert(np <= sched[i].start);
                                    }
                                    lemma_span_exact(sched, p1, cv, t_dep, t);
                                    assert(views_of(segs@[k].waves@) == cv);
                                }
                            }
                        }
                    }
                    let new_time_wide: i128 = (self.time as i128) + (cut as i128);
                    proof {
                        assert(t_dep <= new_time_wide as int <= np);
                    }
                    self.time = new_time_wide as i64;
                    remaining = remaining - cut;
                    current = c;
                    proof {
                        // Re-establish the session invariant at the new time.
                        let t_new = self.time as int;
                        assert(views_of(current@) == cv);
                        assert forall|t: int| t >= t_new implies #[trigger] keep_live(
                            views_of(current@),
                            t,
                        ) == keep_live(sched.take(p1), t) by {
                            lemma_keep_live_compose(sched.take(p1), t_dep, t);
                        }
                        assert forall|i: int| p1 <= i < sched.len() implies (
                        #[trigger] sched[i]).start < sched[i].end && sched[i].end > t_new by {
                            assert(np <= sched[i].start);
                        }
                        assert forall|k: int| 0 <= k < current@.len() implies ((
                        #[trigger] current@[k])@.freq.len() <= 255 && current@[k]@.amp.len() <= 255
                            && current@[k]@.start < current@[k]@.end) by {
                            assert(current@[k]@ == cv[k]);
                        }
                    }
                    if remaining == 0 {
                        core::mem::swap(&mut self.current, &mut current);
                        proof {
                            let t_new = self.time as int;
                            assert(t_new <= np <= self.wakeup as int);
                            assert(t0 < w);
                            assert(t0 + buffer_len <= w);
                            assert(self.live_spec() == cv);
                            assert forall|t: int| t >= self.time_spec() implies #[trigger] keep_live(
                                self.live_spec(),
                                t,
                            ) == keep_live(sched.take(self.pack.pos()), t) by {
                                lemma_keep_live_compose(sched.take(p1), t_dep, t);
                            }
                        }
                        return Ok(segs);
                    }
                },
                Err(packer) => {
                    proof {
                        let te = self.time as int;
                        let kept = keep_live(cur0, te);
                        assert(packer.schedule() == kept + sched.skip(p0));
                        lemma_exhausted_schedule(sched, p0, cur0, te);
                        // Every remaining wave is non-empty and still open.
                        lemma_keep_live_ends(cur0, te);
                        lemma_keep_live_pointwise(cur0, te, |x: WaveModel| x.start < x.end);
                        assert forall|k: int| 0 <= k < packer.schedule().len() implies (
                        #[trigger] packer.schedule()[k]).start < packer.schedule()[k].end
                            && packer.schedule()[k].end > te by {
                            if k < kept.len() {
                                assert(packer.schedule()[k] == kept[k]);
                            } else {
                                assert(packer.schedule()[k] == sched.skip(p0)[k - kept.len()]);
                                assert(packer.schedule()[k] == sched[p0 + (k - kept.len())]);
                            }
                        }
                        // The packer's windows are sorted, so a new view can be built.
                        assert(packer.schedule().len() == packer.timings@.len());
                        assert forall|a: int, b: int|
                            0 <= a <= b < packer.timings@.len() implies (
                        #[trigger] packer.timings@[a]).0 <= (#[trigger] packer.timings@[b]).0 by {
                            assert(packer.schedule()[a].start <= packer.schedule()[b].start);
                            assert(packer.schedule()[a].start == packer.timings@[a].0 as int);
                            assert(packer.schedule()[b].start == packer.timings@[b].0 as int);
                        }
                        // The emptied session is trivially playable again.
                        assert(self.live_spec() =~= Seq::<WaveModel>::empty());
                        assert forall|t: int| t >= self.time_spec() implies #[trigger] keep_live(
                            self.live_spec(),
                            t,
                        ) == keep_live(self.pack.schedule().take(self.pack.pos()), t) by {
                            assert(self.pack.schedule().take(self.pack.pos()) =~= Seq::<
                                WaveModel,
                            >::empty());
                        }
                        // Where the horizon stood when the session began.
                        if remaining == buffer_len {
                            assert(te == t0);
                        } else {
                            assert(te <= w && te >= w);
                            assert(t0 < w);
                            assert(t0 + buffer_len == w + remaining > w);
                        }
                    }
                    return Err((packer, segs));
                },
            }
        }
    }
}

} // verus!
