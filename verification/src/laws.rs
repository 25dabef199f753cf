use crate::model::keep_live;
use crate::model::lemma_keep_live_all;
use crate::model::lemma_keep_live_compose;
use crate::model::lemma_keep_live_concat;
use crate::model::lemma_keep_live_pointwise;
use crate::model::lemma_keep_live_sorted;
use crate::model::lemma_live_at_all_started;
use crate::model::lemma_live_at_concat;
use crate::model::lemma_live_at_keep_live;
use crate::model::lemma_live_at_none_started;
use crate::model::lemma_min_end_le_ends;
use crate::model::lemma_min_end_le_init;
use crate::model::lemma_min_end_witness;
use crate::model::live_at;
use crate::model::min_end_from;
use crate::model::min_i;
use crate::model::starts_sorted;
use crate::model::WaveModel;
use vstd::prelude::*;

verus! {

/// Conservation under retire and birth. One scheduling step at time `t`
/// leaves the live set holding exactly the waves whose half-open window
/// `[start, end)` contains `t`, and no wave outside its window: `live0` is
/// the live set handed in (whose unexpired members agree with the scanned
/// prefix `[0, p0)`), `[p0, p1)` are the waves the scan pulls in at `t`, and
/// the result of retire-then-birth, `keep_live(live0, t) + sched.subrange(p0,
/// p1)`, is exactly `live_at(sched, t)`. The hypothesis that the pulled-in
/// waves are still open at `t` excludes waves whose whole window falls
/// between two scheduling steps.
pub proof fn lemma_live_set_exact(
    sched: Seq<WaveModel>,
    p0: int,
    p1: int,
    live0: Seq<WaveModel>,
    t: int,
)
    requires
        0 <= p0 <= p1 <= sched.len(),
        keep_live(live0, t) == keep_live(sched.take(p0), t),
        forall|i: int| 0 <= i < p0 ==> (#[trigger] sched[i]).start <= t,
        forall|i: int| p0 <= i < p1 ==> (#[trigger] sched[i]).start <= t && sched[i].end > t,
        forall|i: int| p1 <= i < sched.len() ==> (#[trigger] sched[i]).start > t,
    ensures
        keep_live(live0, t) + sched.subrange(p0, p1) == live_at(sched, t),
        keep_live(live0, t) + sched.subrange(p0, p1) == keep_live(sched.take(p1), t),
{
    let born = sched.subrange(p0, p1);
    assert(sched.take(p1) =~= sched.take(p0) + born);
    lemma_keep_live_concat(sched.take(p0), born, t);
    assert(forall|k: int| 0 <= k < born.len() ==> (#[trigger] born[k]).end > t);
    lemma_keep_live_all(born, t);
    assert(keep_live(live0, t) + born == keep_live(sched.take(p1), t));
    assert(sched =~= sched.take(p1) + sched.skip(p1));
    lemma_live_at_concat(sched.take(p1), sched.skip(p1), t);
    assert(forall|k: int|
        0 <= k < sched.take(p1).len() ==> (#[trigger] sched.take(p1)[k]).start <= t);
    lemma_live_at_all_started(sched.take(p1), t);
    assert(forall|k: int|
        0 <= k < sched.skip(p1).len() ==> (#[trigger] sched.skip(p1)[k]).start > t);
    lemma_live_at_none_started(sched.skip(p1), t);
    assert(live_at(sched, t) =~= keep_live(sched.take(p1), t));
}

/// Sample accuracy of one run. While no retired wave has come back in range
/// and no pending wave has started — that is, for every `t` from the last
/// scheduling step `t0` up to the next pause — the active set of the whole
/// schedule is exactly the live set computed at `t0`.
pub proof fn lemma_span_exact(
    sched: Seq<WaveModel>,
    p1: int,
    live: Seq<WaveModel>,
    t0: int,
    t: int,
)
    requires
        0 <= p1 <= sched.len(),
        live == keep_live(sched.take(p1), t0),
        forall|i: int| 0 <= i < p1 ==> (#[trigger] sched[i]).start <= t0,
        t0 <= t,
        forall|k: int| 0 <= k < live.len() ==> (#[trigger] live[k]).end > t,
        forall|i: int| p1 <= i < sched.len() ==> (#[trigger] sched[i]).start > t,
    ensures
        live_at(sched, t) == live,
{
    assert(sched =~= sched.take(p1) + sched.skip(p1));
    lemma_live_at_concat(sched.take(p1), sched.skip(p1), t);
    assert(forall|k: int|
        0 <= k < sched.skip(p1).len() ==> (#[trigger] sched.skip(p1)[k]).start > t);
    lemma_live_at_none_started(sched.skip(p1), t);
    assert(forall|k: int|
        0 <= k < sched.take(p1).len() ==> (#[trigger] sched.take(p1)[k]).start <= t);
    lemma_live_at_all_started(sched.take(p1), t);
    lemma_keep_live_compose(sched.take(p1), t0, t);
    lemma_keep_live_all(live, t);
    assert(live_at(sched, t) =~= live);
}

/// Wakeup tightness. The next pause `min_i(min_end_from(live, bound),
/// birth)` never exceeds the caller's bound, is at or before every live
/// wave's death and at or before the next birth, and is attained: it is the
/// bound itself, the next birth, or some live wave's end.
pub proof fn lemma_wakeup_tight(live: Seq<WaveModel>, birth: int, bound: int)
    ensures
        min_i(min_end_from(live, bound), birth) <= bound || min_i(
            min_end_from(live, bound),
            birth,
        ) == birth,
        min_i(min_end_from(live, bound), birth) <= min_i(bound, birth),
        forall|k: int|
            0 <= k < live.len() ==> min_i(min_end_from(live, bound), birth) <= (
            #[trigger] live[k]).end,
        min_i(min_end_from(live, bound), birth) == bound || min_i(min_end_from(live, bound), birth)
            == birth || exists|k: int|
            0 <= k < live.len() && min_i(min_end_from(live, bound), birth) == (
            #[trigger] live[k]).end,
{
    lemma_min_end_le_init(live, bound);
    lemma_min_end_le_ends(live, bound);
    lemma_min_end_witness(live, bound);
}

/// Exhaustion round trip. Re-serializing an exhausted session — the trimmed
/// live set followed by every unscanned wave — preserves the schedule: at
/// every time from the exhaustion point on, the new packing's active set is
/// exactly the original schedule's active set, and the new packing is again
/// sorted by start.
pub proof fn lemma_exhausted_schedule(
    sched: Seq<WaveModel>,
    pos: int,
    live0: Seq<WaveModel>,
    t: int,
)
    requires
        0 <= pos <= sched.len(),
        starts_sorted(sched),
        keep_live(live0, t) == keep_live(sched.take(pos), t),
    ensures
        forall|t2: int|
            t2 < t || live_at(keep_live(live0, t) + sched.skip(pos), t2) == live_at(sched, t2),
        starts_sorted(keep_live(live0, t) + sched.skip(pos)),
{
    let kept = keep_live(live0, t);
    let rest = sched.skip(pos);
    assert(sched =~= sched.take(pos) + rest);
    assert forall|t2: int| t <= t2 implies live_at(kept + rest, t2) == live_at(sched, t2) by {
        lemma_live_at_concat(kept, rest, t2);
        lemma_live_at_keep_live(sched.take(pos), t, t2);
        lemma_live_at_concat(sched.take(pos), rest, t2);
    }
    assert forall|t2: int| t2 < t || live_at(kept + rest, t2) == live_at(sched, t2) by {
        if t <= t2 {
            assert(live_at(kept + rest, t2) == live_at(sched, t2));
        }
    }
    // Sortedness: the kept scanned waves are sorted and all start at or
    // before every unscanned wave.
    assert(starts_sorted(sched.take(pos)));
    lemma_keep_live_sorted(sched.take(pos), t);
    if pos < sched.len() {
        let b = sched[pos].start;
        assert(forall|i: int|
            0 <= i < sched.take(pos).len() ==> (#[trigger] sched.take(pos)[i]).start <= b);
        lemma_keep_live_pointwise(sched.take(pos), t, |w: WaveModel| w.start <= b);
        assert forall|i: int, j: int| 0 <= i <= j < (kept + rest).len() implies (#[trigger] (kept
            + rest)[i]).start <= (#[trigger] (kept + rest)[j]).start by {
            if j < kept.len() {
                assert(kept[i] == keep_live(sched.take(pos), t)[i]);
            } else if i >= kept.len() {
                assert((kept + rest)[i] == rest[i - kept.len()]);
                assert(rest[i - kept.len()] == sched[pos + i - kept.len()]);
            } else {
                assert(kept[i].start <= b);
                assert((kept + rest)[j] == sched[pos + j - kept.len()]);
                assert(b <= sched[pos + j - kept.len()].start);
            }
        }
    } else {
        assert(kept + rest =~= kept);
        assert(starts_sorted(keep_live(sched.take(pos), t)));
    }
}

} // verus!
