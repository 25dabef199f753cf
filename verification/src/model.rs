use vstd::prelude::*;

verus! {

/// Mathematical model of one timed wave: its half-open activity window
/// `[start, end)`, its frequency and amplitude coefficient groups (opaque
/// 32-bit words), and its phase word.
#[verifier::ext_equal]
pub ghost struct WaveModel {
    pub start: int,
    pub end: int,
    pub freq: Seq<u32>,
    pub amp: Seq<u32>,
    pub phase: u32,
}

pub open spec fn min_i(a: int, b: int) -> int {
    if a <= b {
        a
    } else {
        b
    }
}

/// Sum of the first `n` run lengths.
pub open spec fn sum_runs(runs: Seq<u8>, n: int) -> int
    decreases n,
{
    if n <= 0 {
        0
    } else {
        sum_runs(runs, n - 1) + runs[n - 1]
    }
}

/// The `i`-th contiguous coefficient group that `runs` carves out of `coeffs`.
pub open spec fn group_of(coeffs: Seq<u32>, runs: Seq<u8>, i: int) -> Seq<u32> {
    coeffs.subrange(sum_runs(runs, i), sum_runs(runs, i + 1))
}

/// Time windows ordered by non-decreasing start.
pub open spec fn timings_sorted(t: Seq<(i64, i64)>) -> bool {
    forall|i: int, j: int| 0 <= i <= j < t.len() ==> (#[trigger] t[i]).0 <= (#[trigger] t[j]).0
}

/// Wave models ordered by non-decreasing start.
pub open spec fn starts_sorted(s: Seq<WaveModel>) -> bool {
    forall|i: int, j: int|
        0 <= i <= j < s.len() ==> (#[trigger] s[i]).start <= (#[trigger] s[j]).start
}

/// The schedule described by six parallel arrays: wave `i` has window
/// `timings[i]`, the `i`-th frequency and amplitude groups, and phase `ph[i]`.
pub open spec fn schedule_of(
    timings: Seq<(i64, i64)>,
    fc: Seq<u32>,
    fr: Seq<u8>,
    ac: Seq<u32>,
    ar: Seq<u8>,
    ph: Seq<u32>,
) -> Seq<WaveModel> {
    Seq::new(
        timings.len(),
        |i: int|
            WaveModel {
                start: timings[i].0 as int,
                end: timings[i].1 as int,
                freq: group_of(fc, fr, i),
                amp: group_of(ac, ar, i),
                phase: ph[i],
            },
    )
}

/// The construction invariant of the packed representation: parallel arrays
/// of equal length, windows sorted by start, and each run-length array
/// accounting for its whole coefficient array.
pub open spec fn pack_inputs_valid(
    timings: Seq<(i64, i64)>,
    fc: Seq<u32>,
    fr: Seq<u8>,
    ac: Seq<u32>,
    ar: Seq<u8>,
    ph: Seq<u32>,
) -> bool {
    &&& timings.len() == fr.len()
    &&& fr.len() == ar.len()
    &&& ph.len() == timings.len()
    &&& timings_sorted(timings)
    &&& sum_runs(fr, fr.len() as int) == fc.len()
    &&& sum_runs(ar, ar.len() as int) == ac.len()
}

/// The waves of `s` that have not yet expired at time `t` (retire keeps
/// exactly the waves with `end > t`), in their original order.
pub open spec fn keep_live(s: Seq<WaveModel>, t: int) -> Seq<WaveModel>
    decreases s.len(),
{
    if s.len() == 0 {
        Seq::empty()
    } else {
        let r = keep_live(s.drop_last(), t);
        if s.last().end > t {
            r.push(s.last())
        } else {
            r
        }
    }
}

/// The waves of `s` whose activity window contains time `t`
/// (`start <= t < end`), in their original order.
pub open spec fn live_at(s: Seq<WaveModel>, t: int) -> Seq<WaveModel>
    decreases s.len(),
{
    if s.len() == 0 {
        Seq::empty()
    } else {
        let r = live_at(s.drop_last(), t);
        if s.last().start <= t < s.last().end {
            r.push(s.last())
        } else {
            r
        }
    }
}

/// Minimum of `init` and every `end` in `s`: the next time a wave of `s`
/// dies, capped by `init`.
pub open spec fn min_end_from(s: Seq<WaveModel>, init: int) -> int
    decreases s.len(),
{
    if s.len() == 0 {
        init
    } else {
        min_i(min_end_from(s.drop_last(), init), s.last().end)
    }
}

/// A wave model that the packed representation can carry: its window fits in
/// 64-bit sample indices and each coefficient group fits in one run byte.
pub open spec fn model_fits(w: WaveModel) -> bool {
    &&& i64::MIN <= w.start <= i64::MAX
    &&& i64::MIN <= w.end <= i64::MAX
    &&& w.freq.len() <= 255
    &&& w.amp.len() <= 255
}

pub open spec fn timings_of(s: Seq<WaveModel>) -> Seq<(i64, i64)> {
    Seq::new(s.len(), |i: int| (s[i].start as i64, s[i].end as i64))
}

pub open spec fn phases_of(s: Seq<WaveModel>) -> Seq<u32> {
    Seq::new(s.len(), |i: int| s[i].phase)
}

pub open spec fn freqs_of(s: Seq<WaveModel>) -> Seq<Seq<u32>> {
    Seq::new(s.len(), |i: int| s[i].freq)
}

pub open spec fn amps_of(s: Seq<WaveModel>) -> Seq<Seq<u32>> {
    Seq::new(s.len(), |i: int| s[i].amp)
}

/// The groups of a sequence of coefficient vectors.
pub open spec fn word_groups(s: Seq<Vec<u32>>) -> Seq<Seq<u32>> {
    Seq::new(s.len(), |i: int| s[i]@)
}

/// One run byte per group.
pub open spec fn runs_of_groups(g: Seq<Seq<u32>>) -> Seq<u8> {
    Seq::new(g.len(), |i: int| g[i].len() as u8)
}

/// All groups flattened into one coefficient array.
pub open spec fn flat_groups(g: Seq<Seq<u32>>) -> Seq<u32>
    decreases g.len(),
{
    if g.len() == 0 {
        Seq::empty()
    } else {
        flat_groups(g.drop_last()) + g.last()
    }
}

/// The flattened prefix of `n` groups is exactly as long as the sum of their
/// run bytes.
pub proof fn lemma_flat_take(g: Seq<Seq<u32>>, n: int)
    requires
        0 <= n <= g.len(),
        forall|k: int| 0 <= k < g.len() ==> (#[trigger] g[k]).len() <= 255,
    ensures
        flat_groups(g.take(n)).len() == sum_runs(runs_of_groups(g), n),
    decreases n,
{
    if n == 0 {
        assert(g.take(0) =~= Seq::<Seq<u32>>::empty());
    } else {
        lemma_flat_take(g, n - 1);
        assert(g.take(n).drop_last() =~= g.take(n - 1));
        assert(g.take(n).last() == g[n - 1]);
        assert(runs_of_groups(g)[n - 1] == g[n - 1].len() as u8);
    }
}

/// Flattening distributes over concatenation of group sequences.
pub proof fn lemma_flat_concat(a: Seq<Seq<u32>>, b: Seq<Seq<u32>>)
    ensures
        flat_groups(a + b) == flat_groups(a) + flat_groups(b),
    decreases b.len(),
{
    if b.len() == 0 {
        assert(a + b =~= a);
        assert(flat_groups(a) + flat_groups(b) =~= flat_groups(a));
    } else {
        lemma_flat_concat(a, b.drop_last());
        assert((a + b).drop_last() =~= a + b.drop_last());
        assert((a + b).last() == b.last());
        assert(flat_groups(a) + flat_groups(b.drop_last()) + b.last() =~= flat_groups(a) + (
        flat_groups(b.drop_last()) + b.last()));
    }
}

/// Cutting the flattened array at the run-byte prefix sums recovers each
/// group exactly.
pub proof fn lemma_flat_group(g: Seq<Seq<u32>>, j: int)
    requires
        0 <= j < g.len(),
        forall|k: int| 0 <= k < g.len() ==> (#[trigger] g[k]).len() <= 255,
    ensures
        group_of(flat_groups(g), runs_of_groups(g), j) == g[j],
{
    lemma_flat_take(g, j);
    lemma_flat_take(g, j + 1);
    assert(g =~= g.take(j + 1) + g.skip(j + 1));
    lemma_flat_concat(g.take(j + 1), g.skip(j + 1));
    assert(g.take(j + 1).drop_last() =~= g.take(j));
    assert(g.take(j + 1).last() == g[j]);
    assert(flat_groups(g) == flat_groups(g.take(j)) + g[j] + flat_groups(g.skip(j + 1)));
    assert(sum_runs(runs_of_groups(g), j + 1) == sum_runs(runs_of_groups(g), j) + g[j].len());
    assert(group_of(flat_groups(g), runs_of_groups(g), j) =~= g[j]);
}

/// The groups that a run-length array carves out of a coefficient array.
pub open spec fn groups_of_arrays(c: Seq<u32>, r: Seq<u8>) -> Seq<Seq<u32>> {
    Seq::new(r.len(), |i: int| group_of(c, r, i))
}

proof fn lemma_unflatten_take(c: Seq<u32>, r: Seq<u8>, n: int)
    requires
        sum_runs(r, r.len() as int) == c.len(),
        0 <= n <= r.len(),
    ensures
        flat_groups(groups_of_arrays(c, r).take(n)) == c.take(sum_runs(r, n)),
    decreases n,
{
    let g = groups_of_arrays(c, r);
    if n == 0 {
        assert(g.take(0) =~= Seq::<Seq<u32>>::empty());
        assert(c.take(0) =~= Seq::<u32>::empty());
    } else {
        lemma_unflatten_take(c, r, n - 1);
        assert(g.take(n).drop_last() =~= g.take(n - 1));
        assert(g.take(n).last() == g[n - 1]);
        lemma_sum_runs_mono(r, 0, n - 1);
        lemma_sum_runs_mono(r, n - 1, n);
        lemma_sum_runs_mono(r, n, r.len() as int);
        assert(c.take(sum_runs(r, n - 1)) + c.subrange(sum_runs(r, n - 1), sum_runs(r, n)) =~= c.take(
            sum_runs(r, n),
        ));
    }
}

/// Flattening the groups of a valid packed pair gives back the coefficient
/// array, and their lengths give back the run-length array.
pub proof fn lemma_unflatten(c: Seq<u32>, r: Seq<u8>)
    requires
        sum_runs(r, r.len() as int) == c.len(),
    ensures
        flat_groups(groups_of_arrays(c, r)) == c,
        runs_of_groups(groups_of_arrays(c, r)) == r,
{
    let g = groups_of_arrays(c, r);
    lemma_unflatten_take(c, r, r.len() as int);
    assert(g.take(r.len() as int) =~= g);
    assert(c.take(sum_runs(r, r.len() as int)) =~= c);
    assert forall|i: int| 0 <= i < r.len() implies #[trigger] runs_of_groups(g)[i] == r[i] by {
        lemma_sum_runs_mono(r, 0, i);
        lemma_sum_runs_mono(r, i, i + 1);
        lemma_sum_runs_mono(r, i + 1, r.len() as int);
        assert(g[i].len() == sum_runs(r, i + 1) - sum_runs(r, i));
    }
    assert(runs_of_groups(g) =~= r);
}

/// Every wave of a valid packed representation fits back into one.
pub proof fn lemma_schedule_fits(
    timings: Seq<(i64, i64)>,
    fc: Seq<u32>,
    fr: Seq<u8>,
    ac: Seq<u32>,
    ar: Seq<u8>,
    ph: Seq<u32>,
)
    requires
        timings.len() == fr.len(),
        fr.len() == ar.len(),
        ph.len() == timings.len(),
        sum_runs(fr, fr.len() as int) == fc.len(),
        sum_runs(ar, ar.len() as int) == ac.len(),
    ensures
        forall|i: int|
            0 <= i < timings.len() ==> model_fits(
                #[trigger] schedule_of(timings, fc, fr, ac, ar, ph)[i],
            ),
{
    let s = schedule_of(timings, fc, fr, ac, ar, ph);
    assert forall|i: int| 0 <= i < timings.len() implies model_fits(#[trigger] s[i]) by {
        lemma_sum_runs_mono(fr, 0, i);
        lemma_sum_runs_mono(fr, i, i + 1);
        lemma_sum_runs_mono(fr, i + 1, fr.len() as int);
        lemma_sum_runs_mono(ar, 0, i);
        lemma_sum_runs_mono(ar, i, i + 1);
        lemma_sum_runs_mono(ar, i + 1, ar.len() as int);
        assert(sum_runs(fr, i + 1) == sum_runs(fr, i) + fr[i]);
        assert(sum_runs(ar, i + 1) == sum_runs(ar, i) + ar[i]);
    }
}

/// Appending packed waves behind a valid packed representation appends their
/// models behind its schedule.
pub proof fn lemma_schedule_concat(
    timings: Seq<(i64, i64)>,
    fc: Seq<u32>,
    fr: Seq<u8>,
    ac: Seq<u32>,
    ar: Seq<u8>,
    ph: Seq<u32>,
    s: Seq<WaveModel>,
)
    requires
        timings.len() == fr.len(),
        fr.len() == ar.len(),
        ph.len() == timings.len(),
        sum_runs(fr, fr.len() as int) == fc.len(),
        sum_runs(ar, ar.len() as int) == ac.len(),
        forall|k: int| 0 <= k < s.len() ==> model_fits(#[trigger] s[k]),
    ensures
        schedule_of(
            timings + timings_of(s),
            fc + flat_groups(freqs_of(s)),
            fr + runs_of_groups(freqs_of(s)),
            ac + flat_groups(amps_of(s)),
            ar + runs_of_groups(amps_of(s)),
            ph + phases_of(s),
        ) == schedule_of(timings, fc, fr, ac, ar, ph) + s,
        sum_runs(
            fr + runs_of_groups(freqs_of(s)),
            fr.len() + s.len() as int,
        ) == fc.len() + flat_groups(freqs_of(s)).len(),
        sum_runs(
            ar + runs_of_groups(amps_of(s)),
            ar.len() + s.len() as int,
        ) == ac.len() + flat_groups(amps_of(s)).len(),
{
    let fg = freqs_of(s);
    let ag = amps_of(s);
    let tt = timings + timings_of(s);
    let tfc = fc + flat_groups(fg);
    let tfr = fr + runs_of_groups(fg);
    let tac = ac + flat_groups(ag);
    let tar = ar + runs_of_groups(ag);
    let tph = ph + phases_of(s);
    assert(forall|k: int| 0 <= k < fg.len() ==> (#[trigger] fg[k]).len() <= 255);
    assert(forall|k: int| 0 <= k < ag.len() ==> (#[trigger] ag[k]).len() <= 255);
    lemma_sum_runs_concat(fr, runs_of_groups(fg), s.len() as int);
    lemma_sum_runs_concat(ar, runs_of_groups(ag), s.len() as int);
    lemma_flat_take(fg, fg.len() as int);
    lemma_flat_take(ag, ag.len() as int);
    assert(fg.take(fg.len() as int) =~= fg);
    assert(ag.take(ag.len() as int) =~= ag);
    let lhs = schedule_of(tt, tfc, tfr, tac, tar, tph);
    let rhs = schedule_of(timings, fc, fr, ac, ar, ph) + s;
    assert forall|i: int| 0 <= i < lhs.len() implies lhs[i] == rhs[i] by {
        if i < timings.len() {
            lemma_sum_runs_agree(tfr, fr, i);
            lemma_sum_runs_agree(tfr, fr, i + 1);
            lemma_sum_runs_agree(tar, ar, i);
            lemma_sum_runs_agree(tar, ar, i + 1);
            lemma_sum_runs_mono(fr, 0, i);
            lemma_sum_runs_mono(fr, i, i + 1);
            lemma_sum_runs_mono(fr, i + 1, fr.len() as int);
            lemma_sum_runs_mono(ar, 0, i);
            lemma_sum_runs_mono(ar, i, i + 1);
            lemma_sum_runs_mono(ar, i + 1, ar.len() as int);
            assert(group_of(tfc, tfr, i) =~= group_of(fc, fr, i));
            assert(group_of(tac, tar, i) =~= group_of(ac, ar, i));
            assert(lhs[i] =~= rhs[i]);
        } else {
            let j = i - timings.len();
            lemma_sum_runs_concat(fr, runs_of_groups(fg), j);
            lemma_sum_runs_concat(fr, runs_of_groups(fg), j + 1);
            lemma_sum_runs_concat(ar, runs_of_groups(ag), j);
            lemma_sum_runs_concat(ar, runs_of_groups(ag), j + 1);
            lemma_flat_take(fg, j);
            lemma_flat_take(fg, j + 1);
            lemma_flat_take(ag, j);
            lemma_flat_take(ag, j + 1);
            lemma_flat_group(fg, j);
            lemma_flat_group(ag, j);
            lemma_sum_runs_mono(runs_of_groups(fg), 0, j);
            lemma_sum_runs_mono(runs_of_groups(fg), j, j + 1);
            lemma_sum_runs_mono(runs_of_groups(fg), j + 1, fg.len() as int);
            lemma_sum_runs_mono(runs_of_groups(ag), 0, j);
            lemma_sum_runs_mono(runs_of_groups(ag), j, j + 1);
            lemma_sum_runs_mono(runs_of_groups(ag), j + 1, ag.len() as int);
            assert(group_of(tfc, tfr, j + timings.len()) =~= group_of(
                flat_groups(fg),
                runs_of_groups(fg),
                j,
            ));
            assert(group_of(tac, tar, j + timings.len()) =~= group_of(
                flat_groups(ag),
                runs_of_groups(ag),
                j,
            ));
            assert(lhs[i] =~= rhs[i]);
        }
    }
    assert(lhs =~= rhs);
}

/// The not-yet-scanned tail of a valid packed representation is itself a
/// valid packed representation of the tail of the schedule.
pub proof fn lemma_schedule_skip(
    timings: Seq<(i64, i64)>,
    fc: Seq<u32>,
    fr: Seq<u8>,
    ac: Seq<u32>,
    ar: Seq<u8>,
    ph: Seq<u32>,
    p: int,
)
    requires
        timings.len() == fr.len(),
        fr.len() == ar.len(),
        ph.len() == timings.len(),
        sum_runs(fr, fr.len() as int) == fc.len(),
        sum_runs(ar, ar.len() as int) == ac.len(),
        0 <= p <= timings.len(),
    ensures
        schedule_of(
            timings.skip(p),
            fc.skip(sum_runs(fr, p)),
            fr.skip(p),
            ac.skip(sum_runs(ar, p)),
            ar.skip(p),
            ph.skip(p),
        ) == schedule_of(timings, fc, fr, ac, ar, ph).skip(p),
        sum_runs(fr.skip(p), fr.len() - p) == fc.len() - sum_runs(fr, p),
        sum_runs(ar.skip(p), ar.len() - p) == ac.len() - sum_runs(ar, p),
{
    lemma_sum_runs_mono(fr, 0, p);
    lemma_sum_runs_mono(fr, p, fr.len() as int);
    lemma_sum_runs_mono(ar, 0, p);
    lemma_sum_runs_mono(ar, p, ar.len() as int);
    assert(fr =~= fr.take(p) + fr.skip(p));
    assert(ar =~= ar.take(p) + ar.skip(p));
    assert forall|n: int| 0 <= n <= fr.len() - p implies #[trigger] sum_runs(fr.skip(p), n)
        == sum_runs(fr, p + n) - sum_runs(fr, p) by {
        lemma_sum_runs_concat(fr.take(p), fr.skip(p), n);
        lemma_sum_runs_agree(fr.take(p) + fr.skip(p), fr, p + n);
        lemma_sum_runs_agree(fr.take(p), fr, p);
    }
    assert forall|n: int| 0 <= n <= ar.len() - p implies #[trigger] sum_runs(ar.skip(p), n)
        == sum_runs(ar, p + n) - sum_runs(ar, p) by {
        lemma_sum_runs_concat(ar.take(p), ar.skip(p), n);
        lemma_sum_runs_agree(ar.take(p) + ar.skip(p), ar, p + n);
        lemma_sum_runs_agree(ar.take(p), ar, p);
    }
    let lhs = schedule_of(
        timings.skip(p),
        fc.skip(sum_runs(fr, p)),
        fr.skip(p),
        ac.skip(sum_runs(ar, p)),
        ar.skip(p),
        ph.skip(p),
    );
    let rhs = schedule_of(timings, fc, fr, ac, ar, ph).skip(p);
    assert forall|i: int| 0 <= i < lhs.len() implies lhs[i] == rhs[i] by {
        assert(sum_runs(fr.skip(p), i) == sum_runs(fr, p + i) - sum_runs(fr, p));
        assert(sum_runs(fr.skip(p), i + 1) == sum_runs(fr, p + i + 1) - sum_runs(fr, p));
        assert(sum_runs(ar.skip(p), i) == sum_runs(ar, p + i) - sum_runs(ar, p));
        assert(sum_runs(ar.skip(p), i + 1) == sum_runs(ar, p + i + 1) - sum_runs(ar, p));
        lemma_sum_runs_mono(fr, 0, p);
        lemma_sum_runs_mono(fr, p, p + i);
        lemma_sum_runs_mono(fr, p + i, p + i + 1);
        lemma_sum_runs_mono(fr, p + i + 1, fr.len() as int);
        lemma_sum_runs_mono(ar, 0, p);
        lemma_sum_runs_mono(ar, p, p + i);
        lemma_sum_runs_mono(ar, p + i, p + i + 1);
        lemma_sum_runs_mono(ar, p + i + 1, ar.len() as int);
        assert(group_of(fc.skip(sum_runs(fr, p)), fr.skip(p), i) =~= group_of(fc, fr, p + i));
        assert(group_of(ac.skip(sum_runs(ar, p)), ar.skip(p), i) =~= group_of(ac, ar, p + i));
        assert(lhs[i] =~= rhs[i]);
    }
    assert(lhs =~= rhs);
}

pub proof fn lemma_sum_runs_mono(runs: Seq<u8>, a: int, b: int)
    requires
        0 <= a <= b <= runs.len(),
    ensures
        sum_runs(runs, a) <= sum_runs(runs, b),
    decreases b,
{
    if a < b {
        lemma_sum_runs_mono(runs, a, b - 1);
    }
}

pub proof fn lemma_sum_runs_agree(r1: Seq<u8>, r2: Seq<u8>, n: int)
    requires
        0 <= n <= r1.len(),
        n <= r2.len(),
        forall|i: int| 0 <= i < n ==> r1[i] == r2[i],
    ensures
        sum_runs(r1, n) == sum_runs(r2, n),
    decreases n,
{
    if n > 0 {
        lemma_sum_runs_agree(r1, r2, n - 1);
    }
}

pub proof fn lemma_sum_runs_concat(r1: Seq<u8>, r2: Seq<u8>, n: int)
    requires
        0 <= n <= r2.len(),
    ensures
        sum_runs(r1 + r2, r1.len() + n) == sum_runs(r1, r1.len() as int) + sum_runs(r2, n),
    decreases n,
{
    if n == 0 {
        lemma_sum_runs_agree(r1 + r2, r1, r1.len() as int);
    } else {
        lemma_sum_runs_concat(r1, r2, n - 1);
        assert((r1 + r2)[r1.len() + n - 1] == r2[n - 1]);
    }
}

pub proof fn lemma_timings_sorted_from_adjacent(t: Seq<(i64, i64)>, i: int, j: int)
    requires
        forall|k: int| 0 <= k < t.len() - 1 ==> (#[trigger] t[k]).0 <= t[k + 1].0,
        0 <= i <= j < t.len(),
    ensures
        t[i].0 <= t[j].0,
    decreases j - i,
{
    if i < j {
        lemma_timings_sorted_from_adjacent(t, i, j - 1);
        assert(t[j - 1].0 <= t[j].0);
    }
}

pub proof fn lemma_keep_live_push(s: Seq<WaveModel>, x: WaveModel, t: int)
    ensures
        keep_live(s.push(x), t) == if x.end > t {
            keep_live(s, t).push(x)
        } else {
            keep_live(s, t)
        },
{
    assert(s.push(x).drop_last() =~= s);
    assert(s.push(x).last() == x);
}

pub proof fn lemma_live_at_push(s: Seq<WaveModel>, x: WaveModel, t: int)
    ensures
        live_at(s.push(x), t) == if x.start <= t < x.end {
            live_at(s, t).push(x)
        } else {
            live_at(s, t)
        },
{
    assert(s.push(x).drop_last() =~= s);
    assert(s.push(x).last() == x);
}

/// Retiring at `t0` and then at a later `t1` keeps the same waves as
/// retiring at `t1` alone.
pub proof fn lemma_keep_live_compose(s: Seq<WaveModel>, t0: int, t1: int)
    requires
        t0 <= t1,
    ensures
        keep_live(keep_live(s, t0), t1) == keep_live(s, t1),
    decreases s.len(),
{
    if s.len() > 0 {
        lemma_keep_live_compose(s.drop_last(), t0, t1);
        if s.last().end > t0 {
            lemma_keep_live_push(keep_live(s.drop_last(), t0), s.last(), t1);
        }
    }
}

pub proof fn lemma_keep_live_concat(a: Seq<WaveModel>, b: Seq<WaveModel>, t: int)
    ensures
        keep_live(a + b, t) == keep_live(a, t) + keep_live(b, t),
    decreases b.len(),
{
    if b.len() == 0 {
        assert(a + b =~= a);
        assert(keep_live(a, t) + keep_live(b, t) =~= keep_live(a, t));
    } else {
        lemma_keep_live_concat(a, b.drop_last(), t);
        assert((a + b).drop_last() =~= a + b.drop_last());
        assert((a + b).last() == b.last());
        if b.last().end > t {
            assert(keep_live(a, t) + keep_live(b.drop_last(), t).push(b.last()) =~= (keep_live(
                a,
                t,
            ) + keep_live(b.drop_last(), t)).push(b.last()));
        }
    }
}

pub proof fn lemma_live_at_concat(a: Seq<WaveModel>, b: Seq<WaveModel>, t: int)
    ensures
        live_at(a + b, t) == live_at(a, t) + live_at(b, t),
    decreases b.len(),
{
    if b.len() == 0 {
        assert(a + b =~= a);
        assert(live_at(a, t) + live_at(b, t) =~= live_at(a, t));
    } else {
        lemma_live_at_concat(a, b.drop_last(), t);
        assert((a + b).drop_last() =~= a + b.drop_last());
        assert((a + b).last() == b.last());
        if b.last().start <= t < b.last().end {
            assert(live_at(a, t) + live_at(b.drop_last(), t).push(b.last()) =~= (live_at(a, t)
                + live_at(b.drop_last(), t)).push(b.last()));
        }
    }
}

/// When no wave of `s` has expired at `t`, retiring keeps all of them.
pub proof fn lemma_keep_live_all(s: Seq<WaveModel>, t: int)
    requires
        forall|k: int| 0 <= k < s.len() ==> (#[trigger] s[k]).end > t,
    ensures
        keep_live(s, t) == s,
    decreases s.len(),
{
    if s.len() > 0 {
        lemma_keep_live_all(s.drop_last(), t);
        assert(keep_live(s, t) =~= s);
    }
}

/// Every element kept by `keep_live` satisfies whatever holds of every
/// element of `s`.
pub proof fn lemma_keep_live_pointwise(s: Seq<WaveModel>, t: int, pred: spec_fn(WaveModel) -> bool)
    requires
        forall|i: int| 0 <= i < s.len() ==> pred(#[trigger] s[i]),
    ensures
        forall|k: int| 0 <= k < keep_live(s, t).len() ==> pred(#[trigger] keep_live(s, t)[k]),
    decreases s.len(),
{
    if s.len() > 0 {
        assert(forall|i: int| 0 <= i < s.drop_last().len() ==> pred(#[trigger] s.drop_last()[i]));
        lemma_keep_live_pointwise(s.drop_last(), t, pred);
        let r = keep_live(s.drop_last(), t);
        assert forall|k: int| 0 <= k < keep_live(s, t).len() implies pred(
            #[trigger] keep_live(s, t)[k],
        ) by {
            if s.last().end > t && k == r.len() {
                assert(keep_live(s, t)[k] == s.last());
                assert(pred(s[s.len() - 1]));
            } else {
                assert(keep_live(s, t)[k] == r[k]);
            }
        }
    }
}

/// Every wave kept by `keep_live(s, t)` has `end > t`.
pub proof fn lemma_keep_live_ends(s: Seq<WaveModel>, t: int)
    ensures
        forall|k: int| 0 <= k < keep_live(s, t).len() ==> (#[trigger] keep_live(s, t)[k]).end > t,
    decreases s.len(),
{
    if s.len() > 0 {
        lemma_keep_live_ends(s.drop_last(), t);
        let r = keep_live(s.drop_last(), t);
        assert forall|k: int| 0 <= k < keep_live(s, t).len() implies (
        #[trigger] keep_live(s, t)[k]).end > t by {
            if s.last().end > t && k == r.len() {
                assert(keep_live(s, t)[k] == s.last());
            } else {
                assert(keep_live(s, t)[k] == r[k]);
            }
        }
    }
}

/// Retiring keeps the order of starts.
pub proof fn lemma_keep_live_sorted(s: Seq<WaveModel>, t: int)
    requires
        starts_sorted(s),
    ensures
        starts_sorted(keep_live(s, t)),
    decreases s.len(),
{
    if s.len() > 0 {
        assert(starts_sorted(s.drop_last()));
        lemma_keep_live_sorted(s.drop_last(), t);
        if s.last().end > t {
            let b = s.last().start;
            lemma_keep_live_pointwise(s.drop_last(), t, |w: WaveModel| w.start <= b);
        }
    }
}

/// Waves active at `t` are exactly the unexpired ones, once every wave of
/// `s` has started by `t`.
pub proof fn lemma_live_at_all_started(s: Seq<WaveModel>, t: int)
    requires
        forall|k: int| 0 <= k < s.len() ==> (#[trigger] s[k]).start <= t,
    ensures
        live_at(s, t) == keep_live(s, t),
    decreases s.len(),
{
    if s.len() > 0 {
        assert(forall|k: int|
            0 <= k < s.drop_last().len() ==> (#[trigger] s.drop_last()[k]).start <= t);
        lemma_live_at_all_started(s.drop_last(), t);
    }
}

/// No wave of `s` is active at `t` when none has started by `t`.
pub proof fn lemma_live_at_none_started(s: Seq<WaveModel>, t: int)
    requires
        forall|k: int| 0 <= k < s.len() ==> (#[trigger] s[k]).start > t,
    ensures
        live_at(s, t) == Seq::<WaveModel>::empty(),
    decreases s.len(),
{
    if s.len() > 0 {
        assert(forall|k: int|
            0 <= k < s.drop_last().len() ==> (#[trigger] s.drop_last()[k]).start > t);
        lemma_live_at_none_started(s.drop_last(), t);
        assert(live_at(s, t) =~= Seq::<WaveModel>::empty());
    }
}

/// Waves retired at `t` stay irrelevant at any later `t2`: the active set is
/// unchanged by dropping them.
pub proof fn lemma_live_at_keep_live(s: Seq<WaveModel>, t: int, t2: int)
    requires
        t <= t2,
    ensures
        live_at(keep_live(s, t), t2) == live_at(s, t2),
    decreases s.len(),
{
    if s.len() > 0 {
        lemma_live_at_keep_live(s.drop_last(), t, t2);
        if s.last().end > t {
            lemma_live_at_push(keep_live(s.drop_last(), t), s.last(), t2);
        }
    }
}

pub proof fn lemma_min_end_le_init(s: Seq<WaveModel>, init: int)
    ensures
        min_end_from(s, init) <= init,
    decreases s.len(),
{
    if s.len() > 0 {
        lemma_min_end_le_init(s.drop_last(), init);
    }
}

pub proof fn lemma_min_end_le_ends(s: Seq<WaveModel>, init: int)
    ensures
        forall|k: int| 0 <= k < s.len() ==> min_end_from(s, init) <= (#[trigger] s[k]).end,
    decreases s.len(),
{
    if s.len() > 0 {
        lemma_min_end_le_ends(s.drop_last(), init);
        assert forall|k: int| 0 <= k < s.len() implies min_end_from(s, init) <= (
        #[trigger] s[k]).end by {
            if k < s.len() - 1 {
                assert(s.drop_last()[k] == s[k]);
            } else {
                assert(s[k] == s.last());
            }
        }
    }
}

/// The minimum is attained: it is the cap itself or some wave's end.
pub proof fn lemma_min_end_witness(s: Seq<WaveModel>, init: int)
    ensures
        min_end_from(s, init) == init || exists|k: int|
            0 <= k < s.len() && min_end_from(s, init) == (#[trigger] s[k]).end,
    decreases s.len(),
{
    if s.len() > 0 {
        lemma_min_end_witness(s.drop_last(), init);
        let m = min_end_from(s, init);
        if m != init {
            if m == s.last().end {
                assert(0 <= s.len() - 1 < s.len() && m == s[s.len() - 1].end);
            } else {
                let k = choose|k: int|
                    0 <= k < s.drop_last().len() && min_end_from(s.drop_last(), init) == (
                    #[trigger] s.drop_last()[k]).end;
                assert(0 <= k < s.len() && m == s[k].end);
            }
        }
    }
}

/// The minimum stays above `t` when the cap and every end do.
pub proof fn lemma_min_end_gt(s: Seq<WaveModel>, init: int, t: int)
    requires
        init > t,
        forall|k: int| 0 <= k < s.len() ==> (#[trigger] s[k]).end > t,
    ensures
        min_end_from(s, init) > t,
    decreases s.len(),
{
    if s.len() > 0 {
        assert(forall|k: int|
            0 <= k < s.drop_last().len() ==> (#[trigger] s.drop_last()[k]).end > t);
        lemma_min_end_gt(s.drop_last(), init, t);
    }
}

} // verus!
