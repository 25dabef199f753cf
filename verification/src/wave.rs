use crate::model::WaveModel;
use vstd::prelude::*;

verus! {

/// A packed sinusoidal signal generator: power-series coefficients for its
/// frequency curve and its amplitude curve, and a phase offset. All three are
/// opaque 32-bit words here; the scheduler moves them around but never
/// interprets them numerically.
#[derive(Debug, PartialEq)]
pub struct Wave {
    pub freq: Vec<u32>,
    pub amp: Vec<u32>,
    pub phase: u32,
}

/// A wave restricted to the half-open sample-index window `[start, end)`:
/// it contributes to samples with `start <= time < end`.
#[derive(Debug, PartialEq)]
pub struct TimedWave {
    pub start: i64,
    pub end: i64,
    pub wave: Wave,
}

impl View for TimedWave {
    type V = WaveModel;

    open spec fn view(&self) -> WaveModel {
        WaveModel {
            start: self.start as int,
            end: self.end as int,
            freq: self.wave.freq@,
            amp: self.wave.amp@,
            phase: self.wave.phase,
        }
    }
}

/// The models of a sequence of timed waves, in order.
pub open spec fn views_of(s: Seq<TimedWave>) -> Seq<WaveModel> {
    Seq::new(s.len(), |i: int| s[i]@)
}

/// Copies `n` words of `v` starting at `from`.
pub(crate) fn copy_range(v: &Vec<u32>, from: usize, n: usize) -> (r: Vec<u32>)
    requires
        from + n <= v@.len(),
    ensures
        r@ == v@.subrange(from as int, from as int + n as int),
{
    let vl = v.len();
    let mut r: Vec<u32> = Vec::new();
    let mut j: usize = 0;
    while j < n
        invariant
            j <= n,
            vl == v@.len(),
            from + n <= vl,
            r@ == v@.subrange(from as int, from as int + j as int),
        decreases n - j,
    {
        r.push(v[from + j]);
        proof {
            assert(r@ =~= v@.subrange(from as int, from as int + j as int + 1));
        }
        j = j + 1;
    }
    r
}

impl Clone for Wave {
    /// An exact copy: same coefficient words, same phase.
    fn clone(&self) -> (r: Self)
        ensures
            r.freq@ == self.freq@,
            r.amp@ == self.amp@,
            r.phase == self.phase,
    {
        Wave { freq: copy_range(&self.freq, 0, self.freq.len()), amp: copy_range(
            &self.amp,
            0,
            self.amp.len(),
        ), phase: self.phase }
    }
}

impl Clone for TimedWave {
    /// An exact copy: the same model.
    fn clone(&self) -> (r: Self)
        ensures
            r@ == self@,
    {
        let r = TimedWave { start: self.start, end: self.end, wave: self.wave.clone() };
        proof {
            assert(r@ =~= self@);
        }
        r
    }
}

impl Default for Wave {
    /// The degenerate wave: empty coefficient lists and phase zero.
    fn default() -> (r: Self)
        ensures
            r.freq@ == Seq::<u32>::empty(),
            r.amp@ == Seq::<u32>::empty(),
            r.phase == 0,
    {
        let r = Wave { freq: Vec::new(), amp: Vec::new(), phase: 0 };
        proof {
            assert(r.freq@ =~= Seq::<u32>::empty());
            assert(r.amp@ =~= Seq::<u32>::empty());
        }
        r
    }
}

/// Appends all words of `src` to `dst`.
pub(crate) fn append_words(dst: &mut Vec<u32>, src: &Vec<u32>)
    ensures
        final(dst)@ == old(dst)@ + src@,
{
    let mut i: usize = 0;
    while i < src.len()
        invariant
            i <= src@.len(),
            dst@ == old(dst)@ + src@.take(i as int),
        decreases src@.len() - i,
    {
        dst.push(src[i]);
        proof {
            assert((old(dst)@ + src@.take(i as int)).push(src@[i as int]) =~= old(dst)@
                + src@.take(i as int + 1));
        }
        i = i + 1;
    }
    proof {
        assert(src@.take(src@.len() as int) =~= src@);
    }
}

/// Appends the tail of `src` starting at `from` to `dst`.
pub(crate) fn append_tail_u32(dst: &mut Vec<u32>, src: &Vec<u32>, from: usize)
    requires
        from <= src@.len(),
    ensures
        final(dst)@ == old(dst)@ + src@.skip(from as int),
{
    proof {
        assert(old(dst)@ + src@.subrange(from as int, from as int) =~= old(dst)@);
    }
    let mut i: usize = from;
    while i < src.len()
        invariant
            from <= i <= src@.len(),
            dst@ == old(dst)@ + src@.subrange(from as int, i as int),
        decreases src@.len() - i,
    {
        dst.push(src[i]);
        proof {
            assert((old(dst)@ + src@.subrange(from as int, i as int)).push(src@[i as int])
                =~= old(dst)@ + src@.subrange(from as int, i as int + 1));
        }
        i = i + 1;
    }
    proof {
        assert(src@.subrange(from as int, src@.len() as int) =~= src@.skip(from as int));
    }
}

/// Appends the tail of `src` starting at `from` to `dst`.
pub(crate) fn append_tail_u8(dst: &mut Vec<u8>, src: &Vec<u8>, from: usize)
    requires
        from <= src@.len(),
    ensures
        final(dst)@ == old(dst)@ + src@.skip(from as int),
{
    proof {
        assert(old(dst)@ + src@.subrange(from as int, from as int) =~= old(dst)@);
    }
    let mut i: usize = from;
    while i < src.len()
        invariant
            from <= i <= src@.len(),
            dst@ == old(dst)@ + src@.subrange(from as int, i as int),
        decreases src@.len() - i,
    {
        dst.push(src[i]);
        proof {
            assert((old(dst)@ + src@.subrange(from as int, i as int)).push(src@[i as int])
                =~= old(dst)@ + src@.subrange(from as int, i as int + 1));
        }
        i = i + 1;
    }
    proof {
        assert(src@.subrange(from as int, src@.len() as int) =~= src@.skip(from as int));
    }
}

/// Appends the tail of `src` starting at `from` to `dst`.
pub(crate) fn append_timings(dst: &mut Vec<(i64, i64)>, src: &Vec<(i64, i64)>, from: usize)
    requires
        from <= src@.len(),
    ensures
        final(dst)@ == old(dst)@ + src@.skip(from as int),
{
    proof {
        assert(old(dst)@ + src@.subrange(from as int, from as int) =~= old(dst)@);
    }
    let mut i: usize = from;
    while i < src.len()
        invariant
            from <= i <= src@.len(),
            dst@ == old(dst)@ + src@.subrange(from as int, i as int),
        decreases src@.len() - i,
    {
        dst.push(src[i]);
        proof {
            assert((old(dst)@ + src@.subrange(from as int, i as int)).push(src@[i as int])
                =~= old(dst)@ + src@.subrange(from as int, i as int + 1));
        }
        i = i + 1;
    }
    proof {
        assert(src@.subrange(from as int, src@.len() as int) =~= src@.skip(from as int));
    }
}

/// Copies a whole live set; the copies have the same models in the same order.
pub(crate) fn clone_waves(v: &Vec<TimedWave>) -> (r: Vec<TimedWave>)
    ensures
        views_of(r@) == views_of(v@),
{
    let mut r: Vec<TimedWave> = Vec::new();
    let mut i: usize = 0;
    while i < v.len()
        invariant
            i <= v@.len(),
            r@.len() == i,
            forall|k: int| 0 <= k < i ==> (#[trigger] r@[k])@ == v@[k]@,
        decreases v@.len() - i,
    {
        r.push(v[i].clone());
        i = i + 1;
    }
    proof {
        assert(views_of(r@) =~= views_of(v@));
    }
    r
}

} // verus!
