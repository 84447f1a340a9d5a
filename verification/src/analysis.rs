//! Integer bookkeeping of the audio analysis: FFT sizing, de-interleaving
//! channels, waveform resampling and the rolling rhythm history.

use vstd::prelude::*;

verus! {

/// Number of samples in the displayed waveform.
pub const WAVEFORM_SIZE: usize = 1024;

/// Number of entries in the rhythm history.
pub const RHYTHM_SIZE: usize = 256;

/// Frames per second the analysis is tuned for.
pub const RENDER_FPS: u32 = 60;

pub open spec fn is_power_of_two(n: nat) -> bool
    decreases n,
{
    if n == 1 {
        true
    } else if n >= 2 && n % 2 == 0 {
        is_power_of_two(n / 2)
    } else {
        false
    }
}

/// The smallest power of two that is at least `n` (1 for 0), as
/// `usize::next_power_of_two`.
pub open spec fn is_next_power_of_two(n: nat, p: nat) -> bool {
    &&& is_power_of_two(p)
    &&& n <= p
    &&& (p == 1 || p / 2 < n)
}

/// The smallest power of two that is at least `n` (1 for 0).
fn next_power_of_two(n: usize) -> (p: usize)
    requires
        n <= usize::MAX / 4,
    ensures
        is_next_power_of_two(n as nat, p as nat),
{
    let mut p: usize = 1;
    while p < n
        invariant
            is_power_of_two(p as nat),
            p == 1 || p / 2 < n,
            n <= usize::MAX / 4,
            p <= usize::MAX / 2,
        decreases usize::MAX - p,
    {
        assert((p * 2) / 2 == p);
        assert((p * 2) % 2 == 0);
        p = p * 2;
    }
    p
}

/// FFT length for a sample rate: the smallest power of two holding one
/// frame's worth of samples, `ceil(sample_rate / 60)`.
pub fn compute_fft_size(sample_rate: u32) -> (n: usize)
    ensures
        is_next_power_of_two(
            ((sample_rate as int + RENDER_FPS - 1) / (RENDER_FPS as int)) as nat,
            n as nat,
        ),
{
    let per_frame = ((sample_rate as u64 + 59) / 60) as usize;
    assert(per_frame <= usize::MAX / 4);
    next_power_of_two(per_frame)
}

/// The first two channels of interleaved audio, one frame at a time; mono
/// input (or none) is returned as both channels. A trailing partial frame
/// is dropped.
pub fn split_channels<T: Copy>(samples: &[T], channels: u16) -> (r: (Vec<T>, Vec<T>))
    ensures
        channels < 2 ==> r.0@ == samples@ && r.1@ == samples@,
        channels >= 2 ==> {
            &&& r.0@.len() == samples@.len() / (channels as nat)
            &&& r.1@.len() == samples@.len() / (channels as nat)
            &&& forall|i: int|
                0 <= i < r.0@.len() ==> #[trigger] r.0@[i] == samples@[i * channels]
                    && r.1@[i] == samples@[i * channels + 1]
        },
{
    if channels < 2 {
        let a = slice_to_vec(samples);
        let b = slice_to_vec(samples);
        return (a, b);
    }
    let ch = channels as usize;
    let len = samples.len();
    let frames = len / ch;
    let mut left: Vec<T> = Vec::new();
    let mut right: Vec<T> = Vec::new();
    let mut f: usize = 0;
    while f < frames
        invariant
            ch == channels,
            ch >= 2,
            len == samples@.len(),
            frames == samples@.len() / (ch as nat),
            f <= frames,
            left@.len() == f,
            right@.len() == f,
            forall|i: int|
                0 <= i < f ==> #[trigger] left@[i] == samples@[i * ch] && right@[i] == samples@[i
                    * ch + 1],
        decreases frames - f,
    {
        proof {
            assert(f * ch + ch <= frames * ch) by (nonlinear_arith)
                requires
                    f < frames,
                    ch >= 2,
            ;
            assert(frames * ch <= samples@.len()) by (nonlinear_arith)
                requires
                    frames == samples@.len() / (ch as nat),
                    ch > 0,
            ;
        }
        let base = f * ch;
        left.push(samples[base]);
        right.push(samples[base + 1]);
        f = f + 1;
    }
    (left, right)
}

fn slice_to_vec<T: Copy>(s: &[T]) -> (v: Vec<T>)
    ensures
        v@ == s@,
{
    let mut v: Vec<T> = Vec::new();
    let mut i: usize = 0;
    while i < s.len()
        invariant
            i <= s@.len(),
            v@ == s@.take(i as int),
        decreases s@.len() - i,
    {
        v.push(s[i]);
        assert(s@.take(i + 1) =~= s@.take(i as int).push(s@[i as int]));
        i = i + 1;
    }
    assert(s@.take(i as int) =~= s@);
    v
}

/// Which input sample the waveform shows at position `i`.
pub open spec fn waveform_source(i: int, len: int) -> int {
    i * len / (WAVEFORM_SIZE as int)
}

/// Resamples `mono` to the waveform's length by picking the sample at the
/// same relative position; no input gives a flat line of `zero`.
pub fn fill_waveform<T: Copy>(out: &mut [T; WAVEFORM_SIZE], mono: &[T], zero: T)
    requires
        mono@.len() * WAVEFORM_SIZE <= usize::MAX,
    ensures
        forall|i: int|
            0 <= i < WAVEFORM_SIZE ==> #[trigger] final(out)@[i] == if mono@.len() == 0 {
                zero
            } else {
                mono@[waveform_source(i, mono@.len() as int)]
            },
{
    let n = mono.len();
    let mut i: usize = 0;
    while i < WAVEFORM_SIZE
        invariant
            n == mono@.len(),
            n * WAVEFORM_SIZE <= usize::MAX,
            i <= WAVEFORM_SIZE,
            forall|k: int|
                0 <= k < i ==> #[trigger] out@[k] == if n == 0 {
                    zero
                } else {
                    mono@[waveform_source(k, n as int)]
                },
        decreases WAVEFORM_SIZE - i,
    {
        if n == 0 {
            out[i] = zero;
        } else {
            proof {
                assert(i * n <= WAVEFORM_SIZE * n) by (nonlinear_arith)
                    requires
                        i < WAVEFORM_SIZE,
                ;
                assert(i * n / (WAVEFORM_SIZE as int) < n) by (nonlinear_arith)
                    requires
                        i < WAVEFORM_SIZE,
                        n > 0,
                ;
            }
            let src = i * n / WAVEFORM_SIZE;
            out[i] = mono[src];
        }
        i = i + 1;
    }
}

/// The last `N` values pushed into a fixed-size history, oldest first.
pub struct RhythmHistory<T: Copy> {
    values: Vec<T>,
    write_idx: usize,
}

impl<T: Copy> View for RhythmHistory<T> {
    type V = Seq<T>;

    /// Oldest first: the slot about to be overwritten comes first.
    closed spec fn view(&self) -> Seq<T> {
        Seq::new(
            self.values@.len(),
            |i: int| self.values@[(self.write_idx + i) % (self.values@.len() as int)],
        )
    }
}

impl<T: Copy> RhythmHistory<T> {
    /// The slots are non-empty and the write position is one of them.
    pub closed spec fn wf(self) -> bool {
        &&& 0 < self.values@.len() <= usize::MAX / 2
        &&& self.write_idx < self.values@.len()
    }

    /// A history of `size` entries, all `fill`.
    pub fn new(size: usize, fill: T) -> (h: RhythmHistory<T>)
        requires
            0 < size <= usize::MAX / 2,
        ensures
            h.wf(),
            h@ == Seq::new(size as nat, |i: int| fill),
    {
        let mut values: Vec<T> = Vec::new();
        while values.len() < size
            invariant
                values@.len() <= size,
                forall|k: int| 0 <= k < values@.len() ==> #[trigger] values@[k] == fill,
            decreases size - values@.len(),
        {
            values.push(fill);
        }
        let h = RhythmHistory { values, write_idx: 0 };
        assert(h@ =~= Seq::new(size as nat, |i: int| fill)) by {
            assert forall|i: int| 0 <= i < size implies #[trigger] h@[i] == fill by {
                assert((0 + i) % (size as int) == i) by (nonlinear_arith)
                    requires
                        0 <= i < size,
                ;
            }
        }
        h
    }

    pub fn len(&self) -> (n: usize)
        requires
            self.wf(),
        ensures
            n == self@.len(),
            n > 0,
    {
        self.values.len()
    }

    /// Appends `v` as the newest entry, dropping the oldest.
    pub fn push(&mut self, v: T)
        requires
            old(self).wf(),
        ensures
            final(self).wf(),
            final(self)@ == old(self)@.drop_first().push(v),
    {
        let n = self.values.len();
        let w = self.write_idx;
        let ghost old_view = self@;
        self.values.set(w, v);
        let next = if w + 1 == n {
            0
        } else {
            w + 1
        };
        self.write_idx = next;
        proof {
            assert forall|i: int| 0 <= i < n implies #[trigger] self@[i] == old_view.drop_first().push(
                v,
            )[i] by {
                let j = (next + i) % (n as int);
                lemma_mod_small(next + i, n as int);
                lemma_mod_small(w + i + 1, n as int);
                if i < n - 1 {
                    assert(j == (w + i + 1) % (n as int));
                    assert(j != w);
                    assert(old_view.drop_first().push(v)[i] == old_view[i + 1]);
                } else {
                    assert(j == w);
                }
            }
            assert(self@ =~= old_view.drop_first().push(v));
        }
    }

    /// Copies the history into `out`, oldest first.
    pub fn read_into(&self, out: &mut Vec<T>)
        requires
            self.wf(),
            old(out)@.len() == self@.len(),
        ensures
            final(out)@ == self@,
    {
        let n = self.values.len();
        let mut i: usize = 0;
        while i < n
            invariant
                n == self.values@.len(),
                n > 0,
                n <= usize::MAX / 2,
                self.write_idx < n,
                i <= n,
                out@.len() == n,
                forall|k: int| 0 <= k < i ==> #[trigger] out@[k] == self@[k],
            decreases n - i,
        {
            let j = (self.write_idx + i) % n;
            out.set(i, self.values[j]);
            i = i + 1;
        }
        assert(out@ =~= self@);
    }
}

proof fn lemma_mod_small(a: int, n: int)
    requires
        0 <= a < 2 * n,
        n > 0,
    ensures
        a % n == if a < n {
            a
        } else {
            a - n
        },
{
    if a < n {
        vstd::arithmetic::div_mod::lemma_fundamental_div_mod_converse(a, n, 0, a);
    } else {
        vstd::arithmetic::div_mod::lemma_fundamental_div_mod_converse(a, n, 1, a - n);
    }
}

} // verus!
