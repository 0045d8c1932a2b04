//! Spinner animation: which frame to show at a given time.
use vstd::prelude::*;

verus! {

/// The monotonic clock's instants.
#[verifier::external_type_specification]
#[verifier::external_body]
pub struct ExInstant(std::time::Instant);

/// Calls `std::time::Instant::elapsed` on `start` and returns the whole milliseconds of the
/// duration. Nothing is promised of the value: it is the time.
#[verifier::external_body]
fn millis_since(start: &std::time::Instant) -> u128 {
    start.elapsed().as_millis()
}

/// A sequence of spinner frames and the time between them in milliseconds.
pub struct SimpleSpinnerData<'a> {
    chars: &'a [&'a str],
    interval: u64,
}

/// The frame shown `elapsed_millis` milliseconds into an animation of `frames`, each shown for
/// `interval` milliseconds, cycling.
pub open spec fn frame_at_time(frames: Seq<&str>, interval: u64, elapsed_millis: u128) -> &str {
    frames[((elapsed_millis / (interval as u128)) % (frames.len() as u128)) as int]
}

/// The animation repeats: a full cycle of `interval` milliseconds per frame later, the same frame
/// is shown.
pub proof fn lemma_frames_cycle(frames: Seq<&str>, interval: u64, elapsed_millis: u128)
    requires
        interval > 0,
        frames.len() > 0,
        elapsed_millis + interval * frames.len() <= u128::MAX,
    ensures
        frame_at_time(frames, interval, (elapsed_millis + interval * frames.len()) as u128)
            == frame_at_time(frames, interval, elapsed_millis),
{
    let t = elapsed_millis as int;
    let i = interval as int;
    let n = frames.len() as int;
    vstd::arithmetic::div_mod::lemma_hoist_over_denominator(t, n, i as nat);
    vstd::arithmetic::div_mod::lemma_mod_add_multiples_vanish(t / i, n);
    assert(n * i == i * n) by (nonlinear_arith);
}

/// The animation shows each frame in turn for one interval: from `k` intervals in until just
/// before `k + 1`, frame `k` is shown.
pub proof fn lemma_frames_advance(frames: Seq<&str>, interval: u64, k: int, offset: int)
    requires
        interval > 0,
        frames.len() <= usize::MAX,
        0 <= k < frames.len(),
        0 <= offset < interval,
        k * interval + offset <= u128::MAX,
    ensures
        frame_at_time(frames, interval, (k * interval + offset) as u128) == frames[k],
{
    let e = k * interval + offset;
    vstd::arithmetic::div_mod::lemma_fundamental_div_mod_converse(e, interval as int, k, offset);
    vstd::arithmetic::div_mod::lemma_small_mod(k as nat, frames.len());
    assert((e as u128) / (interval as u128) == e / (interval as int));
    assert(((e as u128) / (interval as u128)) % (frames.len() as u128) == k);
}

impl<'a> SimpleSpinnerData<'a> {
    /// The frames of this spinner.
    pub closed spec fn frames(&self) -> Seq<&'a str> {
        self.chars@
    }

    /// The milliseconds between two frames.
    pub closed spec fn interval_spec(&self) -> u64 {
        self.interval
    }

    /// Creates spinner data from a sequence of frames and a frame interval.
    pub fn new(chars: &'a [&'a str], interval: u64) -> (data: Self)
        ensures
            data.frames() == chars@,
            data.interval_spec() == interval,
    {
        SimpleSpinnerData { chars, interval }
    }

    /// Returns the frames of this spinner.
    pub fn chars(&self) -> (chars: &'a [&'a str])
        ensures
            chars@ == self.frames(),
    {
        self.chars
    }

    /// Returns the milliseconds between two frames.
    pub fn interval(&self) -> (interval: u64)
        ensures
            interval == self.interval_spec(),
    {
        self.interval
    }

    /// Returns the frame shown `elapsed_millis` milliseconds into the animation.
    pub fn frame_at(&self, elapsed_millis: u128) -> (frame: &'a str)
        requires
            self.interval_spec() > 0,
            self.frames().len() > 0,
        ensures
            frame == frame_at_time(self.frames(), self.interval_spec(), elapsed_millis),
    {
        let index: usize = (elapsed_millis / self.interval as u128 % self.chars.len() as u128) as usize;
        self.chars[index]
    }

    /// Returns the frame for the current time, counted from `start` on the monotonic clock.
    pub fn frame(&self, start: &std::time::Instant) -> (frame: &'a str)
        requires
            self.interval_spec() > 0,
            self.frames().len() > 0,
        ensures
            exists|elapsed_millis: u128|
                frame == frame_at_time(self.frames(), self.interval_spec(), elapsed_millis),
    {
        self.frame_at(millis_since(start))
    }
}

} // verus!
