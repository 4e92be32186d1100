use crate::range::{clamp_value, engineering_of, normalized_of, GainRange};
use crate::smoother::{lemma_advance, Smoother};
use vstd::prelude::*;

verus! {

/// Number of input and output channels the gain stage is built for.
pub const CHANNELS: u32 = 2;

/// Lower bound of the gain parameter: -30 dB.
pub const GAIN_MIN_UDB: i32 = -30000000;

/// Upper bound of the gain parameter: +30 dB.
pub const GAIN_MAX_UDB: i32 = 30000000;

/// Duration of a gain ramp in milliseconds.
pub const GAIN_SMOOTHING_MS: u32 = 50;

/// Accepts a channel layout only when it has exactly two inputs and two outputs.
pub fn layout_supported(inputs: u32, outputs: u32) -> (r: bool)
    ensures
        r == (inputs == CHANNELS && outputs == CHANNELS),
{
    inputs == CHANNELS && outputs == CHANNELS
}

/// The continuous gain control: a value in decibels within a range, and the
/// smoother that carries changes of it to the audio.
pub struct GainParam {
    pub range: GainRange,
    /// Its target is the parameter's value.
    pub smoothed: Smoother,
}

impl GainParam {
    pub open spec fn wf(&self) -> bool {
        &&& self.range.wf()
        &&& self.smoothed.wf()
        &&& self.range.min_udb <= self.smoothed.target <= self.range.max_udb
    }

    /// The parameter's value in microdecibels.
    pub fn value(&self) -> (r: i32)
        ensures
            r == self.smoothed.target,
    {
        self.smoothed.target
    }

    /// The parameter's value as a normalized position.
    pub fn normalized_value(&self) -> (r: u32)
        requires
            self.wf(),
        ensures
            r == normalized_of(
                self.range.min_udb as int,
                self.range.max_udb as int,
                self.smoothed.target as int,
            ),
    {
        self.range.to_normalized(self.smoothed.target)
    }

    /// Sets the value in microdecibels, limited to the range; the smoother
    /// ramps toward it.
    pub fn set_value(&mut self, udb: i32)
        requires
            old(self).wf(),
        ensures
            final(self).wf(),
            final(self).range == old(self).range,
            final(self).smoothed == old(self).smoothed.retargeted(
                clamp_value(old(self).range.min_udb as int, old(self).range.max_udb as int, udb as int)
                    as i32,
            ),
    {
        let v = self.range.clamp(udb);
        self.smoothed.set_target(v);
    }

    /// Sets the value from a normalized position; the smoother ramps toward it.
    pub fn set_normalized_value(&mut self, normalized: u32)
        requires
            old(self).wf(),
        ensures
            final(self).wf(),
            final(self).range == old(self).range,
            final(self).smoothed == old(self).smoothed.retargeted(
                engineering_of(
                    old(self).range.min_udb as int,
                    old(self).range.max_udb as int,
                    normalized as int,
                ) as i32,
            ),
    {
        let v = self.range.to_engineering(normalized);
        self.smoothed.set_target(v);
    }
}

/// The amplifier's controls: the smoothed gain and the bypass switch.
pub struct SimpleAmplifierParams {
    pub gain: GainParam,
    /// While set, audio passes through untouched.
    pub bypass: bool,
}

impl SimpleAmplifierParams {
    pub open spec fn wf(&self) -> bool {
        &&& self.gain.wf()
        &&& self.gain.range.min_udb == GAIN_MIN_UDB
        &&& self.gain.range.max_udb == GAIN_MAX_UDB
        &&& self.gain.smoothed.time_constant_ms == GAIN_SMOOTHING_MS
    }
}

impl Default for SimpleAmplifierParams {
    /// Gain at 0 dB, bypass off, no sample rate yet.
    fn default() -> (r: Self)
        ensures
            r.wf(),
            r.gain.smoothed.current == 0,
            r.gain.smoothed.target == 0,
            r.gain.smoothed.start == 0,
            r.gain.smoothed.steps_left == 0,
            r.gain.smoothed.sample_rate == 0,
            !r.bypass,
    {
        SimpleAmplifierParams {
            gain: GainParam {
                range: GainRange { min_udb: GAIN_MIN_UDB, max_udb: GAIN_MAX_UDB },
                smoothed: Smoother::new(0, GAIN_SMOOTHING_MS, 0),
            },
            bypass: false,
        }
    }
}

/// A gain stage for stereo audio with a smoothed gain and a bypass switch.
pub struct SimpleAmplifier {
    pub params: SimpleAmplifierParams,
}

impl Default for SimpleAmplifier {
    /// Gain at 0 dB, bypass off, no sample rate yet.
    fn default() -> (r: Self)
        ensures
            r.params.wf(),
            r.params.gain.smoothed.current == 0,
            r.params.gain.smoothed.target == 0,
            r.params.gain.smoothed.start == 0,
            r.params.gain.smoothed.steps_left == 0,
            r.params.gain.smoothed.sample_rate == 0,
            !r.params.bypass,
    {
        SimpleAmplifier { params: SimpleAmplifierParams::default() }
    }
}

impl SimpleAmplifier {
    /// The amplifier's controls.
    pub fn params(&self) -> (r: &SimpleAmplifierParams)
        ensures
            *r == self.params,
    {
        &self.params
    }

    /// The amplifier's controls, for changing them.
    pub fn params_mut(&mut self) -> (r: &mut SimpleAmplifierParams)
        ensures
            *r == old(self).params,
            final(self).params == *final(r),
    {
        &mut self.params
    }

    /// Prepares for processing at `sample_rate`; refuses any layout but two
    /// inputs and two outputs, and then changes nothing.
    pub fn initialize(&mut self, input_channels: u32, output_channels: u32, sample_rate: u32) -> (r:
        bool)
        requires
            old(self).params.wf(),
        ensures
            final(self).params.wf(),
            r == (input_channels == CHANNELS && output_channels == CHANNELS),
            r ==> final(self).params.gain.smoothed == old(
                self,
            ).params.gain.smoothed.with_sample_rate(sample_rate),
            r ==> final(self).params.gain.range == old(self).params.gain.range,
            r ==> final(self).params.bypass == old(self).params.bypass,
            !r ==> *final(self) == *old(self),
    {
        if !layout_supported(input_channels, output_channels) {
            return false;
        }
        self.params.gain.smoothed.set_sample_rate(sample_rate);
        true
    }

    /// Clears the ramp in progress: the gain snaps to its target. The
    /// parameter values stay as they are.
    pub fn reset(&mut self)
        requires
            old(self).params.wf(),
        ensures
            final(self).params.wf(),
            final(self).params.gain.smoothed == old(self).params.gain.smoothed.settled(),
            final(self).params.gain.range == old(self).params.gain.range,
            final(self).params.bypass == old(self).params.bypass,
    {
        self.params.gain.smoothed.reset();
    }

    /// Works out the gain for each frame of a block, one frame per entry of
    /// `gains`, in order.
    ///
    /// While bypassed nothing changes and `false` comes back: the block is to
    /// pass through untouched. Otherwise the smoother takes exactly one step
    /// per frame, entry `i` becomes the value of step `i + 1`, and `true`
    /// comes back.
    pub fn process(&mut self, gains: &mut Vec<i32>) -> (applied: bool)
        requires
            old(self).params.wf(),
        ensures
            final(self).params.wf(),
            applied == !old(self).params.bypass,
            !applied ==> *final(self) == *old(self) && final(gains)@ == old(gains)@,
            applied ==> {
                &&& final(gains)@.len() == old(gains)@.len()
                &&& forall|i: int|
                    0 <= i < old(gains)@.len() ==> #[trigger] final(gains)@[i] == old(
                        self,
                    ).params.gain.smoothed.advanced((i + 1) as nat).current
                &&& final(self).params.gain.smoothed == old(self).params.gain.smoothed.advanced(
                    old(gains)@.len() as nat,
                )
                &&& final(self).params.gain.range == old(self).params.gain.range
                &&& final(self).params.bypass == old(self).params.bypass
            },
    {
        if self.params.bypass {
            return false;
        }
        let ghost s0 = self.params.gain.smoothed;
        let n = gains.len();
        let mut i: usize = 0;
        proof {
            lemma_advance_split(s0, 0, 0);
        }
        while i < n
            invariant
                0 <= i <= n,
                n == old(gains)@.len(),
                gains@.len() == n,
                s0.wf(),
                self.params.gain.smoothed == s0.advanced(i as nat),
                self.params.gain.range == old(self).params.gain.range,
                self.params.bypass == old(self).params.bypass,
                self.params.wf(),
                forall|j: int| 0 <= j < i ==> #[trigger] gains@[j] == s0.advanced((j + 1) as nat).current,
            decreases n - i,
        {
            proof {
                lemma_advance(s0, i as nat);
                lemma_advance_split(s0, i as nat, 1);
            }
            let g = self.params.gain.smoothed.next();
            gains.set(i, g);
            i = i + 1;
        }
        true
    }
}

/// Stepping `a` samples and then `b` more is stepping `a + b` samples.
proof fn lemma_advance_split(s: Smoother, a: nat, b: nat)
    requires
        s.wf(),
    ensures
        s.advanced(a).advanced(b) == s.advanced(a + b),
        s.advanced(0) == s,
{
    lemma_advance(s, a);
    lemma_advance(s, a + b);
}

} // verus!
